//! The engine: one ordered stream of events in, samples and journal lines out.
use crate::book::{Book, BookView};
use crate::config::{law_two_instruments, Config};
use crate::error::Error;
use crate::features::{cross_vector, joint_vector, History, HistoryView};
use crate::model::Model;
use crate::number::{whole, Real};
use crate::paper::{book_views, journal_views, Broker, BrokerView, Journal, JournalView};
use crate::text::{find_text, lemma_place, place_of, same_text};
use crate::types::{Event, EventView, Kind, KindView, MS, SCHEMA};
use vstd::prelude::*;

verus! {

/// The features and prices at a timer.
#[derive(Clone, Debug)]
pub struct Sample<R> {
    pub recv_ns: u64,
    pub seq: u64,
    pub epoch: u64,
    pub features: Vec<R>,
    pub mids: [R; 2],
    pub spreads_bps: [R; 2],
}

/// The mathematical content of a [`Sample`].
#[verifier::ext_equal]
pub struct SampleView<R> {
    pub recv_ns: u64,
    pub seq: u64,
    pub epoch: u64,
    pub features: Seq<R>,
    pub mids: Seq<R>,
    pub spreads_bps: Seq<R>,
}

impl<R> View for Sample<R> {
    type V = SampleView<R>;

    open spec fn view(&self) -> SampleView<R> {
        SampleView {
            recv_ns: self.recv_ns,
            seq: self.seq,
            epoch: self.epoch,
            features: self.features@,
            mids: self.mids@,
            spreads_bps: self.spreads_bps@,
        }
    }
}

/// Everything that decisions depend on.
#[derive(Clone, Debug)]
pub struct Engine<R> {
    pub config: Config<R>,
    pub books: [Book<R>; 2],
    pub histories: [History<R>; 2],
    pub models: Vec<Model<R>>,
    pub broker: Broker<R>,
    pub last_seq: u64,
    pub now: u64,
    pub session: String,
    pub epoch: u64,
    pub healthy_since: Option<u64>,
    pub last_sample_ns: u64,
    pub gaps: u64,
    pub feeds: [bool; 2],
}

/// The mathematical content of an [`Engine`].
#[verifier::ext_equal]
pub struct EngineView<R> {
    pub config: Config<R>,
    pub books: Seq<BookView<R>>,
    pub histories: Seq<HistoryView<R>>,
    pub models: Seq<Model<R>>,
    pub broker: BrokerView<R>,
    pub last_seq: u64,
    pub now: u64,
    pub session: Seq<char>,
    pub epoch: u64,
    pub healthy_since: Option<u64>,
    pub last_sample_ns: u64,
    pub gaps: u64,
    pub feeds: Seq<bool>,
}

impl<R> View for Engine<R> {
    type V = EngineView<R>;

    open spec fn view(&self) -> EngineView<R> {
        EngineView {
            config: self.config,
            books: book_views(self.books),
            histories: seq![self.histories[0]@, self.histories[1]@],
            models: self.models@,
            broker: self.broker@,
            last_seq: self.last_seq,
            now: self.now,
            session: self.session@,
            epoch: self.epoch,
            healthy_since: self.healthy_since,
            last_sample_ns: self.last_sample_ns,
            gaps: self.gaps,
            feeds: self.feeds@,
        }
    }
}

/// What an event yields: a sample, if it completes one, and journal lines.
pub type Yield<R> = (Option<SampleView<R>>, Seq<JournalView<R>>);

/// The feed that a connection event is about.
pub open spec fn feed_index(source: Seq<char>) -> Option<int> {
    if source == "public"@ {
        Some(0)
    } else if source == "market"@ {
        Some(1)
    } else {
        None
    }
}

/// The first model that is refused, from `k` on, and why.
pub open spec fn model_fault<R: Real>(
    models: Seq<Model<R>>,
    symbols: Seq<Seq<char>>,
    k: int,
) -> Option<Error>
    decreases models.len() - k,
{
    if k < 0 || k >= models.len() {
        None
    } else if models[k].fault(symbols) is Some {
        models[k].fault(symbols)
    } else {
        model_fault(models, symbols, k + 1)
    }
}

/// Why an engine cannot be made, if it cannot.
pub open spec fn setup_fault<R: Real>(c: Config<R>, models: Seq<Model<R>>) -> Option<Error> {
    if c.fault() is Some {
        c.fault()
    } else if model_fault(models, c.names(), 0) is Some {
        model_fault(models, c.names(), 0)
    } else if !(models.len() <= 2 && (models.len() == 2 ==> models[0].symbol@
        != models[1].symbol@)) {
        Some(Error::DuplicateModels)
    } else {
        None
    }
}

/// The relative spread of a book, in basis points.
pub open spec fn spread_of<R: Real>(book: BookView<R>) -> R {
    let (b, _, a, _) = book.top()->0;
    a.spec_minus(b).spec_over(book.mid()->0).spec_times(whole::<R>(10_000))
}

impl<R: Real> EngineView<R> {
    /// An engine that has seen nothing.
    pub open spec fn started(config: Config<R>, models: Seq<Model<R>>) -> EngineView<R> {
        EngineView {
            config,
            books: seq![BookView::<R>::blank(), BookView::<R>::blank()],
            histories: seq![HistoryView::<R>::blank(), HistoryView::<R>::blank()],
            models,
            broker: BrokerView::<R>::opened(config.equity),
            last_seq: 0,
            now: 0,
            session: Seq::empty(),
            epoch: 0,
            healthy_since: None,
            last_sample_ns: 0,
            gaps: 0,
            feeds: seq![false, false],
        }
    }

    /// The configuration is valid, each model is one of its assets', the books hold back only
    /// updates, and health began in the past.
    pub open spec fn wf(self) -> bool {
        &&& self.config.fault() is None
        &&& self.books.len() == 2
        &&& self.books[0].wf()
        &&& self.books[1].wf()
        &&& forall|k: int|
            0 <= k < self.models.len() ==> place_of(
                self.config.names(),
                (#[trigger] self.models[k]).symbol@,
            ) is Some
        &&& self.healthy_since is Some ==> self.healthy_since->0 <= self.now
    }

    /// Whether both feeds are connected and both books fresh.
    pub open spec fn valid_at(self, t: u64) -> bool {
        &&& self.feeds[0]
        &&& self.feeds[1]
        &&& self.books[0].fresh(t, self.config.stale_ms)
        &&& self.books[1].fresh(t, self.config.stale_ms)
    }

    /// The engine with no history.
    pub open spec fn reset(self) -> EngineView<R> {
        EngineView {
            histories: seq![HistoryView::<R>::blank(), HistoryView::<R>::blank()],
            healthy_since: None,
            epoch: self.epoch.wrapping_add(1),
            ..self
        }
    }

    /// The engine with no books and no history.
    pub open spec fn dropped(self) -> EngineView<R> {
        EngineView {
            books: seq![self.books[0].invalidated(), self.books[1].invalidated()],
            ..self
        }.reset()
    }

    /// The engine in the session of an event. A new session rebuilds everything but the account.
    pub open spec fn entered(self, e: EventView<R>) -> EngineView<R> {
        if self.session != e.session {
            EngineView { feeds: seq![false, false], session: e.session, ..self.dropped() }
        } else {
            self
        }
    }

    /// The engine with no history where it was healthy and is no longer.
    pub open spec fn checked(self, t: u64) -> EngineView<R> {
        if self.healthy_since is Some && !self.valid_at(t) {
            self.reset()
        } else {
            self
        }
    }

    /// The engine at the time of an event, before what the event says.
    pub open spec fn advanced(self, e: EventView<R>) -> EngineView<R> {
        EngineView { now: e.recv_ns, last_seq: e.seq, ..self.entered(e).checked(e.recv_ns) }
    }

    /// The engine after an asset's book has seen an event, and whether an update moved it on.
    pub open spec fn routed(self, i: int, e: EventView<R>) -> (EngineView<R>, Result<bool, Error>) {
        let old = self.books[i];
        let (book, r) = old.after(e);
        let seen = EngineView { books: self.books.update(i, book), ..self };
        match r {
            Err(fault) => (seen, Err(fault)),
            Ok(complete) => {
                let counted = if complete {
                    seen
                } else {
                    EngineView { gaps: self.gaps.wrapping_add(1), ..seen }
                };
                let kept = if book.generation != old.generation {
                    counted.reset()
                } else {
                    counted
                };
                let moved = e.kind is Depth && book.fresh(e.recv_ns, self.config.stale_ms) && (
                !old.synced || book.last_id != old.last_id);
                if !(e.kind is Depth) || moved {
                    (
                        EngineView {
                            histories: kept.histories.update(
                                i,
                                kept.histories[i].observed(e, book),
                            ),
                            ..kept
                        },
                        Ok(moved),
                    )
                } else {
                    (kept, Ok(moved))
                }
            },
        }
    }

    /// The engine after an event reached the book that it is about, if any, and the asset whose
    /// book it moved on.
    pub open spec fn delivered(self, e: EventView<R>) -> (
        EngineView<R>,
        Result<Option<usize>, Error>,
    ) {
        match e.kind.symbol() {
            None => (self, Ok(None)),
            Some(s) => match place_of(self.config.names(), s) {
                None => (self, Err(Error::UnexpectedSymbol)),
                Some(i) => {
                    let (next, r) = self.routed(i, e);
                    (
                        next,
                        match r {
                            Err(fault) => Err(fault),
                            Ok(moved) => Ok(
                                if moved {
                                    Some(i as usize)
                                } else {
                                    None
                                },
                            ),
                        },
                    )
                },
            },
        }
    }

    /// The engine after what an event says of connections.
    pub open spec fn linked(self, e: EventView<R>) -> (EngineView<R>, Result<(), Error>) {
        match e.kind {
            KindView::Connection { source, connected } => match feed_index(source) {
                None => (self, Err(Error::UnknownFeed)),
                Some(i) => {
                    let next = EngineView { feeds: self.feeds.update(i, connected), ..self };
                    (
                        if connected {
                            next
                        } else {
                            next.dropped()
                        },
                        Ok(()),
                    )
                },
            },
            KindView::Disconnect { .. } => (self.dropped(), Ok(())),
            _ => (self, Ok(())),
        }
    }

    /// The engine after the models, from `k` on, have spoken on a feature vector, with the journal
    /// lines. A model says nothing on what it was selected with.
    pub open spec fn advised(self, e: EventView<R>, x: Seq<R>, k: int) -> (
        EngineView<R>,
        Result<Seq<JournalView<R>>, Error>,
    )
        decreases self.models.len() - k,
    {
        if k < 0 || k >= self.models.len() {
            (self, Ok(Seq::empty()))
        } else {
            let m = self.models[k];
            if e.recv_ns <= m.selected_through_ns {
                (self, Err(Error::ModelOverlapsDecision))
            } else if !m.prediction(x).spec_is_finite() {
                (self, Err(Error::NonfinitePrediction))
            } else {
                let (broker, rows) = self.broker.decided(
                    place_of(self.config.names(), m.symbol@)->0,
                    m.prediction(x),
                    m.entry_buffer_bps,
                    e,
                    self.books,
                    self.config,
                );
                let (last, more) = EngineView { broker, ..self }.advised(e, x, k + 1);
                (
                    last,
                    match more {
                        Ok(rest) => Ok(rows + rest),
                        Err(fault) => Err(fault),
                    },
                )
            }
        }
    }

    /// Whether an event is a timer at which a sample is due.
    pub open spec fn is_decision(self, e: EventView<R>) -> bool {
        e.kind is Timer && self.valid_at(e.recv_ns) && e.recv_ns > self.last_sample_ns
    }

    /// The engine with the mid prices of a timer in its history.
    pub open spec fn sampled(self, t: u64) -> EngineView<R> {
        EngineView {
            last_sample_ns: t,
            healthy_since: if self.healthy_since is Some {
                self.healthy_since
            } else {
                Some(t)
            },
            histories: seq![
                self.histories[0].sampled(t, self.books[0]),
                self.histories[1].sampled(t, self.books[1]),
            ],
            ..self
        }
    }

    /// The feature vector at a time, once the warmup is over.
    pub open spec fn features_at(self, t: u64) -> Option<Seq<R>> {
        if t >= self.healthy_since->0 + self.config.warmup_ms * MS {
            joint_vector(
                self.histories[0],
                self.histories[1],
                self.books[0],
                self.books[1],
                t,
            )
        } else {
            None
        }
    }

    /// The sample of a feature vector.
    pub open spec fn sample_of(self, e: EventView<R>, x: Seq<R>) -> SampleView<R> {
        SampleView {
            recv_ns: e.recv_ns,
            seq: e.seq,
            epoch: self.epoch,
            features: x,
            mids: seq![self.books[0].mid()->0, self.books[1].mid()->0],
            spreads_bps: seq![spread_of(self.books[0]), spread_of(self.books[1])],
        }
    }

    /// The engine after the timer's work, with the sample, if there is one, and journal lines.
    pub open spec fn ticked(self, e: EventView<R>) -> (EngineView<R>, Result<Yield<R>, Error>) {
        if !self.is_decision(e) {
            (self, Ok((None, Seq::empty())))
        } else {
            let next = self.sampled(e.recv_ns);
            match next.features_at(e.recv_ns) {
                None => (next, Ok((None, Seq::empty()))),
                Some(x) => {
                    let (last, rows) = next.advised(e, x, 0);
                    (
                        last,
                        match rows {
                            Ok(lines) => Ok((Some(next.sample_of(e, x)), lines)),
                            Err(fault) => Err(fault),
                        },
                    )
                },
            }
        }
    }

    /// The engine after the account has seen an event that moved on the book of `updated`.
    pub open spec fn traded(self, e: EventView<R>, updated: Option<usize>) -> (
        EngineView<R>,
        Result<Seq<JournalView<R>>, Error>,
    ) {
        let (broker, rows) = self.broker.after(
            e,
            self.books,
            self.config,
            updated,
            self.valid_at(e.recv_ns),
        );
        (EngineView { broker, ..self }, rows)
    }

    /// The engine after an admissible event, with what the event yields.
    #[verifier::opaque]
    pub open spec fn handled(self, e: EventView<R>) -> (EngineView<R>, Result<Yield<R>, Error>) {
        let (seen, moved) = self.advanced(e).delivered(e);
        match moved {
            Err(fault) => (seen, Err(fault)),
            Ok(updated) => {
                let (joined, link) = seen.linked(e);
                match link {
                    Err(fault) => (joined, Err(fault)),
                    Ok(_) => joined.settled(e, updated),
                }
            },
        }
    }

    /// The engine after the account and the timer have seen an event that moved on the book of
    /// `updated`, with what the event yields.
    pub open spec fn settled(self, e: EventView<R>, updated: Option<usize>) -> (
        EngineView<R>,
        Result<Yield<R>, Error>,
    ) {
        let (booked, rows) = self.checked(e.recv_ns).traded(e, updated);
        match rows {
            Err(fault) => (booked, Err(fault)),
            Ok(lines) => {
                let (last, more) = booked.ticked(e);
                (
                    last,
                    match more {
                        Err(fault) => Err(fault),
                        Ok((sample, rest)) => Ok((sample, lines + rest)),
                    },
                )
            },
        }
    }

    /// Why an event is not admitted, if it is not: it has another schema, it is not newer than the
    /// last one, or it was received before it.
    pub open spec fn admission_fault(self, e: EventView<R>) -> Option<Error> {
        if !(e.version == SCHEMA && e.seq > self.last_seq) {
            Some(Error::InvalidSequence)
        } else if e.recv_ns < self.now {
            Some(Error::ClockMovedBackwards)
        } else {
            None
        }
    }

    /// The engine after an event, with what the event yields. One that is not admitted changes
    /// nothing.
    pub open spec fn after(self, e: EventView<R>) -> (EngineView<R>, Result<Yield<R>, Error>) {
        match self.admission_fault(e) {
            Some(fault) => (self, Err(fault)),
            None => self.handled(e),
        }
    }
}

/// Whether a result is what an event yields.
pub open spec fn yields<R>(
    r: Result<(Option<Sample<R>>, Vec<Journal<R>>), Error>,
    expected: Result<Yield<R>, Error>,
) -> bool {
    match expected {
        Ok((sample, rows)) => r is Ok && journal_views(r->Ok_0.1@) == rows && match sample {
            Some(s) => r->Ok_0.0 is Some && r->Ok_0.0->0@ == s,
            None => r->Ok_0.0 is None,
        },
        Err(fault) => r is Err && r->Err_0 == fault,
    }
}

/// Whether every model is one of the configured assets'.
pub open spec fn are_placed<R: Real>(models: Seq<Model<R>>, symbols: Seq<Seq<char>>) -> bool {
    forall|k: int|
        0 <= k < models.len() ==> place_of(symbols, (#[trigger] models[k]).symbol@) is Some
}

/// Checks each model against the configuration.
pub fn validate_models<R: Real>(models: &Vec<Model<R>>, config: &Config<R>) -> (r: Result<
    (),
    Error,
>)
    ensures
        r == match model_fault(models@, config.names(), 0) {
            Some(fault) => Err::<(), Error>(fault),
            None => Ok::<(), Error>(()),
        },
        r is Ok ==> are_placed(models@, config.names()),
{
    let mut k: usize = 0;
    while k < models.len()
        invariant
            k <= models.len(),
            model_fault(models@, config.names(), 0) == model_fault(
                models@,
                config.names(),
                k as int,
            ),
            forall|j: int|
                0 <= j < k ==> place_of(
                    config.names(),
                    (#[trigger] models@[j]).symbol@,
                ) is Some,
        decreases models.len() - k,
    {
        match models[k].validate(config.symbols.as_slice()) {
            Err(fault) => return Err(fault),
            Ok(()) => {},
        }
        k = k + 1;
    }
    Ok(())
}

impl<R: Real> Engine<R> {
    /// An engine that has seen nothing.
    pub fn new(config: Config<R>, models: Vec<Model<R>>) -> (r: Result<Self, Error>)
        ensures
            match setup_fault(config, models@) {
                Some(fault) => r is Err && r->Err_0 == fault,
                None => r is Ok && r->Ok_0@ == EngineView::<R>::started(config, models@)
                    && r->Ok_0@.wf(),
            },
    {
        match config.validate() {
            Err(fault) => return Err(fault),
            Ok(()) => {},
        }
        match validate_models(&models, &config) {
            Err(fault) => return Err(fault),
            Ok(()) => {},
        }
        if !(models.len() <= 2 && (models.len() != 2 || models[0].symbol != models[1].symbol)) {
            return Err(Error::DuplicateModels);
        }
        let equity = config.equity;
        let r = Engine {
            config,
            books: [Book::default(), Book::default()],
            histories: [History::default(), History::default()],
            models,
            broker: Broker::new(equity),
            last_seq: 0,
            now: 0,
            session: String::new(),
            epoch: 0,
            healthy_since: None,
            last_sample_ns: 0,
            gaps: 0,
            feeds: [false, false],
        };
        assert(r@ =~= EngineView::<R>::started(config, models@));
        Ok(r)
    }

    /// Whether both feeds are connected and both books fresh.
    pub fn valid_at(&self, t: u64) -> (r: bool)
        requires
            self.config.stale_ms * MS <= u64::MAX,
        ensures
            r == self@.valid_at(t),
    {
        self.feeds[0] && self.feeds[1] && self.books[0].fresh(t, self.config.stale_ms)
            && self.books[1].fresh(t, self.config.stale_ms)
    }

    /// Whether the engine is well formed, as one that was read back from a file may not be.
    pub fn is_sound(&self) -> (r: bool)
        ensures
            r == self@.wf(),
    {
        if self.config.validate().is_err() || !self.books[0].is_sound()
            || !self.books[1].is_sound() {
            return false;
        }
        match self.healthy_since {
            Some(t) => if t > self.now {
                return false;
            },
            None => {},
        }
        let mut k: usize = 0;
        while k < self.models.len()
            invariant
                k <= self.models.len(),
                forall|j: int|
                    0 <= j < k ==> place_of(
                        self@.config.names(),
                        (#[trigger] self@.models[j]).symbol@,
                    ) is Some,
            decreases self.models.len() - k,
        {
            if find_text(
                self.config.symbols.as_slice(),
                self.models[k].symbol.as_str(),
            ).is_none() {
                assert(place_of(self@.config.names(), self@.models[k as int].symbol@) is None);
                return false;
            }
            k = k + 1;
        }
        true
    }

    fn reset_history(&mut self)
        ensures
            final(self)@ == old(self)@.reset(),
    {
        self.histories = [History::default(), History::default()];
        self.healthy_since = None;
        self.epoch = self.epoch.wrapping_add(1);
        assert(self@ =~= old(self)@.reset());
    }

    fn drop_books(&mut self)
        ensures
            final(self)@ == old(self)@.dropped(),
    {
        self.books[0].invalidate();
        self.books[1].invalidate();
        assert(self@ =~= EngineView {
            books: seq![old(self)@.books[0].invalidated(), old(self)@.books[1].invalidated()],
            ..old(self)@
        });
        self.reset_history();
    }

    fn advance(&mut self, e: &Event<R>)
        requires
            old(self)@.wf(),
            old(self).config.stale_ms * MS <= u64::MAX,
            old(self).now <= e.recv_ns,
        ensures
            final(self)@ == old(self)@.advanced(e@),
            final(self)@.wf(),
    {
        if self.session != e.session {
            self.drop_books();
            self.feeds = [false, false];
            self.session = e.session.clone();
        }
        assert(self@ =~= old(self)@.entered(e@));
        if self.healthy_since.is_some() && !self.valid_at(e.recv_ns) {
            self.reset_history();
        }
        self.now = e.recv_ns;
        self.last_seq = e.seq;
        assert(self@ =~= old(self)@.advanced(e@));
    }

    fn route(&mut self, i: usize, e: &Event<R>) -> (r: Result<bool, Error>)
        requires
            i < 2,
            old(self)@.books[i as int].wf(),
            old(self).config.stale_ms * MS <= u64::MAX,
        ensures
            final(self)@ == old(self)@.routed(i as int, e@).0,
            r == old(self)@.routed(i as int, e@).1,
            final(self)@.books[i as int].wf(),
    {
        let ghost before = self@;
        let generation: u64 = self.books[i].generation;
        let old_id = self.books[i].last_id;
        let was_synced = self.books[i].synced;
        let applied = self.books[i].apply(e);
        let ghost book = before.books[i as int].after(e@).0;
        assert(self@ =~= EngineView { books: before.books.update(i as int, book), ..before });
        match applied {
            Err(fault) => return Err(fault),
            Ok(complete) => if !complete {
                self.gaps = self.gaps.wrapping_add(1);
            },
        }
        let ghost counted = if applied->Ok_0 {
            EngineView { books: before.books.update(i as int, book), ..before }
        } else {
            EngineView {
                books: before.books.update(i as int, book),
                gaps: before.gaps.wrapping_add(1),
                ..before
            }
        };
        assert(self@ =~= counted);
        if self.books[i].generation != generation {
            self.reset_history();
        }
        let is_depth = match &e.kind {
            Kind::Depth { .. } => true,
            _ => false,
        };
        let same_id = match (self.books[i].last_id, old_id) {
            (Some(a), Some(b)) => a == b,
            (None, None) => true,
            _ => false,
        };
        let moved = is_depth && self.books[i].fresh(e.recv_ns, self.config.stale_ms) && (
        !was_synced || !same_id);
        let ghost kept = self@;
        if !is_depth || moved {
            self.histories[i].observe(e, &self.books[i]);
            assert(self@ =~= EngineView {
                histories: kept.histories.update(
                    i as int,
                    kept.histories[i as int].observed(e@, book),
                ),
                ..kept
            });
        }
        Ok(moved)
    }

    fn deliver(&mut self, e: &Event<R>) -> (r: Result<Option<usize>, Error>)
        requires
            old(self)@.wf(),
            old(self).config.stale_ms * MS <= u64::MAX,
        ensures
            final(self)@ == old(self)@.delivered(e@).0,
            r == old(self)@.delivered(e@).1,
            final(self)@.wf(),
    {
        proof {
            law_two_instruments(self.config);
        }
        match e.kind.symbol() {
            None => Ok(None),
            Some(s) => match find_text(self.config.symbols.as_slice(), s) {
                None => Err(Error::UnexpectedSymbol),
                Some(i) => match self.route(i, e) {
                    Err(fault) => Err(fault),
                    Ok(moved) => if moved {
                        Ok(Some(i))
                    } else {
                        Ok(None)
                    },
                },
            },
        }
    }

    fn link(&mut self, e: &Event<R>) -> (r: Result<(), Error>)
        requires
            old(self)@.wf(),
        ensures
            final(self)@ == old(self)@.linked(e@).0,
            r == old(self)@.linked(e@).1,
            final(self)@.wf(),
    {
        match &e.kind {
            Kind::Connection { source, connected } => {
                let i: usize = if same_text(source.as_str(), "public") {
                    0
                } else if same_text(source.as_str(), "market") {
                    1
                } else {
                    return Err(Error::UnknownFeed);
                };
                self.feeds[i] = *connected;
                assert(self@ =~= EngineView {
                    feeds: old(self)@.feeds.update(i as int, *connected),
                    ..old(self)@
                });
                if !*connected {
                    self.drop_books();
                }
                Ok(())
            },
            Kind::Disconnect { .. } => {
                self.drop_books();
                Ok(())
            },
            _ => Ok(()),
        }
    }

    /// Lets the models speak on a feature vector.
    fn advise(&mut self, e: &Event<R>, x: &Vec<R>) -> (r: Result<Vec<Journal<R>>, Error>)
        requires
            old(self)@.wf(),
            old(self).config.fits(e.recv_ns),
            old(self)@.books[0].top() is Some,
            old(self)@.books[1].top() is Some,
        ensures
            final(self)@ == old(self)@.advised(e@, x@, 0).0,
            match old(self)@.advised(e@, x@, 0).1 {
                Ok(rows) => r is Ok && journal_views(r->Ok_0@) == rows,
                Err(fault) => r is Err && r->Err_0 == fault,
            },
            final(self)@.wf(),
    {
        let mut out: Vec<Journal<R>> = Vec::new();
        let mut k: usize = 0;
        let ghost result = self@.advised(e@, x@, 0);
        assert(journal_views(out@) =~= Seq::<JournalView<R>>::empty());
        while k < self.models.len()
            invariant
                k <= self.models.len(),
                self@.wf(),
                self.config == old(self).config,
                self.config.fits(e.recv_ns),
                self.books == old(self).books,
                self@.books[0].top() is Some,
                self@.books[1].top() is Some,
                result == old(self)@.advised(e@, x@, 0),
                result.0 == self@.advised(e@, x@, k as int).0,
                match self@.advised(e@, x@, k as int).1 {
                    Ok(rest) => result.1 == Ok::<Seq<JournalView<R>>, Error>(
                        journal_views(out@) + rest,
                    ),
                    Err(fault) => result.1 == Err::<Seq<JournalView<R>>, Error>(fault),
                },
            decreases self.models.len() - k,
        {
            let ghost before = self@;
            let ghost rows = journal_views(out@);
            if e.recv_ns <= self.models[k].selected_through_ns {
                return Err(Error::ModelOverlapsDecision);
            }
            let prediction = self.models[k].predict(x.as_slice());
            if !prediction.is_finite() {
                return Err(Error::NonfinitePrediction);
            }
            proof {
                law_two_instruments(self.config);
                assert(place_of(before.config.names(), before.models[k as int].symbol@) is Some);
                lemma_place(before.config.names(), before.models[k as int].symbol@, 0);
            }
            let i: usize = find_text(
                self.config.symbols.as_slice(),
                self.models[k].symbol.as_str(),
            ).unwrap();
            let buffer = self.models[k].entry_buffer_bps;
            let mut decided = self.broker.decide(
                i,
                prediction,
                buffer,
                e,
                &self.books,
                &self.config,
            );
            let ghost lines = journal_views(decided@);
            let ghost held = out@;
            out.append(&mut decided);
            assert(journal_views(out@) =~= rows + lines);
            assert(self@ =~= EngineView { broker: self.broker@, ..before });
            k = k + 1;
            proof {
                let next = self@.advised(e@, x@, k as int);
                if next.1 is Ok {
                    assert(rows + (lines + next.1->Ok_0) =~= journal_views(out@) + next.1->Ok_0);
                }
            }
        }
        assert(journal_views(out@) + Seq::<JournalView<R>>::empty() =~= journal_views(out@));
        Ok(out)
    }

    fn spread(book: &Book<R>) -> (r: R)
        requires
            book@.top() is Some,
        ensures
            r == spread_of(book@),
    {
        let (b, _, a, _) = book.top().unwrap();
        a.minus(b).over(book.mid().unwrap()).times(R::from_i64(10_000))
    }

    /// Does the work of a timer.
    fn tick(&mut self, e: &Event<R>) -> (r: Result<(Option<Sample<R>>, Vec<Journal<R>>), Error>)
        requires
            old(self)@.wf(),
            old(self).config.fits(e.recv_ns),
            old(self).now == e.recv_ns,
        ensures
            final(self)@ == old(self)@.ticked(e@).0,
            yields(r, old(self)@.ticked(e@).1),
            final(self)@.wf(),
    {
        let ghost before = self@;
        let is_timer = match &e.kind {
            Kind::Timer => true,
            _ => false,
        };
        let none: Vec<Journal<R>> = Vec::new();
        assert(journal_views(none@) =~= Seq::<JournalView<R>>::empty());
        if !(is_timer && self.valid_at(e.recv_ns) && e.recv_ns > self.last_sample_ns) {
            return Ok((None, none));
        }
        self.last_sample_ns = e.recv_ns;
        let since: u64 = match self.healthy_since {
            Some(t) => t,
            None => e.recv_ns,
        };
        self.healthy_since = Some(since);
        self.histories[0].sample(e.recv_ns, &self.books[0]);
        self.histories[1].sample(e.recv_ns, &self.books[1]);
        let ghost next = before.sampled(e.recv_ns);
        assert(self@ =~= next);
        if e.recv_ns < since + self.config.warmup_ms * MS {
            return Ok((None, none));
        }
        let x = match cross_vector(&self.histories, &self.books, e.recv_ns) {
            None => return Ok((None, none)),
            Some(x) => x,
        };
        let mids = [self.books[0].mid().unwrap(), self.books[1].mid().unwrap()];
        let spreads_bps = [Self::spread(&self.books[0]), Self::spread(&self.books[1])];
        let epoch: u64 = self.epoch;
        match self.advise(e, &x) {
            Err(fault) => Err(fault),
            Ok(rows) => {
                let sample = Sample {
                    recv_ns: e.recv_ns,
                    seq: e.seq,
                    epoch,
                    features: x,
                    mids,
                    spreads_bps,
                };
                assert(sample@ =~= next.sample_of(e@, x@));
                Ok((Some(sample), rows))
            },
        }
    }

    /// Lets the account see an event that moved on the book of `updated`.
    fn trade(&mut self, e: &Event<R>, updated: Option<usize>, valid: bool) -> (r: Result<
        Vec<Journal<R>>,
        Error,
    >)
        requires
            old(self)@.wf(),
            old(self).config.fits(e.recv_ns),
            valid == old(self)@.valid_at(e.recv_ns),
            updated is Some ==> updated->0 < 2,
            e@.kind.symbol() is Some ==> place_of(
                old(self).config.names(),
                e@.kind.symbol()->0,
            ) is Some,
        ensures
            final(self)@ == old(self)@.traded(e@, updated).0,
            match old(self)@.traded(e@, updated).1 {
                Ok(rows) => r is Ok && journal_views(r->Ok_0@) == rows,
                Err(fault) => r is Err && r->Err_0 == fault,
            },
            final(self)@.wf(),
            final(self).now == old(self).now,
            final(self).config == old(self).config,
    {
        proof {
            law_two_instruments(self.config);
        }
        let r = self.broker.on_event(e, &self.books, &self.config, updated, valid);
        assert(self@ =~= EngineView { broker: self.broker@, ..old(self)@ });
        r
    }

    /// Lets the account and the timer see an event that moved on the book of `updated`.
    fn settle(&mut self, e: &Event<R>, updated: Option<usize>) -> (r: Result<
        (Option<Sample<R>>, Vec<Journal<R>>),
        Error,
    >)
        requires
            old(self)@.wf(),
            old(self).config.fits(e.recv_ns),
            old(self).now == e.recv_ns,
            updated is Some ==> updated->0 < 2,
            e@.kind.symbol() is Some ==> place_of(
                old(self).config.names(),
                e@.kind.symbol()->0,
            ) is Some,
        ensures
            final(self)@ == old(self)@.settled(e@, updated).0,
            yields(r, old(self)@.settled(e@, updated).1),
            final(self)@.wf(),
    {
        let valid = self.valid_at(e.recv_ns);
        if !valid && self.healthy_since.is_some() {
            self.reset_history();
        }
        let ghost ready = self@;
        assert(ready =~= old(self)@.checked(e.recv_ns));
        let mut journal = match self.trade(e, updated, valid) {
            Err(fault) => return Err(fault),
            Ok(rows) => rows,
        };
        let ghost lines = journal_views(journal@);
        match self.tick(e) {
            Err(fault) => Err(fault),
            Ok((sample, rows)) => {
                let mut more = rows;
                let ghost rest = journal_views(more@);
                journal.append(&mut more);
                assert(journal_views(journal@) =~= lines + rest);
                Ok((sample, journal))
            },
        }
    }

    /// Takes in the next event. Yields a sample, if the event completes one, and journal lines.
    pub fn on_event(&mut self, e: &Event<R>) -> (r: Result<
        (Option<Sample<R>>, Vec<Journal<R>>),
        Error,
    >)
        requires
            old(self)@.wf(),
            old(self).config.fits(e.recv_ns),
        ensures
            final(self)@ == old(self)@.after(e@).0,
            yields(r, old(self)@.after(e@).1),
            final(self)@.wf(),
    {
        if !(e.version == SCHEMA && e.seq > self.last_seq) {
            return Err(Error::InvalidSequence);
        }
        if e.recv_ns < self.now {
            return Err(Error::ClockMovedBackwards);
        }
        proof {
            reveal(EngineView::handled);
        }
        self.advance(e);
        let updated = match self.deliver(e) {
            Err(fault) => return Err(fault),
            Ok(updated) => updated,
        };
        proof {
            law_two_instruments(self.config);
            if e@.kind.symbol() is Some {
                lemma_place(self.config.names(), e@.kind.symbol()->0, 0);
            }
        }
        match self.link(e) {
            Err(fault) => return Err(fault),
            Ok(()) => {},
        }
        self.settle(e, updated)
    }
}

} // verus!
