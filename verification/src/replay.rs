//! Runs over recorded events: recovery, labelled samples, evaluation and scores.
use crate::config::Config;
use crate::engine::{model_fault, validate_models, Engine, EngineView, Sample, SampleView, Yield};
use crate::error::Error;
use crate::features::{all_finite, finite_all};
use crate::model::Model;
use crate::number::{whole, Real};
use crate::paper::{journal_views, Journal, JournalView};
use crate::text::place_of;
use crate::types::{event_views, Event, EventView, MS};
use std::collections::VecDeque;
use vstd::prelude::*;

verus! {

impl<R: Real> EngineView<R> {
    /// The engine after a run over events, and what each of them yields. The run ends with the first
    /// event that is refused.
    pub open spec fn ran(self, events: Seq<EventView<R>>) -> (
        EngineView<R>,
        Result<Seq<Yield<R>>, Error>,
    )
        decreases events.len(),
    {
        if events.len() == 0 {
            (self, Ok(Seq::empty()))
        } else {
            let (before, first) = self.ran(events.drop_last());
            match first {
                Err(fault) => (before, Err(fault)),
                Ok(list) => {
                    let (last, r) = before.after(events.last());
                    (
                        last,
                        match r {
                            Err(fault) => Err(fault),
                            Ok(out) => Ok(list.push(out)),
                        },
                    )
                },
            }
        }
    }
}

/// The journal of a run.
pub open spec fn journal_of<R>(list: Seq<Yield<R>>) -> Seq<JournalView<R>>
    decreases list.len(),
{
    if list.len() == 0 {
        Seq::empty()
    } else {
        journal_of(list.drop_last()) + list.last().1
    }
}

/// Events behind a refused one change nothing.
proof fn lemma_run_stops<R: Real>(engine: EngineView<R>, events: Seq<EventView<R>>, n: int)
    requires
        0 <= n <= events.len(),
        engine.ran(events.take(n)).1 is Err,
    ensures
        engine.ran(events) == engine.ran(events.take(n)),
    decreases events.len() - n,
{
    if n < events.len() {
        let next = events.take(n + 1);
        assert(next.drop_last() =~= events.take(n));
        lemma_run_stops(engine, events, n + 1);
    } else {
        assert(events.take(n) =~= events);
    }
}

/// Takes in the events that were recorded behind a checkpoint. Gives back the journal that they
/// caused.
pub fn recover<R: Real>(engine: &mut Engine<R>, events: &Vec<Event<R>>) -> (r: Result<
    Vec<Journal<R>>,
    Error,
>)
    requires
        old(engine)@.wf(),
        forall|i: int|
            0 <= i < events@.len() ==> old(engine).config.fits((#[trigger] events@[i]).recv_ns),
    ensures
        final(engine)@.wf(),
        final(engine)@ == old(engine)@.ran(event_views(events@)).0,
        match old(engine)@.ran(event_views(events@)).1 {
            Err(fault) => r is Err && r->Err_0 == fault,
            Ok(list) => r is Ok && journal_views(r->Ok_0@) == journal_of(list),
        },
{
    let ghost start = engine@;
    let ghost all = event_views(events@);
    let mut out: Vec<Journal<R>> = Vec::new();
    let mut i: usize = 0;
    assert(all.take(0) =~= Seq::<EventView<R>>::empty());
    assert(journal_views(out@) =~= Seq::<JournalView<R>>::empty());
    while i < events.len()
        invariant
            i <= events.len(),
            start == old(engine)@,
            all == event_views(events@),
            engine@.wf(),
            engine.config == start.config,
            forall|k: int|
                0 <= k < events@.len() ==> start.config.fits((#[trigger] events@[k]).recv_ns),
            engine@ == start.ran(all.take(i as int)).0,
            start.ran(all.take(i as int)).1 is Ok,
            journal_views(out@) == journal_of(start.ran(all.take(i as int)).1->Ok_0),
        decreases events.len() - i,
    {
        let ghost before = start.ran(all.take(i as int));
        let ghost next = all.take(i + 1);
        let ghost rows = journal_views(out@);
        assert(next.drop_last() =~= all.take(i as int));
        assert(next.last() == events@[i as int]@);
        proof {
            lemma_config_stays(engine@, events@[i as int]@);
        }
        match engine.on_event(&events[i]) {
            Err(fault) => {
                proof {
                    lemma_run_stops(start, all, i + 1);
                }
                return Err(fault);
            },
            Ok((_, list)) => {
                let mut more = list;
                out.append(&mut more);
                proof {
                    let y = before.0.after(next.last()).1->Ok_0;
                    let list_before = before.1->Ok_0;
                    assert(list_before.push(y).drop_last() =~= list_before);
                    assert(journal_views(out@) =~= rows + journal_views(list@));
                }
            },
        }
        i = i + 1;
    }
    assert(all.take(events@.len() as int) =~= all);
    Ok(out)
}

/// An event does not change the configuration or the models.
pub proof fn lemma_config_stays<R: Real>(engine: EngineView<R>, e: EventView<R>)
    ensures
        engine.after(e).0.config == engine.config,
        engine.after(e).0.models == engine.models,
{
    if engine.admission_fault(e) is None {
        reveal(EngineView::handled);
        let (seen, moved) = engine.advanced(e).delivered(e);
        if moved is Ok {
            let (joined, link) = seen.linked(e);
            if link is Ok {
                let (booked, rows) = joined.checked(e.recv_ns).traded(e, moved->Ok_0);
                if rows is Ok && booked.is_decision(e) {
                    let next = booked.sampled(e.recv_ns);
                    if next.features_at(e.recv_ns) is Some {
                        lemma_advice_keeps(next, e, next.features_at(e.recv_ns)->0, 0);
                    }
                }
            }
        }
    }
}

/// Advice changes the account alone.
pub proof fn lemma_advice_keeps<R: Real>(engine: EngineView<R>, e: EventView<R>, x: Seq<R>, k: int)
    ensures
        engine.advised(e, x, k).0 == (EngineView {
            broker: engine.advised(e, x, k).0.broker,
            ..engine
        }),
    decreases engine.models.len() - k,
{
    if 0 <= k < engine.models.len() {
        let m = engine.models[k];
        if e.recv_ns > m.selected_through_ns && m.prediction(x).spec_is_finite() {
            let (broker, rows) = engine.broker.decided(
                place_of(engine.config.names(), m.symbol@)->0,
                m.prediction(x),
                m.entry_buffer_bps,
                e,
                engine.books,
                engine.config,
            );
            lemma_advice_keeps(EngineView { broker, ..engine }, e, x, k + 1);
        }
    }
}

/// A labelled sample of one asset: what was known at a time, and how the price moved until the
/// label's end.
#[derive(Clone, Debug)]
pub struct Label<R> {
    pub asset: usize,
    pub recv_ns: u64,
    pub label_end_ns: u64,
    pub seq: u64,
    pub epoch: u64,
    pub features: Vec<R>,
    pub mid: R,
    pub spread_bps: R,
    pub target_bps: R,
}

/// The mathematical content of a [`Label`].
#[verifier::ext_equal]
pub struct LabelView<R> {
    pub asset: int,
    pub recv_ns: u64,
    pub label_end_ns: u64,
    pub seq: u64,
    pub epoch: u64,
    pub features: Seq<R>,
    pub mid: R,
    pub spread_bps: R,
    pub target_bps: R,
}

impl<R> View for Label<R> {
    type V = LabelView<R>;

    open spec fn view(&self) -> LabelView<R> {
        LabelView {
            asset: self.asset as int,
            recv_ns: self.recv_ns,
            label_end_ns: self.label_end_ns,
            seq: self.seq,
            epoch: self.epoch,
            features: self.features@,
            mid: self.mid,
            spread_bps: self.spread_bps,
            target_bps: self.target_bps,
        }
    }
}

/// The mathematical content of a list of labels.
pub open spec fn label_views<R>(list: Seq<Label<R>>) -> Seq<LabelView<R>> {
    list.map_values(|l: Label<R>| l@)
}

/// The mathematical content of a list of samples.
pub open spec fn sample_views<R>(list: Seq<Sample<R>>) -> Seq<SampleView<R>> {
    list.map_values(|s: Sample<R>| s@)
}

/// When the label of a sample ends.
pub open spec fn label_end<R>(s: SampleView<R>, c: Config<R>) -> int {
    s.recv_ns + c.horizon_ms * MS
}

impl<R: Real> EngineView<R> {
    /// The label of an asset: the logarithm of how the mid moved, in basis points.
    pub open spec fn label_of(self, s: SampleView<R>, i: int) -> LabelView<R> {
        LabelView {
            asset: i,
            recv_ns: s.recv_ns,
            label_end_ns: label_end(s, self.config) as u64,
            seq: s.seq,
            epoch: s.epoch,
            features: s.features,
            mid: s.mids[i],
            spread_bps: s.spreads_bps[i],
            target_bps: whole::<R>(10_000).spec_times(
                self.books[i].mid()->0.spec_over(s.mids[i]).spec_log(),
            ),
        }
    }

    /// Whether a sample can be labelled: nothing was reset since, and both books are still fresh at
    /// the label's end.
    pub open spec fn labels(self, s: SampleView<R>) -> bool {
        s.epoch == self.epoch && self.valid_at(label_end(s, self.config) as u64)
    }

    /// The samples that are still waiting when an event is received at `t`, and the labels of those
    /// whose time has come. Labels come from the books as they were before the event.
    pub open spec fn matured(self, waiting: Seq<SampleView<R>>, t: u64) -> (
        Seq<SampleView<R>>,
        Seq<LabelView<R>>,
    )
        decreases waiting.len(),
    {
        if waiting.len() == 0 || label_end(waiting.first(), self.config) >= t {
            (waiting, Seq::empty())
        } else {
            let s = waiting.first();
            let (rest, more) = self.matured(waiting.drop_first(), t);
            (
                rest,
                (if self.labels(s) {
                    seq![self.label_of(s, 0), self.label_of(s, 1)]
                } else {
                    Seq::empty()
                }) + more,
            )
        }
    }
}

/// A copy of a list of numbers.
pub fn copy_numbers<R: Real>(list: &Vec<R>) -> (r: Vec<R>)
    ensures
        r@ == list@,
{
    let mut out: Vec<R> = Vec::new();
    for i in 0..list.len()
        invariant
            out@ == list@.take(i as int),
    {
        let x: R = list[i];
        out.push(x);
    }
    out
}

/// The samples that wait for their labels, oldest first.
pub struct Labeler<R> {
    pending: VecDeque<Sample<R>>,
}

impl<R> View for Labeler<R> {
    type V = Seq<SampleView<R>>;

    closed spec fn view(&self) -> Seq<SampleView<R>> {
        sample_views(self.pending@)
    }
}

impl<R: Real> Labeler<R> {
    /// The labels of what waits end within the clock.
    pub open spec fn wf(self, c: Config<R>) -> bool {
        forall|i: int| 0 <= i < self@.len() ==> c.fits((#[trigger] self@[i]).recv_ns)
    }

    /// Nothing waits.
    pub fn new() -> (r: Labeler<R>)
        ensures
            r@ == Seq::<SampleView<R>>::empty(),
    {
        let r = Labeler { pending: VecDeque::new() };
        assert(r@ =~= Seq::<SampleView<R>>::empty());
        r
    }

    fn label(engine: &Engine<R>, s: &Sample<R>, i: usize) -> (r: Label<R>)
        requires
            i < 2,
            engine.config.fits(s.recv_ns),
            engine@.books[i as int].top() is Some,
        ensures
            r@ == engine@.label_of(s@, i as int),
    {
        let moved = engine.books[i].mid().unwrap().over(s.mids[i]).log();
        let r = Label {
            asset: i,
            recv_ns: s.recv_ns,
            label_end_ns: s.recv_ns + engine.config.horizon_ms * MS,
            seq: s.seq,
            epoch: s.epoch,
            features: copy_numbers(&s.features),
            mid: s.mids[i],
            spread_bps: s.spreads_bps[i],
            target_bps: R::from_i64(10_000).times(moved),
        };
        assert(r@ =~= engine@.label_of(s@, i as int));
        r
    }

    /// Labels what can be labelled before an event that was received at `t` is taken in.
    pub fn mature(&mut self, engine: &Engine<R>, t: u64) -> (r: Vec<Label<R>>)
        requires
            old(self).wf(engine.config),
            engine.config.stale_ms * MS <= u64::MAX,
        ensures
            final(self)@ == engine@.matured(old(self)@, t).0,
            label_views(r@) == engine@.matured(old(self)@, t).1,
            final(self).wf(engine.config),
    {
        let ghost result = engine@.matured(self@, t);
        let mut out: Vec<Label<R>> = Vec::new();
        assert(label_views(out@) + result.1 =~= result.1);
        while self.pending.len() > 0
            invariant_except_break
                self.wf(engine.config),
                engine.config.stale_ms * MS <= u64::MAX,
                result == engine@.matured(old(self)@, t),
                result.0 == engine@.matured(self@, t).0,
                result.1 == label_views(out@) + engine@.matured(self@, t).1,
            ensures
                self.wf(engine.config),
                result == engine@.matured(old(self)@, t),
                self@ == result.0,
                label_views(out@) == result.1,
            decreases self.pending.len(),
        {
            let ghost waiting = self@;
            assert(waiting[0] == self.pending@[0]@);
            let recv_ns: u64 = self.pending[0].recv_ns;
            let end: u64 = recv_ns + engine.config.horizon_ms * MS;
            if end >= t {
                assert(label_views(out@) + Seq::<LabelView<R>>::empty() =~= label_views(out@));
                break;
            }
            let s = self.pending.pop_front().unwrap();
            assert(s@ == waiting.first());
            assert(self@ =~= waiting.drop_first());
            let ghost before = label_views(out@);
            let ghost more = engine@.matured(self@, t).1;
            if s.epoch == engine.epoch && engine.valid_at(end) {
                let first = Self::label(engine, &s, 0);
                let second = Self::label(engine, &s, 1);
                out.push(first);
                out.push(second);
                assert(label_views(out@) + more =~= before + (seq![first@, second@] + more));
            } else {
                assert(before + (Seq::<LabelView<R>>::empty() + more) =~= before + more);
            }
            assert forall|i: int| 0 <= i < self@.len() implies engine.config.fits(
                (#[trigger] self@[i]).recv_ns,
            ) by {
                assert(self@[i] == waiting[i + 1]);
            }
            if self.pending.len() == 0 {
                assert(label_views(out@) + Seq::<LabelView<R>>::empty() =~= label_views(out@));
            }
        }
        out
    }

    /// Keeps the sample of an event until its label's time has come.
    pub fn keep(&mut self, sample: Sample<R>)
        ensures
            final(self)@ == old(self)@.push(sample@),
    {
        self.pending.push_back(sample);
        assert(self@ =~= old(self)@.push(sample@));
    }
}

/// Takes in an event: first labels what can be labelled from the books as they were before it, then
/// lets the engine see it, and keeps its sample until that can be labelled.
pub fn label_step<R: Real>(waiting: &mut Labeler<R>, engine: &mut Engine<R>, e: &Event<R>) -> (r: (
    Vec<Label<R>>,
    Result<(), Error>,
))
    requires
        old(engine)@.wf(),
        old(engine).config.fits(e.recv_ns),
        old(waiting).wf(old(engine).config),
    ensures
        label_views(r.0@) == old(engine)@.matured(old(waiting)@, e.recv_ns).1,
        final(engine)@ == old(engine)@.after(e@).0,
        final(engine)@.wf(),
        final(waiting).wf(final(engine).config),
        ({
            let rest = old(engine)@.matured(old(waiting)@, e.recv_ns).0;
            match old(engine)@.after(e@).1 {
                Err(fault) => r.1 == Err::<(), Error>(fault) && final(waiting)@ == rest,
                Ok((sample, _)) => r.1 == Ok::<(), Error>(()) && final(waiting)@ == match sample {
                    Some(s) => rest.push(s),
                    None => rest,
                },
            }
        }),
{
    proof {
        lemma_config_stays(engine@, e@);
    }
    let labels = waiting.mature(engine, e.recv_ns);
    match engine.on_event(e) {
        Err(fault) => (labels, Err(fault)),
        Ok((sample, _)) => {
            match sample {
                Some(s) => {
                    proof {
                        lemma_sample_is_dated(old(engine)@, e@);
                    }
                    let ghost rest = waiting@;
                    waiting.keep(s);
                    assert forall|i: int| 0 <= i < waiting@.len() implies engine.config.fits(
                        (#[trigger] waiting@[i]).recv_ns,
                    ) by {
                        if i < rest.len() {
                            assert(waiting@[i] == rest[i]);
                        }
                    }
                },
                None => {},
            }
            (labels, Ok(()))
        },
    }
}

/// A sample has the time of its event.
proof fn lemma_sample_is_dated<R: Real>(engine: EngineView<R>, e: EventView<R>)
    requires
        engine.after(e).1 matches Ok(out) && out.0 is Some,
    ensures
        engine.after(e).1->Ok_0.0->0.recv_ns == e.recv_ns,
{
    reveal(EngineView::handled);
}

/// Checks that a run over a log gave labels.
pub fn check_labels(count: usize) -> (r: Result<(), Error>)
    ensures
        r == if count > 0 {
            Ok::<(), Error>(())
        } else {
            Err::<(), Error>(Error::NoLabels)
        },
{
    if count > 0 {
        Ok(())
    } else {
        Err(Error::NoLabels)
    }
}

/// Checks that there is a model for each asset.
pub fn check_models(count: usize) -> (r: Result<(), Error>)
    ensures
        r == if count == 2 {
            Ok::<(), Error>(())
        } else {
            Err::<(), Error>(Error::TooFewModels)
        },
{
    if count == 2 {
        Ok(())
    } else {
        Err(Error::TooFewModels)
    }
}

/// What a model predicts from a feature vector, if the vector is one.
pub fn score<R: Real>(m: &Model<R>, x: &Vec<R>) -> (r: Result<R, Error>)
    ensures
        r == if x@.len() == m.features@.len() && all_finite(x@) {
            Ok::<R, Error>(m.prediction(x@))
        } else {
            Err::<R, Error>(Error::InvalidFeatureVector)
        },
{
    if x.len() == m.features.len() && finite_all(x) {
        Ok(m.predict(x.as_slice()))
    } else {
        Err(Error::InvalidFeatureVector)
    }
}

/// Whether an evaluation that may have a start begins after every model was selected.
pub open spec fn is_unseen<R>(models: Seq<Model<R>>, start_ns: Option<u64>) -> bool {
    match start_ns {
        None => true,
        Some(start) => forall|k: int|
            0 <= k < models.len() ==> start > (#[trigger] models[k]).selected_through_ns,
    }
}

/// Why an evaluation cannot be made, if it cannot: its configuration or one of its models is
/// refused.
pub open spec fn replay_fault<R: Real>(c: Config<R>, models: Seq<Model<R>>) -> Option<Error> {
    if c.fault() is Some {
        c.fault()
    } else {
        model_fault(models, c.names(), 0)
    }
}

/// An evaluation over a log. Events before its start are taken in without models; it ends behind
/// its end.
pub struct Replay<R> {
    pub engine: Engine<R>,
    pub models: Vec<Model<R>>,
    pub start_ns: Option<u64>,
    pub end_ns: Option<u64>,
    pub samples: u64,
}

/// The mathematical content of a [`Replay`].
#[verifier::ext_equal]
pub struct ReplayView<R> {
    pub engine: EngineView<R>,
    pub models: Seq<Model<R>>,
    pub start_ns: Option<u64>,
    pub end_ns: Option<u64>,
    pub samples: u64,
}

impl<R> View for Replay<R> {
    type V = ReplayView<R>;

    open spec fn view(&self) -> ReplayView<R> {
        ReplayView {
            engine: self.engine@,
            models: self.models@,
            start_ns: self.start_ns,
            end_ns: self.end_ns,
            samples: self.samples,
        }
    }
}

impl<R: Real> ReplayView<R> {
    /// The engine is well formed, with the models too.
    pub open spec fn wf(self) -> bool {
        self.engine.wf() && EngineView { models: self.models, ..self.engine }.wf()
    }

    /// Whether the evaluation is over when an event is received.
    pub open spec fn is_over(self, e: EventView<R>) -> bool {
        self.end_ns is Some && e.recv_ns > self.end_ns->0
    }

    /// Whether an event is evaluated.
    pub open spec fn evaluates(self, e: EventView<R>) -> bool {
        self.start_ns is None || e.recv_ns >= self.start_ns->0
    }

    /// The evaluation with its models in use from the first event that is evaluated.
    pub open spec fn enabled(self, e: EventView<R>) -> ReplayView<R> {
        if self.evaluates(e) && self.engine.models.len() == 0 {
            ReplayView {
                engine: EngineView { models: self.models, ..self.engine },
                models: self.engine.models,
                ..self
            }
        } else {
            self
        }
    }

    /// The evaluation after an event, with the journal lines, or nothing where it is over.
    pub open spec fn stepped(self, e: EventView<R>) -> (
        ReplayView<R>,
        Result<Option<Seq<JournalView<R>>>, Error>,
    ) {
        if self.is_over(e) {
            (self, Ok(None))
        } else {
            let ready = self.enabled(e);
            let (engine, r) = ready.engine.after(e);
            let next = ReplayView { engine, ..ready };
            match r {
                Err(fault) => (next, Err(fault)),
                Ok((sample, rows)) => if self.evaluates(e) {
                    (
                        ReplayView {
                            samples: if sample is Some {
                                self.samples.wrapping_add(1)
                            } else {
                                self.samples
                            },
                            ..next
                        },
                        Ok(Some(rows)),
                    )
                } else {
                    (next, Ok(Some(Seq::empty())))
                },
            }
        }
    }
}

impl<R: Real> Replay<R> {
    /// An evaluation that has seen nothing. It starts after its models were selected, and the
    /// models are ones that the engine can use.
    pub fn new(
        config: Config<R>,
        models: Vec<Model<R>>,
        start_ns: Option<u64>,
        end_ns: Option<u64>,
    ) -> (r: Result<Replay<R>, Error>)
        ensures
            if !is_unseen(models@, start_ns) {
                r is Err && r->Err_0 == Error::SelectionUnfinished
            } else {
                match replay_fault(config, models@) {
                    Some(fault) => r is Err && r->Err_0 == fault,
                    None => r is Ok && r->Ok_0@ == (ReplayView {
                        engine: EngineView::<R>::started(config, Seq::empty()),
                        models: models@,
                        start_ns,
                        end_ns,
                        samples: 0,
                    }) && r->Ok_0@.wf(),
                }
            },
    {
        match start_ns {
            None => {},
            Some(start) => {
                let mut k: usize = 0;
                while k < models.len()
                    invariant
                        k <= models.len(),
                        start_ns == Some(start),
                        forall|j: int|
                            0 <= j < k ==> start > (#[trigger] models@[j]).selected_through_ns,
                    decreases models.len() - k,
                {
                    if start <= models[k].selected_through_ns {
                        assert(!(start > models@[k as int].selected_through_ns));
                        return Err(Error::SelectionUnfinished);
                    }
                    k = k + 1;
                }
            },
        }
        let none: Vec<Model<R>> = Vec::new();
        assert(none@ =~= Seq::<Model<R>>::empty());
        match Engine::new(config, none) {
            Err(fault) => Err(fault),
            Ok(engine) => match validate_models(&models, &engine.config) {
                Err(fault) => Err(fault),
                Ok(()) => Ok(Replay { engine, models, start_ns, end_ns, samples: 0 }),
            },
        }
    }

    /// Takes in the next event. Gives back journal lines, or nothing where the evaluation is over.
    pub fn step(&mut self, e: &Event<R>) -> (r: Result<Option<Vec<Journal<R>>>, Error>)
        requires
            old(self)@.wf(),
            old(self).engine.config.fits(e.recv_ns),
        ensures
            final(self)@ == old(self)@.stepped(e@).0,
            match old(self)@.stepped(e@).1 {
                Err(fault) => r is Err && r->Err_0 == fault,
                Ok(None) => r is Ok && r->Ok_0 is None,
                Ok(Some(rows)) => r matches Ok(Some(list)) && journal_views(list@) == rows,
            },
            final(self)@.wf(),
    {
        match self.end_ns {
            Some(end) => if e.recv_ns > end {
                return Ok(None);
            },
            None => {},
        }
        let evaluating = match self.start_ns {
            None => true,
            Some(start) => e.recv_ns >= start,
        };
        if evaluating && self.engine.models.len() == 0 {
            std::mem::swap(&mut self.engine.models, &mut self.models);
        }
        let ghost ready = old(self)@.enabled(e@);
        assert(self@ =~= ready);
        proof {
            lemma_config_stays(ready.engine, e@);
        }
        match self.engine.on_event(e) {
            Err(fault) => Err(fault),
            Ok((sample, rows)) => if evaluating {
                if sample.is_some() {
                    self.samples = self.samples.wrapping_add(1);
                }
                Ok(Some(rows))
            } else {
                let none: Vec<Journal<R>> = Vec::new();
                assert(journal_views(none@) =~= Seq::<JournalView<R>>::empty());
                Ok(Some(none))
            },
        }
    }
}

} // verus!
