//! A recording session: what reaches it, the events that come of it, and what it asks the venue.
use crate::book::BookView;
use crate::config::{law_two_instruments, Config, Venue};
use crate::engine::{Engine, EngineView};
use crate::error::Error;
use crate::json::{json_of, read_json, Json};
use crate::number::Real;
use crate::recorder::{decode, decoded, snapshot, snapshot_of};
use crate::text::texts;
use crate::types::{Event, EventView, Kind, KindView, MS, SCHEMA, SECOND};
use crate::venue::coinbase;
use crate::venue::coinbase::{decoded_views, Decoder};
use vstd::prelude::*;

verus! {

/// What reaches a session, in the order in which it reaches it.
pub enum Input<R> {
    /// The text of a message of the venue.
    Raw(String),
    /// What another task has decoded, with the text that it decoded.
    Ready(Kind<R>, Option<String>),
    /// The text of the reply to the request of an asset's book with a given number.
    Snapshot(usize, u64, String),
    /// Why the request of an asset's book failed.
    SnapshotError(usize, String),
    /// Why a source was lost.
    Disconnect(String),
    /// The clock.
    Timer,
}

/// What an event is made of.
pub struct Incoming<R> {
    pub kind: Kind<R>,
    pub raw: Option<String>,
    pub exchange_ns: Option<u64>,
}

/// The mathematical content of an [`Incoming`].
#[verifier::ext_equal]
pub struct IncomingView<R> {
    pub kind: KindView<R>,
    pub raw: Option<Seq<char>>,
    pub exchange_ns: Option<u64>,
}

/// The text in an option.
pub open spec fn text_view(text: Option<String>) -> Option<Seq<char>> {
    match text {
        Some(s) => Some(s@),
        None => None,
    }
}

impl<R> View for Incoming<R> {
    type V = IncomingView<R>;

    open spec fn view(&self) -> IncomingView<R> {
        IncomingView {
            kind: self.kind@,
            raw: text_view(self.raw),
            exchange_ns: self.exchange_ns,
        }
    }
}

/// The mathematical content of a list of [`Incoming`].
pub open spec fn incoming_views<R>(list: Seq<Incoming<R>>) -> Seq<IncomingView<R>> {
    list.map_values(|x: Incoming<R>| x@)
}

/// The state of a session: the requests for books that it waits for, by number, and what its
/// decoder has seen.
pub struct Session {
    venue: Venue,
    symbols: Vec<String>,
    pending: [bool; 2],
    request_epoch: [u64; 2],
    decoder: Decoder,
}

/// The mathematical content of a [`Session`].
#[verifier::ext_equal]
pub struct SessionView {
    pub venue: Venue,
    pub names: Seq<Seq<char>>,
    pub pending: Seq<bool>,
    pub request_epoch: Seq<u64>,
    pub seen: Map<Seq<char>, u64>,
}

impl View for Session {
    type V = SessionView;

    closed spec fn view(&self) -> SessionView {
        SessionView {
            venue: self.venue,
            names: texts(self.symbols@),
            pending: self.pending@,
            request_epoch: self.request_epoch@,
            seen: self.decoder@,
        }
    }
}

impl<R> Input<R> {
    /// An asset is one of two.
    pub open spec fn wf(self) -> bool {
        match self {
            Input::Snapshot(i, _, _) => i < 2,
            Input::SnapshotError(i, _) => i < 2,
            _ => true,
        }
    }
}

/// Whether an event says that a source was lost.
pub open spec fn is_loss<R>(kind: KindView<R>) -> bool {
    match kind {
        KindView::Disconnect { .. } => true,
        KindView::Connection { connected, .. } => !connected,
        _ => false,
    }
}

/// Whether a book holds updates back for want of a snapshot.
pub open spec fn is_waiting<R>(book: BookView<R>) -> bool {
    book.last_id is None && book.buffer.len() > 0
}

impl SessionView {
    /// A session that waits for nothing.
    pub open spec fn opened<R: Real>(c: Config<R>) -> SessionView {
        SessionView {
            venue: c.venue,
            names: c.names(),
            pending: seq![false, false],
            request_epoch: seq![0, 0],
            seen: Map::empty(),
        }
    }

    /// The session names two assets and keeps a request for each.
    pub open spec fn wf(self) -> bool {
        &&& self.names.len() == 2
        &&& self.pending.len() == 2
        &&& self.request_epoch.len() == 2
    }

    /// The session after a message, and what the message says.
    pub open spec fn heard<R: Real>(self, v: Json, text: Seq<char>) -> (
        SessionView,
        Result<Seq<IncomingView<R>>, Error>,
    ) {
        match self.venue {
            Venue::BinanceUsdm => (
                self,
                match decoded::<R>(v) {
                    Err(fault) => Err(fault),
                    Ok(None) => Ok(Seq::empty()),
                    Ok(Some((kind, t))) => Ok(
                        seq![IncomingView { kind, raw: Some(text), exchange_ns: t }],
                    ),
                },
            ),
            Venue::CoinbaseSpot => {
                let (seen, list) = coinbase::decoded::<R>(self.seen, v);
                (
                    SessionView { seen, ..self },
                    match list {
                        Err(fault) => Err(fault),
                        Ok(all) => Ok(
                            all.map_values(
                                |d: (KindView<R>, Option<u64>)|
                                    IncomingView { kind: d.0, raw: Some(text), exchange_ns: d.1 },
                            ),
                        ),
                    },
                )
            },
        }
    }

    /// The session that no longer waits for an asset's book.
    pub open spec fn released(self, i: int) -> SessionView {
        SessionView { pending: self.pending.update(i, false), ..self }
    }

    /// The session after an input, and what comes of it. A reply to another request than the last
    /// is ignored.
    pub open spec fn admitted<R: Real>(self, input: Input<R>) -> (
        SessionView,
        Result<Seq<IncomingView<R>>, Error>,
    ) {
        match input {
            Input::Raw(text) => match json_of(text@) {
                None => (self, Err(Error::MalformedText)),
                Some(v) => self.heard(v, text@),
            },
            Input::Ready(kind, raw) => (
                self,
                Ok(seq![IncomingView { kind: kind@, raw: text_view(raw), exchange_ns: None }]),
            ),
            Input::Snapshot(i, generation, text) => if generation != self.request_epoch[i as int] {
                (self, Ok(Seq::empty()))
            } else {
                (
                    self.released(i as int),
                    match json_of(text@) {
                        None => Err(Error::MalformedText),
                        Some(v) => match snapshot_of::<R>(v, self.names[i as int]) {
                            Err(fault) => Err(fault),
                            Ok(kind) => Ok(
                                seq![IncomingView { kind, raw: Some(text@), exchange_ns: None }],
                            ),
                        },
                    },
                )
            },
            Input::SnapshotError(i, reason) => (
                self.released(i as int),
                Ok(
                    seq![
                        IncomingView {
                            kind: KindView::Disconnect { reason: reason@ },
                            raw: None,
                            exchange_ns: None,
                        },
                    ],
                ),
            ),
            Input::Disconnect(reason) => (
                self,
                Ok(
                    seq![
                        IncomingView {
                            kind: KindView::Disconnect { reason: reason@ },
                            raw: None,
                            exchange_ns: None,
                        },
                    ],
                ),
            ),
            Input::Timer => (
                self,
                Ok(seq![IncomingView { kind: KindView::Timer, raw: None, exchange_ns: None }]),
            ),
        }
    }

    /// The session that waits for nothing, and to which every earlier request is stale.
    pub open spec fn cleared(self) -> SessionView {
        SessionView {
            pending: seq![false, false],
            request_epoch: seq![
                self.request_epoch[0].wrapping_add(1),
                self.request_epoch[1].wrapping_add(1),
            ],
            ..self
        }
    }

    /// Whether the book of an asset is to be asked for. Coinbase sends books unasked.
    pub open spec fn asks(self, i: int, waiting: bool) -> bool {
        self.venue == Venue::BinanceUsdm && !self.pending[i] && waiting
    }

    /// The session after it asked for the book of an asset, if it is to be asked for, and the
    /// number of the request.
    pub open spec fn asked(self, i: int, waiting: bool) -> (SessionView, Option<u64>) {
        if self.asks(i, waiting) {
            let number = self.request_epoch[i].wrapping_add(1);
            (
                SessionView {
                    pending: self.pending.update(i, true),
                    request_epoch: self.request_epoch.update(i, number),
                    ..self
                },
                Some(number),
            )
        } else {
            (self, None)
        }
    }

    /// The session after an event was processed, and the numbers of the requests for books that it
    /// makes.
    pub open spec fn followed(self, loss: bool, waiting: Seq<bool>) -> (
        SessionView,
        Seq<Option<u64>>,
    ) {
        let ready = if loss {
            self.cleared()
        } else {
            self
        };
        let (first, a) = ready.asked(0, waiting[0]);
        let (second, b) = first.asked(1, waiting[1]);
        (second, seq![a, b])
    }
}

/// Whether a result is what is expected.
pub open spec fn brings<R>(
    r: Result<Vec<Incoming<R>>, Error>,
    expected: Result<Seq<IncomingView<R>>, Error>,
) -> bool {
    match expected {
        Err(fault) => r is Err && r->Err_0 == fault,
        Ok(list) => r is Ok && incoming_views(r->Ok_0@) == list,
    }
}

/// A list of one.
fn just<R>(kind: Kind<R>, raw: Option<String>, exchange_ns: Option<u64>) -> (r: Vec<Incoming<R>>)
    ensures
        incoming_views(r@) == seq![
            IncomingView { kind: kind@, raw: text_view(raw), exchange_ns },
        ],
{
    let mut out: Vec<Incoming<R>> = Vec::new();
    let one = Incoming { kind, raw, exchange_ns };
    out.push(one);
    assert(incoming_views(out@) =~= seq![one@]);
    out
}

impl Session {
    /// A session that waits for nothing.
    pub fn new<R: Real>(c: &Config<R>) -> (r: Session)
        requires
            c.fault() is None,
        ensures
            r@ == SessionView::opened(*c),
            r@.wf(),
    {
        proof {
            law_two_instruments(*c);
        }
        let mut symbols: Vec<String> = Vec::new();
        symbols.push(c.symbols[0].clone());
        symbols.push(c.symbols[1].clone());
        assert(texts(symbols@) =~= c.names());
        let r = Session {
            venue: c.venue,
            symbols,
            pending: [false, false],
            request_epoch: [0, 0],
            decoder: Decoder::default(),
        };
        assert(r@ =~= SessionView::opened(*c));
        r
    }

    /// Takes in a message whose text was parsed.
    pub fn hear<R: Real>(&mut self, v: &Json, text: &String) -> (r: Result<Vec<Incoming<R>>, Error>)
        ensures
            final(self)@ == old(self)@.heard::<R>(*v, text@).0,
            brings(r, old(self)@.heard::<R>(*v, text@).1),
            old(self)@.wf() ==> final(self)@.wf(),
    {
        match self.venue {
            Venue::BinanceUsdm => match decode(v) {
                Err(fault) => Err(fault),
                Ok(None) => {
                    let out: Vec<Incoming<R>> = Vec::new();
                    assert(incoming_views(out@) =~= Seq::<IncomingView<R>>::empty());
                    Ok(out)
                },
                Ok(Some((kind, t))) => Ok(just(kind, Some(text.clone()), t)),
            },
            Venue::CoinbaseSpot => {
                let result = self.decoder.decode::<R>(v);
                assert(self@ =~= old(self)@.heard::<R>(*v, text@).0);
                match result {
                    Err(fault) => Err(fault),
                    Ok(list) => Ok(self.wrap(list, text)),
                }
            },
        }
    }

    fn wrap<R: Real>(&self, list: Vec<(Kind<R>, Option<u64>)>, text: &String) -> (r: Vec<
        Incoming<R>,
    >)
        ensures
            incoming_views(r@) == decoded_views(list@).map_values(
                |d: (KindView<R>, Option<u64>)|
                    IncomingView { kind: d.0, raw: Some(text@), exchange_ns: d.1 },
            ),
    {
        let mut out: Vec<Incoming<R>> = Vec::new();
        for d in it: list
            invariant
                it.seq() == list@,
                out@.len() == it.index(),
                forall|k: int|
                    0 <= k < it.index() ==> (#[trigger] out@[k])@ == (IncomingView {
                        kind: list@[k].0@,
                        raw: Some(text@),
                        exchange_ns: list@[k].1,
                    }),
        {
            let (kind, exchange_ns) = d;
            out.push(Incoming { kind, raw: Some(text.clone()), exchange_ns });
        }
        assert(incoming_views(out@) =~= decoded_views(list@).map_values(
            |d: (KindView<R>, Option<u64>)|
                IncomingView { kind: d.0, raw: Some(text@), exchange_ns: d.1 },
        ));
        out
    }

    /// Takes in an input. What comes of it becomes events, in order.
    pub fn take_in<R: Real>(&mut self, input: Input<R>) -> (r: Result<Vec<Incoming<R>>, Error>)
        requires
            old(self)@.wf(),
            input.wf(),
        ensures
            final(self)@ == old(self)@.admitted(input).0,
            brings(r, old(self)@.admitted(input).1),
            final(self)@.wf(),
    {
        match input {
            Input::Raw(text) => match read_json(text.as_str()) {
                Err(fault) => Err(fault),
                Ok(v) => self.hear(&v, &text),
            },
            Input::Ready(kind, raw) => Ok(just(kind, raw, None)),
            Input::Snapshot(i, generation, text) => {
                if generation != self.request_epoch[i] {
                    let out: Vec<Incoming<R>> = Vec::new();
                    assert(incoming_views(out@) =~= Seq::<IncomingView<R>>::empty());
                    return Ok(out);
                }
                self.pending[i] = false;
                assert(self@ =~= old(self)@.released(i as int));
                match read_json(text.as_str()) {
                    Err(fault) => Err(fault),
                    Ok(v) => match snapshot(&v, &self.symbols[i]) {
                        Err(fault) => Err(fault),
                        Ok(kind) => Ok(just(kind, Some(text), None)),
                    },
                }
            },
            Input::SnapshotError(i, reason) => {
                self.pending[i] = false;
                assert(self@ =~= old(self)@.released(i as int));
                Ok(just(Kind::Disconnect { reason }, None, None))
            },
            Input::Disconnect(reason) => Ok(just(Kind::Disconnect { reason }, None, None)),
            Input::Timer => Ok(just(Kind::Timer, None, None)),
        }
    }

    fn ask(&mut self, i: usize, waiting: bool) -> (r: Option<u64>)
        requires
            old(self)@.wf(),
            i < 2,
        ensures
            final(self)@ == old(self)@.asked(i as int, waiting).0,
            r == old(self)@.asked(i as int, waiting).1,
            final(self)@.wf(),
    {
        if self.venue == Venue::BinanceUsdm && !self.pending[i] && waiting {
            let number: u64 = self.request_epoch[i].wrapping_add(1);
            self.pending[i] = true;
            self.request_epoch[i] = number;
            assert(self@ =~= old(self)@.asked(i as int, waiting).0);
            Some(number)
        } else {
            None
        }
    }

    /// Says, after an event was processed, which books are to be asked for, with the numbers of the
    /// requests.
    pub fn follow_up<R: Real>(&mut self, kind: &Kind<R>, engine: &Engine<R>) -> (r: [Option<
        u64,
    >; 2])
        requires
            old(self)@.wf(),
        ensures
            ({
                let waiting = seq![is_waiting(engine@.books[0]), is_waiting(engine@.books[1])];
                let (next, requests) = old(self)@.followed(is_loss(kind@), waiting);
                &&& final(self)@ == next
                &&& r@ == requests
            }),
            final(self)@.wf(),
    {
        let loss = match kind {
            Kind::Disconnect { .. } => true,
            Kind::Connection { connected, .. } => !*connected,
            _ => false,
        };
        if loss {
            self.pending = [false, false];
            let a: u64 = self.request_epoch[0].wrapping_add(1);
            let b: u64 = self.request_epoch[1].wrapping_add(1);
            self.request_epoch = [a, b];
            assert(self@ =~= old(self)@.cleared());
        }
        let first = self.ask(
            0,
            engine.books[0].last_id.is_none() && engine.books[0].buffer.len() > 0,
        );
        let second = self.ask(
            1,
            engine.books[1].last_id.is_none() && engine.books[1].buffer.len() > 0,
        );
        let r = [first, second];
        assert(r@ =~= seq![first, second]);
        r
    }
}

/// The event that an incoming kind becomes.
pub open spec fn stamped<R>(
    x: IncomingView<R>,
    session: Seq<char>,
    seq: u64,
    recv_ns: u64,
    utc_ns: u64,
) -> EventView<R> {
    EventView {
        version: SCHEMA,
        session,
        seq,
        recv_ns,
        utc_ns,
        exchange_ns: x.exchange_ns,
        raw: x.raw,
        kind: x.kind,
    }
}

/// Makes an incoming kind the event behind the last one.
pub fn stamp<R: Real>(
    x: Incoming<R>,
    session: &String,
    last_seq: u64,
    recv_ns: u64,
    utc_ns: u64,
) -> (e: Event<R>)
    requires
        last_seq < u64::MAX,
    ensures
        e@ == stamped(x@, session@, (last_seq + 1) as u64, recv_ns, utc_ns),
{
    Event {
        version: SCHEMA,
        session: session.clone(),
        seq: last_seq + 1,
        recv_ns,
        utc_ns,
        exchange_ns: x.exchange_ns,
        raw: x.raw,
        kind: x.kind,
    }
}

/// The first time that is not before a wall-clock time and lies behind the engine's clock. A
/// session counts its receive times from there.
pub fn anchor(utc_ns: u64, now: u64) -> (r: u64)
    requires
        now < u64::MAX,
    ensures
        r == if utc_ns > now {
            utc_ns
        } else {
            (now + 1) as u64
        },
{
    if utc_ns > now {
        utc_ns
    } else {
        now + 1
    }
}

/// An event that is stamped behind the engine's last one, in a session whose receive times start
/// at its anchor, is admitted.
pub proof fn law_stamped_events_are_admitted<R: Real>(
    engine: EngineView<R>,
    x: IncomingView<R>,
    session: Seq<char>,
    recv_ns: u64,
    utc_ns: u64,
)
    requires
        engine.last_seq < u64::MAX,
        recv_ns >= engine.now,
    ensures
        engine.admission_fault(
            stamped(x, session, (engine.last_seq + 1) as u64, recv_ns, utc_ns),
        ) is None,
{
}

/// Whether an input has not waited longer than a book stays fresh.
pub fn is_timely(waited_ns: u128, stale_ms: u64) -> (r: bool)
    ensures
        r == (waited_ns <= stale_ms * MS),
{
    assert(stale_ms * MS <= u64::MAX * MS) by (nonlinear_arith)
        requires
            stale_ms <= u64::MAX,
            MS >= 0,
    ;
    waited_ns <= stale_ms as u128 * MS as u128
}

/// Whether a checkpoint is due: the last one is a second old.
pub fn checkpoint_due(recv_ns: u64, last_checkpoint_ns: u64) -> (r: bool)
    ensures
        r == (recv_ns >= last_checkpoint_ns + SECOND),
{
    recv_ns >= SECOND && recv_ns - SECOND >= last_checkpoint_ns
}

/// Whether a session that may be limited to a number of seconds is over.
pub fn is_over(elapsed_ns: u128, seconds: Option<u64>) -> (r: bool)
    ensures
        r == match seconds {
            None => false,
            Some(s) => elapsed_ns >= s * SECOND,
        },
{
    match seconds {
        None => false,
        Some(s) => {
            assert(s * SECOND <= u64::MAX * SECOND) by (nonlinear_arith)
                requires
                    s <= u64::MAX,
                    SECOND >= 0,
            ;
            elapsed_ns >= s as u128 * SECOND as u128
        },
    }
}

/// The earliest time at which a position is known, or else the anchor, in milliseconds. Settlements
/// are asked for from there.
pub open spec fn funding_from<R>(history: Seq<Seq<(u64, R)>>, anchor: u64) -> u64 {
    let a = history[0];
    let b = history[1];
    (if a.len() > 0 && (b.len() == 0 || a[0].0 <= b[0].0) {
        a[0].0
    } else if b.len() > 0 {
        b[0].0
    } else {
        anchor
    }) / MS
}

/// The time from which settlements are asked for, in milliseconds.
pub fn funding_start<R: Real>(engine: &Engine<R>, anchor: u64) -> (r: u64)
    ensures
        r == funding_from(engine@.broker.position_history, anchor),
{
    let a = &engine.broker.position_history[0];
    let b = &engine.broker.position_history[1];
    let t: u64 = if a.len() > 0 && (b.len() == 0 || a[0].0 <= b[0].0) {
        a[0].0
    } else if b.len() > 0 {
        b[0].0
    } else {
        anchor
    };
    t / MS
}

/// What a socket receives.
#[derive(Clone, Copy, Debug, PartialEq, Eq, Structural)]
pub enum Frame {
    Text,
    Ping,
    Close,
    Other,
}

/// What a socket does about what it receives.
#[derive(Clone, Copy, Debug, PartialEq, Eq, Structural)]
pub enum Reply {
    Forward,
    Pong,
    Ignore,
}

/// The longest wait before a connection is tried again, in seconds.
pub const LONGEST_WAIT_S: u64 = 30;

/// The state of a socket: how long it waits before it connects again, and the number that it
/// expects the next message of a numbered stream to have.
#[derive(Clone, Copy, Debug)]
pub struct Link {
    pub backoff_s: u64,
    pub expected: Option<u64>,
}

impl Link {
    /// The wait stays within its limit.
    pub open spec fn wf(self) -> bool {
        1 <= self.backoff_s <= LONGEST_WAIT_S
    }

    /// A socket that has not connected yet.
    pub fn new() -> (r: Link)
        ensures
            r.wf(),
            r.backoff_s == 1,
            r.expected is None,
    {
        Link { backoff_s: 1, expected: None }
    }

    /// Notes that the socket connected: a stream is numbered per connection.
    pub fn connected(&mut self)
        ensures
            final(self).wf(),
            final(self).backoff_s == 1,
            final(self).expected is None,
    {
        self.backoff_s = 1;
        self.expected = None;
    }

    /// Notes that the connection was lost. Returns how long to wait, in seconds.
    pub fn lost(&mut self) -> (r: u64)
        requires
            old(self).wf(),
        ensures
            r == old(self).backoff_s,
            final(self).wf(),
            final(self).backoff_s == if old(self).backoff_s * 2 <= LONGEST_WAIT_S {
                (old(self).backoff_s * 2) as u64
            } else {
                LONGEST_WAIT_S
            },
            final(self).expected == old(self).expected,
    {
        let wait: u64 = self.backoff_s;
        self.backoff_s = if wait * 2 <= LONGEST_WAIT_S {
            wait * 2
        } else {
            LONGEST_WAIT_S
        };
        wait
    }

    /// The number that is expected behind a message with a given number.
    pub open spec fn behind(self, number: Option<u64>) -> Option<u64> {
        match number {
            Some(n) => Some(n.wrapping_add(1)),
            None => self.expected,
        }
    }

    /// Whether a message with a given number leaves a gap.
    pub open spec fn gaps(self, number: Option<u64>) -> bool {
        number is Some && self.expected is Some && number != self.expected
    }

    /// Says what to do about what was received. A numbered message that leaves a gap is refused,
    /// as is the end of the connection.
    pub fn receive(&mut self, frame: Frame, number: Option<u64>) -> (r: Result<Reply, Error>)
        ensures
            match frame {
                Frame::Text => if old(self).gaps(number) {
                    r == Err::<Reply, Error>(Error::SequenceGap) && *final(self) == *old(self)
                } else {
                    r == Ok::<Reply, Error>(Reply::Forward) && final(self).expected == old(
                        self,
                    ).behind(number) && final(self).backoff_s == old(self).backoff_s
                },
                Frame::Ping => r == Ok::<Reply, Error>(Reply::Pong) && *final(self) == *old(self),
                Frame::Close => r == Err::<Reply, Error>(Error::RemoteClose) && *final(self)
                    == *old(self),
                Frame::Other => r == Ok::<Reply, Error>(Reply::Ignore) && *final(self) == *old(
                    self,
                ),
            },
    {
        match frame {
            Frame::Text => match number {
                None => Ok(Reply::Forward),
                Some(n) => {
                    match self.expected {
                        Some(m) => if n != m {
                            return Err(Error::SequenceGap);
                        },
                        None => {},
                    }
                    self.expected = Some(n.wrapping_add(1));
                    Ok(Reply::Forward)
                },
            },
            Frame::Ping => Ok(Reply::Pong),
            Frame::Close => Err(Error::RemoteClose),
            Frame::Other => Ok(Reply::Ignore),
        }
    }
}

/// A reply to another request than the last for an asset is ignored.
pub proof fn law_stale_replies_are_ignored<R: Real>(
    session: SessionView,
    i: usize,
    generation: u64,
    text: String,
)
    requires
        generation != session.request_epoch[i as int],
    ensures
        session.admitted::<R>(Input::Snapshot(i, generation, text)) == (
            session,
            Ok::<Seq<IncomingView<R>>, Error>(Seq::empty()),
        ),
{
}

/// A lost source makes every earlier request stale, and a book that is asked for is not asked for
/// again while its reply is awaited.
pub proof fn law_requests_are_single_and_current(
    session: SessionView,
    loss: bool,
    waiting: Seq<bool>,
    i: int,
)
    requires
        session.wf(),
        0 <= i < 2,
        session.request_epoch[i] < u64::MAX,
    ensures
        ({
            let (next, requests) = session.followed(loss, waiting);
            &&& loss ==> next.request_epoch[i] != session.request_epoch[i]
            &&& requests[i] is Some ==> next.pending[i] && requests[i]->0 == next.request_epoch[i]
                && (loss || !session.pending[i]) && waiting[i] && requests[i]->0
                != session.request_epoch[i]
            &&& !loss && session.pending[i] ==> requests[i] is None
        }),
{
    let n = session.request_epoch[i];
    assert(n.wrapping_add(1) == n + 1);
    assert(n.wrapping_add(1).wrapping_add(1) != n);
}

/// A numbered message that does not follow on the last one is refused, so that the connection is
/// given up, and the next connection counts afresh.
pub proof fn law_gaps_are_noticed(link: Link, last: u64, number: u64)
    requires
        link.expected == link.behind(Some(last)),
        number != last.wrapping_add(1),
    ensures
        link.gaps(Some(number)),
{
}

} // verus!
