//! What the venue says of time does not matter: decisions depend on when events were received.
use crate::book::BookView;
use crate::config::{law_two_instruments, Config};
use crate::engine::EngineView;
use crate::error::Error;
use crate::features::HistoryView;
use crate::number::{total, Real};
use crate::paper::{entry_size, fill_sizes, fill_values, BrokerView, DAY};
use crate::replay::lemma_config_stays;
use crate::text::{lemma_place, place_of};
use crate::types::{EventView, KindView};
use vstd::prelude::*;

verus! {

/// Whether two events are the same but for the time that the venue gave them and the text that they
/// were decoded from.
pub open spec fn is_same_event<R>(a: EventView<R>, b: EventView<R>) -> bool {
    a == EventView { exchange_ns: a.exchange_ns, raw: a.raw, ..b }
}

/// Whether two lists of events are the same but for what [`is_same_event`] leaves out.
pub open spec fn are_same_events<R>(a: Seq<EventView<R>>, b: Seq<EventView<R>>) -> bool {
    a.len() == b.len() && forall|i: int|
        0 <= i < a.len() ==> is_same_event(#[trigger] a[i], #[trigger] b[i])
}

/// Whether two books display the same.
pub open spec fn displays_same<R>(a: BookView<R>, b: BookView<R>) -> bool {
    a == BookView { buffer: a.buffer, ..b }
}

/// Whether two books are the same but for what [`is_same_event`] leaves out of the updates that they
/// hold back.
pub open spec fn is_same_book<R>(a: BookView<R>, b: BookView<R>) -> bool {
    displays_same(a, b) && are_same_events(a.buffer, b.buffer)
}

/// Whether two engines are the same but for what [`is_same_event`] leaves out of the updates that
/// their books hold back.
pub open spec fn is_same_engine<R>(a: EngineView<R>, b: EngineView<R>) -> bool {
    &&& a == EngineView { books: a.books, ..b }
    &&& a.books.len() == 2
    &&& b.books.len() == 2
    &&& is_same_book(a.books[0], b.books[0])
    &&& is_same_book(a.books[1], b.books[1])
}

/// Whether two results of a book are the same, as [`is_same_book`] has it.
pub open spec fn is_same_outcome<R>(
    a: (BookView<R>, Result<bool, Error>),
    b: (BookView<R>, Result<bool, Error>),
) -> bool {
    is_same_book(a.0, b.0) && a.1 == b.1
}

proof fn lemma_same_depth<R: Real>(
    a: BookView<R>,
    b: BookView<R>,
    e: EventView<R>,
    f: EventView<R>,
)
    requires
        is_same_book(a, b),
        is_same_event(e, f),
    ensures
        is_same_outcome(a.after_depth(e), b.after_depth(f)),
{
    match e.kind {
        KindView::Depth { symbol, first_id, last_id, prev_id, bids, asks } => {
            let (x, r) = a.after_next(last_id, bids, asks, e.recv_ns);
            let (y, s) = b.after_next(last_id, bids, asks, e.recv_ns);
            let (la, fa) = a.with_levels(bids, asks);
            let (lb, fb) = b.with_levels(bids, asks);
            assert(is_same_book(la, lb) && fa == fb);
            assert(la.top() == lb.top());
            assert(is_same_book(x, y) && r == s);
        },
        _ => {},
    }
}

proof fn lemma_same_held<R: Real>(
    a: BookView<R>,
    b: BookView<R>,
    held: Seq<EventView<R>>,
    other: Seq<EventView<R>>,
    t: u64,
)
    requires
        is_same_book(a, b),
        are_same_events(held, other),
    ensures
        is_same_outcome(a.after_held(held, t), b.after_held(other, t)),
    decreases held.len(),
{
    if held.len() > 0 {
        assert(is_same_event(held[0], other[0]));
        let e = held.first().received_at(t);
        let f = other.first().received_at(t);
        lemma_same_depth(a, b, e, f);
        let (x, r) = a.after_depth(e);
        let (y, s) = b.after_depth(f);
        if r == Ok::<bool, Error>(true) {
            assert forall|i: int| 0 <= i < held.drop_first().len() implies is_same_event(
                #[trigger] held.drop_first()[i],
                #[trigger] other.drop_first()[i],
            ) by {
                assert(is_same_event(held[i + 1], other[i + 1]));
            }
            lemma_same_held(x, y, held.drop_first(), other.drop_first(), t);
        }
    }
}

proof fn lemma_same_book_after<R: Real>(
    a: BookView<R>,
    b: BookView<R>,
    e: EventView<R>,
    f: EventView<R>,
)
    requires
        is_same_book(a, b),
        is_same_event(e, f),
    ensures
        is_same_outcome(a.after(e), b.after(f)),
{
    match e.kind {
        KindView::Snapshot { symbol, last_id, bids, asks } => {
            let ca = BookView { bids: Map::empty(), asks: Map::empty(), synced: false, ..a };
            let cb = BookView { bids: Map::empty(), asks: Map::empty(), synced: false, ..b };
            let (la, fa) = ca.with_levels(bids, asks);
            let (lb, fb) = cb.with_levels(bids, asks);
            assert(is_same_book(la, lb) && fa == fb);
            if fa is None {
                let sa = BookView {
                    last_id: Some(last_id),
                    generation: a.generation.wrapping_add(1),
                    buffer: Seq::empty(),
                    ..la
                };
                let sb = BookView {
                    last_id: Some(last_id),
                    generation: b.generation.wrapping_add(1),
                    buffer: Seq::empty(),
                    ..lb
                };
                lemma_same_held(sa, sb, a.buffer, b.buffer, e.recv_ns);
            }
        },
        KindView::Depth { .. } => {
            lemma_same_depth(a, b, e, f);
        },
        _ => {},
    }
}

/// Whether two pairs of books display the same.
pub open spec fn display_same<R>(a: Seq<BookView<R>>, b: Seq<BookView<R>>) -> bool {
    &&& a.len() == 2
    &&& b.len() == 2
    &&& displays_same(a[0], b[0])
    &&& displays_same(a[1], b[1])
}

proof fn lemma_same_rules<R: Real>(
    broker: BrokerView<R>,
    e: EventView<R>,
    f: EventView<R>,
    c: Config<R>,
    valid: bool,
)
    requires
        is_same_event(e, f),
    ensures
        broker.enforced(e, c, valid) == broker.enforced(f, c, valid),
{
    let ready = broker.stop_checked(c);
    assert(ready.watched(0, e, c, valid) == ready.watched(0, f, c, valid));
    let first = ready.watched(0, e, c, valid).0;
    assert(first.watched(1, e, c, valid) == first.watched(1, f, c, valid));
}

proof fn lemma_same_marks<R: Real>(
    broker: BrokerView<R>,
    books: Seq<BookView<R>>,
    others: Seq<BookView<R>>,
    now: u64,
    c: Config<R>,
)
    requires
        display_same(books, others),
    ensures
        broker.marked(books, now, c) == broker.marked(others, now, c),
{
}

proof fn lemma_same_news<R: Real>(
    broker: BrokerView<R>,
    e: EventView<R>,
    f: EventView<R>,
    books: Seq<BookView<R>>,
    others: Seq<BookView<R>>,
    c: Config<R>,
    updated: Option<usize>,
)
    requires
        is_same_event(e, f),
        display_same(books, others),
        updated is Some ==> updated->0 < 2,
        e.kind is Depth ==> 0 <= place_of(c.names(), e.kind.symbol()->0)->0 < 2,
    ensures
        broker.informed(e, books, c, updated) == broker.informed(f, others, c, updated),
{
}

proof fn lemma_same_trades<R: Real>(
    broker: BrokerView<R>,
    i: int,
    e: EventView<R>,
    f: EventView<R>,
    books: Seq<BookView<R>>,
    others: Seq<BookView<R>>,
    c: Config<R>,
)
    requires
        is_same_event(e, f),
        display_same(books, others),
        0 <= i < 2,
    ensures
        broker.traded(i, e, books, c) == broker.traded(i, f, others, c),
{
    let o = broker.pending[i]->0;
    assert(broker.fills(i, o.side, books[i], o.qty) == broker.fills(i, o.side, others[i], o.qty));
    let meta = books[i].instrument->0;
    let fills = broker.fills(i, o.side, books[i], o.qty);
    let qty = total(fill_sizes(fills));
    let price = total(fill_values(fills)).spec_over(qty);
    assert(broker.filled(i, o, fills, qty, price, meta, e, c) == broker.filled(
        i,
        o,
        fills,
        qty,
        price,
        meta,
        f,
        c,
    ));
}

proof fn lemma_same_account<R: Real>(
    broker: BrokerView<R>,
    e: EventView<R>,
    f: EventView<R>,
    books: Seq<BookView<R>>,
    others: Seq<BookView<R>>,
    c: Config<R>,
    updated: Option<usize>,
    valid: bool,
)
    requires
        is_same_event(e, f),
        display_same(books, others),
        updated is Some ==> updated->0 < 2,
        e.kind is Depth ==> 0 <= place_of(c.names(), e.kind.symbol()->0)->0 < 2,
    ensures
        broker.after(e, books, c, updated, valid) == broker.after(f, others, c, updated, valid),
{
    reveal(BrokerView::after);
    lemma_same_news(broker, e, f, books, others, c, updated);
    let (told, news) = broker.informed(e, books, c, updated);
    let t = e.recv_ns;
    lemma_same_marks(told, books, others, t, c);
    let dated = told.marked(books, t, c).on_day((e.utc_ns / DAY) as u64);
    lemma_same_rules(dated, e, f, c, valid);
    let ready = dated.enforced(e, c, valid).0;
    lemma_same_marks(ready, books, others, t, c);
    lemma_same_rules(ready.marked(books, t, c), e, f, c, valid);
    if updated is Some {
        let i = updated->0 as int;
        assert(ready.due(i, e, books, c, valid) == ready.due(i, f, others, c, valid));
        lemma_same_trades(ready, i, e, f, books, others, c);
        let met = ready.traded(i, e, books, c).0;
        lemma_same_marks(met, books, others, t, c);
        lemma_same_rules(met.marked(books, t, c), e, f, c, valid);
    }
}

/// Whether an engine has a valid configuration and models of its assets alone.
pub open spec fn is_set_up<R: Real>(engine: EngineView<R>) -> bool {
    &&& engine.config.fault() is None
    &&& forall|k: int|
        0 <= k < engine.models.len() ==> place_of(
            engine.config.names(),
            (#[trigger] engine.models[k]).symbol@,
        ) is Some
}

proof fn lemma_same_advance<R: Real>(
    a: EngineView<R>,
    b: EngineView<R>,
    e: EventView<R>,
    f: EventView<R>,
)
    requires
        is_same_engine(a, b),
        is_same_event(e, f),
    ensures
        is_same_engine(a.advanced(e), b.advanced(f)),
{
    let x = a.entered(e);
    let y = b.entered(f);
    assert(is_same_engine(x, y));
    lemma_same_health(x, y, e.recv_ns);
}

/// Two engines that display the same are healthy at the same times.
proof fn lemma_same_health<R: Real>(a: EngineView<R>, b: EngineView<R>, t: u64)
    requires
        is_same_engine(a, b),
    ensures
        a.valid_at(t) == b.valid_at(t),
        is_same_engine(a.checked(t), b.checked(t)),
{
}

proof fn lemma_same_delivery<R: Real>(
    a: EngineView<R>,
    b: EngineView<R>,
    e: EventView<R>,
    f: EventView<R>,
)
    requires
        is_same_engine(a, b),
        is_same_event(e, f),
        a.config.fault() is None,
    ensures
        is_same_engine(a.delivered(e).0, b.delivered(f).0),
        a.delivered(e).1 == b.delivered(f).1,
        a.delivered(e).1 matches Ok(Some(i)) ==> i < 2,
        a.delivered(e).0.config == a.config,
{
    law_two_instruments(a.config);
    if e.kind.symbol() is Some {
        lemma_place(a.config.names(), e.kind.symbol()->0, 0);
        if place_of(a.config.names(), e.kind.symbol()->0) is Some {
            let i = place_of(a.config.names(), e.kind.symbol()->0)->0;
            lemma_same_book_after(a.books[i], b.books[i], e, f);
            let x = a.books[i].after(e).0;
            let y = b.books[i].after(f).0;
            assert(x.top() == y.top());
            assert(forall|h: HistoryView<R>| #[trigger]
                h.observed(e, x) == h.observed(f, y));
        }
    }
}

proof fn lemma_same_advice<R: Real>(
    a: EngineView<R>,
    b: EngineView<R>,
    e: EventView<R>,
    f: EventView<R>,
    x: Seq<R>,
    k: int,
)
    requires
        is_same_engine(a, b),
        is_same_event(e, f),
        is_set_up(a),
        0 <= k,
    ensures
        is_same_engine(a.advised(e, x, k).0, b.advised(f, x, k).0),
        a.advised(e, x, k).1 == b.advised(f, x, k).1,
    decreases a.models.len() - k,
{
    if k < a.models.len() {
        let m = a.models[k];
        if e.recv_ns > m.selected_through_ns && m.prediction(x).spec_is_finite() {
            law_two_instruments(a.config);
            lemma_place(a.config.names(), m.symbol@, 0);
            let i = place_of(a.config.names(), m.symbol@)->0;
            let p = m.prediction(x);
            let buffer = m.entry_buffer_bps;
            lemma_same_decision(a.broker, i, p, buffer, e, f, a.books, b.books, a.config);
            let (broker, rows) = a.broker.decided(i, p, buffer, e, a.books, a.config);
            lemma_same_advice(
                EngineView { broker, ..a },
                EngineView { broker, ..b },
                e,
                f,
                x,
                k + 1,
            );
        }
    }
}

proof fn lemma_same_decision<R: Real>(
    broker: BrokerView<R>,
    i: int,
    prediction: R,
    buffer: R,
    e: EventView<R>,
    f: EventView<R>,
    books: Seq<BookView<R>>,
    others: Seq<BookView<R>>,
    c: Config<R>,
)
    requires
        is_same_event(e, f),
        display_same(books, others),
        0 <= i < 2,
    ensures
        broker.decided(i, prediction, buffer, e, books, c) == broker.decided(
            i,
            prediction,
            buffer,
            f,
            others,
            c,
        ),
{
    let side = prediction.spec_sign();
    let qty = entry_size(books[i].mid()->0, books[i].instrument->0, c);
    assert(books[i].mid() == others[i].mid());
    assert(broker.fills(i, side, books[i], qty) == broker.fills(i, side, others[i], qty));
    assert(broker.fills(i, side.spec_negated(), books[i], qty) == broker.fills(
        i,
        side.spec_negated(),
        others[i],
        qty,
    ));
}

proof fn lemma_same_tick<R: Real>(
    a: EngineView<R>,
    b: EngineView<R>,
    e: EventView<R>,
    f: EventView<R>,
)
    requires
        is_same_engine(a, b),
        is_same_event(e, f),
        is_set_up(a),
    ensures
        is_same_engine(a.ticked(e).0, b.ticked(f).0),
        a.ticked(e).1 == b.ticked(f).1,
{
    lemma_same_health(a, b, e.recv_ns);
    if a.is_decision(e) {
        let t = e.recv_ns;
        let x = a.sampled(t);
        let y = b.sampled(t);
        assert(is_same_engine(x, y));
        lemma_same_features(x, y, t);
        if x.features_at(t) is Some {
            let v = x.features_at(t)->0;
            lemma_same_advice(x, y, e, f, v, 0);
            assert(x.books[0].top() == y.books[0].top());
            assert(x.books[1].top() == y.books[1].top());
            assert(x.sample_of(e, v) == y.sample_of(f, v));
        }
    }
}

proof fn lemma_same_features<R: Real>(a: EngineView<R>, b: EngineView<R>, t: u64)
    requires
        is_same_engine(a, b),
    ensures
        a.features_at(t) == b.features_at(t),
{
    let (p, q) = (a.books[0], b.books[0]);
    assert(p.top() == q.top());
    assert(p.imbalance(1) == q.imbalance(1) && p.imbalance(5) == q.imbalance(5) && p.imbalance(10)
        == q.imbalance(10));
    let (p, q) = (a.books[1], b.books[1]);
    assert(p.top() == q.top());
    assert(p.imbalance(1) == q.imbalance(1) && p.imbalance(5) == q.imbalance(5) && p.imbalance(10)
        == q.imbalance(10));
    assert(a.histories[0].vector(t, a.books[0]) == b.histories[0].vector(t, b.books[0]));
    assert(a.histories[1].vector(t, a.books[1]) == b.histories[1].vector(t, b.books[1]));
}

/// The time that the venue gives an event, and the text that it was decoded from, change neither
/// what the event yields nor anything that it leaves behind but themselves.
pub proof fn law_exchange_times_change_nothing<R: Real>(
    a: EngineView<R>,
    b: EngineView<R>,
    e: EventView<R>,
    f: EventView<R>,
)
    requires
        is_set_up(a),
        is_same_engine(a, b),
        is_same_event(e, f),
    ensures
        is_same_engine(a.after(e).0, b.after(f).0),
        a.after(e).1 == b.after(f).1,
{
    if a.admission_fault(e) is None {
        reveal(EngineView::handled);
        lemma_same_advance(a, b, e, f);
        let (p, q) = (a.advanced(e), b.advanced(f));
        lemma_same_delivery(p, q, e, f);
        let (seen, moved) = p.delivered(e);
        let other = q.delivered(f).0;
        if moved is Ok {
            assert(is_same_engine(seen.linked(e).0, other.linked(f).0));
            assert(seen.linked(e).1 == other.linked(f).1);
            if seen.linked(e).1 is Ok {
                lemma_same_settlement(seen.linked(e).0, other.linked(f).0, e, f, moved->Ok_0);
            }
        }
    }
}

proof fn lemma_same_settlement<R: Real>(
    a: EngineView<R>,
    b: EngineView<R>,
    e: EventView<R>,
    f: EventView<R>,
    updated: Option<usize>,
)
    requires
        is_set_up(a),
        is_same_engine(a, b),
        is_same_event(e, f),
        updated is Some ==> updated->0 < 2,
        e.kind.symbol() is Some ==> place_of(a.config.names(), e.kind.symbol()->0) is Some,
    ensures
        is_same_engine(a.settled(e, updated).0, b.settled(f, updated).0),
        a.settled(e, updated).1 == b.settled(f, updated).1,
{
    let t = e.recv_ns;
    lemma_same_health(a, b, t);
    let (x, y) = (a.checked(t), b.checked(t));
    lemma_same_health(x, y, t);
    law_two_instruments(a.config);
    if e.kind.symbol() is Some {
        lemma_place(a.config.names(), e.kind.symbol()->0, 0);
    }
    let valid = x.valid_at(t);
    lemma_same_account(x.broker, e, f, x.books, y.books, x.config, updated, valid);
    let (p, rows) = x.traded(e, updated);
    let (q, others) = y.traded(f, updated);
    assert(is_same_engine(p, q) && rows == others);
    if rows is Ok {
        lemma_same_tick(p, q, e, f);
    }
}

/// Two records of the same events that differ in the venue's times and texts alone give the same
/// samples and the same journal.
pub proof fn law_runs_ignore_exchange_times<R: Real>(
    engine: EngineView<R>,
    a: Seq<EventView<R>>,
    b: Seq<EventView<R>>,
)
    requires
        is_set_up(engine),
        engine.books.len() == 2,
        are_same_events(a, b),
    ensures
        engine.ran(a).1 == engine.ran(b).1,
        is_same_engine(engine.ran(a).0, engine.ran(b).0),
        is_set_up(engine.ran(a).0),
    decreases a.len(),
{
    if a.len() > 0 {
        let (c, d) = (a.drop_last(), b.drop_last());
        assert forall|i: int| 0 <= i < c.len() implies is_same_event(
            #[trigger] c[i],
            #[trigger] d[i],
        ) by {
            assert(is_same_event(a[i], b[i]));
        }
        law_runs_ignore_exchange_times(engine, c, d);
        assert(is_same_event(a[a.len() - 1], b[b.len() - 1]));
        let (before, first) = engine.ran(c);
        if first is Ok {
            law_exchange_times_change_nothing(before, engine.ran(d).0, a.last(), b.last());
            lemma_config_stays(before, a.last());
        }
    }
}

} // verus!
