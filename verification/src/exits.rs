//! Exits close what is held and never turn it round.
use crate::book::{BookView, Instrument};
use crate::causality::is_set_up;
use crate::config::{law_two_instruments, Config};
use crate::engine::EngineView;
use crate::fixed::{quotient_of, Fixed, SCALE};
use crate::health::{lemma_passes, passes};
use crate::ladder::{downward, upward};
use crate::laws::has_two_assets;
use crate::model::Model;
use crate::number::{is_positive, is_zero, nothing, ratio, total, Real};
use crate::paper::{fill_sizes, side_index, walk, BrokerView, DAY};
use crate::replay::lemma_config_stays;
use crate::stop::{
    closes, law_stop_flattens, lemma_dated, lemma_parts, lemma_rules_close, lemma_trade_leaves,
};
use crate::takes::{
    lemma_account_accepts, lemma_held_keep_instrument, lemma_half_step, lemma_routed,
    lemma_total_is_exact, lemma_unrouted, lemma_walk_is_bounded,
};
use crate::text::{lemma_place, place_of};
use crate::types::{EventView, KindView};
use vstd::prelude::*;

verus! {

/// Whether the fill of an exit leaves the position that its order still closes: where more than half
/// a step of the order is left, what is held has the same sign as before and the size of what is left
/// of the order. An exit without a fill keeps its size.
pub open spec fn leaves_the_rest<R: Real>(held: R, filled: R, step: R) -> bool {
    let half = step.spec_times(ratio::<R>(1, 2));
    let left = held.spec_magnitude().spec_minus(filled);
    let rest = held.spec_plus(held.spec_sign().spec_negated().spec_times(filled));
    !is_zero(held) && is_positive(step) && half.spec_below(left) ==> {
        &&& is_positive(filled) ==> !is_zero(rest) && rest.spec_sign() == held.spec_sign()
            && rest.spec_magnitude() == left && !left.spec_below(half)
        &&& filled == nothing::<R>() ==> left == held.spec_magnitude()
    }
}

/// Whether the fills of an order of at most a limit add up to more than nothing.
pub open spec fn adds_up<R: Real>(
    levels: Seq<(i64, R)>,
    used: Map<i64, R>,
    left: R,
    meta: Instrument<R>,
    limit: R,
) -> bool {
    let fills = walk(levels, used, left, meta);
    left.spec_within(limit) && is_positive(meta.step) && fills.len() > 0 ==> is_positive(
        total(fill_sizes(fills)),
    )
}

/// Whether numbers reduce positions exactly, for sizes up to a limit.
#[verifier::opaque]
pub open spec fn reduces_exactly<R: Real>(limit: R) -> bool {
    &&& forall|held: R, filled: R, step: R| #[trigger] leaves_the_rest(held, filled, step)
    &&& forall|levels: Seq<(i64, R)>, used: Map<i64, R>, left: R, meta: Instrument<R>| #[trigger]
        adds_up(levels, used, left, meta, limit)
}

/// Half of the largest decimal number of fixed scale.
pub open spec fn half_range() -> Fixed {
    Fixed { units: (i64::MAX / 2) as i64 }
}

/// Decimal numbers of fixed scale reduce positions of up to half their range exactly.
pub proof fn law_fixed_reduces_exactly()
    ensures
        reduces_exactly::<Fixed>(half_range()),
{
    reveal(reduces_exactly);
    assert forall|held: Fixed, filled: Fixed, step: Fixed| #[trigger]
        leaves_the_rest(held, filled, step) by {
        lemma_rest(held, filled, step);
    }
    assert forall|
        levels: Seq<(i64, Fixed)>,
        used: Map<i64, Fixed>,
        left: Fixed,
        meta: Instrument<Fixed>,
    | #[trigger] adds_up(levels, used, left, meta, half_range()) by {
        if left.spec_within(half_range()) && is_positive(meta.step) {
            lemma_walk_is_bounded(levels, used, left, meta);
            lemma_total_is_exact(walk(levels, used, left, meta));
        }
    }
}

/// What is left of a decimal position behind the fill of its exit.
proof fn lemma_rest(held: Fixed, filled: Fixed, step: Fixed)
    ensures
        leaves_the_rest(held, filled, step),
{
    if step.units > 0 && held.units != 0 {
        lemma_half_step(step);
        let scale = SCALE as int;
        let f = filled.units as int;
        if f >= 0 {
            assert((scale * f) / scale == f && scale * f >= 0) by (nonlinear_arith)
                requires
                    f >= 0,
                    scale == 1_000_000_000,
            ;
            assert((-scale) * f == -(scale * f)) by (nonlinear_arith);
            assert(quotient_of(scale * f, scale) == f);
            assert(quotient_of((-scale) * f, scale) == -f);
        }
    }
}

/// Whether a position is within a limit.
pub open spec fn is_within<R: Real>(broker: BrokerView<R>, i: int, limit: R) -> bool {
    broker.positions[i].qty.spec_magnitude().spec_within(limit)
}

/// Whether the step of an instrument, where it is known, is above zero.
pub open spec fn has_step<R: Real>(book: BookView<R>) -> bool {
    book.instrument is Some ==> is_positive(book.instrument->0.step)
}

/// Where an exit trades, what stays on its way closes what stays held.
proof fn lemma_trade_closes<R: Real>(
    broker: BrokerView<R>,
    i: int,
    e: EventView<R>,
    books: Seq<BookView<R>>,
    c: Config<R>,
    limit: R,
)
    requires
        reduces_exactly(limit),
        has_two_assets(broker),
        0 <= i < 2,
        closes(broker, i),
        broker.pending[i] is Some,
        books[i].instrument is Some,
        has_step(books[i]),
        is_within(broker, i, limit),
    ensures
        closes(broker.traded(i, e, books, c).0, i),
        has_two_assets(broker.traded(i, e, books, c).0),
{
    let o = broker.pending[i]->0;
    if o.reduce {
        reveal(reduces_exactly);
        let meta = books[i].instrument->0;
        let held = broker.positions[i].qty;
        let fills = broker.fills(i, o.side, books[i], o.qty);
        let qty = total(fill_sizes(fills));
        let levels = if is_positive(o.side) {
            upward(books[i].asks)
        } else {
            downward(books[i].bids)
        };
        let used = broker.consumed[side_index(i, o.side)];
        assert(fills == walk(levels, used, o.qty, meta));
        assert(adds_up(levels, used, o.qty, meta, limit));
        assert(leaves_the_rest(held, qty, meta.step));
        if !is_positive(qty) {
            assert(fills.len() == 0);
            assert(fill_sizes(fills).len() == 0);
            assert(qty == nothing::<R>());
        }
    }
}

/// Behind every accepted event, an exit that is on its way closes the whole position from the other
/// side: a partial fill leaves an exit for the rest.
pub proof fn law_events_keep_exits_closing<R: Real>(
    broker: BrokerView<R>,
    e: EventView<R>,
    books: Seq<BookView<R>>,
    c: Config<R>,
    updated: Option<usize>,
    valid: bool,
    i: int,
    limit: R,
)
    requires
        reduces_exactly(limit),
        has_two_assets(broker),
        0 <= i < 2,
        closes(broker, i),
        is_within(broker, i, limit),
        updated is Some ==> updated->0 < 2,
        has_step(books[i]),
        broker.after(e, books, c, updated, valid).1 is Ok,
    ensures
        closes(broker.after(e, books, c, updated, valid).0, i),
        has_two_assets(broker.after(e, books, c, updated, valid).0),
{
    lemma_parts(broker, e, books, c, updated, valid);
    lemma_dated(broker, e, books, c, updated);
    let told = broker.informed(e, books, c, updated).0;
    let dated = told.marked(books, e.recv_ns, c).on_day((e.utc_ns / DAY) as u64);
    let ready = told.prepared(e, books, c, valid).0;
    lemma_rules_close(dated, i, e, c, valid);
    lemma_rules_close(ready.marked(books, e.recv_ns, c), i, e, c, valid);
    if updated is Some && ready.due(updated->0 as int, e, books, c, valid) {
        let j = updated->0 as int;
        let met = ready.traded(j, e, books, c).0;
        if j == i {
            lemma_trade_closes(ready, i, e, books, c, limit);
        } else {
            lemma_trade_leaves(ready, j, i, e, books, c);
        }
        lemma_rules_close(met.marked(books, e.recv_ns, c), i, e, c, valid);
    }
}

/// While the daily loss stop is set, all that is still held is on its way out: an order for the whole
/// of it, from the other side.
pub proof fn law_stop_closes_positions<R: Real>(
    broker: BrokerView<R>,
    e: EventView<R>,
    books: Seq<BookView<R>>,
    c: Config<R>,
    updated: Option<usize>,
    valid: bool,
    i: int,
    limit: R,
)
    requires
        reduces_exactly(limit),
        has_two_assets(broker),
        0 <= i < 2,
        c.fits(e.recv_ns),
        closes(broker, i),
        is_within(broker, i, limit),
        updated is Some ==> updated->0 < 2,
        has_step(books[i]),
        broker.after(e, books, c, updated, valid).1 is Ok,
        broker.after(e, books, c, updated, valid).0.stopped,
        !is_zero(broker.after(e, books, c, updated, valid).0.positions[i].qty),
    ensures
        ({
            let after = broker.after(e, books, c, updated, valid).0;
            let held = after.positions[i].qty;
            &&& after.pending[i] is Some
            &&& after.pending[i]->0.reduce
            &&& after.pending[i]->0.side == held.spec_sign().spec_negated()
            &&& after.pending[i]->0.qty == held.spec_magnitude()
        }),
{
    law_stop_flattens(broker, e, books, c, updated, valid, i);
    law_events_keep_exits_closing(broker, e, books, c, updated, valid, i, limit);
}

/// A prediction touches no exit.
pub proof fn law_predictions_keep_exits_closing<R: Real>(
    broker: BrokerView<R>,
    k: int,
    prediction: R,
    buffer: R,
    e: EventView<R>,
    books: Seq<BookView<R>>,
    c: Config<R>,
    i: int,
)
    requires
        has_two_assets(broker),
        0 <= i < 2,
        0 <= k < 2,
        closes(broker, i),
    ensures
        closes(broker.decided(k, prediction, buffer, e, books, c).0, i),
        has_two_assets(broker.decided(k, prediction, buffer, e, books, c).0),
{
}

/// Whether both exits, as far as there are any, close what is held, and both steps, as far as they are
/// known, are above zero.
pub open spec fn exits_close<R: Real>(engine: EngineView<R>) -> bool {
    &&& engine.books.len() == 2
    &&& has_step(engine.books[0])
    &&& has_step(engine.books[1])
    &&& has_two_assets(engine.broker)
    &&& closes(engine.broker, 0)
    &&& closes(engine.broker, 1)
}

proof fn lemma_advice_closes<R: Real>(engine: EngineView<R>, e: EventView<R>, x: Seq<R>, k: int)
    requires
        exits_close(engine),
        is_set_up(engine),
    ensures
        exits_close(engine.advised(e, x, k).0),
    decreases engine.models.len() - k,
{
    if 0 <= k < engine.models.len() {
        let m = engine.models[k];
        if e.recv_ns > m.selected_through_ns && m.prediction(x).spec_is_finite() {
            law_two_instruments(engine.config);
            lemma_place(engine.config.names(), m.symbol@, 0);
            let i = place_of(engine.config.names(), m.symbol@)->0;
            let (p, buffer) = (m.prediction(x), m.entry_buffer_bps);
            let (books, c) = (engine.books, engine.config);
            law_predictions_keep_exits_closing(engine.broker, i, p, buffer, e, books, c, 0);
            law_predictions_keep_exits_closing(engine.broker, i, p, buffer, e, books, c, 1);
            let broker = engine.broker.decided(i, p, buffer, e, books, c).0;
            lemma_advice_closes(EngineView { broker, ..engine }, e, x, k + 1);
        }
    }
}

proof fn lemma_tick_closes<R: Real>(engine: EngineView<R>, e: EventView<R>)
    requires
        exits_close(engine),
        is_set_up(engine),
    ensures
        exits_close(engine.ticked(e).0),
{
    if engine.is_decision(e) {
        let next = engine.sampled(e.recv_ns);
        if next.features_at(e.recv_ns) is Some {
            lemma_advice_closes(next, e, next.features_at(e.recv_ns)->0, 0);
        }
    }
}

/// A book that accepts an event knows a step above zero, if it knows one.
proof fn lemma_book_keeps_step<R: Real>(book: BookView<R>, e: EventView<R>)
    requires
        has_step(book),
        book.after(e).1 is Ok,
    ensures
        has_step(book.after(e).0),
{
    match e.kind {
        KindView::Snapshot { symbol, last_id, bids, asks } => {
            let cleared = BookView::<R> {
                bids: Map::empty(),
                asks: Map::empty(),
                synced: false,
                ..book
            };
            let levels = cleared.with_levels(bids, asks).0;
            lemma_held_keep_instrument(
                BookView {
                    last_id: Some(last_id),
                    generation: book.generation.wrapping_add(1),
                    buffer: Seq::empty(),
                    ..levels
                },
                book.buffer,
                e.recv_ns,
            );
        },
        _ => {},
    }
}

/// The state in which the account sees an event.
proof fn lemma_seen<R: Real>(
    engine: EngineView<R>,
    e: EventView<R>,
    linked: EngineView<R>,
    booked: EngineView<R>,
    i: int,
)
    requires
        0 <= i < 2,
        is_set_up(engine),
        engine.books.len() == 2,
        has_step(engine.books[i]),
        passes(engine, e, linked, booked),
    ensures
        linked.broker == engine.broker,
        linked.config == engine.config,
        linked.models == engine.models,
        linked.books.len() == 2,
        has_step(linked.books[i]),
        ({
            let moved = engine.advanced(e).delivered(e).1->Ok_0;
            moved is Some ==> moved->0 < 2
        }),
{
    reveal(passes);
    let start = engine.advanced(e);
    assert(start.books.len() == 2 && has_step(start.books[i]));
    assert(start.broker == engine.broker && start.config == engine.config);
    assert(start.models == engine.models);
    if e.kind.symbol() is Some {
        lemma_routed(start, e);
        let p = place_of(engine.config.names(), e.kind.symbol()->0)->0;
        assert(linked == start.delivered(e).0);
        if p == i {
            lemma_book_keeps_step(start.books[i], e);
        }
    } else {
        lemma_unrouted(start, e, i);
    }
}

proof fn lemma_event_closes<R: Real>(engine: EngineView<R>, e: EventView<R>, limit: R)
    requires
        reduces_exactly(limit),
        is_set_up(engine),
        exits_close(engine),
        is_within(engine.broker, 0, limit),
        is_within(engine.broker, 1, limit),
        engine.after(e).1 is Ok,
    ensures
        exits_close(engine.after(e).0),
{
    let (linked, booked) = lemma_passes(engine, e);
    lemma_seen(engine, e, linked, booked, 0);
    lemma_seen(engine, e, linked, booked, 1);
    lemma_account_accepts(engine, e);
    reveal(passes);
    let ready = linked.checked(e.recv_ns);
    let moved = engine.advanced(e).delivered(e).1->Ok_0;
    let valid = ready.valid_at(e.recv_ns);
    let (books, c) = (ready.books, ready.config);
    law_events_keep_exits_closing(ready.broker, e, books, c, moved, valid, 0, limit);
    law_events_keep_exits_closing(ready.broker, e, books, c, moved, valid, 1, limit);
    lemma_tick_closes(booked, e);
}

/// Whether positions are within a limit before and behind each of a list of events.
pub open spec fn run_is_within<R: Real>(
    engine: EngineView<R>,
    events: Seq<EventView<R>>,
    limit: R,
) -> bool {
    forall|n: int, i: int|
        0 <= n <= events.len() && 0 <= i < 2 ==> #[trigger] is_within(
            engine.ran(events.take(n)).0.broker,
            i,
            limit,
        )
}

/// However long the engine runs, an exit that is on its way closes the whole position from the other
/// side.
pub proof fn law_runs_keep_exits_closing<R: Real>(
    engine: EngineView<R>,
    events: Seq<EventView<R>>,
    limit: R,
)
    requires
        reduces_exactly(limit),
        is_set_up(engine),
        exits_close(engine),
        engine.ran(events).1 is Ok,
        run_is_within(engine, events, limit),
    ensures
        exits_close(engine.ran(events).0),
        is_set_up(engine.ran(events).0),
    decreases events.len(),
{
    if events.len() > 0 {
        let fewer = events.drop_last();
        let n = events.len() as int;
        assert forall|k: int, i: int| 0 <= k <= fewer.len() && 0 <= i < 2 implies
            #[trigger] is_within(engine.ran(fewer.take(k)).0.broker, i, limit) by {
            assert(fewer.take(k) =~= events.take(k));
            assert(is_within(engine.ran(events.take(k)).0.broker, i, limit));
        }
        law_runs_keep_exits_closing(engine, fewer, limit);
        let before = engine.ran(fewer).0;
        assert(fewer.take(n - 1) =~= fewer);
        assert(is_within(engine.ran(fewer.take(n - 1)).0.broker, 0, limit));
        assert(is_within(engine.ran(fewer.take(n - 1)).0.broker, 1, limit));
        lemma_config_stays(before, events.last());
        lemma_event_closes(before, events.last(), limit);
    }
}

/// A new engine has no exit on its way.
pub proof fn law_engines_start_without_exits<R: Real>(config: Config<R>, models: Seq<Model<R>>)
    ensures
        exits_close(EngineView::<R>::started(config, models)),
{
}

} // verus!
