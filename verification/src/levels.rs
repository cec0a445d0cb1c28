//! What a run takes of a level that is not shown anew, in decimal numbers of fixed scale.
use crate::book::{price_key, BookView};
use crate::causality::is_set_up;
use crate::config::{law_two_instruments, Config};
use crate::engine::EngineView;
use crate::fixed::Fixed;
use crate::health::{lemma_passes, lemma_tick_keeps, passes};
use crate::laws::law_only_displayed_prices_are_restored;
use crate::number::{is_positive, total};
use crate::paper::{at_or_zero, fill_sizes, restored, side_index, BrokerView, DAY};
use crate::replay::lemma_config_stays;
use crate::stop::lemma_parts;
use crate::takes::{
    books_back_fills, books_have_room, filled_at, has_room, is_backed,
    law_events_keep_books_backed, law_fills_deplete_their_levels, lemma_account_accepts,
    lemma_news_back_books, lemma_news_consume, lemma_rules_take_nothing, lemma_tick_takes_nothing,
    run_has_room, slack,
};
use crate::text::{lemma_place, place_of};
use crate::types::{EventView, KindView};
use vstd::prelude::*;

verus! {

/// One side of a book: the bids at even numbers, the asks at odd ones.
pub open spec fn side_of(books: Seq<BookView<Fixed>>, n: int) -> Map<i64, Fixed> {
    if n % 2 == 0 {
        books[n / 2].bids
    } else {
        books[n / 2].asks
    }
}

/// What an event fills at a level of a side, in units.
#[verifier::opaque]
pub open spec fn taken_at(
    broker: BrokerView<Fixed>,
    e: EventView<Fixed>,
    books: Seq<BookView<Fixed>>,
    c: Config<Fixed>,
    updated: Option<usize>,
    valid: bool,
    n: int,
    k: i64,
) -> int {
    let ready = broker.informed(e, books, c, updated).0.prepared(e, books, c, valid).0;
    let i = updated->0 as int;
    let o = ready.pending[i]->0;
    let fills = ready.fills(i, o.side, books[i], o.qty);
    if updated is Some && ready.due(i, e, books, c, valid) && !ready.traded(i, e, books, c).2
        && is_positive(total(fill_sizes(fills))) && side_index(i, o.side) == n {
        filled_at(fills, k)
    } else {
        0
    }
}

/// Whether one of a list of levels has a key.
pub open spec fn names_key(levels: Seq<[Fixed; 2]>, tick: Fixed, k: i64) -> bool {
    exists|j: int| 0 <= j < levels.len() && price_key((#[trigger] levels[j])[0], tick) == k
}

/// Whether an event shows a level of a side anew: it is a disconnection, a snapshot of the asset, or
/// an update that moves the book on and names the level.
pub open spec fn shows(
    e: EventView<Fixed>,
    books: Seq<BookView<Fixed>>,
    c: Config<Fixed>,
    updated: Option<usize>,
    n: int,
    k: i64,
) -> bool {
    let here = place_of(c.names(), e.kind.symbol()->0) == Some(n / 2);
    match e.kind {
        KindView::Disconnect { .. } => true,
        KindView::Snapshot { .. } => here,
        KindView::Depth { bids, asks, .. } => here && updated == Some((n / 2) as usize)
            && names_key(
            if n % 2 == 0 {
                bids
            } else {
                asks
            },
            books[n / 2].instrument->0.tick,
            k,
        ),
        _ => false,
    }
}

proof fn lemma_unnamed(used: Map<i64, Fixed>, levels: Seq<[Fixed; 2]>, tick: Fixed, k: i64)
    requires
        !names_key(levels, tick, k),
    ensures
        at_or_zero(restored(used, levels, tick), k) == at_or_zero(used, k),
{
    law_only_displayed_prices_are_restored(used, levels, tick, k);
}

/// What was taken of a level stays noted where the event does not show it anew.
proof fn lemma_not_shown(
    broker: BrokerView<Fixed>,
    e: EventView<Fixed>,
    books: Seq<BookView<Fixed>>,
    c: Config<Fixed>,
    updated: Option<usize>,
    n: int,
    k: i64,
)
    requires
        0 <= n < 4,
        broker.consumed.len() == 4,
        !shows(e, books, c, updated, n, k),
        e.kind.symbol() is Some ==> place_of(c.names(), e.kind.symbol()->0) is Some && 0
            <= place_of(c.names(), e.kind.symbol()->0)->0 < 2,
    ensures
        at_or_zero(broker.consumed_after(e, books, c, updated)[n], k) == at_or_zero(
            broker.consumed[n],
            k,
        ),
{
    let i = place_of(c.names(), e.kind.symbol()->0)->0;
    assert(n == 0 || n == 1 || n == 2 || n == 3);
    match e.kind {
        KindView::Depth { bids, asks, .. } => {
            let tick = books[n / 2].instrument->0.tick;
            if i == n / 2 && updated == Some((n / 2) as usize) {
                if n % 2 == 0 {
                    lemma_unnamed(broker.consumed[n], bids, tick, k);
                } else {
                    lemma_unnamed(broker.consumed[n], asks, tick, k);
                }
            }
        },
        _ => {},
    }
}

/// Behind an event, what was taken of a displayed level has grown by exactly what filled there.
pub proof fn law_events_note_their_fills(
    broker: BrokerView<Fixed>,
    e: EventView<Fixed>,
    books: Seq<BookView<Fixed>>,
    c: Config<Fixed>,
    updated: Option<usize>,
    valid: bool,
    n: int,
    k: i64,
)
    requires
        0 <= n < 4,
        updated is Some ==> updated->0 < 2,
        broker.after(e, books, c, updated, valid).1 is Ok,
        broker.consumed_after(e, books, c, updated).len() == 4,
        has_room(books[n / 2].bids),
        has_room(books[n / 2].asks),
        is_backed(books[n / 2], broker.consumed_after(e, books, c, updated), n / 2),
        side_of(books, n).contains_key(k),
    ensures
        at_or_zero(broker.after(e, books, c, updated, valid).0.consumed[n], k).units == at_or_zero(
            broker.consumed_after(e, books, c, updated)[n],
            k,
        ).units + taken_at(broker, e, books, c, updated, valid, n, k),
{
    reveal(taken_at);
    lemma_parts(broker, e, books, c, updated, valid);
    lemma_news_consume(broker, e, books, c, updated, valid);
    let told = broker.informed(e, books, c, updated).0;
    let dated = told.marked(books, e.recv_ns, c).on_day((e.utc_ns / DAY) as u64);
    let ready = told.prepared(e, books, c, valid).0;
    lemma_rules_take_nothing(dated, e, c, valid);
    lemma_rules_take_nothing(ready.marked(books, e.recv_ns, c), e, c, valid);
    if updated is Some && ready.due(updated->0 as int, e, books, c, valid) {
        let i = updated->0 as int;
        lemma_trade_notes(ready, i, e, books, c, n, k);
        let met = ready.traded(i, e, books, c).0;
        lemma_rules_take_nothing(met.marked(books, e.recv_ns, c), e, c, valid);
    }
}

proof fn lemma_trade_notes(
    broker: BrokerView<Fixed>,
    i: int,
    e: EventView<Fixed>,
    books: Seq<BookView<Fixed>>,
    c: Config<Fixed>,
    n: int,
    k: i64,
)
    requires
        0 <= n < 4,
        0 <= i < 2,
        broker.consumed.len() == 4,
        broker.pending[i] is Some,
        books[i].instrument is Some,
        has_room(books[n / 2].bids),
        has_room(books[n / 2].asks),
        is_backed(books[n / 2], broker.consumed, n / 2),
        side_of(books, n).contains_key(k),
    ensures
        ({
            let o = broker.pending[i]->0;
            let fills = broker.fills(i, o.side, books[i], o.qty);
            let (met, _, refused) = broker.traded(i, e, books, c);
            at_or_zero(met.consumed[n], k).units == at_or_zero(broker.consumed[n], k).units + if
                !refused && is_positive(total(fill_sizes(fills))) && side_index(i, o.side) == n {
                filled_at(fills, k)
            } else {
                0
            }
        }),
{
    let o = broker.pending[i]->0;
    let fills = broker.fills(i, o.side, books[i], o.qty);
    if !broker.traded(i, e, books, c).2 && is_positive(total(fill_sizes(fills))) && side_index(
        i,
        o.side,
    ) == n {
        law_fills_deplete_their_levels(broker, i, e, books, c, k);
    }
}

/// What an event that an engine accepts fills at a level of a side, in units.
#[verifier::opaque]
pub open spec fn taken_by(engine: EngineView<Fixed>, e: EventView<Fixed>, n: int, k: i64) -> int {
    let (seen, moved) = engine.advanced(e).delivered(e);
    let ready = seen.linked(e).0.checked(e.recv_ns);
    taken_at(
        ready.broker,
        e,
        ready.books,
        ready.config,
        moved->Ok_0,
        ready.valid_at(e.recv_ns),
        n,
        k,
    )
}

/// Whether an event that an engine accepts shows a level of a side anew.
#[verifier::opaque]
pub open spec fn shown_by(engine: EngineView<Fixed>, e: EventView<Fixed>, n: int, k: i64) -> bool {
    let (seen, moved) = engine.advanced(e).delivered(e);
    shows(e, seen.linked(e).0.books, engine.config, moved->Ok_0, n, k)
}

/// An accepted event that does not show a displayed level anew adds to what was taken of it exactly
/// what it fills there.
pub proof fn law_levels_stay_depleted(engine: EngineView<Fixed>, e: EventView<Fixed>, n: int, k: i64)
    requires
        0 <= n < 4,
        is_set_up(engine),
        books_back_fills(engine),
        engine.after(e).1 is Ok,
        books_have_room(engine.after(e).0),
        side_of(engine.after(e).0.books, n).contains_key(k),
        !shown_by(engine, e, n, k),
    ensures
        at_or_zero(engine.after(e).0.broker.consumed[n], k).units == at_or_zero(
            engine.broker.consumed[n],
            k,
        ).units + taken_by(engine, e, n, k),
{
    let (linked, booked) = lemma_passes(engine, e);
    lemma_outcome(engine, e, linked, booked);
    let moved = engine.advanced(e).delivered(e).1->Ok_0;
    lemma_news_back_books(engine, e, linked, booked, n / 2);
    lemma_places(engine, e, linked, booked);
    let valid = linked.checked(e.recv_ns).valid_at(e.recv_ns);
    lemma_in_short(engine, e, linked, booked, n, k);
    lemma_unshown_level(engine.broker, e, linked.books, engine.config, moved, valid, n, k);
}

/// What an event shows and takes, over the state behind its news.
proof fn lemma_in_short(
    engine: EngineView<Fixed>,
    e: EventView<Fixed>,
    linked: EngineView<Fixed>,
    booked: EngineView<Fixed>,
    n: int,
    k: i64,
)
    requires
        passes(engine, e, linked, booked),
    ensures
        ({
            let moved = engine.advanced(e).delivered(e).1->Ok_0;
            let valid = linked.checked(e.recv_ns).valid_at(e.recv_ns);
            let (broker, books, c) = (linked.broker, linked.books, linked.config);
            &&& shown_by(engine, e, n, k) == shows(e, books, engine.config, moved, n, k)
            &&& taken_by(engine, e, n, k) == taken_at(broker, e, books, c, moved, valid, n, k)
        }),
{
    reveal(passes);
    reveal(shown_by);
    reveal(taken_by);
}

/// What an accepted event leaves of books and liquidity.
proof fn lemma_outcome(
    engine: EngineView<Fixed>,
    e: EventView<Fixed>,
    linked: EngineView<Fixed>,
    booked: EngineView<Fixed>,
)
    requires
        engine.after(e).1 is Ok,
        passes(engine, e, linked, booked),
    ensures
        ({
            let moved = engine.advanced(e).delivered(e).1->Ok_0;
            let ready = linked.checked(e.recv_ns);
            let valid = ready.valid_at(e.recv_ns);
            let (broker, rows) = linked.broker.after(e, linked.books, linked.config, moved, valid);
            &&& ready.books == linked.books
            &&& ready.broker == linked.broker
            &&& ready.config == linked.config
            &&& engine.after(e).0.books == linked.books
            &&& engine.after(e).0.broker.consumed == broker.consumed
            &&& rows is Ok
        }),
{
    reveal(passes);
    lemma_tick_keeps(booked, e);
    lemma_tick_takes_nothing(booked, e);
    lemma_account_accepts(engine, e);
}

proof fn lemma_unshown_level(
    broker: BrokerView<Fixed>,
    e: EventView<Fixed>,
    books: Seq<BookView<Fixed>>,
    c: Config<Fixed>,
    updated: Option<usize>,
    valid: bool,
    n: int,
    k: i64,
)
    requires
        0 <= n < 4,
        updated is Some ==> updated->0 < 2,
        broker.after(e, books, c, updated, valid).1 is Ok,
        broker.consumed.len() == 4,
        broker.consumed_after(e, books, c, updated).len() == 4,
        has_room(books[n / 2].bids),
        has_room(books[n / 2].asks),
        is_backed(books[n / 2], broker.consumed_after(e, books, c, updated), n / 2),
        side_of(books, n).contains_key(k),
        !shows(e, books, c, updated, n, k),
        e.kind.symbol() is Some ==> place_of(c.names(), e.kind.symbol()->0) is Some && 0
            <= place_of(c.names(), e.kind.symbol()->0)->0 < 2,
    ensures
        at_or_zero(broker.after(e, books, c, updated, valid).0.consumed[n], k).units == at_or_zero(
            broker.consumed[n],
            k,
        ).units + taken_at(broker, e, books, c, updated, valid, n, k),
{
    lemma_not_shown(broker, e, books, c, updated, n, k);
    law_events_note_their_fills(broker, e, books, c, updated, valid, n, k);
}

proof fn lemma_places(
    engine: EngineView<Fixed>,
    e: EventView<Fixed>,
    linked: EngineView<Fixed>,
    booked: EngineView<Fixed>,
)
    requires
        is_set_up(engine),
        passes(engine, e, linked, booked),
    ensures
        e.kind.symbol() is Some ==> place_of(engine.config.names(), e.kind.symbol()->0) is Some && 0
            <= place_of(engine.config.names(), e.kind.symbol()->0)->0 < 2,
{
    reveal(passes);
    law_two_instruments(engine.config);
    if e.kind.symbol() is Some {
        lemma_place(engine.config.names(), e.kind.symbol()->0, 0);
    }
}

/// What the events of a run fill at a level of a side, in all and in units.
pub open spec fn taken_in(
    engine: EngineView<Fixed>,
    events: Seq<EventView<Fixed>>,
    n: int,
    k: i64,
) -> int
    decreases events.len(),
{
    if events.len() == 0 {
        0
    } else {
        taken_in(engine, events.drop_last(), n, k) + taken_by(
            engine.ran(events.drop_last()).0,
            events.last(),
            n,
            k,
        )
    }
}

/// Whether a level of a side is displayed all along a run, and no event shows it anew.
pub open spec fn stays_shown(
    engine: EngineView<Fixed>,
    events: Seq<EventView<Fixed>>,
    n: int,
    k: i64,
) -> bool {
    &&& forall|m: int|
        0 <= m <= events.len() ==> side_of(
            #[trigger] engine.ran(events.take(m)).0.books,
            n,
        ).contains_key(k)
    &&& forall|m: int|
        0 <= m < events.len() ==> !shown_by(
            engine.ran(events.take(m)).0,
            #[trigger] events[m],
            n,
            k,
        )
}

proof fn lemma_shorter_run(
    engine: EngineView<Fixed>,
    events: Seq<EventView<Fixed>>,
    n: int,
    k: i64,
)
    requires
        events.len() > 0,
        run_has_room(engine, events),
        stays_shown(engine, events, n, k),
    ensures
        run_has_room(engine, events.drop_last()),
        stays_shown(engine, events.drop_last(), n, k),
        books_have_room(engine.ran(events).0),
        side_of(engine.ran(events).0.books, n).contains_key(k),
        !shown_by(engine.ran(events.drop_last()).0, events.last(), n, k),
{
    let fewer = events.drop_last();
    let all = events.len() as int;
    assert forall|m: int| 0 <= m <= fewer.len() implies books_have_room(
        #[trigger] engine.ran(fewer.take(m)).0,
    ) by {
        assert(fewer.take(m) =~= events.take(m));
    }
    assert forall|m: int| 0 <= m <= fewer.len() implies side_of(
        #[trigger] engine.ran(fewer.take(m)).0.books,
        n,
    ).contains_key(k) by {
        assert(fewer.take(m) =~= events.take(m));
    }
    assert forall|m: int| 0 <= m < fewer.len() implies !shown_by(
        engine.ran(fewer.take(m)).0,
        #[trigger] fewer[m],
        n,
        k,
    ) by {
        assert(fewer.take(m) =~= events.take(m));
        assert(fewer[m] == events[m]);
    }
    assert(events.take(all) =~= events && events.take(all - 1) =~= fewer);
    assert(books_have_room(engine.ran(events.take(all)).0));
    assert(side_of(engine.ran(events.take(all)).0.books, n).contains_key(k));
    assert(events[all - 1] == events.last());
}

proof fn lemma_run_notes(
    engine: EngineView<Fixed>,
    events: Seq<EventView<Fixed>>,
    n: int,
    k: i64,
)
    requires
        0 <= n < 4,
        is_set_up(engine),
        books_back_fills(engine),
        engine.ran(events).1 is Ok,
        run_has_room(engine, events),
        stays_shown(engine, events, n, k),
    ensures
        is_set_up(engine.ran(events).0),
        books_back_fills(engine.ran(events).0),
        at_or_zero(engine.ran(events).0.broker.consumed[n], k).units == at_or_zero(
            engine.broker.consumed[n],
            k,
        ).units + taken_in(engine, events, n, k),
    decreases events.len(),
{
    if events.len() > 0 {
        let fewer = events.drop_last();
        lemma_shorter_run(engine, events, n, k);
        lemma_run_notes(engine, fewer, n, k);
        let before = engine.ran(fewer).0;
        lemma_config_stays(before, events.last());
        law_events_keep_books_backed(before, events.last());
        law_levels_stay_depleted(before, events.last(), n, k);
    }
}

/// All that a run fills at a level that stays displayed and is not shown anew, is no more than the
/// level displays, but for the slack: its depth serves once.
pub proof fn law_levels_serve_once(
    engine: EngineView<Fixed>,
    events: Seq<EventView<Fixed>>,
    n: int,
    k: i64,
)
    requires
        0 <= n < 4,
        is_set_up(engine),
        books_back_fills(engine),
        engine.ran(events).1 is Ok,
        run_has_room(engine, events),
        stays_shown(engine, events, n, k),
    ensures
        ({
            let last = engine.ran(events).0.books;
            taken_in(engine, events, n, k) <= side_of(last, n)[k].units + slack(
                last[n / 2].instrument->0.step,
            )
        }),
{
    lemma_run_notes(engine, events, n, k);
    let start = engine.books[n / 2];
    let last = engine.ran(events).0.books[n / 2];
    assert(events.take(0) =~= Seq::empty());
    assert(events.take(events.len() as int) =~= events);
    assert(side_of(engine.ran(events.take(0)).0.books, n).contains_key(k));
    assert(side_of(engine.ran(events.take(events.len() as int)).0.books, n).contains_key(k));
    assert(n / 2 == 0 || n / 2 == 1);
    assert(is_backed(start, engine.broker.consumed, n / 2));
    assert(is_backed(last, engine.ran(events).0.broker.consumed, n / 2));
}

} // verus!
