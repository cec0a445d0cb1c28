//! What holds of the engine as a whole.
use crate::book::{
    is_amount, level_fault, placed_all, price_key, side_after, sound_len, BookView, Instrument,
};
use crate::causality::is_set_up;
use crate::config::{law_two_instruments, Config};
use crate::engine::{feed_index, EngineView, SampleView, Yield};
use crate::error::Error;
use crate::features::mid_at;
use crate::fixed::Fixed;
use crate::ladder::{highest, is_highest, is_lowest};
use crate::number::{is_zero, total, zero, Real};
use crate::paper::{
    entry_size, fee_of, fill_sizes, fill_values, is_enough, is_entry, restored, round_trip_cost,
    BrokerView, Order, DAY,
};
use crate::replay::{journal_of, lemma_advice_keeps, lemma_config_stays};
use crate::text::{lemma_place, place_of};
use crate::types::{EventView, KindView, MS};
use vstd::prelude::*;

verus! {

/// An update that a book already covers changes nothing: it neither refreshes a stale book nor
/// displays a level anew.
pub proof fn law_duplicates_change_nothing<R: Real>(book: BookView<R>, e: EventView<R>)
    requires
        e.kind matches KindView::Depth { first_id, last_id, .. } && first_id <= last_id
            && book.last_id is Some && book.covers(book.last_id->0, last_id),
    ensures
        book.after(e) == (book, Ok::<bool, Error>(true)),
{
}

/// An update that does not follow on the book leaves no book: a snapshot is needed, and the update
/// is held back for it.
pub proof fn law_gaps_drop_the_book<R: Real>(book: BookView<R>, e: EventView<R>)
    requires
        e.kind matches KindView::Depth { first_id, last_id, prev_id, .. } && first_id <= last_id
            && book.last_id is Some && !book.covers(book.last_id->0, last_id) && !book.continues(
            book.last_id->0,
            first_id,
            last_id,
            prev_id,
        ),
    ensures
        book.after(e).1 == Ok::<bool, Error>(false),
        !book.after(e).0.synced,
        book.after(e).0.last_id is None,
        book.after(e).0.top() is None,
        book.after(e).0.buffer == seq![e],
{
    assert(highest(Map::<i64, R>::empty()) is None);
}

/// Whether a synchronized book has a top and a place in the sequence.
pub open spec fn is_consistent<R: Real>(book: BookView<R>) -> bool {
    book.synced ==> book.top() is Some && book.last_id is Some
}

/// Every event that is accepted keeps a synchronized book two-sided and in sequence: a crossed or
/// one-sided book is given up.
pub proof fn law_synced_books_are_consistent<R: Real>(book: BookView<R>, e: EventView<R>)
    requires
        is_consistent(book),
        book.after(e).1 is Ok,
    ensures
        is_consistent(book.after(e).0),
{
    match e.kind {
        KindView::Snapshot { symbol, last_id, bids, asks } => {
            let cleared = BookView {
                bids: Map::empty(),
                asks: Map::empty(),
                synced: false,
                ..book
            };
            let (levels, fault) = cleared.with_levels(bids, asks);
            let start = BookView {
                last_id: Some(last_id),
                generation: book.generation.wrapping_add(1),
                buffer: Seq::empty(),
                ..levels
            };
            lemma_held_consistent(start, book.buffer, e.recv_ns);
        },
        _ => {},
    }
}

proof fn lemma_held_consistent<R: Real>(book: BookView<R>, held: Seq<EventView<R>>, t: u64)
    requires
        is_consistent(book),
        book.after_held(held, t).1 is Ok,
    ensures
        is_consistent(book.after_held(held, t).0),
    decreases held.len(),
{
    if held.len() > 0 {
        let (next, r) = book.after_depth(held.first().received_at(t));
        if r == Ok::<bool, Error>(true) {
            lemma_held_consistent(next, held.drop_first(), t);
        }
    }
}

/// Whether a quantity can be displayed: it is finite, not below zero and not zero.
pub open spec fn is_displayable<R: Real>(q: R) -> bool {
    q.spec_is_finite() && zero::<R>().spec_within(q) && !q.spec_same(zero::<R>())
}

/// Whether every quantity of a side can be displayed.
pub open spec fn displays_quantities<R: Real>(side: Map<i64, R>) -> bool {
    forall|k: i64| #[trigger] side.contains_key(k) ==> is_displayable(side[k])
}

/// What holds of every book that accepted events have led to: a synchronized one has rules, two
/// sides that do not cross, and a place in the sequence; one with a place holds nothing back; and
/// what it displays is above zero.
pub open spec fn is_regular<R: Real>(book: BookView<R>) -> bool {
    &&& is_consistent(book)
    &&& book.last_id is Some ==> book.buffer.len() == 0
    &&& displays_quantities(book.bids)
    &&& displays_quantities(book.asks)
}

proof fn lemma_sides_display<R: Real>(side: Map<i64, R>, levels: Seq<[R; 2]>, tick: R)
    requires
        displays_quantities(side),
        forall|j: int|
            0 <= j < levels.len() ==> level_fault(#[trigger] levels[j], tick) is None,
    ensures
        displays_quantities(placed_all(side, levels, tick)),
    decreases levels.len(),
{
    if levels.len() > 0 {
        let fewer = levels.drop_last();
        assert forall|j: int| 0 <= j < fewer.len() implies level_fault(
            #[trigger] fewer[j],
            tick,
        ) is None by {
            assert(level_fault(levels[j], tick) is None);
        }
        lemma_sides_display(side, fewer, tick);
        assert(level_fault(levels[levels.len() - 1], tick) is None);
    }
}

proof fn lemma_sound_levels<R: Real>(levels: Seq<[R; 2]>, tick: R)
    ensures
        0 <= sound_len(levels, tick) <= levels.len(),
        forall|j: int|
            0 <= j < sound_len(levels, tick) ==> level_fault(#[trigger] levels[j], tick) is None,
    decreases levels.len(),
{
    if levels.len() > 0 {
        let fewer = levels.drop_last();
        lemma_sound_levels(fewer, tick);
        assert forall|j: int| 0 <= j < sound_len(levels, tick) implies level_fault(
            #[trigger] levels[j],
            tick,
        ) is None by {
            if j < fewer.len() {
                assert(fewer[j] == levels[j]);
            }
        }
    }
}

proof fn lemma_side_after_displays<R: Real>(side: Map<i64, R>, levels: Seq<[R; 2]>, tick: R)
    requires
        displays_quantities(side),
    ensures
        displays_quantities(side_after(side, levels, tick).0),
{
    lemma_sound_levels(levels, tick);
    let n = sound_len(levels, tick);
    assert forall|j: int| 0 <= j < levels.take(n).len() implies level_fault(
        #[trigger] levels.take(n)[j],
        tick,
    ) is None by {
        assert(level_fault(levels[j], tick) is None);
    }
    lemma_sides_display(side, levels.take(n), tick);
}

proof fn lemma_levels_display<R: Real>(book: BookView<R>, bids: Seq<[R; 2]>, asks: Seq<[R; 2]>)
    requires
        displays_quantities(book.bids),
        displays_quantities(book.asks),
    ensures
        displays_quantities(book.with_levels(bids, asks).0.bids),
        displays_quantities(book.with_levels(bids, asks).0.asks),
{
    if book.instrument is Some {
        lemma_side_after_displays(book.bids, bids, book.instrument->0.tick);
        lemma_side_after_displays(book.asks, asks, book.instrument->0.tick);
    }
}

proof fn lemma_depth_regular<R: Real>(book: BookView<R>, e: EventView<R>)
    requires
        is_regular(book),
        book.after_depth(e).1 is Ok,
    ensures
        is_regular(book.after_depth(e).0),
        book.generation < u64::MAX ==> book.generation <= book.after_depth(e).0.generation
            <= book.generation + 1,
        book.after_depth(e).1 == Ok::<bool, Error>(true) ==> book.after_depth(e).0.generation
            == book.generation,
        book.last_id is Some && book.after_depth(e).1 == Ok::<bool, Error>(true)
            ==> book.after_depth(e).0.last_id is Some,
{
    match e.kind {
        KindView::Depth { symbol, first_id, last_id, prev_id, bids, asks } => {
            lemma_levels_display(book, bids, asks);
        },
        _ => {},
    }
}

proof fn lemma_held_regular<R: Real>(book: BookView<R>, held: Seq<EventView<R>>, t: u64)
    requires
        is_regular(book),
        book.last_id is Some,
        book.after_held(held, t).1 is Ok,
    ensures
        is_regular(book.after_held(held, t).0),
        book.generation < u64::MAX ==> book.generation <= book.after_held(held, t).0.generation
            <= book.generation + 1,
    decreases held.len(),
{
    if held.len() > 0 {
        let e = held.first().received_at(t);
        lemma_depth_regular(book, e);
        let (next, r) = book.after_depth(e);
        if r == Ok::<bool, Error>(true) {
            lemma_held_regular(next, held.drop_first(), t);
        }
    }
}

/// Every accepted event keeps a book regular and does not turn its generation back.
pub proof fn law_accepted_events_keep_books_regular<R: Real>(book: BookView<R>, e: EventView<R>)
    requires
        is_regular(book),
        book.after(e).1 is Ok,
    ensures
        is_regular(book.after(e).0),
        book.generation <= u64::MAX - 2 ==> book.generation <= book.after(e).0.generation
            <= book.generation + 2,
{
    law_synced_books_are_consistent(book, e);
    match e.kind {
        KindView::Snapshot { symbol, last_id, bids, asks } => {
            let cleared = BookView {
                bids: Map::empty(),
                asks: Map::empty(),
                synced: false,
                ..book
            };
            lemma_levels_display(cleared, bids, asks);
            let (levels, fault) = cleared.with_levels(bids, asks);
            let start = BookView {
                last_id: Some(last_id),
                generation: book.generation.wrapping_add(1),
                buffer: Seq::empty(),
                ..levels
            };
            lemma_held_regular(start, book.buffer, e.recv_ns);
        },
        KindView::Depth { .. } => {
            lemma_depth_regular(book, e);
        },
        _ => {},
    }
}

/// A book that has seen nothing is regular, and so is one that was given up, of a later generation.
pub proof fn law_books_start_regular<R: Real>(book: BookView<R>)
    ensures
        is_regular(BookView::<R>::blank()),
        is_regular(book.invalidated()),
        book.generation < u64::MAX ==> book.invalidated().generation == book.generation + 1,
{
}

/// A synchronized book has rules, levels on both sides, and a best bid below its best ask.
pub proof fn law_synced_books_do_not_cross<R: Real>(book: BookView<R>)
    requires
        is_regular(book),
        book.synced,
    ensures
        book.instrument is Some,
        exists|b: i64, a: i64|
            is_highest(book.bids, b) && is_lowest(book.asks, a) && b < a,
{
    let b = choose|k: i64| is_highest(book.bids, k);
    let a = choose|k: i64| is_lowest(book.asks, k);
    assert(is_highest(book.bids, b) && is_lowest(book.asks, a) && b < a);
}

/// Whether what is not below another number, and not the same, is above it.
pub open spec fn compares_totally<R: Real>() -> bool {
    forall|a: R, b: R| #[trigger] a.spec_within(b) && !b.spec_same(a) ==> a.spec_below(b)
}

/// Where numbers compare totally, what a regular book displays is finite and above zero.
pub proof fn law_displayed_quantities_are_amounts<R: Real>(book: BookView<R>, k: i64)
    requires
        compares_totally::<R>(),
        is_regular(book),
    ensures
        book.bids.contains_key(k) ==> is_amount(book.bids[k]),
        book.asks.contains_key(k) ==> is_amount(book.asks[k]),
{
}

/// Decimal numbers of fixed scale compare totally.
pub proof fn law_fixed_compares_totally()
    ensures
        compares_totally::<Fixed>(),
{
}

/// What a snapshot tells is not known before it is received: a book that one completes is not fresh
/// at any earlier time.
pub proof fn law_snapshots_are_available_when_received<R: Real>(
    book: BookView<R>,
    e: EventView<R>,
    earlier: u64,
    stale_ms: u64,
)
    requires
        e.kind is Snapshot,
        earlier < e.recv_ns,
    ensures
        !book.after(e).0.fresh(earlier, stale_ms),
{
    match e.kind {
        KindView::Snapshot { symbol, last_id, bids, asks } => {
            let cleared = BookView {
                bids: Map::empty(),
                asks: Map::empty(),
                synced: false,
                ..book
            };
            let (levels, fault) = cleared.with_levels(bids, asks);
            let start = BookView {
                last_id: Some(last_id),
                generation: book.generation.wrapping_add(1),
                buffer: Seq::empty(),
                ..levels
            };
            lemma_held_dated(start, book.buffer, e.recv_ns);
        },
        _ => {},
    }
}

proof fn lemma_held_dated<R: Real>(book: BookView<R>, held: Seq<EventView<R>>, t: u64)
    requires
        book.synced ==> book.updated_ns == t,
    ensures
        book.after_held(held, t).0.synced ==> book.after_held(held, t).0.updated_ns == t,
    decreases held.len(),
{
    if held.len() > 0 {
        let (next, r) = book.after_depth(held.first().received_at(t));
        if r == Ok::<bool, Error>(true) {
            lemma_held_dated(next, held.drop_first(), t);
        }
    }
}

/// An event that is not admitted changes nothing.
pub proof fn law_refused_events_change_nothing<R: Real>(engine: EngineView<R>, e: EventView<R>)
    requires
        engine.admission_fault(e) is Some,
    ensures
        engine.after(e) == (engine, Err::<Yield<R>, Error>(engine.admission_fault(e)->0)),
{
}

/// An event that is admitted moves the sequence forward and the clock not backwards, whatever else
/// comes of it.
pub proof fn law_clock_and_sequence_advance<R: Real>(engine: EngineView<R>, e: EventView<R>)
    requires
        engine.admission_fault(e) is None,
    ensures
        engine.after(e).0.last_seq == e.seq,
        engine.after(e).0.now == e.recv_ns,
        e.seq > engine.last_seq,
        e.recv_ns >= engine.now,
{
    reveal(EngineView::handled);
    let (seen, moved) = engine.advanced(e).delivered(e);
    if moved is Ok {
        let (joined, link) = seen.linked(e);
        if link is Ok {
            let (booked, rows) = joined.checked(e.recv_ns).traded(e, moved->Ok_0);
            if rows is Ok && booked.is_decision(e) {
                let next = booked.sampled(e.recv_ns);
                if next.features_at(e.recv_ns) is Some {
                    lemma_advice_keeps(next, e, next.features_at(e.recv_ns)->0, 0);
                }
            }
        }
    }
}

/// A run over two stretches of events is a run over the second from where a run over the first
/// ended: a run that is resumed ends where one that was never interrupted does, with the same
/// samples and the same journal.
pub proof fn law_runs_compose<R: Real>(
    engine: EngineView<R>,
    a: Seq<EventView<R>>,
    b: Seq<EventView<R>>,
)
    requires
        engine.ran(a).1 is Ok,
    ensures
        engine.ran(a + b).0 == engine.ran(a).0.ran(b).0,
        match engine.ran(a).0.ran(b).1 {
            Err(fault) => engine.ran(a + b).1 == Err::<Seq<Yield<R>>, Error>(fault),
            Ok(list) => engine.ran(a + b).1 == Ok::<Seq<Yield<R>>, Error>(
                engine.ran(a).1->Ok_0 + list,
            ),
        },
    decreases b.len(),
{
    if b.len() == 0 {
        assert(a + b =~= a);
        assert(engine.ran(a).1->Ok_0 + Seq::<Yield<R>>::empty() =~= engine.ran(a).1->Ok_0);
    } else {
        assert((a + b).drop_last() =~= a + b.drop_last());
        law_runs_compose(engine, a, b.drop_last());
        let first = engine.ran(a).1->Ok_0;
        let middle = engine.ran(a).0;
        let (before, list) = middle.ran(b.drop_last());
        if list is Ok {
            let (last, r) = before.after(b.last());
            if r is Ok {
                assert(first + list->Ok_0.push(r->Ok_0) =~= (first + list->Ok_0).push(r->Ok_0));
            }
        }
    }
}

/// The journal of two stretches of a run is the journal of the first followed by that of the
/// second.
pub proof fn law_journals_compose<R>(a: Seq<Yield<R>>, b: Seq<Yield<R>>)
    ensures
        journal_of(a + b) == journal_of(a) + journal_of(b),
    decreases b.len(),
{
    if b.len() == 0 {
        assert(a + b =~= a);
        assert(journal_of(a) + journal_of(b) =~= journal_of(a));
    } else {
        assert((a + b).drop_last() =~= a + b.drop_last());
        law_journals_compose(a, b.drop_last());
        assert(journal_of(a + b) =~= journal_of(a) + journal_of(b));
    }
}

/// A run that is interrupted behind its first events and resumed from there ends as one that was
/// never interrupted, with the same journal.
pub proof fn law_resumed_runs_lose_nothing<R: Real>(
    engine: EngineView<R>,
    a: Seq<EventView<R>>,
    b: Seq<EventView<R>>,
)
    requires
        engine.ran(a).1 is Ok,
        engine.ran(a).0.ran(b).1 is Ok,
    ensures
        engine.ran(a + b).0 == engine.ran(a).0.ran(b).0,
        engine.ran(a + b).1 is Ok,
        journal_of(engine.ran(a + b).1->Ok_0) == journal_of(engine.ran(a).1->Ok_0) + journal_of(
            engine.ran(a).0.ran(b).1->Ok_0,
        ),
{
    law_runs_compose(engine, a, b);
    law_journals_compose(engine.ran(a).1->Ok_0, engine.ran(a).0.ran(b).1->Ok_0);
}

/// What a run yields for its first events does not depend on those that follow.
pub proof fn law_outputs_are_causal<R: Real>(
    engine: EngineView<R>,
    a: Seq<EventView<R>>,
    b: Seq<EventView<R>>,
)
    requires
        engine.ran(a + b).1 is Ok,
    ensures
        engine.ran(a).1 is Ok,
        engine.ran(a + b).1->Ok_0.take(a.len() as int) == engine.ran(a).1->Ok_0,
    decreases b.len(),
{
    lemma_yields_count(engine, a);
    if b.len() == 0 {
        assert(a + b =~= a);
        assert(engine.ran(a).1->Ok_0.take(a.len() as int) =~= engine.ran(a).1->Ok_0);
    } else {
        assert((a + b).drop_last() =~= a + b.drop_last());
        law_outputs_are_causal(engine, a, b.drop_last());
        lemma_yields_count(engine, a + b.drop_last());
        let shorter = engine.ran(a + b.drop_last()).1->Ok_0;
        let all = engine.ran(a + b).1->Ok_0;
        assert(all.take(a.len() as int) =~= shorter.take(a.len() as int));
    }
}

proof fn lemma_yields_count<R: Real>(engine: EngineView<R>, events: Seq<EventView<R>>)
    ensures
        engine.ran(events).1 is Ok ==> engine.ran(events).1->Ok_0.len() == events.len(),
    decreases events.len(),
{
    if events.len() > 0 {
        lemma_yields_count(engine, events.drop_last());
    }
}

/// Whether every model, from `k` on, was selected before a time.
pub open spec fn selected_before<R>(engine: EngineView<R>, t: u64, k: int) -> bool {
    forall|j: int|
        k <= j < engine.models.len() ==> t > (#[trigger] engine.models[j]).selected_through_ns
}

proof fn lemma_advice_is_unseen<R: Real>(engine: EngineView<R>, e: EventView<R>, x: Seq<R>, k: int)
    requires
        0 <= k,
        engine.advised(e, x, k).1 is Ok,
    ensures
        selected_before(engine, e.recv_ns, k),
    decreases engine.models.len() - k,
{
    if k < engine.models.len() {
        let m = engine.models[k];
        let (broker, rows) = engine.broker.decided(
            place_of(engine.config.names(), m.symbol@)->0,
            m.prediction(x),
            m.entry_buffer_bps,
            e,
            engine.books,
            engine.config,
        );
        lemma_advice_is_unseen(EngineView { broker, ..engine }, e, x, k + 1);
    }
}

/// A sample comes only of a timer, while both feeds are connected and both books fresh, once the
/// history since the last reset is as long as the warmup, and at a time that no model was selected
/// with.
pub proof fn law_samples_need_health_and_unseen_data<R: Real>(engine: EngineView<R>, e: EventView<R>)
    requires
        engine.after(e).1 matches Ok(out) && out.0 is Some,
    ensures
        e.kind is Timer,
        engine.after(e).0.valid_at(e.recv_ns),
        engine.after(e).0.healthy_since is Some,
        e.recv_ns >= engine.after(e).0.healthy_since->0 + engine.config.warmup_ms * MS,
        selected_before(engine, e.recv_ns, 0),
        engine.after(e).1->Ok_0.0->0.recv_ns == e.recv_ns,
        engine.after(e).1->Ok_0.0->0.epoch == engine.after(e).0.epoch,
{
    reveal(EngineView::handled);
    lemma_config_stays(engine, e);
    let (seen, moved) = engine.advanced(e).delivered(e);
    let (joined, link) = seen.linked(e);
    let (booked, rows) = joined.checked(e.recv_ns).traded(e, moved->Ok_0);
    let next = booked.sampled(e.recv_ns);
    let x = next.features_at(e.recv_ns)->0;
    lemma_advice_keeps(next, e, x, 0);
    lemma_advice_is_unseen(next, e, x, 0);
}

/// Where a source is lost there are no books and no history, and nothing is sampled.
pub proof fn law_losses_drop_the_books<R: Real>(engine: EngineView<R>, e: EventView<R>)
    requires
        engine.admission_fault(e) is None,
        e.kind is Disconnect || (e.kind matches KindView::Connection { source, connected }
            && feed_index(source) is Some && !connected),
    ensures
        engine.after(e).0.books.len() == 2,
        !engine.after(e).0.books[0].synced,
        !engine.after(e).0.books[1].synced,
        engine.after(e).0.healthy_since is None,
        engine.after(e).1 is Ok ==> engine.after(e).1->Ok_0.0 is None,
{
    reveal(EngineView::handled);
}

/// Whether an account has a place for each of two assets.
pub open spec fn has_two_assets<R>(broker: BrokerView<R>) -> bool {
    &&& broker.positions.len() == 2
    &&& broker.pending.len() == 2
}

/// What fills change.
pub open spec fn same_fills<R>(a: BrokerView<R>, b: BrokerView<R>) -> bool {
    &&& a.positions == b.positions
    &&& a.fees == b.fees
    &&& a.realized == b.realized
    &&& a.turnover == b.turnover
    &&& a.position_history == b.position_history
}

/// An order fills only on an update that moved on its fresh book, at or behind its arrival, and an
/// entry only while all data is valid. Nothing else fills: not a stale book, not an update before
/// the arrival, not an order of the same event.
pub proof fn law_fills_need_an_arrived_update<R: Real>(
    broker: BrokerView<R>,
    e: EventView<R>,
    books: Seq<BookView<R>>,
    c: Config<R>,
    updated: Option<usize>,
    valid: bool,
)
    requires
        has_two_assets(broker),
        c.latency_ms > 0,
        c.fits(e.recv_ns),
        updated is Some ==> updated->0 < 2,
        updated is None || !broker.due(updated->0 as int, e, books, c, valid),
    ensures
        same_fills(broker.after(e, books, c, updated, valid).0, broker),
{
    let (told, news) = broker.informed(e, books, c, updated);
    let dated = told.marked(books, e.recv_ns, c).on_day((e.utc_ns / DAY) as u64);
    let ready = dated.enforced(e, c, valid).0;
    let i = if updated is Some {
        updated->0 as int
    } else {
        0
    };
    assert(same_fills(dated, broker) && dated.pending == broker.pending);
    lemma_rules_keep(dated, i, e, c, valid);
    assert(c.latency_ms * MS > 0);
    assert(updated is Some ==> !ready.due(i, e, books, c, valid));
    let marked = ready.marked(books, e.recv_ns, c);
    assert(same_fills(marked, ready) && marked.pending == ready.pending);
    lemma_rules_keep(marked, i, e, c, valid);
    lemma_without_trade(broker, e, books, c, updated, valid);
}

/// The account after an event on which no order trades.
proof fn lemma_without_trade<R: Real>(
    broker: BrokerView<R>,
    e: EventView<R>,
    books: Seq<BookView<R>>,
    c: Config<R>,
    updated: Option<usize>,
    valid: bool,
)
    requires
        ({
            let ready = broker.informed(e, books, c, updated).0.prepared(e, books, c, valid).0;
            updated is None || !ready.due(updated->0 as int, e, books, c, valid)
        }),
    ensures
        ({
            let (told, news) = broker.informed(e, books, c, updated);
            let ready = told.prepared(e, books, c, valid).0;
            broker.after(e, books, c, updated, valid).0 == if news is Err {
                told
            } else {
                ready.marked(books, e.recv_ns, c).enforced(e, c, valid).0
            }
        }),
{
    reveal(BrokerView::after);
}

/// The rules leave the order of an asset, take it away, or make a new one that arrives later.
pub proof fn lemma_rules_keep<R: Real>(
    broker: BrokerView<R>,
    i: int,
    e: EventView<R>,
    c: Config<R>,
    valid: bool,
)
    requires
        has_two_assets(broker),
        0 <= i < 2,
        c.fits(e.recv_ns),
    ensures
        ({
            let after = broker.enforced(e, c, valid).0;
            &&& same_fills(after, broker)
            &&& after.consumed == broker.consumed
            &&& after.pending.len() == 2
            &&& after.pending[i] == broker.pending[i] || after.pending[i] is None || (
            after.pending[i]->0.arrival_ns == e.recv_ns + c.latency_ms * MS
                && after.pending[i]->0.reduce)
            &&& !valid || after.stopped ==> !is_entry(after.pending[0]) && !is_entry(after.pending[1])
            &&& after.stopped && !is_zero(after.positions[i].qty) ==> after.pending[i] is Some
        }),
{
}

/// An entry never waits on: once it has met the book, what did not fill is gone. Only an exit stays,
/// and it tries again after another delay.
pub proof fn law_entries_do_not_rest<R: Real>(
    broker: BrokerView<R>,
    i: int,
    e: EventView<R>,
    books: Seq<BookView<R>>,
    c: Config<R>,
)
    requires
        has_two_assets(broker),
        0 <= i < 2,
        broker.pending[i] is Some,
        c.fits(e.recv_ns),
    ensures
        ({
            let rest = broker.traded(i, e, books, c).0.pending[i];
            rest is Some ==> broker.pending[i]->0.reduce && rest->0.reduce && rest->0.arrival_ns
                == e.recv_ns + c.latency_ms * MS
        }),
{
}

/// An entry is submitted only where nothing is held or on its way in the asset, the stop is not set,
/// and the gross exposure with it stays within the limit. It arrives after the delay. Nothing else
/// changes.
pub proof fn law_entries_respect_limits<R: Real>(
    broker: BrokerView<R>,
    i: int,
    prediction: R,
    buffer: R,
    e: EventView<R>,
    books: Seq<BookView<R>>,
    c: Config<R>,
)
    requires
        has_two_assets(broker),
        0 <= i < 2,
        c.fits(e.recv_ns),
    ensures
        ({
            let after = broker.decided(i, prediction, buffer, e, books, c).0;
            let mid = books[i].mid()->0;
            let qty = entry_size(mid, books[i].instrument->0, c);
            &&& same_fills(after, broker)
            &&& after.cash == broker.cash
            &&& after.pending[1 - i] == broker.pending[1 - i]
            &&& after.pending[i] != broker.pending[i] ==> {
                &&& broker.is_free(i)
                &&& !c.gross_cap.spec_below(broker.gross().spec_plus(qty.spec_times(mid)))
                &&& is_entry(after.pending[i])
                &&& after.pending[i]->0.qty == qty
                &&& after.pending[i]->0.arrival_ns == e.recv_ns + c.latency_ms * MS
            }
        }),
{
}

/// An entry is submitted only where the prediction exceeds what it costs to get in and out at the
/// displayed prices, with the fees and the buffer, and where both sides display enough for it.
pub proof fn law_entries_exceed_their_costs<R: Real>(
    broker: BrokerView<R>,
    i: int,
    prediction: R,
    buffer: R,
    e: EventView<R>,
    books: Seq<BookView<R>>,
    c: Config<R>,
)
    requires
        has_two_assets(broker),
        0 <= i < 2,
        broker.decided(i, prediction, buffer, e, books, c).0.pending[i] != broker.pending[i],
    ensures
        ({
            let mid = books[i].mid()->0;
            let meta = books[i].instrument->0;
            let qty = entry_size(mid, meta, c);
            let side = prediction.spec_sign();
            let entry = broker.fills(i, side, books[i], qty);
            let exit = broker.fills(i, side.spec_negated(), books[i], qty);
            &&& !prediction.spec_magnitude().spec_within(
                round_trip_cost(side, entry, exit, qty, mid, buffer, c),
            )
            &&& is_enough(entry, qty)
            &&& is_enough(exit, qty)
            &&& !qty.spec_below(meta.min_qty)
            &&& !qty.spec_times(mid).spec_below(meta.min_notional)
        }),
{
}

/// A settlement is paid once.
pub proof fn law_settlements_are_paid_once<R: Real>(
    broker: BrokerView<R>,
    i: int,
    t: u64,
    rate: R,
    mark: R,
    other_rate: R,
    other_mark: R,
)
    requires
        broker.funding_seen.len() == 2,
        0 <= i < 2,
    ensures
        broker.funded(i, t, rate, mark).funded(i, t, other_rate, other_mark) == broker.funded(
            i,
            t,
            rate,
            mark,
        ),
{
}

/// A new session rebuilds both books and the history, and keeps what is held: its first event
/// cannot cause a fill.
pub proof fn law_sessions_start_afresh<R: Real>(engine: EngineView<R>, e: EventView<R>)
    requires
        engine.wf(),
        has_two_assets(engine.broker),
        engine.config.fits(e.recv_ns),
        engine.admission_fault(e) is None,
        e.session != engine.session,
    ensures
        !engine.after(e).0.valid_at(e.recv_ns),
        engine.after(e).0.healthy_since is None,
        engine.after(e).0.broker.positions == engine.broker.positions,
{
    reveal(EngineView::handled);
    let start = engine.advanced(e);
    assert(start.books[0].last_id is None && start.books[1].last_id is None);
    let (seen, moved) = start.delivered(e);
    if e.kind.symbol() is Some && place_of(engine.config.names(), e.kind.symbol()->0) is Some {
        law_two_instruments(engine.config);
        lemma_place(engine.config.names(), e.kind.symbol()->0, 0);
    }
    assert(!seen.books[0].synced && !seen.books[1].synced);
    assert(moved is Ok ==> moved->Ok_0 is None);
    let ready = seen.linked(e).0.checked(e.recv_ns);
    assert(ready.broker == engine.broker);
    law_fills_need_an_arrived_update(
        ready.broker,
        e,
        ready.books,
        ready.config,
        None,
        ready.valid_at(e.recv_ns),
    );
}

/// Levels that are displayed anew restore what was taken at their prices, and nothing else.
pub proof fn law_only_displayed_prices_are_restored<R: Real>(
    taken: Map<i64, R>,
    levels: Seq<[R; 2]>,
    tick: R,
    k: i64,
)
    ensures
        restored(taken, levels, tick).contains_key(k) == (taken.contains_key(k) && forall|j: int|
            0 <= j < levels.len() ==> price_key(#[trigger] levels[j][0], tick) != k),
        restored(taken, levels, tick).contains_key(k) ==> restored(taken, levels, tick)[k]
            == taken[k],
    decreases levels.len(),
{
    if levels.len() > 0 {
        let fewer = levels.drop_last();
        law_only_displayed_prices_are_restored(taken, fewer, tick, k);
        let last = price_key(levels.last()[0], tick);
        if restored(taken, levels, tick).contains_key(k) {
            assert forall|j: int| 0 <= j < levels.len() implies price_key(
                #[trigger] levels[j][0],
                tick,
            ) != k by {
                if j < levels.len() - 1 {
                    assert(fewer[j][0] == levels[j][0]);
                }
            }
        } else if taken.contains_key(k) && last != k {
            let j = choose|j: int|
                0 <= j < fewer.len() && price_key(#[trigger] fewer[j][0], tick) == k;
            assert(levels[j][0] == fewer[j][0]);
        } else if taken.contains_key(k) {
            assert(price_key(levels[levels.len() - 1][0], tick) == k);
        }
    }
}

/// A duplicate update does not replenish what paper orders took, and fills nothing.
pub proof fn law_duplicates_do_not_replenish<R: Real>(engine: EngineView<R>, e: EventView<R>, i: int)
    requires
        engine.wf(),
        has_two_assets(engine.broker),
        engine.config.fits(e.recv_ns),
        engine.admission_fault(e) is None,
        e.session == engine.session,
        e.kind matches KindView::Depth { symbol, first_id, last_id, .. } && place_of(
            engine.config.names(),
            symbol,
        ) == Some(i) && first_id <= last_id && engine.books[i].last_id is Some
            && engine.books[i].covers(engine.books[i].last_id->0, last_id),
    ensures
        engine.after(e).0.books == engine.books,
        engine.after(e).0.broker.consumed == engine.broker.consumed,
        same_fills(engine.after(e).0.broker, engine.broker),
{
    reveal(EngineView::handled);
    let start = engine.advanced(e);
    assert(start.books == engine.books);
    lemma_duplicate_is_not_delivered(start, e, i);
    let ready = start.checked(e.recv_ns);
    assert(ready.broker == engine.broker);
    let valid = ready.valid_at(e.recv_ns);
    law_consumed_liquidity_stays(ready.broker, e, ready.books, ready.config, valid);
}

/// What paper orders took stays taken until its book is displayed anew: an event that moves no book
/// on, and is neither a snapshot nor a disconnection, restores nothing and fills nothing.
pub proof fn law_consumed_liquidity_stays<R: Real>(
    broker: BrokerView<R>,
    e: EventView<R>,
    books: Seq<BookView<R>>,
    c: Config<R>,
    valid: bool,
)
    requires
        has_two_assets(broker),
        c.fits(e.recv_ns),
        !(e.kind is Snapshot),
        !(e.kind is Disconnect),
    ensures
        broker.after(e, books, c, None, valid).0.consumed == broker.consumed,
        same_fills(broker.after(e, books, c, None, valid).0, broker),
{
    let told = broker.informed(e, books, c, None).0;
    assert(told.consumed == broker.consumed && same_fills(told, broker));
    let dated = told.marked(books, e.recv_ns, c).on_day((e.utc_ns / DAY) as u64);
    assert(dated.consumed == broker.consumed && same_fills(dated, broker));
    lemma_rules_keep(dated, 0, e, c, valid);
    let ready = dated.enforced(e, c, valid).0;
    let marked = ready.marked(books, e.recv_ns, c);
    assert(marked.consumed == broker.consumed && same_fills(marked, broker));
    lemma_rules_keep(marked, 0, e, c, valid);
    lemma_without_trade(broker, e, books, c, None, valid);
}

proof fn lemma_duplicate_is_not_delivered<R: Real>(engine: EngineView<R>, e: EventView<R>, i: int)
    requires
        engine.config.fault() is None,
        engine.books.len() == 2,
        e.kind matches KindView::Depth { symbol, first_id, last_id, .. } && place_of(
            engine.config.names(),
            symbol,
        ) == Some(i) && first_id <= last_id && engine.books[i].last_id is Some
            && engine.books[i].covers(engine.books[i].last_id->0, last_id),
    ensures
        engine.delivered(e) == (engine, Ok::<Option<usize>, Error>(None)),
{
    law_two_instruments(engine.config);
    lemma_place(engine.config.names(), e.kind.symbol()->0, 0);
    assert(engine.books.update(i, engine.books[i]) =~= engine.books);
}

/// Whether addition is that of a group: its order does not matter, zero changes nothing, and
/// subtraction undoes it.
#[verifier::opaque]
pub open spec fn adds_exactly<R: Real>() -> bool {
    &&& forall|a: R, b: R| #[trigger] a.spec_plus(b) == b.spec_plus(a)
    &&& forall|a: R, b: R, c: R| #[trigger]
        a.spec_plus(b).spec_plus(c) == a.spec_plus(b.spec_plus(c))
    &&& forall|a: R| #[trigger] a.spec_plus(zero::<R>()) == a
    &&& forall|a: R, b: R| #[trigger] a.spec_minus(b).spec_plus(b) == a
}

/// Whether cash is the starting equity plus what was realized and funded, less the fees.
pub open spec fn is_balanced<R: Real>(broker: BrokerView<R>, equity: R) -> bool {
    broker.cash.spec_plus(broker.fees) == equity.spec_plus(broker.realized).spec_plus(
        broker.funding,
    )
}

/// An account that holds nothing is balanced.
pub proof fn law_accounts_open_balanced<R: Real>(equity: R)
    requires
        adds_exactly::<R>(),
    ensures
        is_balanced(BrokerView::<R>::opened(equity), equity),
{
    reveal(adds_exactly);
}

proof fn lemma_fee_balances<R: Real>(cash: R, fees: R, fee: R)
    requires
        adds_exactly::<R>(),
    ensures
        cash.spec_minus(fee).spec_plus(fees.spec_plus(fee)) == cash.spec_plus(fees),
{
    reveal(adds_exactly);
    let paid = cash.spec_minus(fee);
    assert(fees.spec_plus(fee) == fee.spec_plus(fees));
    assert(paid.spec_plus(fee.spec_plus(fees)) == paid.spec_plus(fee).spec_plus(fees));
}

proof fn lemma_gain_balances<R: Real>(cash: R, fees: R, gain: R)
    requires
        adds_exactly::<R>(),
    ensures
        cash.spec_plus(gain).spec_plus(fees) == cash.spec_plus(fees).spec_plus(gain),
        cash.spec_plus(fees.spec_plus(gain)) == cash.spec_plus(fees).spec_plus(gain),
{
    reveal(adds_exactly);
    assert(cash.spec_plus(gain).spec_plus(fees) == cash.spec_plus(gain.spec_plus(fees)));
    assert(gain.spec_plus(fees) == fees.spec_plus(gain));
    assert(cash.spec_plus(fees).spec_plus(gain) == cash.spec_plus(fees.spec_plus(gain)));
}

proof fn lemma_fills_balance<R: Real>(
    broker: BrokerView<R>,
    i: int,
    e: EventView<R>,
    books: Seq<BookView<R>>,
    c: Config<R>,
    equity: R,
)
    requires
        adds_exactly::<R>(),
        is_balanced(broker, equity),
    ensures
        is_balanced(broker.traded(i, e, books, c).0, equity),
{
    let o = broker.pending[i]->0;
    let fills = broker.fills(i, o.side, books[i], o.qty);
    let qty = total(fill_sizes(fills));
    let price = total(fill_values(fills)).spec_over(qty);
    let fee = fee_of(qty, price, c);
    let pnl = broker.realized_by(i, qty, price);
    let paid = broker.cash.spec_minus(fee);
    let fees = broker.fees.spec_plus(fee);
    lemma_fee_balances(broker.cash, broker.fees, fee);
    lemma_gain_balances(paid, fees, pnl);
    let whole = equity.spec_plus(broker.realized);
    lemma_gain_balances(whole, broker.funding, pnl);
    lemma_gain_balances(equity, broker.realized, pnl);
}

/// Where addition is exact, every event keeps the account balanced.
pub proof fn law_events_keep_the_balance<R: Real>(
    broker: BrokerView<R>,
    e: EventView<R>,
    books: Seq<BookView<R>>,
    c: Config<R>,
    updated: Option<usize>,
    valid: bool,
    equity: R,
)
    requires
        adds_exactly::<R>(),
        is_balanced(broker, equity),
    ensures
        is_balanced(broker.after(e, books, c, updated, valid).0, equity),
{
    reveal(BrokerView::after);
    lemma_news_balance(broker, e, books, c, updated, equity);
    let (told, news) = broker.informed(e, books, c, updated);
    let ready = told.prepared(e, books, c, valid).0;
    assert(is_balanced(ready, equity));
    if updated is Some {
        lemma_fills_balance(ready, updated->0 as int, e, books, c, equity);
    }
}

proof fn lemma_news_balance<R: Real>(
    broker: BrokerView<R>,
    e: EventView<R>,
    books: Seq<BookView<R>>,
    c: Config<R>,
    updated: Option<usize>,
    equity: R,
)
    requires
        adds_exactly::<R>(),
        is_balanced(broker, equity),
    ensures
        is_balanced(broker.informed(e, books, c, updated).0, equity),
{
    match e.kind {
        KindView::Funding { symbol, funding_ns, rate, mark } => {
            let i = place_of(c.names(), symbol)->0;
            let payment = broker.payment(i, funding_ns, rate, mark);
            lemma_gain_balances(broker.cash, broker.fees, payment);
            lemma_gain_balances(equity.spec_plus(broker.realized), broker.funding, payment);
        },
        _ => {},
    }
}

proof fn lemma_advice_keeps_balance<R: Real>(
    engine: EngineView<R>,
    e: EventView<R>,
    x: Seq<R>,
    k: int,
    equity: R,
)
    requires
        is_balanced(engine.broker, equity),
    ensures
        is_balanced(engine.advised(e, x, k).0.broker, equity),
    decreases engine.models.len() - k,
{
    if 0 <= k < engine.models.len() {
        let m = engine.models[k];
        if e.recv_ns > m.selected_through_ns && m.prediction(x).spec_is_finite() {
            let (broker, rows) = engine.broker.decided(
                place_of(engine.config.names(), m.symbol@)->0,
                m.prediction(x),
                m.entry_buffer_bps,
                e,
                engine.books,
                engine.config,
            );
            lemma_advice_keeps_balance(EngineView { broker, ..engine }, e, x, k + 1, equity);
        }
    }
}

/// Where addition is exact, cash is at all times the starting equity plus what was realized and
/// funded, less the fees.
pub proof fn law_runs_keep_the_balance<R: Real>(
    engine: EngineView<R>,
    events: Seq<EventView<R>>,
    equity: R,
)
    requires
        adds_exactly::<R>(),
        is_balanced(engine.broker, equity),
    ensures
        is_balanced(engine.ran(events).0.broker, equity),
    decreases events.len(),
{
    if events.len() > 0 {
        law_runs_keep_the_balance(engine, events.drop_last(), equity);
        let (before, first) = engine.ran(events.drop_last());
        if first is Ok {
            lemma_event_keeps_balance(before, events.last(), equity);
        }
    }
}

proof fn lemma_event_keeps_balance<R: Real>(engine: EngineView<R>, e: EventView<R>, equity: R)
    requires
        adds_exactly::<R>(),
        is_balanced(engine.broker, equity),
    ensures
        is_balanced(engine.after(e).0.broker, equity),
{
    if engine.admission_fault(e) is None {
        reveal(EngineView::handled);
        let (seen, moved) = engine.advanced(e).delivered(e);
        if moved is Ok {
            let (joined, link) = seen.linked(e);
            if link is Ok {
                let ready = joined.checked(e.recv_ns);
                assert(ready.broker == engine.broker);
                law_events_keep_the_balance(
                    ready.broker,
                    e,
                    ready.books,
                    ready.config,
                    moved->Ok_0,
                    ready.valid_at(e.recv_ns),
                    equity,
                );
                let (booked, rows) = ready.traded(e, moved->Ok_0);
                if rows is Ok && booked.is_decision(e) {
                    let next = booked.sampled(e.recv_ns);
                    if next.features_at(e.recv_ns) is Some {
                        lemma_advice_keeps_balance(
                            next,
                            e,
                            next.features_at(e.recv_ns)->0,
                            0,
                            equity,
                        );
                    }
                }
            }
        }
    }
}

/// Whether the results of the two assets add up to the totals.
pub open spec fn sums_up<R: Real>(broker: BrokerView<R>) -> bool {
    let (a, b) = (broker.per_symbol[0], broker.per_symbol[1]);
    &&& broker.per_symbol.len() == 2
    &&& broker.realized == a.realized.spec_plus(b.realized)
    &&& broker.funding == a.funding.spec_plus(b.funding)
    &&& broker.fees == a.fees.spec_plus(b.fees)
    &&& broker.turnover == a.turnover.spec_plus(b.turnover)
    &&& broker.slippage == a.slippage.spec_plus(b.slippage)
    &&& broker.rejected == a.rejected.wrapping_add(b.rejected)
}

/// The results of an account that holds nothing add up.
pub proof fn law_accounts_open_summed_up<R: Real>(equity: R)
    requires
        adds_exactly::<R>(),
    ensures
        sums_up(BrokerView::<R>::opened(equity)),
{
    reveal(adds_exactly);
}

proof fn lemma_news_sum_up<R: Real>(
    broker: BrokerView<R>,
    e: EventView<R>,
    books: Seq<BookView<R>>,
    c: Config<R>,
    updated: Option<usize>,
)
    requires
        adds_exactly::<R>(),
        sums_up(broker),
        e.kind.symbol() is Some ==> 0 <= place_of(c.names(), e.kind.symbol()->0)->0 < 2,
    ensures
        sums_up(broker.informed(e, books, c, updated).0),
{
    match e.kind {
        KindView::Funding { symbol, funding_ns, rate, mark } => {
            let i = place_of(c.names(), symbol)->0;
            let payment = broker.payment(i, funding_ns, rate, mark);
            let (a, b) = (broker.per_symbol[0], broker.per_symbol[1]);
            lemma_gain_balances(a.funding, b.funding, payment);
        },
        _ => {},
    }
}

proof fn lemma_rejections_sum_up(a: u64, b: u64)
    ensures
        a.wrapping_add(1).wrapping_add(b) == a.wrapping_add(b).wrapping_add(1),
        a.wrapping_add(b.wrapping_add(1)) == a.wrapping_add(b).wrapping_add(1),
{
}

proof fn lemma_rejection_sums_up<R: Real>(broker: BrokerView<R>, i: int)
    requires
        sums_up(broker),
        0 <= i < 2,
    ensures
        sums_up(broker.counted_rejection(i)),
{
    lemma_rejections_sum_up(broker.per_symbol[0].rejected, broker.per_symbol[1].rejected);
}

proof fn lemma_fill_sums_up<R: Real>(
    broker: BrokerView<R>,
    i: int,
    o: Order<R>,
    fills: Seq<(i64, R, R)>,
    qty: R,
    price: R,
    meta: Instrument<R>,
    e: EventView<R>,
    c: Config<R>,
)
    requires
        adds_exactly::<R>(),
        sums_up(broker),
        0 <= i < 2,
    ensures
        sums_up(broker.filled(i, o, fills, qty, price, meta, e, c)),
{
    let value = qty.spec_times(price);
    let fee = fee_of(qty, price, c);
    let slip = o.side.spec_times(price.spec_minus(o.decision_mid)).spec_times(qty);
    let pnl = broker.realized_by(i, qty, price);
    let (a, b) = (broker.per_symbol[0], broker.per_symbol[1]);
    lemma_gain_balances(a.fees, b.fees, fee);
    lemma_gain_balances(a.turnover, b.turnover, value);
    lemma_gain_balances(a.slippage, b.slippage, slip);
    lemma_gain_balances(a.realized, b.realized, pnl);
}

proof fn lemma_trade_sums_up<R: Real>(
    broker: BrokerView<R>,
    i: int,
    e: EventView<R>,
    books: Seq<BookView<R>>,
    c: Config<R>,
)
    requires
        adds_exactly::<R>(),
        sums_up(broker),
        0 <= i < 2,
    ensures
        sums_up(broker.traded(i, e, books, c).0),
{
    let o = broker.pending[i]->0;
    let fills = broker.fills(i, o.side, books[i], o.qty);
    let qty = total(fill_sizes(fills));
    let price = total(fill_values(fills)).spec_over(qty);
    lemma_fill_sums_up(broker, i, o, fills, qty, price, books[i].instrument->0, e, c);
    lemma_rejection_sums_up(broker, i);
}

/// Where addition is exact, every event keeps the results of the two assets adding up to the
/// totals.
pub proof fn law_events_keep_the_sums<R: Real>(
    broker: BrokerView<R>,
    e: EventView<R>,
    books: Seq<BookView<R>>,
    c: Config<R>,
    updated: Option<usize>,
    valid: bool,
)
    requires
        adds_exactly::<R>(),
        sums_up(broker),
        updated is Some ==> updated->0 < 2,
        e.kind.symbol() is Some ==> 0 <= place_of(c.names(), e.kind.symbol()->0)->0 < 2,
    ensures
        sums_up(broker.after(e, books, c, updated, valid).0),
{
    lemma_news_sum_up(broker, e, books, c, updated);
    let (told, news) = broker.informed(e, books, c, updated);
    lemma_rules_sum_up(told, e, books, c, valid, (e.utc_ns / DAY) as u64);
    let ready = told.prepared(e, books, c, valid).0;
    lemma_rules_sum_up(ready, e, books, c, valid, ready.day);
    if updated is Some {
        lemma_trade_sums_up(ready, updated->0 as int, e, books, c);
        let met = ready.traded(updated->0 as int, e, books, c).0;
        lemma_rules_sum_up(met, e, books, c, valid, met.day);
    }
    lemma_after_is_one_of(broker, e, books, c, updated, valid);
}

proof fn lemma_rules_sum_up<R: Real>(
    broker: BrokerView<R>,
    e: EventView<R>,
    books: Seq<BookView<R>>,
    c: Config<R>,
    valid: bool,
    day: u64,
)
    requires
        sums_up(broker),
    ensures
        sums_up(broker.marked(books, e.recv_ns, c).on_day(day).enforced(e, c, valid).0),
        day <= broker.day ==> sums_up(broker.marked(books, e.recv_ns, c).enforced(e, c, valid).0),
{
    let marked = broker.marked(books, e.recv_ns, c);
    assert(sums_up(marked));
    lemma_rules_leave_results(marked.on_day(day), e, c, valid);
}

/// The rules change neither the totals nor the results of an asset.
proof fn lemma_rules_leave_results<R: Real>(
    broker: BrokerView<R>,
    e: EventView<R>,
    c: Config<R>,
    valid: bool,
)
    ensures
        ({
            let after = broker.enforced(e, c, valid).0;
            &&& after.per_symbol == broker.per_symbol
            &&& after.realized == broker.realized
            &&& after.funding == broker.funding
            &&& after.fees == broker.fees
            &&& after.turnover == broker.turnover
            &&& after.slippage == broker.slippage
            &&& after.rejected == broker.rejected
        }),
{
}

/// The account after an event is what the news, the rules, or the rules behind a trade leave.
proof fn lemma_after_is_one_of<R: Real>(
    broker: BrokerView<R>,
    e: EventView<R>,
    books: Seq<BookView<R>>,
    c: Config<R>,
    updated: Option<usize>,
    valid: bool,
)
    ensures
        ({
            let (told, news) = broker.informed(e, books, c, updated);
            let ready = told.prepared(e, books, c, valid).0;
            let after = broker.after(e, books, c, updated, valid).0;
            ||| after == told
            ||| after == ready.marked(books, e.recv_ns, c).enforced(e, c, valid).0
            ||| updated is Some && after == ready.traded(updated->0 as int, e, books, c).0
            ||| updated is Some && after == ready.traded(
                updated->0 as int,
                e,
                books,
                c,
            ).0.marked(books, e.recv_ns, c).enforced(e, c, valid).0
        }),
{
    reveal(BrokerView::after);
}

/// A prediction keeps the results of the two assets adding up to the totals.
pub proof fn law_predictions_keep_the_sums<R: Real>(
    broker: BrokerView<R>,
    i: int,
    prediction: R,
    buffer: R,
    e: EventView<R>,
    books: Seq<BookView<R>>,
    c: Config<R>,
)
    requires
        sums_up(broker),
        0 <= i < 2,
    ensures
        sums_up(broker.decided(i, prediction, buffer, e, books, c).0),
{
    lemma_rejection_sums_up(broker, i);
}

proof fn lemma_advice_sums_up<R: Real>(engine: EngineView<R>, e: EventView<R>, x: Seq<R>, k: int)
    requires
        sums_up(engine.broker),
        is_set_up(engine),
    ensures
        sums_up(engine.advised(e, x, k).0.broker),
    decreases engine.models.len() - k,
{
    if 0 <= k < engine.models.len() {
        let m = engine.models[k];
        if e.recv_ns > m.selected_through_ns && m.prediction(x).spec_is_finite() {
            law_two_instruments(engine.config);
            lemma_place(engine.config.names(), m.symbol@, 0);
            let i = place_of(engine.config.names(), m.symbol@)->0;
            let (p, buffer) = (m.prediction(x), m.entry_buffer_bps);
            law_predictions_keep_the_sums(
                engine.broker,
                i,
                p,
                buffer,
                e,
                engine.books,
                engine.config,
            );
            let broker = engine.broker.decided(i, p, buffer, e, engine.books, engine.config).0;
            lemma_advice_sums_up(EngineView { broker, ..engine }, e, x, k + 1);
        }
    }
}

proof fn lemma_event_sums_up<R: Real>(engine: EngineView<R>, e: EventView<R>)
    requires
        adds_exactly::<R>(),
        sums_up(engine.broker),
        is_set_up(engine),
    ensures
        sums_up(engine.after(e).0.broker),
{
    if engine.admission_fault(e) is None {
        reveal(EngineView::handled);
        let (seen, moved) = engine.advanced(e).delivered(e);
        law_two_instruments(engine.config);
        if e.kind.symbol() is Some {
            lemma_place(engine.config.names(), e.kind.symbol()->0, 0);
        }
        if moved is Ok {
            let (joined, link) = seen.linked(e);
            if link is Ok {
                let ready = joined.checked(e.recv_ns);
                assert(ready.broker == engine.broker);
                law_events_keep_the_sums(
                    ready.broker,
                    e,
                    ready.books,
                    ready.config,
                    moved->Ok_0,
                    ready.valid_at(e.recv_ns),
                );
                let (booked, rows) = ready.traded(e, moved->Ok_0);
                if rows is Ok && booked.is_decision(e) {
                    let next = booked.sampled(e.recv_ns);
                    if next.features_at(e.recv_ns) is Some {
                        lemma_advice_sums_up(next, e, next.features_at(e.recv_ns)->0, 0);
                    }
                }
            }
        }
    }
}

/// Where addition is exact, the realized results, funding, fees, turnover, slippage and rejections
/// of the two assets add up to the totals at all times.
pub proof fn law_runs_keep_the_sums<R: Real>(engine: EngineView<R>, events: Seq<EventView<R>>)
    requires
        adds_exactly::<R>(),
        sums_up(engine.broker),
        is_set_up(engine),
    ensures
        sums_up(engine.ran(events).0.broker),
        is_set_up(engine.ran(events).0),
    decreases events.len(),
{
    if events.len() > 0 {
        law_runs_keep_the_sums(engine, events.drop_last());
        let (before, first) = engine.ran(events.drop_last());
        if first is Ok {
            lemma_event_sums_up(before, events.last());
            lemma_config_stays(before, events.last());
        }
    }
}

/// The addition of decimal numbers of fixed scale is exact.
pub proof fn law_fixed_adds_exactly()
    ensures
        adds_exactly::<Fixed>(),
{
    reveal(adds_exactly);
}

/// Whether nothing is held and nothing is on its way.
pub open spec fn is_idle<R: Real>(broker: BrokerView<R>) -> bool {
    &&& has_two_assets(broker)
    &&& broker.pending[0] is None
    &&& broker.pending[1] is None
    &&& is_zero(broker.positions[0].qty)
    &&& is_zero(broker.positions[1].qty)
}

proof fn lemma_idle_stays<R: Real>(
    broker: BrokerView<R>,
    e: EventView<R>,
    books: Seq<BookView<R>>,
    c: Config<R>,
    updated: Option<usize>,
    valid: bool,
)
    requires
        is_idle(broker),
        updated is Some ==> updated->0 < 2,
    ensures
        is_idle(broker.after(e, books, c, updated, valid).0),
        same_fills(broker.after(e, books, c, updated, valid).0, broker),
{
    let told = broker.informed(e, books, c, updated).0;
    assert(is_idle(told) && same_fills(told, broker));
    let dated = told.marked(books, e.recv_ns, c).on_day((e.utc_ns / DAY) as u64);
    assert(is_idle(dated) && same_fills(dated, broker));
    let ready = dated.enforced(e, c, valid).0;
    assert(is_idle(ready) && same_fills(ready, broker));
    let marked = ready.marked(books, e.recv_ns, c);
    assert(is_idle(marked) && same_fills(marked, broker));
    let last = marked.enforced(e, c, valid).0;
    assert(is_idle(last) && same_fills(last, broker));
    lemma_without_trade(broker, e, books, c, updated, valid);
}

/// Without models nothing is ever ordered, so that an evaluation whose models come later starts with
/// an account that has not traded.
pub proof fn law_nothing_trades_without_models<R: Real>(
    engine: EngineView<R>,
    events: Seq<EventView<R>>,
)
    requires
        engine.wf(),
        engine.models.len() == 0,
        is_idle(engine.broker),
    ensures
        is_idle(engine.ran(events).0.broker),
        same_fills(engine.ran(events).0.broker, engine.broker),
        engine.ran(events).0.models.len() == 0,
        engine.ran(events).0.config == engine.config,
    decreases events.len(),
{
    if events.len() > 0 {
        law_nothing_trades_without_models(engine, events.drop_last());
        let (before, first) = engine.ran(events.drop_last());
        if first is Ok {
            lemma_config_stays(before, events.last());
            lemma_event_without_models(before, events.last());
        }
    }
}

proof fn lemma_event_without_models<R: Real>(engine: EngineView<R>, e: EventView<R>)
    requires
        engine.config.fault() is None,
        engine.models.len() == 0,
        is_idle(engine.broker),
    ensures
        is_idle(engine.after(e).0.broker),
        same_fills(engine.after(e).0.broker, engine.broker),
{
    if engine.admission_fault(e) is None {
        reveal(EngineView::handled);
        let (seen, moved) = engine.advanced(e).delivered(e);
        if moved is Ok {
            let (joined, link) = seen.linked(e);
            if link is Ok {
                law_two_instruments(engine.config);
                if e.kind.symbol() is Some {
                    lemma_place(engine.config.names(), e.kind.symbol()->0, 0);
                }
                let ready = joined.checked(e.recv_ns);
                assert(ready.broker == engine.broker);
                lemma_idle_stays(
                    ready.broker,
                    e,
                    ready.books,
                    ready.config,
                    moved->Ok_0,
                    ready.valid_at(e.recv_ns),
                );
            }
        }
    }
}

/// What was held at a time does not change with fills that come later, so that a settlement that
/// arrives late pays for the position at its own time.
pub proof fn law_later_fills_leave_the_past<R>(
    history: Seq<(u64, R)>,
    later: u64,
    qty: R,
    t: u64,
)
    requires
        later > t,
    ensures
        mid_at(history.push((later, qty)), t) == mid_at(history, t),
{
    assert(history.push((later, qty)).drop_last() =~= history);
}

/// A label ends before the event at which it is given, within the epoch of its sample, and while
/// both books are fresh: nothing that was received after it plays a part in it.
pub proof fn law_labels_look_no_further<R: Real>(
    engine: EngineView<R>,
    waiting: Seq<SampleView<R>>,
    t: u64,
    k: int,
)
    requires
        forall|i: int| 0 <= i < waiting.len() ==> engine.config.fits(
            (#[trigger] waiting[i]).recv_ns,
        ),
        0 <= k < engine.matured(waiting, t).1.len(),
    ensures
        ({
            let label = engine.matured(waiting, t).1[k];
            &&& label.label_end_ns < t
            &&& label.label_end_ns == label.recv_ns + engine.config.horizon_ms * MS
            &&& label.epoch == engine.epoch
            &&& engine.valid_at(label.label_end_ns)
        }),
    decreases waiting.len(),
{
    let s = waiting.first();
    assert(engine.config.fits(waiting[0].recv_ns));
    let more = engine.matured(waiting.drop_first(), t).1;
    let n = if engine.labels(s) {
        2int
    } else {
        0int
    };
    if k >= n {
        assert(engine.matured(waiting, t).1[k] == more[k - n]);
        assert forall|i: int| 0 <= i < waiting.drop_first().len() implies engine.config.fits(
            (#[trigger] waiting.drop_first()[i]).recv_ns,
        ) by {
            assert(waiting.drop_first()[i] == waiting[i + 1]);
        }
        law_labels_look_no_further(engine, waiting.drop_first(), t, k - n);
    }
}

/// The limits of a valid configuration use no leverage.
pub proof fn law_limits_are_unlevered<R: Real>(c: Config<R>)
    requires
        c.fault() is None,
    ensures
        c.gross_cap.spec_within(c.equity),
        c.entry_notional.spec_within(c.gross_cap),
{
}

/// An engine that was healthy and no longer is when an event is received starts its warmup anew,
/// whatever the event says.
pub proof fn law_staleness_restarts_the_warmup<R: Real>(engine: EngineView<R>, e: EventView<R>)
    requires
        engine.admission_fault(e) is None,
        engine.healthy_since is Some,
        !engine.valid_at(e.recv_ns),
        engine.session == e.session,
    ensures
        engine.after(e).0.healthy_since is None,
        engine.after(e).1 is Ok ==> engine.after(e).1->Ok_0.0 is None,
{
    reveal(EngineView::handled);
    let start = engine.advanced(e);
    assert(start.healthy_since is None);
    if e.kind is Timer {
        assert(start.delivered(e) == (start, Ok::<Option<usize>, Error>(None)));
        assert(start.linked(e) == (start, Ok::<(), Error>(())));
        assert(!start.valid_at(e.recv_ns));
    }
}

/// An entry that fills keeps to the instrument's rules and to the gross limit at the prices at which
/// it fills.
pub proof fn law_entry_fills_respect_limits<R: Real>(
    broker: BrokerView<R>,
    i: int,
    e: EventView<R>,
    books: Seq<BookView<R>>,
    c: Config<R>,
)
    requires
        has_two_assets(broker),
        0 <= i < 2,
        is_entry(broker.pending[i]),
        broker.traded(i, e, books, c).0.positions[i] != broker.positions[i],
    ensures
        ({
            let o = broker.pending[i]->0;
            let fills = broker.fills(i, o.side, books[i], o.qty);
            let qty = total(fill_sizes(fills));
            let price = total(fill_values(fills)).spec_over(qty);
            !broker.refuses(o, qty, price, books[i].instrument->0, c)
        }),
{
}

/// A position whose book is not fresh keeps its size and its last price, and is flagged.
pub proof fn law_unpriced_positions_are_flagged<R: Real>(
    broker: BrokerView<R>,
    e: EventView<R>,
    books: Seq<BookView<R>>,
    c: Config<R>,
    valid: bool,
    i: int,
)
    requires
        has_two_assets(broker),
        broker.last_mids.len() == 2,
        0 <= i < 2,
        c.latency_ms > 0,
        c.fits(e.recv_ns),
        !is_zero(broker.positions[i].qty),
        !books[i].fresh(e.recv_ns, c.stale_ms),
        broker.after(e, books, c, None, valid).1 is Ok,
    ensures
        broker.after(e, books, c, None, valid).0.exposure_unpriced,
        broker.after(e, books, c, None, valid).0.positions == broker.positions,
        broker.after(e, books, c, None, valid).0.last_mids[i] == broker.last_mids[i],
{
    law_fills_need_an_arrived_update(broker, e, books, c, None, valid);
    lemma_without_trade(broker, e, books, c, None, valid);
    lemma_no_refusal(broker, e, books, c, None, valid);
    let told = broker.informed(e, books, c, None).0;
    let dated = told.marked(books, e.recv_ns, c).on_day((e.utc_ns / DAY) as u64);
    lemma_rules_keep(dated, i, e, c, valid);
    let ready = dated.enforced(e, c, valid).0;
    assert(dated.last_mids[i] == broker.last_mids[i]);
    assert(ready.last_mids == dated.last_mids);
    let marked = ready.marked(books, e.recv_ns, c);
    assert(marked.exposure_unpriced && marked.last_mids[i] == broker.last_mids[i]);
    let last = marked.enforced(e, c, valid).0;
    assert(last.exposure_unpriced == marked.exposure_unpriced && last.last_mids
        == marked.last_mids);
}

proof fn lemma_no_refusal<R: Real>(
    broker: BrokerView<R>,
    e: EventView<R>,
    books: Seq<BookView<R>>,
    c: Config<R>,
    updated: Option<usize>,
    valid: bool,
)
    requires
        broker.after(e, books, c, updated, valid).1 is Ok,
    ensures
        broker.informed(e, books, c, updated).1 is Ok,
{
    reveal(BrokerView::after);
}

} // verus!
