//! How a book follows the venue.
use crate::book::{best, level_fault, placed_all, price_key, side_after, sound_len, BookView};
use crate::error::Error;
use crate::fixed::{abs, Fixed, SCALE};
use crate::ladder::{downward, is_highest, is_lowest, upward};
use crate::meaning::arithmetic::{cuts, lemma_cuts_agree, lemma_quotient};
use crate::meaning::signals::lemma_middle;
use crate::number::{ratio, total, Real};
use crate::types::{EventView, KindView};
use vstd::prelude::*;

verus! {

/// Whether the last of a list of levels that names a price stands at a place.
pub open spec fn decides<R: Real>(levels: Seq<[R; 2]>, tick: R, k: i64, j: int) -> bool {
    &&& 0 <= j < levels.len()
    &&& price_key(levels[j][0], tick) == k
    &&& forall|n: int| j < n < levels.len() ==> price_key((#[trigger] levels[n])[0], tick) != k
}

/// Whether a side is, at one price, what another becomes by a list of levels: the last level that names
/// the price says what is displayed, nothing where it says zero, and where none names it, it is as it
/// was.
pub open spec fn becomes_at<R: Real>(
    side: Map<i64, R>,
    levels: Seq<[R; 2]>,
    tick: R,
    next: Map<i64, R>,
    k: i64,
) -> bool {
    &&& forall|j: int| #[trigger]
        decides(levels, tick, k, j) ==> (if levels[j][1].spec_same(R::spec_from_i64(0)) {
            !next.contains_key(k)
        } else {
            next.contains_key(k) && next[k] == levels[j][1]
        })
    &&& (forall|j: int| 0 <= j < levels.len() ==> price_key((#[trigger] levels[j])[0], tick) != k)
        ==> side.contains_key(k) == next.contains_key(k) && (side.contains_key(k) ==> side[k]
        == next[k])
}

/// Whether a side is what another becomes by a list of levels.
pub open spec fn becomes<R: Real>(
    side: Map<i64, R>,
    levels: Seq<[R; 2]>,
    tick: R,
    next: Map<i64, R>,
) -> bool {
    forall|k: i64| #[trigger] becomes_at(side, levels, tick, next, k)
}

proof fn lemma_placed_becomes<R: Real>(side: Map<i64, R>, levels: Seq<[R; 2]>, tick: R)
    ensures
        becomes(side, levels, tick, placed_all(side, levels, tick)),
    decreases levels.len(),
{
    let next = placed_all(side, levels, tick);
    if levels.len() > 0 {
        let fewer = levels.drop_last();
        let n = levels.len() - 1;
        let part = placed_all(side, fewer, tick);
        lemma_placed_becomes(side, fewer, tick);
        let last = price_key(levels[n][0], tick);
        assert forall|k: i64| #[trigger] becomes_at(side, levels, tick, next, k) by {
            assert(becomes_at(side, fewer, tick, part, k));
            assert forall|j: int| #[trigger] decides(levels, tick, k, j) implies (
            if levels[j][1].spec_same(R::spec_from_i64(0)) {
                !next.contains_key(k)
            } else {
                next.contains_key(k) && next[k] == levels[j][1]
            }) by {
                if j < n {
                    assert(price_key(levels[n][0], tick) != k);
                    assert(decides(fewer, tick, k, j)) by {
                        assert(fewer[j] == levels[j]);
                        assert forall|i: int| j < i < fewer.len() implies price_key(
                            (#[trigger] fewer[i])[0],
                            tick,
                        ) != k by {
                            assert(fewer[i] == levels[i]);
                        }
                    }
                }
            }
            if forall|j: int|
                0 <= j < levels.len() ==> price_key((#[trigger] levels[j])[0], tick) != k {
                assert(price_key(levels[n][0], tick) != k);
                assert forall|j: int| 0 <= j < fewer.len() implies price_key(
                    (#[trigger] fewer[j])[0],
                    tick,
                ) != k by {
                    assert(fewer[j] == levels[j]);
                }
            }
        }
    } else {
        assert forall|k: i64| #[trigger] becomes_at(side, levels, tick, next, k) by {}
    }
}

/// There is one side that another becomes by a list of levels.
proof fn lemma_becomes_one<R: Real>(
    side: Map<i64, R>,
    levels: Seq<[R; 2]>,
    tick: R,
    a: Map<i64, R>,
    b: Map<i64, R>,
)
    requires
        becomes(side, levels, tick, a),
        becomes(side, levels, tick, b),
    ensures
        a == b,
{
    assert forall|k: i64| #[trigger] a.contains_key(k) == b.contains_key(k) by {
        lemma_becomes_at(side, levels, tick, a, b, k);
    }
    assert forall|k: i64| #[trigger] a.contains_key(k) implies a[k] == b[k] by {
        lemma_becomes_at(side, levels, tick, a, b, k);
    }
    assert(a.dom() =~= b.dom());
    assert(a =~= b);
}

proof fn lemma_becomes_at<R: Real>(
    side: Map<i64, R>,
    levels: Seq<[R; 2]>,
    tick: R,
    a: Map<i64, R>,
    b: Map<i64, R>,
    k: i64,
)
    requires
        becomes(side, levels, tick, a),
        becomes(side, levels, tick, b),
    ensures
        a.contains_key(k) == b.contains_key(k),
        a.contains_key(k) ==> a[k] == b[k],
{
    lemma_someone_decides(levels, tick, k);
    assert(becomes_at(side, levels, tick, a, k));
    assert(becomes_at(side, levels, tick, b, k));
    if exists|j: int| decides(levels, tick, k, j) {
        let j = choose|j: int| decides(levels, tick, k, j);
        assert(decides(levels, tick, k, j));
    }
}

proof fn lemma_someone_decides<R: Real>(levels: Seq<[R; 2]>, tick: R, k: i64)
    ensures
        (forall|j: int| 0 <= j < levels.len() ==> price_key((#[trigger] levels[j])[0], tick) != k)
            || exists|j: int| decides(levels, tick, k, j),
    decreases levels.len(),
{
    if levels.len() > 0 {
        let fewer = levels.drop_last();
        let n = levels.len() - 1;
        lemma_someone_decides(fewer, tick, k);
        if price_key(levels[n][0], tick) == k {
            assert(decides(levels, tick, k, n));
        } else if exists|j: int| decides(fewer, tick, k, j) {
            let j = choose|j: int| decides(fewer, tick, k, j);
            assert(levels[j] == fewer[j]);
            assert forall|i: int| j < i < levels.len() implies price_key(
                (#[trigger] levels[i])[0],
                tick,
            ) != k by {
                if i < n {
                    assert(fewer[i] == levels[i]);
                }
            }
            assert(decides(levels, tick, k, j));
        } else {
            assert forall|j: int| 0 <= j < levels.len() implies price_key(
                (#[trigger] levels[j])[0],
                tick,
            ) != k by {
                if j < n {
                    assert(fewer[j] == levels[j]);
                }
            }
        }
    }
}

/// Whether every level is one that a book takes.
pub open spec fn are_sound<R: Real>(levels: Seq<[R; 2]>, tick: R) -> bool {
    forall|j: int| 0 <= j < levels.len() ==> level_fault(#[trigger] levels[j], tick) is None
}

proof fn lemma_all_sound<R: Real>(levels: Seq<[R; 2]>, tick: R)
    requires
        are_sound(levels, tick),
    ensures
        sound_len(levels, tick) == levels.len(),
    decreases levels.len(),
{
    if levels.len() > 0 {
        let fewer = levels.drop_last();
        assert forall|j: int| 0 <= j < fewer.len() implies level_fault(#[trigger] fewer[j], tick)
            is None by {
            assert(fewer[j] == levels[j]);
        }
        lemma_all_sound(fewer, tick);
        assert(level_fault(levels[levels.len() - 1], tick) is None);
    }
}

proof fn lemma_side_becomes<R: Real>(
    side: Map<i64, R>,
    levels: Seq<[R; 2]>,
    tick: R,
    next: Map<i64, R>,
)
    requires
        are_sound(levels, tick),
        becomes(side, levels, tick, next),
    ensures
        side_after(side, levels, tick) == (next, None::<Error>),
{
    lemma_all_sound(levels, tick);
    assert(levels.take(levels.len() as int) =~= levels);
    lemma_placed_becomes(side, levels, tick);
    lemma_becomes_one(side, levels, tick, next, placed_all(side, levels, tick));
}

/// Whether two sides have a best price each, and the best bid is below the best ask.
pub open spec fn is_two_sided<R>(bids: Map<i64, R>, asks: Map<i64, R>, b: i64, a: i64) -> bool {
    is_highest(bids, b) && is_lowest(asks, a) && b < a
}

proof fn lemma_top<R: Real>(book: BookView<R>, b: i64, a: i64)
    requires
        book.instrument is Some,
        is_two_sided(book.bids, book.asks, b, a),
    ensures
        book.top() == Some(
            (
                R::spec_from_i64(b).spec_times(book.instrument->0.tick),
                book.bids[b],
                R::spec_from_i64(a).spec_times(book.instrument->0.tick),
                book.asks[a],
            ),
        ),
{
    let k = choose|k: i64| is_highest(book.bids, k);
    assert(book.bids.contains_key(k) && book.bids.contains_key(b));
    assert(k == b);
    let n = choose|n: i64| is_lowest(book.asks, n);
    assert(book.asks.contains_key(n) && book.asks.contains_key(a));
    assert(n == a);
}

/// The top of a book that is two-sided and uncrossed is its highest bid and its lowest ask, with what
/// they display; a price is its number of ticks times the tick. Another book has no top.
pub proof fn law_top_is_the_best_of_both_sides<R: Real>(book: BookView<R>, b: i64, a: i64)
    requires
        book.instrument is Some,
        is_highest(book.bids, b),
        is_lowest(book.asks, a),
    ensures
        b < a ==> book.top() == Some(
            (
                R::spec_from_i64(b).spec_times(book.instrument->0.tick),
                book.bids[b],
                R::spec_from_i64(a).spec_times(book.instrument->0.tick),
                book.asks[a],
            ),
        ),
        b >= a ==> book.top() is None,
{
    if b < a {
        lemma_top(book, b, a);
    } else {
        let k = choose|k: i64| is_highest(book.bids, k);
        assert(book.bids.contains_key(k) && book.bids.contains_key(b));
        let n = choose|n: i64| is_lowest(book.asks, n);
        assert(book.asks.contains_key(n) && book.asks.contains_key(a));
    }
}

/// A book is fresh exactly where it is synchronized, has a top, and was last updated no longer than the
/// configured milliseconds ago, and not in the future.
pub proof fn law_books_go_stale<R: Real>(book: BookView<R>, now: u64, stale_ms: u64)
    ensures
        book.fresh(now, stale_ms) <==> book.synced && book.top() is Some && book.updated_ns <= now
            <= book.updated_ns + stale_ms * 1_000_000,
{
}

/// Whether an update that both sides take leaves a two-sided, uncrossed book with given sides.
pub open spec fn leaves<R: Real>(
    book: BookView<R>,
    e: EventView<R>,
    bids: Map<i64, R>,
    asks: Map<i64, R>,
    b: i64,
    a: i64,
) -> bool {
    e.kind matches KindView::Depth { bids: up, asks: down, .. } && {
        let tick = book.instrument->0.tick;
        &&& book.instrument is Some
        &&& are_sound(up, tick)
        &&& are_sound(down, tick)
        &&& becomes(book.bids, up, tick, bids)
        &&& becomes(book.asks, down, tick, asks)
        &&& is_two_sided(bids, asks, b, a)
    }
}

/// Whether a book is what an update makes of another: its sides, its id and its time, and nothing else.
pub open spec fn is_moved_on<R: Real>(
    book: BookView<R>,
    after: BookView<R>,
    e: EventView<R>,
    bids: Map<i64, R>,
    asks: Map<i64, R>,
) -> bool {
    &&& after.synced
    &&& after.last_id == Some(e.kind->Depth_last_id)
    &&& after.bids == bids
    &&& after.asks == asks
    &&& after.updated_ns == e.recv_ns
    &&& after.generation == book.generation
    &&& after.instrument == book.instrument
    &&& after.buffer == book.buffer
}

proof fn lemma_moved_on<R: Real>(
    book: BookView<R>,
    e: EventView<R>,
    bids: Map<i64, R>,
    asks: Map<i64, R>,
    b: i64,
    a: i64,
)
    requires
        leaves(book, e, bids, asks, b, a),
    ensures
        e.kind matches KindView::Depth { last_id, bids: up, asks: down, .. } && {
            let (after, r) = book.after_next(last_id, up, down, e.recv_ns);
            r == Ok::<bool, Error>(true) && is_moved_on(book, after, e, bids, asks)
        },
{
    let tick = book.instrument->0.tick;
    let (up, down) = (e.kind->Depth_bids, e.kind->Depth_asks);
    lemma_side_becomes(book.bids, up, tick, bids);
    lemma_side_becomes(book.asks, down, tick, asks);
    let levels = book.with_levels(up, down).0;
    lemma_top(levels, b, a);
    let next = BookView {
        last_id: Some(e.kind->Depth_last_id),
        synced: true,
        updated_ns: e.recv_ns,
        ..levels
    };
    assert(next.top() == levels.top());
}

/// A book that waits for the update behind its snapshot takes every update that straddles the
/// snapshot's id, and is in sync then.
pub proof fn law_straddling_updates_bridge_the_snapshot<R: Real>(
    book: BookView<R>,
    e: EventView<R>,
    id: u64,
    bids: Map<i64, R>,
    asks: Map<i64, R>,
    b: i64,
    a: i64,
)
    requires
        !book.synced,
        book.last_id == Some(id),
        leaves(book, e, bids, asks, b, a),
        e.kind->Depth_first_id <= id <= e.kind->Depth_last_id,
    ensures
        book.after(e).1 == Ok::<bool, Error>(true),
        is_moved_on(book, book.after(e).0, e, bids, asks),
{
    lemma_moved_on(book, e, bids, asks, b, a);
}

/// A book in sync takes every later update that names its id as predecessor.
pub proof fn law_successors_move_the_book_on<R: Real>(
    book: BookView<R>,
    e: EventView<R>,
    id: u64,
    bids: Map<i64, R>,
    asks: Map<i64, R>,
    b: i64,
    a: i64,
)
    requires
        book.synced,
        book.last_id == Some(id),
        leaves(book, e, bids, asks, b, a),
        e.kind->Depth_prev_id == id,
        e.kind->Depth_first_id <= e.kind->Depth_last_id,
        e.kind->Depth_last_id > id,
    ensures
        book.after(e).1 == Ok::<bool, Error>(true),
        is_moved_on(book, book.after(e).0, e, bids, asks),
{
    lemma_moved_on(book, e, bids, asks, b, a);
}

/// Whether a book was given up: it displays nothing, has no id, and holds one update back.
pub open spec fn is_given_up<R: Real>(
    book: BookView<R>,
    after: BookView<R>,
    e: EventView<R>,
) -> bool {
    &&& !after.synced
    &&& after.last_id is None
    &&& after.bids == Map::<i64, R>::empty()
    &&& after.asks == Map::<i64, R>::empty()
    &&& after.buffer == seq![e]
    &&& after.instrument == book.instrument
    &&& book.generation < u64::MAX ==> after.generation == book.generation + 1
}

/// What the ids of an update say to a book with an id: one that is already part of it changes nothing,
/// one that leaves a gap gives it up and holds the update back for the next snapshot.
pub proof fn law_ids_tell_duplicates_and_gaps<R: Real>(book: BookView<R>, e: EventView<R>, id: u64)
    requires
        book.last_id == Some(id),
        e.kind is Depth,
        e.kind->Depth_first_id <= e.kind->Depth_last_id,
    ensures
        book.synced && e.kind->Depth_last_id <= id ==> book.after(e) == (
            book,
            Ok::<bool, Error>(true),
        ),
        !book.synced && e.kind->Depth_last_id < id ==> book.after(e) == (
            book,
            Ok::<bool, Error>(true),
        ),
        book.synced && e.kind->Depth_last_id > id && e.kind->Depth_prev_id != id ==> {
            &&& book.after(e).1 == Ok::<bool, Error>(false)
            &&& is_given_up(book, book.after(e).0, e)
        },
        !book.synced && e.kind->Depth_first_id > id ==> {
            &&& book.after(e).1 == Ok::<bool, Error>(false)
            &&& is_given_up(book, book.after(e).0, e)
        },
{
}

/// Without a snapshot a book holds updates back, in order, up to its limit, and asks for one.
pub proof fn law_updates_wait_for_a_snapshot<R: Real>(book: BookView<R>, e: EventView<R>)
    requires
        book.last_id is None,
        e.kind is Depth,
        e.kind->Depth_first_id <= e.kind->Depth_last_id,
        book.buffer.len() < 8192,
    ensures
        book.after(e).1 == Ok::<bool, Error>(false),
        book.after(e).0 == (BookView { buffer: book.buffer.push(e), ..book }),
{
}

/// Whether updates that were held back are all older than a snapshot.
pub open spec fn are_older<R>(held: Seq<EventView<R>>, id: u64) -> bool {
    forall|j: int|
        0 <= j < held.len() ==> (#[trigger] held[j]).kind is Depth
            && held[j].kind->Depth_first_id <= held[j].kind->Depth_last_id
            && held[j].kind->Depth_last_id < id
}

proof fn lemma_held_join<R: Real>(
    book: BookView<R>,
    held: Seq<EventView<R>>,
    e: EventView<R>,
    t: u64,
)
    requires
        book.after_held(held, t).1 == Ok::<bool, Error>(true),
    ensures
        book.after_held(held.push(e), t) == book.after_held(held, t).0.after_depth(
            e.received_at(t),
        ),
    decreases held.len(),
{
    reveal_with_fuel(BookView::after_held, 2);
    if held.len() == 0 {
        assert(held.push(e).first() == e);
        assert(held.push(e).drop_first() =~= Seq::empty());
    } else {
        assert(held.push(e).first() == held.first());
        assert(held.push(e).drop_first() =~= held.drop_first().push(e));
        let next = book.after_depth(held.first().received_at(t)).0;
        lemma_held_join(next, held.drop_first(), e, t);
    }
}

/// What a book holds back is taken behind a snapshot, one update after another, as of the time at which
/// the snapshot was received.
pub proof fn law_held_updates_follow_the_snapshot<R: Real>(
    book: BookView<R>,
    snapshot: EventView<R>,
    e: EventView<R>,
)
    requires
        snapshot.kind is Snapshot,
        e.kind is Depth,
        book.after(snapshot).1 == Ok::<bool, Error>(true),
    ensures
        (BookView { buffer: book.buffer.push(e), ..book }).after(snapshot) == book.after(
            snapshot,
        ).0.after((EventView { recv_ns: snapshot.recv_ns, ..e })),
{
    let (id, bids, asks) = (
        snapshot.kind->Snapshot_last_id,
        snapshot.kind->Snapshot_bids,
        snapshot.kind->Snapshot_asks,
    );
    let cleared = BookView::<R> {
        bids: Map::empty(),
        asks: Map::empty(),
        synced: false,
        ..book
    };
    let longer = BookView { buffer: book.buffer.push(e), ..cleared };
    let levels = cleared.with_levels(bids, asks).0;
    let start = BookView {
        last_id: Some(id),
        generation: book.generation.wrapping_add(1),
        buffer: Seq::empty(),
        ..levels
    };
    assert(BookView {
        last_id: Some(id),
        generation: book.generation.wrapping_add(1),
        buffer: Seq::empty(),
        ..longer.with_levels(bids, asks).0
    } == start);
    lemma_held_join(start, book.buffer, e, snapshot.recv_ns);
}

proof fn lemma_older_held<R: Real>(book: BookView<R>, held: Seq<EventView<R>>, id: u64, t: u64)
    requires
        !book.synced,
        book.last_id == Some(id),
        are_older(held, id),
    ensures
        book.after_held(held, t) == (book, Ok::<bool, Error>(true)),
    decreases held.len(),
{
    if held.len() > 0 {
        assert(held[0].kind is Depth && held[0].kind->Depth_last_id < id);
        let rest = held.drop_first();
        assert forall|j: int| 0 <= j < rest.len() implies (#[trigger] rest[j]).kind is Depth
            && rest[j].kind->Depth_first_id <= rest[j].kind->Depth_last_id
            && rest[j].kind->Depth_last_id < id by {
            assert(rest[j] == held[j + 1]);
        }
        lemma_older_held(book, rest, id, t);
    }
}

/// A snapshot shows its own levels and nothing else, and waits for the update behind it. Updates that
/// were held back and are older than it are dropped.
pub proof fn law_snapshots_replace_the_book<R: Real>(
    book: BookView<R>,
    e: EventView<R>,
    bids: Map<i64, R>,
    asks: Map<i64, R>,
)
    requires
        book.instrument is Some,
        e.kind is Snapshot,
        are_older(book.buffer, e.kind->Snapshot_last_id),
        are_sound(e.kind->Snapshot_bids, book.instrument->0.tick),
        are_sound(e.kind->Snapshot_asks, book.instrument->0.tick),
        becomes(Map::empty(), e.kind->Snapshot_bids, book.instrument->0.tick, bids),
        becomes(Map::empty(), e.kind->Snapshot_asks, book.instrument->0.tick, asks),
    ensures
        ({
            let (after, r) = book.after(e);
            &&& r == Ok::<bool, Error>(true)
            &&& after.bids == bids
            &&& after.asks == asks
            &&& after.last_id == Some(e.kind->Snapshot_last_id)
            &&& !after.synced
            &&& after.buffer.len() == 0
            &&& after.instrument == book.instrument
            &&& after.updated_ns == book.updated_ns
            &&& book.generation < u64::MAX ==> after.generation == book.generation + 1
        }),
{
    let tick = book.instrument->0.tick;
    let (id, up, down) = (
        e.kind->Snapshot_last_id,
        e.kind->Snapshot_bids,
        e.kind->Snapshot_asks,
    );
    lemma_side_becomes(Map::empty(), up, tick, bids);
    lemma_side_becomes(Map::empty(), down, tick, asks);
    let cleared = BookView::<R> {
        bids: Map::empty(),
        asks: Map::empty(),
        synced: false,
        ..book
    };
    let start = BookView {
        last_id: Some(id),
        generation: book.generation.wrapping_add(1),
        buffer: Seq::empty(),
        ..cleared.with_levels(up, down).0
    };
    lemma_older_held(start, book.buffer, id, e.recv_ns);
}

/// An update that was held back and straddles a snapshot bridges it when the snapshot arrives: the book
/// is in sync at the update's id, as of the snapshot's receive time.
pub proof fn law_held_updates_bridge_the_snapshot<R: Real>(
    book: BookView<R>,
    snapshot: EventView<R>,
    older: Seq<EventView<R>>,
    e: EventView<R>,
    first_bids: Map<i64, R>,
    first_asks: Map<i64, R>,
    bids: Map<i64, R>,
    asks: Map<i64, R>,
    b: i64,
    a: i64,
)
    requires
        book.instrument is Some,
        snapshot.kind is Snapshot,
        e.kind is Depth,
        book.buffer == older.push(e),
        are_older(older, snapshot.kind->Snapshot_last_id),
        are_sound(snapshot.kind->Snapshot_bids, book.instrument->0.tick),
        are_sound(snapshot.kind->Snapshot_asks, book.instrument->0.tick),
        becomes(
            Map::empty(),
            snapshot.kind->Snapshot_bids,
            book.instrument->0.tick,
            first_bids,
        ),
        becomes(
            Map::empty(),
            snapshot.kind->Snapshot_asks,
            book.instrument->0.tick,
            first_asks,
        ),
        leaves(
            (BookView { bids: first_bids, asks: first_asks, ..book }),
            e,
            bids,
            asks,
            b,
            a,
        ),
        e.kind->Depth_first_id <= snapshot.kind->Snapshot_last_id <= e.kind->Depth_last_id,
    ensures
        ({
            let (after, r) = book.after(snapshot);
            &&& r == Ok::<bool, Error>(true)
            &&& after.synced
            &&& after.last_id == Some(e.kind->Depth_last_id)
            &&& after.bids == bids
            &&& after.asks == asks
            &&& after.updated_ns == snapshot.recv_ns
            &&& after.buffer.len() == 0
        }),
{
    let before = BookView { buffer: older, ..book };
    law_snapshots_replace_the_book(before, snapshot, first_bids, first_asks);
    law_held_updates_follow_the_snapshot(before, snapshot, e);
    assert(BookView { buffer: before.buffer.push(e), ..before } == book);
    let shown = before.after(snapshot).0;
    let dated = EventView { recv_ns: snapshot.recv_ns, ..e };
    assert(leaves(shown, dated, bids, asks, b, a));
    law_straddling_updates_bridge_the_snapshot(
        shown,
        dated,
        snapshot.kind->Snapshot_last_id,
        bids,
        asks,
        b,
        a,
    );
}

/// The rules of an instrument keep the levels of a book where neither the tick nor the step changes,
/// and drop them where one does. Rules that are not amounts above zero are refused.
pub proof fn law_new_ticks_drop_the_levels<R: Real>(book: BookView<R>, e: EventView<R>)
    requires
        e.kind is Metadata,
    ensures
        ({
            let (after, r) = book.after(e);
            let (tick, step) = (e.kind->Metadata_tick, e.kind->Metadata_step);
            let zero = R::spec_from_i64(0);
            let same = book.instrument is None || (book.instrument->0.tick.spec_same(tick)
                && book.instrument->0.step.spec_same(step));
            &&& r is Ok ==> {
                &&& zero.spec_below(tick) && zero.spec_below(step)
                &&& zero.spec_below(e.kind->Metadata_min_qty)
                &&& zero.spec_below(e.kind->Metadata_min_notional)
                &&& r == Ok::<bool, Error>(true)
                &&& after.instrument is Some
                &&& after.instrument->0.tick == tick
                &&& after.instrument->0.step == step
                &&& after.instrument->0.min_qty == e.kind->Metadata_min_qty
                &&& after.instrument->0.min_notional == e.kind->Metadata_min_notional
                &&& same ==> after.bids == book.bids && after.asks == book.asks && after.synced
                    == book.synced && after.last_id == book.last_id && after.buffer == book.buffer
                &&& !same ==> after.bids == Map::<i64, R>::empty() && after.asks == Map::<
                    i64,
                    R,
                >::empty() && !after.synced && after.last_id is None
            }
        }),
{
}

/// A price of a whole number of ticks is kept under that number, and taken where it is above zero and
/// its quantity is not below it.
pub proof fn law_prices_are_counted_in_ticks(level: [Fixed; 2], tick: Fixed, k: i64)
    requires
        tick.units > 0,
        level[0].units == k * tick.units,
        abs(k as int) <= i64::MAX / SCALE - 1,
    ensures
        price_key(level[0], tick) == k,
        k > 0 && level[1].units >= 0 ==> level_fault(level, tick) is None,
{
    let price = level[0];
    let (n, t) = (k as int, tick.units as int);
    assert(price.units * SCALE == n * SCALE * t) by (nonlinear_arith)
        requires
            price.units == n * t,
    ;
    assert(abs(n * SCALE) <= i64::MAX - SCALE) by (nonlinear_arith)
        requires
            abs(n) <= i64::MAX / SCALE - 1,
            SCALE == 1_000_000_000,
    ;
    assert(abs(n * SCALE * t) <= i64::MAX * t) by (nonlinear_arith)
        requires
            abs(n * SCALE) <= i64::MAX - SCALE,
            t > 0,
            SCALE == 1_000_000_000,
    ;
    lemma_quotient(price, tick);
    let units = price.spec_over(tick);
    assert(cuts(n * SCALE, n * SCALE * t, t)) by (nonlinear_arith)
        requires
            t > 0,
            SCALE == 1_000_000_000,
    ;
    lemma_cuts_agree(units.units as int, n * SCALE, n * SCALE * t, t);
    let m = abs(n * SCALE);
    assert(m == abs(n) * SCALE);
    assert((m + SCALE / 2) / SCALE as int * SCALE == m) by (nonlinear_arith)
        requires
            m == abs(n) * SCALE,
            SCALE == 1_000_000_000,
    ;
    assert(units.spec_rounded() == units);
    assert(abs(n * SCALE) / SCALE as int == abs(n)) by (nonlinear_arith)
        requires
            abs(n * SCALE) == abs(n) * SCALE,
            SCALE == 1_000_000_000,
    ;
    if k > 0 {
        assert(price.units > 0) by (nonlinear_arith)
            requires
                price.units == n * t,
                n > 0,
                t > 0,
        ;
        assert(units.spec_minus(units.spec_rounded()).spec_magnitude().units == 0);
        let small = ratio::<Fixed>(1, 100_000);
        let (one, many) = (Fixed::spec_from_i64(1), Fixed::spec_from_i64(100_000));
        assert(one.units == SCALE && many.units == 100_000 * SCALE);
        lemma_quotient(one, many);
        assert(small.units > 0) by (nonlinear_arith)
            requires
                cuts(small.units as int, SCALE * SCALE, 100_000 * SCALE),
                SCALE == 1_000_000_000,
        ;
        assert(Fixed::spec_from_i64(i64::MAX).units == i64::MAX);
    }
}

/// Levels with a price or quantity below zero, or a price of zero, are refused.
pub proof fn law_levels_are_amounts(level: [Fixed; 2], tick: Fixed)
    ensures
        level_fault(level, tick) is None ==> level[0].units > 0 && level[1].units >= 0,
        level[0].units <= 0 || level[1].units < 0 ==> level_fault(level, tick) == Some(
            Error::InvalidDepthLevel,
        ),
{
}

/// What the first levels of a list display, in units.
pub open spec fn displayed(levels: Seq<(i64, Fixed)>, n: int) -> int
    decreases n,
{
    if n <= 0 {
        0
    } else {
        displayed(levels, n - 1) + if n <= levels.len() {
            levels[n - 1].1.units as int
        } else {
            0
        }
    }
}

proof fn lemma_displayed(levels: Seq<(i64, Fixed)>, n: nat)
    requires
        forall|j: int| 0 <= j < levels.len() ==> (#[trigger] levels[j]).1.units >= 0,
        displayed(levels, n as int) <= i64::MAX,
    ensures
        total(best(levels, n)).units == displayed(levels, n as int),
        displayed(levels, n as int) >= 0,
    decreases n,
{
    let all = best(levels, n);
    if n > 0 {
        let m = (n - 1) as nat;
        if n <= levels.len() {
            assert(levels[n - 1].1.units >= 0);
        }
        lemma_displayed(levels, m);
        let fewer = best(levels, m);
        if n <= levels.len() {
            assert(all.drop_last() =~= fewer);
            assert(all.last() == levels[n - 1].1);
        } else {
            assert(all =~= fewer);
        }
    } else {
        assert(all.len() == 0);
    }
}

/// The imbalance of the best levels is what the bids display more than the asks, as a share of what both
/// display: above zero where the bids display more, below zero where the asks do, and within one of
/// zero.
pub proof fn law_imbalance_leans_to_the_heavier_side(book: BookView<Fixed>, n: nat)
    requires
        forall|j: int|
            0 <= j < downward(book.bids).len() ==> (#[trigger] downward(book.bids)[j]).1.units >= 0,
        forall|j: int|
            0 <= j < upward(book.asks).len() ==> (#[trigger] upward(book.asks)[j]).1.units >= 0,
        displayed(downward(book.bids), n as int) <= i64::MAX / 2,
        displayed(upward(book.asks), n as int) <= i64::MAX / 2,
    ensures
        ({
            let b = displayed(downward(book.bids), n as int);
            let a = displayed(upward(book.asks), n as int);
            let lean = book.imbalance(n).units as int;
            &&& a + b > 0 ==> cuts(lean, (b - a) * SCALE, a + b)
            &&& a + b == 0 ==> lean == 0
            &&& -SCALE <= lean <= SCALE
            &&& b >= a ==> lean >= 0
            &&& b <= a ==> lean <= 0
        }),
{
    lemma_displayed(downward(book.bids), n);
    lemma_displayed(upward(book.asks), n);
    let b = displayed(downward(book.bids), n as int);
    let a = displayed(upward(book.asks), n as int);
    if a + b > 0 {
        let (x, y) = (Fixed { units: (b - a) as i64 }, Fixed { units: (a + b) as i64 });
        assert(abs((b - a) * SCALE) <= i64::MAX * (a + b)) by (nonlinear_arith)
            requires
                a >= 0,
                b >= 0,
                SCALE == 1_000_000_000,
        ;
        lemma_quotient(x, y);
        let lean = x.spec_over(y).units as int;
        assert(book.imbalance(n) == x.spec_over(y));
        assert(-SCALE <= lean <= SCALE && (b >= a ==> lean >= 0) && (b <= a ==> lean <= 0))
            by (nonlinear_arith)
            requires
                cuts(lean, (b - a) * SCALE, a + b),
                a >= 0,
                b >= 0,
                a + b > 0,
                SCALE == 1_000_000_000,
        ;
    }
}

/// The price of a book is halfway between its best prices, and there is one exactly where there is a
/// top.
pub proof fn law_mid_is_halfway<R: Real>(book: BookView<R>, top: (R, R, R, R))
    ensures
        book.mid() is Some <==> book.top() is Some,
        book.top() == Some(top) ==> book.mid() == Some(
            top.0.spec_plus(top.2).spec_over(R::spec_from_i64(2)),
        ),
{
}

/// In whole units the price is not below the best bid, below the best ask where they are a unit apart or
/// more, and as far from the one as from the other, to the unit.
pub proof fn law_mid_lies_between(book: BookView<Fixed>, b: Fixed, bq: Fixed, a: Fixed, aq: Fixed)
    requires
        book.top() == Some((b, bq, a, aq)),
        0 <= b.units < a.units <= i64::MAX / 4,
    ensures
        ({
            let mid = book.mid()->0.units;
            &&& book.mid() is Some
            &&& b.units <= mid < a.units
            &&& 0 <= (a.units - mid) - (mid - b.units) <= 1
        }),
{
    lemma_middle(b, a);
}

/// Whether an update is the one that a book needs next.
pub open spec fn is_next<R: Real>(book: BookView<R>, e: EventView<R>) -> bool {
    e.kind matches KindView::Depth { first_id, last_id, prev_id, .. } && first_id <= last_id && (
    book.last_id matches Some(id) && if book.synced {
        last_id > id && prev_id == id
    } else {
        first_id <= id <= last_id
    })
}

/// An update that leaves a side empty, or the best bid not below the best ask, gives the book up: it has
/// no levels and no number then, and a snapshot is needed.
pub proof fn law_books_without_a_top_are_given_up<R: Real>(
    book: BookView<R>,
    e: EventView<R>,
    bids: Map<i64, R>,
    asks: Map<i64, R>,
)
    requires
        book.instrument is Some,
        is_next(book, e),
        are_sound(e.kind->Depth_bids, book.instrument->0.tick),
        are_sound(e.kind->Depth_asks, book.instrument->0.tick),
        becomes(book.bids, e.kind->Depth_bids, book.instrument->0.tick, bids),
        becomes(book.asks, e.kind->Depth_asks, book.instrument->0.tick, asks),
        (BookView { bids, asks, ..book }).top() is None,
    ensures
        ({
            let (after, r) = book.after(e);
            &&& r == Ok::<bool, Error>(false)
            &&& !after.synced
            &&& after.last_id is None
            &&& after.bids == Map::<i64, R>::empty()
            &&& after.asks == Map::<i64, R>::empty()
            &&& after.buffer.len() == 0
            &&& after.generation == book.generation.wrapping_add(1)
            &&& after.instrument == book.instrument
        }),
{
    let tick = book.instrument->0.tick;
    let (up, down) = (e.kind->Depth_bids, e.kind->Depth_asks);
    lemma_side_becomes(book.bids, up, tick, bids);
    lemma_side_becomes(book.asks, down, tick, asks);
    let levels = book.with_levels(up, down).0;
    assert(levels.top() == BookView { bids, asks, ..book }.top());
}

/// An update with a level that is refused is an error: the book keeps its number and its time. The levels
/// before the refused one are taken in, bids first, so that a refused bid leaves the asks as they were.
pub proof fn law_refused_levels_stop_an_update<R: Real>(
    book: BookView<R>,
    e: EventView<R>,
    bids: Map<i64, R>,
    j: int,
)
    requires
        book.instrument is Some,
        is_next(book, e),
        0 <= j < e.kind->Depth_bids.len(),
        are_sound(e.kind->Depth_bids.take(j), book.instrument->0.tick),
        level_fault(e.kind->Depth_bids[j], book.instrument->0.tick) is Some,
        becomes(book.bids, e.kind->Depth_bids.take(j), book.instrument->0.tick, bids),
    ensures
        ({
            let (after, r) = book.after(e);
            &&& r is Err
            &&& Some(r->Err_0) == level_fault(e.kind->Depth_bids[j], book.instrument->0.tick)
            &&& after.bids == bids
            &&& after.asks == book.asks
            &&& after.last_id == book.last_id
            &&& after.synced == book.synced
            &&& after.updated_ns == book.updated_ns
            &&& after.generation == book.generation
        }),
{
    let tick = book.instrument->0.tick;
    let up = e.kind->Depth_bids;
    lemma_sound_up_to(up, tick, j);
    lemma_placed_becomes(book.bids, up.take(j), tick);
    lemma_becomes_one(book.bids, up.take(j), tick, bids, placed_all(book.bids, up.take(j), tick));
}

proof fn lemma_sound_up_to<R: Real>(levels: Seq<[R; 2]>, tick: R, j: int)
    requires
        0 <= j < levels.len(),
        are_sound(levels.take(j), tick),
        level_fault(levels[j], tick) is Some,
    ensures
        sound_len(levels, tick) == j,
    decreases levels.len(),
{
    let fewer = levels.drop_last();
    if j == levels.len() - 1 {
        assert(fewer =~= levels.take(j));
        lemma_all_sound(fewer, tick);
    } else {
        assert(fewer.take(j) =~= levels.take(j));
        lemma_sound_up_to(fewer, tick, j);
    }
}

} // verus!
