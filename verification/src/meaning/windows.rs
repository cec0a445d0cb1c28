//! What the features of the last hundred milliseconds, second and five seconds count.
use crate::book::BookView;
use crate::features::{
    earlier, flow_after, joint_vector, mid_at, path_after, signed_after, trimmed_flow, trimmed_mids,
    trimmed_trades, volume_after, HistoryView,
};
use crate::fixed::{abs, Fixed, SCALE};
use crate::meaning::arithmetic::{cuts, lemma_quotient};
use crate::meaning::signals::lemma_middle;
use crate::number::{ratio, Real};
use crate::types::{EventView, KindView};
use vstd::prelude::*;

verus! {

/// The spans of the three windows, in nanoseconds.
pub open spec fn span(w: int) -> u64 {
    if w == 0 {
        100_000_000
    } else if w == 1 {
        1_000_000_000
    } else {
        5_000_000_000
    }
}

/// Where the features of a window begin in the vector of an asset.
pub open spec fn place(w: int) -> int {
    5 + 4 * w
}

/// Whether a time lies less than a span before another. What is noted at time zero counts only where
/// the span reaches back before it.
pub open spec fn is_recent(t: u64, now: u64, span: u64) -> bool {
    if now >= span {
        t + span > now
    } else {
        t > 0
    }
}

/// Whether a window is one of the three.
pub open spec fn is_window(w: int) -> bool {
    0 <= w < 3
}

proof fn lemma_flow_pushed<R: Real>(flow: Seq<(u64, R)>, x: (u64, R), t: u64)
    ensures
        flow_after(flow.push(x), t) == if x.0 > t {
            flow_after(flow, t).spec_plus(x.1)
        } else {
            flow_after(flow, t)
        },
{
    assert(flow.push(x).drop_last() =~= flow);
}

/// One more note of order flow is added to the order flow of exactly the windows in which it is
/// recent, and to no other feature.
pub proof fn law_order_flow_counts_while_it_is_recent<R: Real>(
    h: HistoryView<R>,
    now: u64,
    book: BookView<R>,
    t: u64,
    flow: R,
    k: int,
)
    requires
        h.vector(now, book) is Some,
        0 <= k < 17,
    ensures
        ({
            let more = HistoryView { flow: h.flow.push((t, flow)), ..h }.vector(now, book);
            let w = (k - 5) / 4;
            &&& more is Some
            &&& more->0[k] == if k >= 5 && (k - 5) % 4 == 0 && is_recent(t, now, span(w)) {
                h.vector(now, book)->0[k].spec_plus(flow)
            } else {
                h.vector(now, book)->0[k]
            }
        }),
{
    lemma_flow_pushed(h.flow, (t, flow), earlier(now, 100_000_000));
    lemma_flow_pushed(h.flow, (t, flow), earlier(now, 1_000_000_000));
    lemma_flow_pushed(h.flow, (t, flow), earlier(now, 5_000_000_000));
}

/// Without order flow, the order flow of every window is nothing.
pub proof fn law_no_order_flow_is_nothing<R: Real>(h: HistoryView<R>, now: u64, book: BookView<R>, w: int)
    requires
        is_window(w),
        h.flow.len() == 0,
        h.vector(now, book) is Some,
    ensures
        h.vector(now, book)->0[place(w)] == R::spec_from_i64(0).spec_negated(),
{
}

/// What recent trades add up to, in units: what buyers took less what sellers gave.
pub open spec fn net_traded(trades: Seq<(u64, Fixed, Fixed)>, now: u64, span: u64) -> int
    decreases trades.len(),
{
    if trades.len() == 0 {
        0
    } else {
        net_traded(trades.drop_first(), now, span) + if is_recent(trades.first().0, now, span) {
            trades.first().1.units as int
        } else {
            0
        }
    }
}

/// How much recent trades exchanged, in units.
pub open spec fn traded(trades: Seq<(u64, Fixed, Fixed)>, now: u64, span: u64) -> int
    decreases trades.len(),
{
    if trades.len() == 0 {
        0
    } else {
        traded(trades.drop_first(), now, span) + if is_recent(trades.first().0, now, span) {
            trades.first().2.units as int
        } else {
            0
        }
    }
}

/// Whether each trade is noted with its quantity, and with the quantity or its negative.
pub open spec fn are_trades(trades: Seq<(u64, Fixed, Fixed)>) -> bool {
    forall|j: int|
        0 <= j < trades.len() ==> (#[trigger] trades[j]).2.units > 0 && (trades[j].1.units
            == trades[j].2.units || trades[j].1.units == -trades[j].2.units)
}

proof fn lemma_last_trade(trades: Seq<(u64, Fixed, Fixed)>, now: u64, span: u64)
    requires
        trades.len() > 0,
        are_trades(trades),
    ensures
        ({
            let last = trades.last();
            let recent = is_recent(last.0, now, span);
            &&& net_traded(trades, now, span) == net_traded(trades.drop_last(), now, span) + if
                recent {
                last.1.units as int
            } else {
                0
            }
            &&& traded(trades, now, span) == traded(trades.drop_last(), now, span) + if recent {
                last.2.units as int
            } else {
                0
            }
        }),
    decreases trades.len(),
{
    if trades.len() == 1 {
        assert(trades.drop_first() =~= trades.drop_last());
        assert(trades.drop_last().len() == 0);
    } else {
        let rest = trades.drop_first();
        assert forall|j: int| 0 <= j < rest.len() implies (#[trigger] rest[j]).2.units > 0 && (
        rest[j].1.units == rest[j].2.units || rest[j].1.units == -rest[j].2.units) by {
            assert(rest[j] == trades[j + 1]);
        }
        lemma_last_trade(rest, now, span);
        assert(rest.drop_last() =~= trades.drop_last().drop_first());
        assert(trades.drop_last().first() == trades.first());
    }
}

proof fn lemma_trade_sums(trades: Seq<(u64, Fixed, Fixed)>, now: u64, span: u64)
    requires
        are_trades(trades),
        traded(trades, now, span) <= i64::MAX,
    ensures
        ({
            let start = earlier(now, span as int);
            let net = net_traded(trades, now, span);
            let all = traded(trades, now, span);
            &&& signed_after(trades, start).units == net
            &&& volume_after(trades, start).units == all
            &&& -all <= net <= all
            &&& all >= 0
        }),
    decreases trades.len(),
{
    if trades.len() > 0 {
        let fewer = trades.drop_last();
        let last = trades[trades.len() - 1];
        assert(last.2.units > 0);
        assert forall|j: int| 0 <= j < fewer.len() implies (#[trigger] fewer[j]).2.units > 0 && (
        fewer[j].1.units == fewer[j].2.units || fewer[j].1.units == -fewer[j].2.units) by {
            assert(fewer[j] == trades[j]);
        }
        lemma_last_trade(trades, now, span);
        lemma_trade_sums(fewer, now, span);
    }
}

/// The trade flow of a window is what buyers took less what sellers gave, as a share of all that was
/// traded in it. It is one where only buyers took, and minus one where only sellers gave.
pub proof fn law_trade_flow_is_the_buyers_share(
    h: HistoryView<Fixed>,
    now: u64,
    book: BookView<Fixed>,
    w: int,
)
    requires
        is_window(w),
        are_trades(h.trades),
        traded(h.trades, now, span(w)) <= i64::MAX,
        h.vector(now, book) is Some,
    ensures
        ({
            let flow = h.vector(now, book)->0[place(w) + 1].units as int;
            let net = net_traded(h.trades, now, span(w));
            let all = traded(h.trades, now, span(w));
            &&& all > 0 ==> cuts(flow, net * SCALE, all)
            &&& all == 0 ==> flow == 0
            &&& -SCALE <= flow <= SCALE
            &&& all > 0 && net == all ==> flow == SCALE
            &&& all > 0 && net == -all ==> flow == -SCALE
        }),
{
    lemma_trade_sums(h.trades, now, span(w));
    let start = earlier(now, span(w) as int);
    let net = net_traded(h.trades, now, span(w));
    let all = traded(h.trades, now, span(w));
    let (s, v) = (signed_after(h.trades, start), volume_after(h.trades, start));
    lemma_tiny();
    if all > 0 {
        assert(abs(s.units * SCALE) <= i64::MAX * v.units) by (nonlinear_arith)
            requires
                -v.units <= s.units <= v.units,
                SCALE == 1_000_000_000,
        ;
        lemma_quotient(s, v);
        let flow = s.spec_over(v).units as int;
        assert(-SCALE <= flow <= SCALE) by (nonlinear_arith)
            requires
                cuts(flow, net * SCALE, all),
                -all <= net <= all,
                all > 0,
                SCALE == 1_000_000_000,
        ;
        if net == all {
            assert(flow == SCALE) by (nonlinear_arith)
                requires
                    cuts(flow, net * SCALE, all),
                    net == all,
                    all > 0,
                    SCALE == 1_000_000_000,
            ;
        }
        if net == -all {
            assert(flow == -SCALE) by (nonlinear_arith)
                requires
                    cuts(flow, net * SCALE, all),
                    net == -all,
                    all > 0,
                    SCALE == 1_000_000_000,
            ;
        }
    }
}

proof fn lemma_trimmed_trades<R>(s: Seq<(u64, R, R)>, cutoff: u64)
    requires
        s.len() > 0,
        s.last().0 > cutoff,
    ensures
        trimmed_trades(s, cutoff).len() > 0,
        trimmed_trades(s, cutoff).last() == s.last(),
    decreases s.len(),
{
    if s[0].0 <= cutoff {
        assert(s.len() > 1);
        lemma_trimmed_trades(s.drop_first(), cutoff);
    }
}

proof fn lemma_trimmed_flow<R>(s: Seq<(u64, R)>, cutoff: u64)
    requires
        s.len() > 0,
        s.last().0 > cutoff,
    ensures
        trimmed_flow(s, cutoff).len() > 0,
        trimmed_flow(s, cutoff).last() == s.last(),
    decreases s.len(),
{
    if s[0].0 <= cutoff {
        assert(s.len() > 1);
        lemma_trimmed_flow(s.drop_first(), cutoff);
    }
}

proof fn lemma_trimmed_mids<R>(s: Seq<(u64, R)>, cutoff: u64)
    requires
        s.len() > 0,
    ensures
        trimmed_mids(s, cutoff).len() > 0,
        trimmed_mids(s, cutoff).last() == s.last(),
    decreases s.len(),
{
    if s.len() > 1 && s[1].0 <= cutoff {
        lemma_trimmed_mids(s.drop_first(), cutoff);
    }
}

/// A new trade is noted at its receive time with its quantity, as bought where the buyer was the taker
/// and as sold where the buyer was the maker.
pub proof fn law_takers_give_trades_their_sign<R: Real>(
    h: HistoryView<R>,
    e: EventView<R>,
    book: BookView<R>,
)
    requires
        e.recv_ns > 0,
        e.kind matches KindView::Trade { id, .. } && forall|last: u64| #[trigger]
            is_last_trade(h, last) ==> id > last,
    ensures
        ({
            let noted = h.observed(e, book).trades.last();
            let qty = e.kind->Trade_qty;
            &&& h.observed(e, book).trades.len() > 0
            &&& noted.0 == e.recv_ns
            &&& noted.2 == qty
            &&& !e.kind->Trade_buyer_maker ==> noted.1 == qty
            &&& e.kind->Trade_buyer_maker ==> noted.1 == qty.spec_negated()
            &&& is_last_trade(h.observed(e, book), e.kind->Trade_id)
        }),
{
    if h.last_trade is Some {
        assert(is_last_trade(h, h.last_trade->0));
    }
    let next = h.recorded(e, book);
    lemma_trimmed_trades(next.trades, earlier(e.recv_ns, 5_000_000_000));
}

/// Whether a trade is the last one that a history counted.
pub open spec fn is_last_trade<R>(h: HistoryView<R>, id: u64) -> bool {
    h.last_trade == Some(id)
}

/// What a change of the best bid adds to the order flow, in units: a better bid adds all that it
/// displays, a worse one takes away all that was displayed, and at the same price it is the change.
pub open spec fn bid_pressure(was: (Fixed, Fixed), is: (Fixed, Fixed)) -> int {
    if is.0.units > was.0.units {
        is.1.units as int
    } else if is.0.units < was.0.units {
        -was.1.units
    } else {
        is.1.units - was.1.units
    }
}

/// What a change of the best ask takes from the order flow, in units: the mirror image.
pub open spec fn ask_pressure(was: (Fixed, Fixed), is: (Fixed, Fixed)) -> int {
    if is.0.units < was.0.units {
        is.1.units as int
    } else if is.0.units > was.0.units {
        -was.1.units
    } else {
        is.1.units - was.1.units
    }
}

/// An update of the book notes the price halfway between its best prices, and the order flow since the
/// last top: what the bids gained less what the asks gained, as a share of what the new top displays.
pub proof fn law_updates_note_pressure(
    h: HistoryView<Fixed>,
    e: EventView<Fixed>,
    book: BookView<Fixed>,
    was: (Fixed, Fixed, Fixed, Fixed),
    is: (Fixed, Fixed, Fixed, Fixed),
)
    requires
        e.recv_ns > 0,
        e.kind is Depth,
        book.top() == Some(is),
        h.last_top == Some(was),
        0 <= is.0.units <= i64::MAX / 4,
        0 <= is.2.units <= i64::MAX / 4,
        0 < is.1.units <= i64::MAX / 16,
        0 < is.3.units <= i64::MAX / 16,
        0 <= was.1.units <= i64::MAX / 16,
        0 <= was.3.units <= i64::MAX / 16,
        was.1.units <= 1_000_000 * is.1.units,
        was.3.units <= 1_000_000 * is.3.units,
    ensures
        ({
            let after = h.observed(e, book);
            let flow = after.flow.last();
            let mid = after.mids.last();
            let pressure = bid_pressure((was.0, was.1), (is.0, is.1)) - ask_pressure(
                (was.2, was.3),
                (is.2, is.3),
            );
            &&& after.last_top == Some(is)
            &&& mid.0 == e.recv_ns
            &&& 2 * mid.1.units <= is.0.units + is.2.units < 2 * mid.1.units + 2
            &&& flow.0 == e.recv_ns
            &&& cuts(flow.1.units as int, pressure * SCALE, is.1.units + is.3.units)
        }),
{
    let next = h.recorded(e, book);
    let cutoff = earlier(e.recv_ns, 5_000_000_000);
    lemma_trimmed_flow(next.flow, cutoff);
    lemma_trimmed_mids(next.mids, cutoff);
    lemma_middle(is.0, is.2);
    let pressure = bid_pressure((was.0, was.1), (is.0, is.1)) - ask_pressure(
        (was.2, was.3),
        (is.2, is.3),
    );
    let n = Fixed { units: pressure as i64 };
    let d = is.1.spec_plus(is.3);
    assert(d.units == is.1.units + is.3.units);
    assert(abs(n.units * SCALE) <= i64::MAX * d.units) by (nonlinear_arith)
        requires
            -1_000_001 * d.units <= n.units <= 1_000_001 * d.units,
            d.units > 0,
            SCALE == 1_000_000_000,
    ;
    lemma_quotient(n, d);
    lemma_tiny();
    assert(next.flow.last().1 == n.spec_over(d));
}

pub proof fn lemma_tiny()
    ensures
        ratio::<Fixed>(1, 1_000_000_000_000).units == 0,
{
    let d = Fixed::spec_from_i64(1_000_000_000_000);
    assert(d.units == i64::MAX);
    let one = Fixed::spec_from_i64(1);
    assert(one.units == SCALE);
    lemma_quotient(one, d);
    let r = one.spec_over(d).units as int;
    assert(r == 0) by (nonlinear_arith)
        requires
            cuts(r, SCALE * SCALE, i64::MAX as int),
            SCALE == 1_000_000_000,
    ;
}

/// Whether a price is the last one that was noted at or before a time.
pub open spec fn was_noted<R>(mids: Seq<(u64, R)>, t: int, price: R) -> bool {
    exists|k: int|
        0 <= k < mids.len() && (#[trigger] mids[k]).0 <= t && mids[k].1 == price && forall|j: int|
            k < j < mids.len() ==> (#[trigger] mids[j]).0 > t
}

proof fn lemma_was_noted<R>(mids: Seq<(u64, R)>, t: u64, price: R)
    requires
        was_noted(mids, t as int, price),
    ensures
        mid_at(mids, t) == Some(price),
    decreases mids.len(),
{
    let k = choose|k: int|
        0 <= k < mids.len() && (#[trigger] mids[k]).0 <= t && mids[k].1 == price && forall|j: int|
            k < j < mids.len() ==> (#[trigger] mids[j]).0 > t;
    let n = mids.len() - 1;
    if k < n {
        assert(mids[n].0 > t);
        let fewer = mids.drop_last();
        assert(fewer[k] == mids[k]);
        assert forall|j: int| k < j < fewer.len() implies (#[trigger] fewer[j]).0 > t by {
            assert(fewer[j] == mids[j]);
        }
        lemma_was_noted(fewer, t, price);
    }
}

/// The return of a window is ten thousand times the logarithm of the price halfway between the best
/// prices now over the one that was last noted when the window began.
pub proof fn law_returns_compare_with_the_start_of_the_window<R: Real>(
    h: HistoryView<R>,
    now: u64,
    book: BookView<R>,
    top: (R, R, R, R),
    w: int,
    base: R,
)
    requires
        is_window(w),
        now >= span(w),
        book.top() == Some(top),
        h.vector(now, book) is Some,
        was_noted(h.mids, now - span(w), base),
    ensures
        ({
            let mid = top.0.spec_plus(top.2).spec_over(R::spec_from_i64(2));
            h.vector(now, book)->0[place(w) + 2] == R::spec_from_i64(10_000).spec_times(
                mid.spec_over(base).spec_log(),
            )
        }),
{
    lemma_was_noted(h.mids, (now - span(w)) as u64, base);
}

/// The squared returns along the prices behind a time, from the first on, added to a sum, and the last
/// price.
pub open spec fn squares<R: Real>(mids: Seq<(u64, R)>, t: int, last: R, sum: R) -> (R, R)
    decreases mids.len(),
{
    if mids.len() == 0 {
        (last, sum)
    } else if mids.first().0 <= t {
        squares(mids.drop_first(), t, last, sum)
    } else {
        let step = R::spec_from_i64(10_000).spec_times(
            mids.first().1.spec_over(last).spec_log(),
        );
        squares(
            mids.drop_first(),
            t,
            mids.first().1,
            sum.spec_plus(step.spec_times(step)),
        )
    }
}

proof fn lemma_squares_push<R: Real>(mids: Seq<(u64, R)>, t: int, last: R, sum: R)
    requires
        mids.len() > 0,
    ensures
        ({
            let (prev, part) = squares(mids.drop_last(), t, last, sum);
            let x = mids.last();
            let step = R::spec_from_i64(10_000).spec_times(x.1.spec_over(prev).spec_log());
            squares(mids, t, last, sum) == if x.0 <= t {
                (prev, part)
            } else {
                (x.1, part.spec_plus(step.spec_times(step)))
            }
        }),
    decreases mids.len(),
{
    reveal_with_fuel(squares, 2);
    if mids.len() == 1 {
        assert(mids.drop_first() =~= Seq::empty());
        assert(mids.drop_last() =~= Seq::empty());
    } else {
        let rest = mids.drop_first();
        let x = mids.first();
        assert(rest.drop_last() =~= mids.drop_last().drop_first());
        assert(mids.drop_last().first() == x);
        assert(rest.last() == mids.last());
        if x.0 <= t {
            lemma_squares_push(rest, t, last, sum);
        } else {
            let step = R::spec_from_i64(10_000).spec_times(x.1.spec_over(last).spec_log());
            lemma_squares_push(rest, t, x.1, sum.spec_plus(step.spec_times(step)));
        }
    }
}

proof fn lemma_squares<R: Real>(mids: Seq<(u64, R)>, t: u64, base: R)
    ensures
        path_after(mids, t, base) == squares(mids, t as int, base, R::spec_from_i64(0)),
    decreases mids.len(),
{
    if mids.len() > 0 {
        lemma_squares(mids.drop_last(), t, base);
        lemma_squares_push(mids, t as int, base, R::spec_from_i64(0));
    }
}

/// The volatility of a window is the square root of the sum of the squared returns from each price that
/// was noted in it to the next, the first from the price at which the window began.
pub proof fn law_volatility_adds_up_squared_returns<R: Real>(
    h: HistoryView<R>,
    now: u64,
    book: BookView<R>,
    w: int,
    base: R,
)
    requires
        is_window(w),
        now >= span(w),
        h.vector(now, book) is Some,
        was_noted(h.mids, now - span(w), base),
    ensures
        h.vector(now, book)->0[place(w) + 3] == squares(
            h.mids,
            now - span(w),
            base,
            R::spec_from_i64(0),
        ).1.spec_root(),
{
    lemma_was_noted(h.mids, (now - span(w)) as u64, base);
    lemma_squares(h.mids, (now - span(w)) as u64, base);
}

/// The vector of both assets holds the seventeen features of the first, those of the second, and for
/// each window the return of the first less that of the second.
pub proof fn law_cross_features_compare_the_returns<R: Real>(
    first: HistoryView<R>,
    second: HistoryView<R>,
    first_book: BookView<R>,
    second_book: BookView<R>,
    now: u64,
    k: int,
)
    requires
        joint_vector(first, second, first_book, second_book, now) is Some,
        0 <= k < 17,
    ensures
        ({
            let x = joint_vector(first, second, first_book, second_book, now)->0;
            &&& x.len() == 37
            &&& first.vector(now, first_book) is Some
            &&& second.vector(now, second_book) is Some
            &&& x[k] == first.vector(now, first_book)->0[k]
            &&& x[17 + k] == second.vector(now, second_book)->0[k]
            &&& x[34] == x[7].spec_minus(x[24])
            &&& x[35] == x[11].spec_minus(x[28])
            &&& x[36] == x[15].spec_minus(x[32])
        }),
{
}

/// A timer notes the price of the book at its own time.
pub proof fn law_timers_note_the_price<R: Real>(h: HistoryView<R>, now: u64, book: BookView<R>)
    requires
        now > 0,
        book.mid() is Some,
    ensures
        ({
            let after = h.sampled(now, book);
            &&& after.mids.len() > 0
            &&& after.mids.last() == (now, book.mid()->0)
            &&& after.flow == h.flow
            &&& after.trades == h.trades
            &&& after.last_top == h.last_top
            &&& after.last_trade == h.last_trade
        }),
{
    lemma_trimming_keeps_the_last(h.mids.push((now, book.mid()->0)), earlier(now, 5_000_000_000));
}

proof fn lemma_trimming_keeps_the_last<R>(mids: Seq<(u64, R)>, cutoff: u64)
    requires
        mids.len() > 0,
    ensures
        trimmed_mids(mids, cutoff).len() > 0,
        trimmed_mids(mids, cutoff).last() == mids.last(),
    decreases mids.len(),
{
    if mids.len() > 1 && mids[1].0 <= cutoff {
        lemma_trimming_keeps_the_last(mids.drop_first(), cutoff);
    }
}

/// An asset has features exactly where its book has a top and a price was noted five seconds ago or
/// before.
pub proof fn law_features_need_a_top_and_a_past<R: Real>(
    h: HistoryView<R>,
    now: u64,
    book: BookView<R>,
)
    requires
        now >= 5_000_000_000,
    ensures
        h.vector(now, book) is Some <==> book.top() is Some && exists|k: int|
            0 <= k < h.mids.len() && (#[trigger] h.mids[k]).0 + 5_000_000_000 <= now,
{
    lemma_price_at(h.mids, (now - 100_000_000) as u64);
    lemma_price_at(h.mids, (now - 1_000_000_000) as u64);
    lemma_price_at(h.mids, (now - 5_000_000_000) as u64);
}

proof fn lemma_price_at<R>(mids: Seq<(u64, R)>, t: u64)
    ensures
        mid_at(mids, t) is Some <==> exists|k: int|
            0 <= k < mids.len() && (#[trigger] mids[k]).0 <= t,
    decreases mids.len(),
{
    if mids.len() > 0 {
        let fewer = mids.drop_last();
        lemma_price_at(fewer, t);
        if mids.last().0 <= t {
            assert(mids[mids.len() - 1].0 <= t);
        } else {
            assert forall|k: int| 0 <= k < mids.len() && (#[trigger] mids[k]).0 <= t implies fewer[k].0
                <= t && k < fewer.len() by {}
            assert forall|k: int| 0 <= k < fewer.len() && (#[trigger] fewer[k]).0 <= t implies mids[k].0
                <= t by {}
        }
    }
}

} // verus!
