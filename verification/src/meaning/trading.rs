//! How the account is valued, and when and how it enters, in whole units.
use crate::book::{BookView, Instrument};
use crate::config::Config;
use crate::fixed::{abs, quotient_of, Fixed, SCALE};
use crate::laws::has_two_assets;
use crate::meaning::arithmetic::{
    cuts, lemma_cut, lemma_cuts_agree, lemma_product, lemma_quotient, lemma_signed,
};
use crate::number::Real;
use crate::paper::{average_price, entry_size, exposure, BrokerView, DAY};
use crate::types::EventView;
use vstd::prelude::*;

verus! {

/// The price at which an asset is valued: that of its book while the book is fresh, else the last one.
pub open spec fn is_valued_at<R: Real>(
    broker: BrokerView<R>,
    book: BookView<R>,
    i: int,
    now: u64,
    c: Config<R>,
    price: R,
) -> bool {
    if book.fresh(now, c.stale_ms) {
        book.mid() == Some(price)
    } else {
        price == broker.last_mids[i]
    }
}

/// The account is worth its cash and, for each asset, what is held times how far the price is above the
/// entry; so a long gains as the price rises and a short as it falls. The peak is the most that it was
/// worth, and the drawdown the most that it was below its peak. What is held without a fresh book is
/// flagged. Nothing else changes.
pub proof fn law_worth_is_cash_and_open_gains(
    broker: BrokerView<Fixed>,
    books: Seq<BookView<Fixed>>,
    now: u64,
    c: Config<Fixed>,
    prices: (Fixed, Fixed),
    gains: (int, int),
)
    requires
        has_two_assets(broker),
        broker.per_symbol.len() == 2,
        is_valued_at(broker, books[0], 0, now, c, prices.0),
        is_valued_at(broker, books[1], 1, now, c, prices.1),
        ({
            let (p, q) = (broker.positions[0], broker.positions[1]);
            &&& 0 <= prices.0.units && 0 <= prices.1.units
            &&& 0 <= p.entry.units && 0 <= q.entry.units
            &&& abs(p.qty.units * (prices.0.units - p.entry.units)) <= i64::MAX * SCALE
            &&& abs(q.qty.units * (prices.1.units - q.entry.units)) <= i64::MAX * SCALE
            &&& cuts(gains.0, p.qty.units * (prices.0.units - p.entry.units), SCALE as int)
            &&& cuts(gains.1, q.qty.units * (prices.1.units - q.entry.units), SCALE as int)
        }),
    ensures
        ({
            let after = broker.marked(books, now, c);
            &&& after.per_symbol[0].unrealized.units == gains.0
            &&& after.per_symbol[1].unrealized.units == gains.1
            &&& after.equity == broker.cash.spec_plus(after.per_symbol[0].unrealized).spec_plus(
                after.per_symbol[1].unrealized,
            )
            &&& after.last_mids == seq![prices.0, prices.1]
            &&& after.peak.units >= broker.peak.units && after.peak.units >= after.equity.units
            &&& after.peak == broker.peak || after.peak == after.equity
            &&& after.max_drawdown.units >= broker.max_drawdown.units
            &&& after.max_drawdown.units >= after.peak.spec_minus(after.equity).units
            &&& after.max_drawdown == broker.max_drawdown || after.max_drawdown
                == after.peak.spec_minus(after.equity)
            &&& after.exposure_unpriced <==> (broker.positions[0].qty.units != 0
                && !books[0].fresh(now, c.stale_ms)) || (broker.positions[1].qty.units != 0
                && !books[1].fresh(now, c.stale_ms))
            &&& after.cash == broker.cash
            &&& after.positions == broker.positions
            &&& after.pending == broker.pending
            &&& after.realized == broker.realized
            &&& after.fees == broker.fees
            &&& after.funding == broker.funding
        }),
{
    let (p, q) = (broker.positions[0], broker.positions[1]);
    let (d, f) = (prices.0.spec_minus(p.entry), prices.1.spec_minus(q.entry));
    assert(d.units == prices.0.units - p.entry.units);
    assert(f.units == prices.1.units - q.entry.units);
    lemma_product(p.qty, d);
    lemma_product(q.qty, f);
    lemma_cuts_agree(
        p.qty.spec_times(d).units as int,
        gains.0,
        p.qty.units * d.units,
        SCALE as int,
    );
    lemma_cuts_agree(
        q.qty.spec_times(f).units as int,
        gains.1,
        q.qty.units * f.units,
        SCALE as int,
    );
}

/// What counts against the gross limit is, for each asset, the size of what is held at its last price,
/// long and short alike, and what a pending entry will cost. Exits count nothing.
pub proof fn law_gross_counts_longs_and_shorts_alike(
    broker: BrokerView<Fixed>,
    held: (int, int),
    coming: (int, int),
)
    requires
        has_two_assets(broker),
        broker.last_mids.len() == 2,
        forall|i: int|
            0 <= i < 2 ==> {
                let p = #[trigger] broker.positions[i];
                let o = broker.pending[i]->0;
                &&& -i64::MAX <= p.qty.units
                &&& 0 <= broker.last_mids[i].units
                &&& abs(p.qty.units as int) * broker.last_mids[i].units <= i64::MAX * SCALE
                &&& 0 <= o.qty.units
                &&& 0 <= o.decision_mid.units
                &&& o.qty.units * o.decision_mid.units <= i64::MAX * SCALE
            },
        cuts(
            held.0,
            abs(broker.positions[0].qty.units as int) * broker.last_mids[0].units,
            SCALE as int,
        ),
        cuts(
            held.1,
            abs(broker.positions[1].qty.units as int) * broker.last_mids[1].units,
            SCALE as int,
        ),
        if broker.pending[0] is Some && !broker.pending[0]->0.reduce {
            let o = broker.pending[0]->0;
            cuts(coming.0, o.qty.units * o.decision_mid.units, SCALE as int)
        } else {
            coming.0 == 0
        },
        if broker.pending[1] is Some && !broker.pending[1]->0.reduce {
            let o = broker.pending[1]->0;
            cuts(coming.1, o.qty.units * o.decision_mid.units, SCALE as int)
        } else {
            coming.1 == 0
        },
        held.0 + held.1 + coming.0 + coming.1 <= i64::MAX,
    ensures
        broker.gross().units == held.0 + held.1 + coming.0 + coming.1,
{
    lemma_exposure(broker, 0, held.0, coming.0);
    lemma_exposure(broker, 1, held.1, coming.1);
}

proof fn lemma_exposure(broker: BrokerView<Fixed>, i: int, held: int, coming: int)
    requires
        0 <= i < 2,
        ({
            let p = broker.positions[i];
            let o = broker.pending[i]->0;
            let m = broker.last_mids[i];
            &&& -i64::MAX <= p.qty.units
            &&& 0 <= m.units
            &&& abs(p.qty.units as int) * m.units <= i64::MAX * SCALE
            &&& 0 <= o.qty.units
            &&& 0 <= o.decision_mid.units
            &&& o.qty.units * o.decision_mid.units <= i64::MAX * SCALE
            &&& cuts(held, abs(p.qty.units as int) * m.units, SCALE as int)
            &&& if broker.pending[i] is Some && !o.reduce {
                cuts(coming, o.qty.units * o.decision_mid.units, SCALE as int)
            } else {
                coming == 0
            }
        }),
        held + coming <= i64::MAX,
    ensures
        held >= 0,
        coming >= 0,
        exposure(
            broker.positions[i],
            broker.last_mids[i],
            broker.pending[i],
        ).units == held + coming,
{
    let p = broker.positions[i];
    let o = broker.pending[i]->0;
    let m = broker.last_mids[i];
    let size = p.qty.spec_magnitude();
    assert(size.units == abs(p.qty.units as int));
    assert(size.units * m.units >= 0 && o.qty.units * o.decision_mid.units >= 0) by (nonlinear_arith)
        requires
            size.units >= 0,
            m.units >= 0,
            o.qty.units >= 0,
            o.decision_mid.units >= 0,
    ;
    lemma_product(size, m);
    lemma_cuts_agree(size.spec_times(m).units as int, held, size.units * m.units, SCALE as int);
    lemma_product(o.qty, o.decision_mid);
    if broker.pending[i] is Some && !o.reduce {
        lemma_cuts_agree(
            o.qty.spec_times(o.decision_mid).units as int,
            coming,
            o.qty.units * o.decision_mid.units,
            SCALE as int,
        );
    }
}

/// The size of an entry is the largest whole number of steps that the entry notional pays for at the
/// mid.
pub proof fn law_entries_spend_the_notional(mid: Fixed, meta: Instrument<Fixed>, c: Config<Fixed>)
    requires
        mid.units > 0,
        meta.step.units > 0,
        c.entry_notional.units >= 0,
        c.entry_notional.units * SCALE <= i64::MAX * mid.units,
        c.entry_notional.units * SCALE * SCALE <= i64::MAX * mid.units * meta.step.units,
    ensures
        ({
            let size = entry_size(mid, meta, c).units;
            &&& size >= 0
            &&& size % meta.step.units == 0
            &&& size * mid.units <= c.entry_notional.units * SCALE < (size + meta.step.units)
                * mid.units
        }),
{
    let (v, m, s) = (c.entry_notional.units as int, mid.units as int, meta.step.units as int);
    assert(v * SCALE >= 0) by (nonlinear_arith)
        requires
            v >= 0,
            SCALE == 1_000_000_000,
    ;
    lemma_quotient(c.entry_notional, mid);
    let bought = c.entry_notional.spec_over(mid);
    let q = bought.units as int;
    assert(q * m <= v * SCALE < q * m + m) by (nonlinear_arith)
        requires
            cuts(q, v * SCALE, m),
            v * SCALE >= 0,
    ;
    assert(0 <= q * SCALE <= i64::MAX * s) by (nonlinear_arith)
        requires
            q * m <= v * SCALE,
            v * SCALE * SCALE <= i64::MAX * m * s,
            m > 0,
            q >= 0,
            SCALE == 1_000_000_000,
    ;
    lemma_quotient(bought, meta.step);
    let count = bought.spec_over(meta.step);
    let x = count.units as int;
    assert(x * s <= q * SCALE < x * s + s) by (nonlinear_arith)
        requires
            cuts(x, q * SCALE, s),
            q * SCALE >= 0,
    ;
    let n = x / SCALE as int;
    assert(n >= 0 && n * SCALE <= x < n * SCALE + SCALE) by (nonlinear_arith)
        requires
            n == x / SCALE as int,
            x >= 0,
            SCALE == 1_000_000_000,
    ;
    let whole = count.spec_floored();
    assert(whole.units == n * SCALE);
    assert(n * s <= q < n * s + s) by (nonlinear_arith)
        requires
            x * s <= q * SCALE < x * s + s,
            n * SCALE <= x < n * SCALE + SCALE,
            s > 0,
            SCALE == 1_000_000_000,
    {
        assert(n * s * SCALE <= x * s);
        assert((x + 1) * s <= (n + 1) * SCALE * s);
    }
    assert(whole.units * s == n * s * SCALE) by (nonlinear_arith)
        requires
            whole.units == n * SCALE,
    ;
    assert(n * s >= 0) by (nonlinear_arith)
        requires
            n >= 0,
            s > 0,
    ;
    lemma_product(whole, meta.step);
    let size = whole.spec_times(meta.step).units as int;
    assert(cuts(n * s, n * s * SCALE, SCALE as int));
    lemma_cuts_agree(size, n * s, n * s * SCALE, SCALE as int);
    assert((n * s) % s == 0) by (nonlinear_arith)
        requires
            s > 0,
    ;
    assert(size * m <= v * SCALE < (size + s) * m) by (nonlinear_arith)
        requires
            size <= q < size + s,
            q * m <= v * SCALE < q * m + m,
            m > 0,
    ;
}

/// An entry that a prediction submits buys where a rise and sells where a fall is predicted. It is of the
/// size that the notional pays for at the mid, arrives one delay later, and is not an exit. The size of
/// the prediction exceeds the cost that its journal line names.
pub proof fn law_entries_follow_the_prediction(
    broker: BrokerView<Fixed>,
    i: int,
    prediction: Fixed,
    buffer: Fixed,
    e: EventView<Fixed>,
    books: Seq<BookView<Fixed>>,
    c: Config<Fixed>,
)
    requires
        0 <= i < 2,
        broker.pending.len() == 2,
        broker.pending[i] is None,
        broker.decided(i, prediction, buffer, e, books, c).0.pending[i] is Some,
        c.fits(e.recv_ns),
        prediction.units > i64::MIN,
    ensures
        ({
            let (after, rows) = broker.decided(i, prediction, buffer, e, books, c);
            let o = after.pending[i]->0;
            &&& prediction.units > 0 ==> o.side.units == SCALE && rows[1].qty == o.side.spec_times(
                o.qty,
            )
            &&& prediction.units < 0 ==> o.side.units == -SCALE && rows[1].qty == o.side.spec_times(
                o.qty,
            )
            &&& !o.reduce
            &&& o.arrival_ns == e.recv_ns + c.latency_ms * 1_000_000
            &&& books[i].mid() is Some ==> o.decision_mid == books[i].mid()->0
            &&& o.qty == entry_size(o.decision_mid, books[i].instrument->0, c)
            &&& rows.len() == 2
            &&& rows[0].value == prediction
            &&& abs(prediction.units as int) > rows[1].value.units
            &&& broker.positions[i].qty.units == 0
            &&& !broker.stopped
            &&& broker.gross().spec_plus(o.qty.spec_times(o.decision_mid)).units
                <= c.gross_cap.units
            &&& after.cash == broker.cash
            &&& after.positions == broker.positions
            &&& after.pending[1 - i] == broker.pending[1 - i]
        }),
{
}

/// What entering and leaving costs does not depend on the side: a rise and a fall of the same size are
/// acted on alike, and at the same cost.
pub proof fn law_rises_and_falls_are_acted_on_alike(
    broker: BrokerView<Fixed>,
    i: int,
    prediction: Fixed,
    buffer: Fixed,
    e: EventView<Fixed>,
    books: Seq<BookView<Fixed>>,
    c: Config<Fixed>,
)
    requires
        0 <= i < 2,
        broker.pending.len() == 2,
        broker.pending[i] is None,
        prediction.units > 0,
        i64::MIN < average_gap(broker, i, e, books, c).units,
    ensures
        ({
            let (up, rows) = broker.decided(i, prediction, buffer, e, books, c);
            let (down, others) = broker.decided(
                i,
                prediction.spec_negated(),
                buffer,
                e,
                books,
                c,
            );
            &&& up.pending[i] is Some <==> down.pending[i] is Some
            &&& rows.len() == others.len()
            &&& up.pending[i] is Some ==> rows[1].value == others[1].value
                && up.pending[i]->0.qty == down.pending[i]->0.qty
        }),
{
    let (u, d) = (prediction.spec_sign(), prediction.spec_negated().spec_sign());
    assert(u.units == SCALE && d.units == -SCALE);
    assert(u.spec_negated() == d && d.spec_negated() == u);
    let mid = books[i].mid()->0;
    let qty = entry_size(mid, books[i].instrument->0, c);
    let bought = average_price(broker.fills(i, u, books[i], qty), qty);
    let sold = average_price(broker.fills(i, d, books[i], qty), qty);
    let gap = bought.spec_minus(sold);
    assert(sold.spec_minus(bought).units == -gap.units);
    lemma_signed(u, gap);
    lemma_signed(d, sold.spec_minus(bought));
}

/// What a buy of the entry's size would cost on average above what a sale would bring.
pub open spec fn average_gap(
    broker: BrokerView<Fixed>,
    i: int,
    e: EventView<Fixed>,
    books: Seq<BookView<Fixed>>,
    c: Config<Fixed>,
) -> Fixed {
    let qty = entry_size(books[i].mid()->0, books[i].instrument->0, c);
    let buy = Fixed { units: SCALE };
    let sell = Fixed { units: (-SCALE) as i64 };
    average_price(broker.fills(i, buy, books[i], qty), qty).spec_minus(
        average_price(broker.fills(i, sell, books[i], qty), qty),
    )
}

/// The cost that an entry must exceed counts the fee twice, once for the way in and once for the way
/// out, and the buffer once.
pub proof fn law_costs_count_both_fees_and_the_buffer(
    broker: BrokerView<Fixed>,
    i: int,
    prediction: Fixed,
    buffers: (Fixed, Fixed),
    e: EventView<Fixed>,
    books: Seq<BookView<Fixed>>,
    c: Config<Fixed>,
    fee: Fixed,
)
    requires
        0 <= i < 2,
        broker.pending.len() == 2,
        broker.pending[i] is None,
        0 <= c.fee_bps.units <= i64::MAX / 2,
        0 <= fee.units <= i64::MAX / 2,
        broker.decided(i, prediction, buffers.0, e, books, c).0.pending[i] is Some,
        broker.decided(
            i,
            prediction,
            buffers.1,
            e,
            books,
            (Config { fee_bps: fee, ..c }),
        ).0.pending[i] is Some,
    ensures
        ({
            let rows = broker.decided(i, prediction, buffers.0, e, books, c).1;
            let others = broker.decided(
                i,
                prediction,
                buffers.1,
                e,
                books,
                (Config { fee_bps: fee, ..c }),
            ).1;
            rows[1].value.spec_minus(buffers.0).spec_minus(c.fee_bps.spec_plus(c.fee_bps))
                == others[1].value.spec_minus(buffers.1).spec_minus(fee.spec_plus(fee))
        }),
{
    let other = Config { fee_bps: fee, ..c };
    let a = lemma_cost(broker, i, prediction, buffers.0, e, books, c);
    let b = lemma_cost(broker, i, prediction, buffers.1, e, books, other);
    assert(a == b);
}

/// The cost of an entry apart from the fees and the buffer.
proof fn lemma_cost(
    broker: BrokerView<Fixed>,
    i: int,
    prediction: Fixed,
    buffer: Fixed,
    e: EventView<Fixed>,
    books: Seq<BookView<Fixed>>,
    c: Config<Fixed>,
) -> (r: Fixed)
    requires
        0 <= i < 2,
        broker.pending.len() == 2,
        broker.pending[i] is None,
        0 <= c.fee_bps.units <= i64::MAX / 2,
        broker.decided(i, prediction, buffer, e, books, c).0.pending[i] is Some,
    ensures
        ({
            let mid = books[i].mid()->0;
            let qty = entry_size(mid, books[i].instrument->0, c);
            let side = prediction.spec_sign();
            let bought = broker.fills(i, side, books[i], qty);
            let sold = broker.fills(i, side.spec_negated(), books[i], qty);
            r == side.spec_times(
                average_price(bought, qty).spec_minus(average_price(sold, qty)),
            ).spec_over(mid).spec_times(Fixed::spec_from_i64(10_000))
        }),
        r == broker.decided(
            i,
            prediction,
            buffer,
            e,
            books,
            c,
        ).1[1].value.spec_minus(buffer).spec_minus(c.fee_bps.spec_plus(c.fee_bps)),
{
    lemma_twice(c.fee_bps);
    let mid = books[i].mid()->0;
    let qty = entry_size(mid, books[i].instrument->0, c);
    let side = prediction.spec_sign();
    let bought = broker.fills(i, side, books[i], qty);
    let sold = broker.fills(i, side.spec_negated(), books[i], qty);
    let r = side.spec_times(
        average_price(bought, qty).spec_minus(average_price(sold, qty)),
    ).spec_over(mid).spec_times(Fixed::spec_from_i64(10_000));
    let twice = c.fee_bps.spec_plus(c.fee_bps);
    assert(r.spec_plus(twice).spec_plus(buffer).spec_minus(buffer) == r.spec_plus(twice));
    assert(r.spec_plus(twice).spec_minus(twice) == r);
    r
}

pub proof fn lemma_twice(x: Fixed)
    requires
        0 <= x.units <= i64::MAX / 2,
    ensures
        Fixed::spec_from_i64(2).spec_times(x) == x.spec_plus(x),
{
    let two = Fixed::spec_from_i64(2);
    let n = x.units as int;
    assert(two.units == 2 * SCALE);
    assert(two.units * n == (2 * n) * SCALE) by (nonlinear_arith)
        requires
            two.units == 2 * SCALE,
    ;
    lemma_cut(two.units * n, SCALE as int);
    lemma_cuts_agree(quotient_of(two.units * n, SCALE as int), 2 * n, 2 * n * SCALE, SCALE as int);
}

/// A position without an order is closed when its time has come, and not before, while the loss stop is
/// not set; the order is for all of it, from the other side, one delay later.
pub proof fn law_positions_are_closed_when_due(
    broker: BrokerView<Fixed>,
    e: EventView<Fixed>,
    c: Config<Fixed>,
    valid: bool,
    i: int,
)
    requires
        has_two_assets(broker),
        0 <= i < 2,
        c.fits(e.recv_ns),
        broker.positions[i].qty.units != 0,
        broker.positions[i].qty.units > i64::MIN,
        broker.pending[i] is None,
        !broker.enforced(e, c, valid).0.stopped,
    ensures
        ({
            let after = broker.enforced(e, c, valid).0;
            let held = broker.positions[i];
            &&& after.pending[i] is Some <==> e.recv_ns >= held.exit_due_ns
            &&& after.pending[i] is Some ==> {
                let o = after.pending[i]->0;
                &&& o.reduce
                &&& o.qty.units == abs(held.qty.units as int)
                &&& o.side.units == if held.qty.units > 0 {
                    -SCALE
                } else {
                    SCALE as int
                }
                &&& o.arrival_ns == e.recv_ns + c.latency_ms * 1_000_000
                &&& o.decision_mid == broker.last_mids[i]
            }
        }),
{
}

/// On a day without a stop, the rules set it exactly where the day has lost the limit or more.
pub proof fn law_the_limit_sets_the_stop(
    broker: BrokerView<Fixed>,
    e: EventView<Fixed>,
    c: Config<Fixed>,
    valid: bool,
)
    requires
        !broker.stopped,
        in_day(broker),
    ensures
        broker.enforced(e, c, valid).0.stopped <==> broker.day_start.units - broker.equity.units
            >= c.daily_loss.units,
{
}

/// Whether the result of a day is in range.
pub open spec fn in_day(broker: BrokerView<Fixed>) -> bool {
    i64::MIN <= broker.day_start.units - broker.equity.units <= i64::MAX
}

/// A later UTC day starts from the equity at its first event, with no stop; another event leaves the day
/// as it is.
pub proof fn law_days_start_from_their_equity<R: Real>(
    broker: BrokerView<R>,
    utc_ns: u64,
)
    ensures
        ({
            let today = (utc_ns / 86_400_000_000_000) as u64;
            let after = broker.on_day((utc_ns / DAY) as u64);
            &&& today > broker.day ==> after.day == today && after.day_start == broker.equity
                && !after.stopped
            &&& today <= broker.day ==> after == broker
        }),
{
}

} // verus!
