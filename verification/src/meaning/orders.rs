//! When orders are submitted, meet the book and leave, in whole units.
use crate::book::BookView;
use crate::config::Config;
use crate::fixed::{abs, Fixed, SCALE};
use crate::ladder::{downward, upward};
use crate::laws::{has_two_assets, lemma_rules_keep};
use crate::meaning::accounts::is_ordinary;
use crate::meaning::arithmetic::{
    cuts, lemma_cuts_agree, lemma_product, lemma_quotient, lemma_signed,
};
use crate::meaning::trading::{law_gross_counts_longs_and_shorts_alike, lemma_twice};
use crate::meaning::windows::lemma_tiny;
use crate::number::{total, Real};
use crate::paper::{
    average_price, entry_size, fill_sizes, fill_values, round_trip_cost, side_index, walk,
    BrokerView, DAY,
};
use crate::takes::{
    are_positive, filled_units, lemma_constants, lemma_total_is_exact, lemma_walk_is_bounded, slack,
};
use crate::types::EventView;
use vstd::prelude::*;

verus! {

/// What fills are worth, each cut off, in units.
pub open spec fn worth_of(fills: Seq<(i64, Fixed, Fixed)>) -> int
    decreases fills.len(),
{
    if fills.len() == 0 {
        0
    } else {
        worth_of(fills.drop_last()) + (fills.last().1.units * fills.last().2.units) / SCALE as int
    }
}

/// Whether no fill has a price below zero.
pub open spec fn are_priced(fills: Seq<(i64, Fixed, Fixed)>) -> bool {
    forall|j: int| 0 <= j < fills.len() ==> (#[trigger] fills[j]).2.units >= 0
}

proof fn lemma_worth_of(fills: Seq<(i64, Fixed, Fixed)>)
    requires
        are_positive(fills),
        are_priced(fills),
        worth_of(fills) <= i64::MAX,
    ensures
        worth_of(fills) >= 0,
        total(fill_values(fills)).units == worth_of(fills),
    decreases fills.len(),
{
    if fills.len() > 0 {
        let fewer = fills.drop_last();
        let n = fills.len() - 1;
        let f = fills[n];
        assert(are_positive(fewer) && are_priced(fewer));
        let x = f.1.units * f.2.units;
        assert(x >= 0) by (nonlinear_arith)
            requires
                x == f.1.units * f.2.units,
                f.1.units >= 0,
                f.2.units >= 0,
        ;
        assert(x / SCALE as int >= 0);
        lemma_worth_of(fewer);
        assert(f.1.spec_times(f.2).units == x / SCALE as int);
        assert(fill_values(fills).drop_last() =~= fill_values(fewer));
        assert(fill_values(fills).last() == f.1.spec_times(f.2));
    } else {
        assert(fill_values(fills).len() == 0);
    }
}

/// Whether a price is the average price of a quantity that fills make up, cut off.
pub open spec fn is_average(price: int, fills: Seq<(i64, Fixed, Fixed)>, qty: int) -> bool {
    &&& are_priced(fills)
    &&& worth_of(fills) <= i64::MAX
    &&& worth_of(fills) * SCALE <= i64::MAX * qty
    &&& cuts(price, worth_of(fills) * SCALE, qty)
}

proof fn lemma_average(price: int, fills: Seq<(i64, Fixed, Fixed)>, qty: Fixed)
    requires
        qty.units > 0,
        are_positive(fills),
        is_average(price, fills, qty.units as int),
    ensures
        total(fill_values(fills)).spec_over(qty).units == price,
        price >= 0,
{
    lemma_worth_of(fills);
    let worth = total(fill_values(fills));
    assert(worth.units * SCALE >= 0);
    lemma_quotient(worth, qty);
    lemma_cuts_agree(
        worth.spec_over(qty).units as int,
        price,
        worth.units * SCALE,
        qty.units as int,
    );
}

/// A prediction submits an entry exactly where nothing is held or on its way and the stop is not set,
/// the size meets the instrument's minimum quantity and value, both sides of the book display the whole
/// size, the size of the prediction exceeds the cost, and the gross exposure with the entry stays within
/// the limit. The cost is what a buy of the size pays on average above what a sale gets, in basis points
/// of the mid, and the fee twice and the buffer.
pub proof fn law_entries_are_submitted_where_they_pay(
    broker: BrokerView<Fixed>,
    i: int,
    prediction: Fixed,
    buffer: Fixed,
    e: EventView<Fixed>,
    books: Seq<BookView<Fixed>>,
    c: Config<Fixed>,
    prices: (int, int),
    spread: int,
    value: int,
)
    requires
        0 <= i < 2,
        has_two_assets(broker),
        broker.pending[i] is None,
        prediction.units != 0,
        prediction.units > i64::MIN,
        books[i].mid() is Some,
        books[i].mid()->0.units > 0,
        books[i].instrument is Some,
        0 < books[i].instrument->0.step.units <= i64::MAX / 2,
        0 <= c.fee_bps.units <= i64::MAX / 2,
        ({
            let mid = books[i].mid()->0;
            let size = entry_size(mid, books[i].instrument->0, c);
            let (buy, sell) = (Fixed { units: SCALE }, Fixed { units: (-SCALE) as i64 });
            &&& 0 < size.units <= i64::MAX / 2
            &&& is_average(prices.0, broker.fills(i, buy, books[i], size), size.units as int)
            &&& is_average(prices.1, broker.fills(i, sell, books[i], size), size.units as int)
            &&& abs((prices.0 - prices.1) * SCALE) <= i64::MAX * mid.units
            &&& cuts(spread, (prices.0 - prices.1) * SCALE, mid.units as int)
            &&& size.units * mid.units <= i64::MAX * SCALE
            &&& cuts(value, size.units * mid.units, SCALE as int)
            &&& i64::MIN < spread * 10_000 <= i64::MAX
            &&& i64::MIN <= spread * 10_000 + 2 * c.fee_bps.units <= i64::MAX
            &&& i64::MIN <= spread * 10_000 + 2 * c.fee_bps.units + buffer.units <= i64::MAX
            &&& 0 <= broker.gross().units
            &&& broker.gross().units + value <= i64::MAX
        }),
    ensures
        ({
            let mid = books[i].mid()->0;
            let meta = books[i].instrument->0;
            let size = entry_size(mid, meta, c);
            let (buy, sell) = (Fixed { units: SCALE }, Fixed { units: (-SCALE) as i64 });
            let cost = spread * 10_000 + 2 * c.fee_bps.units + buffer.units;
            let (after, rows) = broker.decided(i, prediction, buffer, e, books, c);
            let pays = {
                &&& !broker.stopped
                &&& broker.positions[i].qty.units == 0
                &&& size.units >= meta.min_qty.units
                &&& value >= meta.min_notional.units
                &&& filled_units(broker.fills(i, buy, books[i], size)) >= size.units
                &&& filled_units(broker.fills(i, sell, books[i], size)) >= size.units
                &&& abs(prediction.units as int) > cost
            };
            let fits = broker.gross().units + value <= c.gross_cap.units;
            &&& after.pending[i] is Some <==> pays && fits
            &&& pays && fits ==> rows[1].value.units == cost
            &&& pays && !fits ==> after.rejected == broker.rejected.wrapping_add(1)
            &&& !(pays && !fits) ==> after.rejected == broker.rejected
        }),
{
    let mid = books[i].mid()->0;
    let meta = books[i].instrument->0;
    let size = entry_size(mid, meta, c);
    let (buy, sell) = (Fixed { units: SCALE }, Fixed { units: (-SCALE) as i64 });
    let bought = broker.fills(i, buy, books[i], size);
    let sold = broker.fills(i, sell, books[i], size);
    lemma_bounded(broker, i, buy, books[i], size);
    lemma_bounded(broker, i, sell, books[i], size);
    lemma_average(prices.0, bought, size);
    lemma_average(prices.1, sold, size);
    lemma_tiny();
    let side = prediction.spec_sign();
    assert(side == buy || side == sell);
    assert(buy.spec_negated() == sell && sell.spec_negated() == buy);
    let (entry, exit) = (
        broker.fills(i, side, books[i], size),
        broker.fills(i, side.spec_negated(), books[i], size),
    );
    lemma_round_trip(side, entry, exit, size, mid, buffer, c, prices, spread);
    assert(size.units * mid.units >= 0) by (nonlinear_arith)
        requires
            size.units > 0,
            mid.units > 0,
    ;
    lemma_product(size, mid);
    lemma_cuts_agree(
        size.spec_times(mid).units as int,
        value,
        size.units * mid.units,
        SCALE as int,
    );
}

proof fn lemma_bounded(
    broker: BrokerView<Fixed>,
    i: int,
    side: Fixed,
    book: BookView<Fixed>,
    qty: Fixed,
)
    requires
        book.instrument is Some,
        0 < book.instrument->0.step.units <= i64::MAX / 2,
        0 <= qty.units <= i64::MAX / 2,
    ensures
        ({
            let fills = broker.fills(i, side, book, qty);
            &&& are_positive(fills)
            &&& 0 <= filled_units(fills) <= i64::MAX
            &&& total(fill_sizes(fills)).units == filled_units(fills)
            &&& fills.len() > 0 <==> filled_units(fills) > 0
        }),
{
    let meta = book.instrument->0;
    let levels = if side.units > 0 {
        upward(book.asks)
    } else {
        downward(book.bids)
    };
    let used = broker.consumed[side_index(i, side)];
    lemma_walk_is_bounded(levels, used, qty, meta);
    let fills = broker.fills(i, side, book, qty);
    assert(fills == walk(levels, used, qty, meta));
    assert(slack(meta.step) <= meta.step.units);
    lemma_total_is_exact(fills);
}

proof fn lemma_round_trip(
    side: Fixed,
    entry: Seq<(i64, Fixed, Fixed)>,
    exit: Seq<(i64, Fixed, Fixed)>,
    qty: Fixed,
    mid: Fixed,
    buffer: Fixed,
    c: Config<Fixed>,
    prices: (int, int),
    spread: int,
)
    requires
        side.units == SCALE || side.units == -SCALE,
        mid.units > 0,
        0 <= prices.0 <= i64::MAX,
        0 <= prices.1 <= i64::MAX,
        average_price(entry, qty).units == if side.units > 0 {
            prices.0
        } else {
            prices.1
        },
        average_price(exit, qty).units == if side.units > 0 {
            prices.1
        } else {
            prices.0
        },
        abs((prices.0 - prices.1) * SCALE) <= i64::MAX * mid.units,
        cuts(spread, (prices.0 - prices.1) * SCALE, mid.units as int),
        0 <= c.fee_bps.units <= i64::MAX / 2,
        i64::MIN < spread * 10_000 <= i64::MAX,
        i64::MIN <= spread * 10_000 + 2 * c.fee_bps.units <= i64::MAX,
        i64::MIN <= spread * 10_000 + 2 * c.fee_bps.units + buffer.units <= i64::MAX,
    ensures
        round_trip_cost(side, entry, exit, qty, mid, buffer, c).units == spread * 10_000 + 2
            * c.fee_bps.units + buffer.units,
{
    let gap = average_price(entry, qty).spec_minus(average_price(exit, qty));
    lemma_signed(side, gap);
    let wide = side.spec_times(gap);
    assert(wide.units == prices.0 - prices.1);
    lemma_quotient(wide, mid);
    let part = wide.spec_over(mid);
    lemma_cuts_agree(part.units as int, spread, wide.units * SCALE, mid.units as int);
    let many = Fixed::spec_from_i64(10_000);
    assert(many.units == 10_000 * SCALE);
    assert(part.units * many.units == (spread * 10_000) * SCALE) by (nonlinear_arith)
        requires
            part.units == spread,
            many.units == 10_000 * SCALE,
    ;
    lemma_product(part, many);
    assert(cuts(spread * 10_000, (spread * 10_000) * SCALE, SCALE as int));
    lemma_cuts_agree(
        part.spec_times(many).units as int,
        spread * 10_000,
        (spread * 10_000) * SCALE,
        SCALE as int,
    );
    lemma_twice(c.fee_bps);
}

/// A fill of an entry is refused exactly where its quantity or its value is below the instrument's
/// minimum, or where its value, with what the other asset holds and awaits, is above the gross limit.
/// Then the order is gone, one more rejection is counted, and nothing else changes.
pub proof fn law_fills_of_entries_keep_the_limits(
    broker: BrokerView<Fixed>,
    i: int,
    e: EventView<Fixed>,
    books: Seq<BookView<Fixed>>,
    c: Config<Fixed>,
    price: int,
    value: int,
    held: (int, int),
    coming: (int, int),
)
    requires
        0 <= i < 2,
        has_two_assets(broker),
        broker.last_mids.len() == 2,
        broker.per_symbol.len() == 2,
        broker.pending[i] is Some,
        !broker.pending[i]->0.reduce,
        broker.positions[i].qty.units == 0,
        books[i].instrument is Some,
        0 < books[i].instrument->0.step.units <= i64::MAX / 2,
        0 <= broker.pending[i]->0.qty.units <= i64::MAX / 2,
        ({
            let o = broker.pending[i]->0;
            let fills = broker.fills(i, o.side, books[i], o.qty);
            let q = filled_units(fills);
            &&& q > 0
            &&& is_average(price, fills, q)
            &&& q * price <= i64::MAX * SCALE
            &&& cuts(value, q * price, SCALE as int)
        }),
        forall|k: int|
            0 <= k < 2 ==> {
                let p = #[trigger] broker.positions[k];
                let o = broker.pending[k]->0;
                &&& -i64::MAX <= p.qty.units
                &&& 0 <= broker.last_mids[k].units
                &&& abs(p.qty.units as int) * broker.last_mids[k].units <= i64::MAX * SCALE
                &&& 0 <= o.qty.units
                &&& 0 <= o.decision_mid.units
                &&& o.qty.units * o.decision_mid.units <= i64::MAX * SCALE
            },
        cuts(
            held.0,
            abs(broker.positions[0].qty.units as int) * broker.last_mids[0].units,
            SCALE as int,
        ),
        cuts(
            held.1,
            abs(broker.positions[1].qty.units as int) * broker.last_mids[1].units,
            SCALE as int,
        ),
        if broker.pending[0] is Some && !broker.pending[0]->0.reduce {
            let o = broker.pending[0]->0;
            cuts(coming.0, o.qty.units * o.decision_mid.units, SCALE as int)
        } else {
            coming.0 == 0
        },
        if broker.pending[1] is Some && !broker.pending[1]->0.reduce {
            let o = broker.pending[1]->0;
            cuts(coming.1, o.qty.units * o.decision_mid.units, SCALE as int)
        } else {
            coming.1 == 0
        },
        held.0 + held.1 + coming.0 + coming.1 <= i64::MAX,
        held.0 + held.1 + coming.0 + coming.1 + value <= i64::MAX,
    ensures
        ({
            let o = broker.pending[i]->0;
            let meta = books[i].instrument->0;
            let q = filled_units(broker.fills(i, o.side, books[i], o.qty));
            let other = if i == 0 {
                held.1 + coming.1
            } else {
                held.0 + coming.0
            };
            let (after, rows, refused) = broker.traded(i, e, books, c);
            &&& refused <==> q < meta.min_qty.units || value < meta.min_notional.units || other
                + value > c.gross_cap.units
            &&& refused ==> {
                &&& after.pending[i] is None
                &&& after.pending[1 - i] == broker.pending[1 - i]
                &&& after.rejected == broker.rejected.wrapping_add(1)
                &&& after.per_symbol[i].rejected == broker.per_symbol[i].rejected.wrapping_add(1)
                &&& after.cash == broker.cash
                &&& after.positions == broker.positions
                &&& after.consumed == broker.consumed
                &&& after.fees == broker.fees
                &&& rows.len() == 1
            }
        }),
{
    let o = broker.pending[i]->0;
    let meta = books[i].instrument->0;
    lemma_bounded(broker, i, o.side, books[i], o.qty);
    let fills = broker.fills(i, o.side, books[i], o.qty);
    let qty = total(fill_sizes(fills));
    lemma_average(price, fills, qty);
    let average = total(fill_values(fills)).spec_over(qty);
    assert(qty.units * average.units >= 0) by (nonlinear_arith)
        requires
            qty.units > 0,
            average.units >= 0,
    ;
    lemma_product(qty, average);
    lemma_cuts_agree(
        qty.spec_times(average).units as int,
        value,
        qty.units * average.units,
        SCALE as int,
    );
    law_gross_counts_longs_and_shorts_alike(broker, held, coming);
    let own = if i == 0 {
        coming.0
    } else {
        coming.1
    };
    assert(o.qty.units * o.decision_mid.units >= 0) by (nonlinear_arith)
        requires
            o.qty.units >= 0,
            o.decision_mid.units >= 0,
    ;
    assert(broker.positions[i].qty.units >= -i64::MAX);
    lemma_product(o.qty, o.decision_mid);
    lemma_cuts_agree(
        o.qty.spec_times(o.decision_mid).units as int,
        own,
        o.qty.units * o.decision_mid.units,
        SCALE as int,
    );
    let (first, second) = (broker.positions[0].qty.units as int, broker.positions[1].qty.units as int);
    assert(abs(first) * broker.last_mids[0].units >= 0 && abs(second) * broker.last_mids[1].units
        >= 0) by (nonlinear_arith)
        requires
            broker.last_mids[0].units >= 0,
            broker.last_mids[1].units >= 0,
            abs(first) >= 0,
            abs(second) >= 0,
    ;
    assert(first == 0 ==> abs(first) * broker.last_mids[0].units == 0) by (nonlinear_arith);
    assert(second == 0 ==> abs(second) * broker.last_mids[1].units == 0) by (nonlinear_arith);
}

/// A fill is journaled, and counted, at the average price of what it took.
pub proof fn law_fills_are_at_their_average_price(
    broker: BrokerView<Fixed>,
    i: int,
    e: EventView<Fixed>,
    books: Seq<BookView<Fixed>>,
    c: Config<Fixed>,
    price: int,
)
    requires
        0 <= i < 2,
        has_two_assets(broker),
        broker.pending[i] is Some,
        books[i].instrument is Some,
        0 < books[i].instrument->0.step.units <= i64::MAX / 2,
        0 <= broker.pending[i]->0.qty.units <= i64::MAX / 2,
        !broker.traded(i, e, books, c).2,
        ({
            let o = broker.pending[i]->0;
            let fills = broker.fills(i, o.side, books[i], o.qty);
            filled_units(fills) > 0 && is_average(price, fills, filled_units(fills))
        }),
    ensures
        ({
            let (after, rows, _) = broker.traded(i, e, books, c);
            &&& rows.len() > 0
            &&& rows[0].price.units == price
            &&& !broker.pending[i]->0.reduce ==> after.positions[i].entry.units == price
        }),
{
    let o = broker.pending[i]->0;
    lemma_bounded(broker, i, o.side, books[i], o.qty);
    let fills = broker.fills(i, o.side, books[i], o.qty);
    lemma_average(price, fills, total(fill_sizes(fills)));
}

/// What stays of a fill: an entry never stays, and what it did not fill is journaled as cancelled; an
/// exit stays with what it did not fill while that is more than half a step, and comes one delay later.
/// A reduced position is the old one with the fill, or none where less than half a step is left.
pub proof fn law_remainders_below_half_a_step_are_dropped(
    broker: BrokerView<Fixed>,
    i: int,
    e: EventView<Fixed>,
    books: Seq<BookView<Fixed>>,
    c: Config<Fixed>,
)
    requires
        0 <= i < 2,
        has_two_assets(broker),
        is_ordinary(broker, i),
        c.fits(e.recv_ns),
        books[i].instrument is Some,
        0 < books[i].instrument->0.step.units <= i64::MAX / 2,
        0 <= broker.pending[i]->0.qty.units <= i64::MAX / 2,
        -(i64::MAX / 4) <= broker.positions[i].qty.units <= i64::MAX / 4,
        filled_units(
            broker.fills(i, broker.pending[i]->0.side, books[i], broker.pending[i]->0.qty),
        ) <= i64::MAX / 2,
        !broker.traded(i, e, books, c).2,
    ensures
        ({
            let o = broker.pending[i]->0;
            let half = books[i].instrument->0.step.units as int / 2;
            let q = filled_units(broker.fills(i, o.side, books[i], o.qty));
            let sum = broker.positions[i].qty.units + if o.side.units > 0 {
                q
            } else {
                -q
            };
            let (after, rows, _) = broker.traded(i, e, books, c);
            let new = after.positions[i].qty.units;
            &&& q == 0 ==> after.positions == broker.positions && after.cash == broker.cash
            &&& q > 0 && o.reduce ==> new == if abs(sum) < half {
                0
            } else {
                sum
            }
            &&& q > 0 && !o.reduce ==> new == sum
            &&& after.pending[i] is Some <==> o.reduce && o.qty.units - q > half
            &&& after.pending[i] is Some ==> {
                let next = after.pending[i]->0;
                &&& next.reduce
                &&& next.side == o.side
                &&& next.qty.units == o.qty.units - q
                &&& next.arrival_ns == e.recv_ns + c.latency_ms * 1_000_000
                &&& next.decision_mid == o.decision_mid
            }
            &&& after.pending[1 - i] == broker.pending[1 - i]
            &&& rows.len() == (if q > 0 {
                1int
            } else {
                0
            }) + (if !o.reduce && q < o.qty.units {
                1int
            } else {
                0
            })
            &&& q > 0 ==> rows[0].action == "fill"@ && abs(rows[0].qty.units as int) == q
            &&& !o.reduce && q < o.qty.units ==> rows.last().action == "cancel"@
        }),
{
    let o = broker.pending[i]->0;
    let meta = books[i].instrument->0;
    lemma_bounded(broker, i, o.side, books[i], o.qty);
    let fills = broker.fills(i, o.side, books[i], o.qty);
    let qty = total(fill_sizes(fills));
    lemma_constants(meta.step);
    lemma_tiny();
    lemma_signed(o.side, qty);
}

/// An order that has arrived meets the next update that moves its fresh book on: an entry does not wait
/// any longer, and an exit, whether or not the other data is valid, at most for another delay.
pub proof fn law_arrived_orders_do_not_wait<R: Real>(
    broker: BrokerView<R>,
    i: int,
    e: EventView<R>,
    books: Seq<BookView<R>>,
    c: Config<R>,
    valid: bool,
)
    requires
        0 <= i < 2,
        has_two_assets(broker),
        c.fits(e.recv_ns),
        broker.pending[i] is Some,
        e.recv_ns >= broker.pending[i]->0.arrival_ns,
        books[i].fresh(e.recv_ns, c.stale_ms),
        broker.after(e, books, c, Some(i as usize), valid).1 is Ok,
    ensures
        ({
            let next = broker.after(e, books, c, Some(i as usize), valid).0.pending[i];
            &&& next is Some ==> next->0.reduce && next->0.arrival_ns == e.recv_ns + c.latency_ms
                * 1_000_000
        }),
{
    reveal(BrokerView::after);
    let updated = Some(i as usize);
    let told = broker.informed(e, books, c, updated).0;
    let dated = told.marked(books, e.recv_ns, c).on_day((e.utc_ns / DAY) as u64);
    assert(dated.pending == broker.pending && dated.positions == broker.positions);
    lemma_rules_keep(dated, i, e, c, valid);
    let ready = dated.enforced(e, c, valid).0;
    assert(ready.positions.len() == 2 && ready.pending.len() == 2);
    if ready.due(i, e, books, c, valid) {
        let met = ready.traded(i, e, books, c).0;
        let marked = met.marked(books, e.recv_ns, c);
        assert(met.positions.len() == 2 && met.pending.len() == 2);
        lemma_rules_keep(marked, i, e, c, valid);
    } else {
        lemma_rules_keep(ready.marked(books, e.recv_ns, c), i, e, c, valid);
    }
}

/// Whether an account is valued at the current prices: valuing it again changes none of its values.
pub open spec fn is_current<R: Real>(
    broker: BrokerView<R>,
    books: Seq<BookView<R>>,
    now: u64,
    c: Config<R>,
) -> bool {
    let again = broker.marked(books, now, c);
    &&& broker.equity == again.equity
    &&& broker.last_mids == again.last_mids
    &&& broker.exposure_unpriced == again.exposure_unpriced
    &&& broker.per_symbol[0].unrealized == again.per_symbol[0].unrealized
    &&& broker.per_symbol[1].unrealized == again.per_symbol[1].unrealized
}

proof fn lemma_marking_is_current<R: Real>(
    broker: BrokerView<R>,
    books: Seq<BookView<R>>,
    now: u64,
    c: Config<R>,
)
    ensures
        is_current(broker.marked(books, now, c), books, now, c),
{
}

proof fn lemma_rules_stay_current<R: Real>(
    broker: BrokerView<R>,
    books: Seq<BookView<R>>,
    e: EventView<R>,
    c: Config<R>,
    valid: bool,
)
    requires
        is_current(broker, books, e.recv_ns, c),
    ensures
        is_current(broker.enforced(e, c, valid).0, books, e.recv_ns, c),
        broker.enforced(e, c, valid).0.day == broker.day,
        broker.enforced(e, c, valid).0.per_symbol == broker.per_symbol,
{
    let after = broker.enforced(e, c, valid).0;
    assert(after.positions == broker.positions && after.cash == broker.cash && after.last_mids
        == broker.last_mids);
}

/// Behind every event the account is valued at the current prices, and its day is the latest UTC day of
/// an event.
pub proof fn law_accounts_are_valued_after_every_event<R: Real>(
    broker: BrokerView<R>,
    e: EventView<R>,
    books: Seq<BookView<R>>,
    c: Config<R>,
    updated: Option<usize>,
    valid: bool,
)
    requires
        updated is Some ==> updated->0 < 2,
        broker.after(e, books, c, updated, valid).1 is Ok,
    ensures
        is_current(broker.after(e, books, c, updated, valid).0, books, e.recv_ns, c),
        broker.after(e, books, c, updated, valid).0.day == if e.utc_ns / 86_400_000_000_000
            > broker.day {
            e.utc_ns / 86_400_000_000_000
        } else {
            broker.day
        },
{
    let told = broker.informed(e, books, c, updated).0;
    let marked = told.marked(books, e.recv_ns, c);
    lemma_marking_is_current(told, books, e.recv_ns, c);
    let dated = marked.on_day((e.utc_ns / DAY) as u64);
    assert(is_current(dated, books, e.recv_ns, c));
    lemma_rules_stay_current(dated, books, e, c, valid);
    let ready = dated.enforced(e, c, valid).0;
    let i = updated->0 as int;
    let (met, _, refused) = ready.traded(i, e, books, c);
    if updated is Some {
        lemma_refusals_stay_current(ready, i, books, e.recv_ns, c);
    }
    assert(met.day == ready.day);
    lemma_marking_is_current(met, books, e.recv_ns, c);
    lemma_marking_is_current(ready, books, e.recv_ns, c);
    lemma_rules_stay_current(met.marked(books, e.recv_ns, c), books, e, c, valid);
    lemma_rules_stay_current(ready.marked(books, e.recv_ns, c), books, e, c, valid);
    assert(told.day == broker.day);
    lemma_last_state(broker, e, books, c, updated, valid);
}

proof fn lemma_refusals_stay_current<R: Real>(
    broker: BrokerView<R>,
    i: int,
    books: Seq<BookView<R>>,
    now: u64,
    c: Config<R>,
)
    requires
        is_current(broker, books, now, c),
        broker.per_symbol.len() == 2,
        0 <= i < 2,
    ensures
        is_current(broker.refused(i), books, now, c),
{
    let after = broker.refused(i);
    assert(after.positions == broker.positions && after.cash == broker.cash && after.last_mids
        == broker.last_mids);
}

/// The state that an event leaves the account in.
proof fn lemma_last_state<R: Real>(
    broker: BrokerView<R>,
    e: EventView<R>,
    books: Seq<BookView<R>>,
    c: Config<R>,
    updated: Option<usize>,
    valid: bool,
)
    requires
        broker.after(e, books, c, updated, valid).1 is Ok,
    ensures
        ({
            let told = broker.informed(e, books, c, updated).0;
            let ready = told.prepared(e, books, c, valid).0;
            let i = updated->0 as int;
            let (met, _, refused) = ready.traded(i, e, books, c);
            broker.after(e, books, c, updated, valid).0 == if updated is Some && ready.due(
                i,
                e,
                books,
                c,
                valid,
            ) {
                if refused {
                    met
                } else {
                    met.marked(books, e.recv_ns, c).enforced(e, c, valid).0
                }
            } else {
                ready.marked(books, e.recv_ns, c).enforced(e, c, valid).0
            }
        }),
{
    reveal(BrokerView::after);
}

} // verus!
