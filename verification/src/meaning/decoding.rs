//! What the messages of the venues say, member by member.
use crate::error::Error;
use crate::json::{gathered, integer_of, number_of, Json};
use crate::number::{is_positive, Real};
use crate::recorder::{decoded, level_of, levels_of, settled_by, settlement_of, snapshot_of};
use crate::types::KindView;
use crate::venue::coinbase;
use vstd::prelude::*;

verus! {

/// Whether a time in nanoseconds is one in milliseconds.
pub open spec fn is_time(ns: u64, ms: u64) -> bool {
    ns == ms * 1_000_000
}

/// What a message of the stream says: a change of the book names the numbers that it spans, the one
/// before it, and the levels of each side; a trade its number, a price and a quantity above zero and
/// whether the buyer was the maker; a mark price the rate and the time of the next settlement. The time of
/// the event is in milliseconds.
pub proof fn law_messages_say_what_their_members_say<R: Real>(raw: Json, v: Json)
    requires
        raw.member("data"@) == Some(v) || (raw.member("data"@) is None && v == raw),
        decoded::<R>(raw) is Ok,
        decoded::<R>(raw)->Ok_0 is Some,
    ensures
        ({
            let (kind, t) = decoded::<R>(raw)->Ok_0->0;
            &&& v.member("result"@) is None
            &&& kind.symbol() == v.at("s"@).text()
            &&& v.at("E"@).unsigned() is None ==> t is None
            &&& v.at("E"@).unsigned() is Some ==> t is Some && is_time(
                t->0,
                v.at("E"@).unsigned()->0,
            )
            &&& kind is Depth <==> v.at("e"@).text() == Some("depthUpdate"@)
            &&& kind is Trade <==> v.at("e"@).text() == Some("aggTrade"@)
            &&& kind is Mark <==> v.at("e"@).text() == Some("markPriceUpdate"@)
            &&& kind is Depth || kind is Trade || kind is Mark
            &&& kind matches KindView::Depth {
                symbol,
                first_id,
                last_id,
                prev_id,
                bids,
                asks,
            } ==> {
                &&& integer_of(v.at("U"@)) == Ok::<u64, Error>(first_id)
                &&& integer_of(v.at("u"@)) == Ok::<u64, Error>(last_id)
                &&& integer_of(v.at("pu"@)) == Ok::<u64, Error>(prev_id)
                &&& levels_of::<R>(v.at("b"@)) == Ok::<Seq<[R; 2]>, Error>(bids)
                &&& levels_of::<R>(v.at("a"@)) == Ok::<Seq<[R; 2]>, Error>(asks)
            }
            &&& kind matches KindView::Trade { symbol, id, price, qty, buyer_maker } ==> {
                &&& integer_of(v.at("a"@)) == Ok::<u64, Error>(id)
                &&& number_of::<R>(v.at("p"@)) == Ok::<R, Error>(price)
                &&& number_of::<R>(v.at("q"@)) == Ok::<R, Error>(qty)
                &&& v.at("m"@).flag() == Some(buyer_maker)
                &&& is_positive(price)
                &&& is_positive(qty)
            }
            &&& kind matches KindView::Mark { symbol, price, rate, next_funding_ns } ==> {
                &&& number_of::<R>(v.at("p"@)) == Ok::<R, Error>(price)
                &&& number_of::<R>(v.at("r"@)) == Ok::<R, Error>(rate)
                &&& integer_of(v.at("T"@)) is Ok
                &&& is_time(next_funding_ns, integer_of(v.at("T"@))->Ok_0)
            }
        }),
{
    reveal_strlit("depthUpdate");
    reveal_strlit("aggTrade");
    reveal_strlit("markPriceUpdate");
    assert("depthUpdate"@.len() == 11 && "aggTrade"@.len() == 8 && "markPriceUpdate"@.len() == 15);
}

/// A snapshot names the last number that it holds, and the levels of each side.
pub proof fn law_snapshots_say_what_their_members_say<R: Real>(v: Json, symbol: Seq<char>)
    requires
        snapshot_of::<R>(v, symbol) is Ok,
    ensures
        snapshot_of::<R>(v, symbol)->Ok_0 matches KindView::Snapshot {
            symbol: name,
            last_id,
            bids,
            asks,
        } && {
            &&& name == symbol
            &&& integer_of(v.at("lastUpdateId"@)) == Ok::<u64, Error>(last_id)
            &&& levels_of::<R>(v.at("bids"@)) == Ok::<Seq<[R; 2]>, Error>(bids)
            &&& levels_of::<R>(v.at("asks"@)) == Ok::<Seq<[R; 2]>, Error>(asks)
        },
{
}

/// Each level is a price and a quantity, in this order, and the levels are in the order of the list.
pub proof fn law_levels_are_prices_and_quantities<R: Real>(j: Json, items: Seq<Json>, k: int)
    requires
        j.items() == Some(items),
        levels_of::<R>(j) is Ok,
        0 <= k < items.len(),
    ensures
        ({
            let levels = levels_of::<R>(j)->Ok_0;
            &&& levels.len() == items.len()
            &&& number_of::<R>(items[k].nth(0)) == Ok::<R, Error>(levels[k][0])
            &&& number_of::<R>(items[k].nth(1)) == Ok::<R, Error>(levels[k][1])
        }),
{
    lemma_levels_in_order::<R>(items, items.len(), k);
}

proof fn lemma_levels_in_order<R: Real>(items: Seq<Json>, n: nat, k: int)
    requires
        n <= items.len(),
        gathered(n, |i: int| level_of::<R>(items[i])) is Ok,
    ensures
        ({
            let levels = gathered(n, |i: int| level_of::<R>(items[i]))->Ok_0;
            &&& levels.len() == n
            &&& 0 <= k < n ==> number_of::<R>(items[k].nth(0)) == Ok::<R, Error>(levels[k][0])
                && number_of::<R>(items[k].nth(1)) == Ok::<R, Error>(levels[k][1])
        }),
    decreases n,
{
    if n > 0 {
        lemma_levels_in_order::<R>(items, (n - 1) as nat, k);
    }
}

/// The settlements of a page come in order, each with its own time, rate and mark price, and the next
/// page starts behind every one of them.
pub proof fn law_pages_go_on_behind_their_settlements<R: Real>(
    rows: Seq<Json>,
    symbol: Seq<char>,
    start: u64,
    n: nat,
    k: int,
)
    requires
        n <= rows.len(),
        0 <= k < settled_by::<R>(rows, symbol, start, n).0.len(),
    ensures
        ({
            let (kinds, next, fault) = settled_by::<R>(rows, symbol, start, n);
            &&& next >= start
            &&& kinds.len() <= n
            &&& integer_of(rows[k].at("fundingTime"@)) is Ok
            &&& next > integer_of(rows[k].at("fundingTime"@))->Ok_0
            &&& kinds[k] matches KindView::Funding { symbol: name, funding_ns, rate, mark } && {
                &&& name == symbol
                &&& is_time(funding_ns, integer_of(rows[k].at("fundingTime"@))->Ok_0)
                &&& number_of::<R>(rows[k].at("fundingRate"@)) == Ok::<R, Error>(rate)
                &&& number_of::<R>(rows[k].at("markPrice"@)) == Ok::<R, Error>(mark)
            }
        }),
    decreases n,
{
    lemma_settlements_in_order::<R>(rows, symbol, start, n);
    let fewer = settled_by::<R>(rows, symbol, start, (n - 1) as nat);
    lemma_settlements_in_order::<R>(rows, symbol, start, (n - 1) as nat);
    if k < fewer.0.len() {
        law_pages_go_on_behind_their_settlements::<R>(rows, symbol, start, (n - 1) as nat, k);
    } else {
        assert(k == n - 1);
        assert(settlement_of::<R>(rows[k], symbol) is Ok);
    }
}

proof fn lemma_settlements_in_order<R: Real>(
    rows: Seq<Json>,
    symbol: Seq<char>,
    start: u64,
    n: nat,
)
    ensures
        ({
            let (kinds, next, fault) = settled_by::<R>(rows, symbol, start, n);
            &&& next >= start
            &&& kinds.len() <= n
            &&& fault is None ==> kinds.len() == n
        }),
    decreases n,
{
    if n > 0 {
        lemma_settlements_in_order::<R>(rows, symbol, start, (n - 1) as nat);
    }
}

/// Of a trade, the venue names the side of the maker: the buyer was the maker exactly where it says
/// "BUY".
pub proof fn law_trades_name_the_side_of_the_maker<R: Real>(t: Json)
    requires
        coinbase::trade_of::<R>(t) is Ok,
    ensures
        coinbase::trade_of::<R>(t)->Ok_0 matches KindView::Trade {
            symbol,
            id,
            price,
            qty,
            buyer_maker,
        } && {
            &&& t.at("product_id"@).text() == Some(symbol)
            &&& coinbase::id_of(t.at("trade_id"@)) == Ok::<u64, Error>(id)
            &&& coinbase::amount_of::<R>(t.at("price"@)) == Ok::<R, Error>(price)
            &&& coinbase::amount_of::<R>(t.at("size"@)) == Ok::<R, Error>(qty)
            &&& buyer_maker <==> t.at("side"@).text() == Some("BUY"@)
        },
{
}

/// A level goes to its own side: a "bid" to the bids and an "offer" to the asks, behind the levels that
/// the message gave before it.
pub proof fn law_levels_go_to_their_side<R: Real>(updates: Seq<Json>, update: Json)
    requires
        coinbase::levels_for::<R>(updates, "bid"@) is Ok,
        coinbase::levels_for::<R>(updates, "offer"@) is Ok,
        coinbase::amount_of::<R>(update.at("price_level"@)) is Ok,
        coinbase::amount_of::<R>(update.at("new_quantity"@)) is Ok,
    ensures
        ({
            let level = [
                coinbase::amount_of::<R>(update.at("price_level"@))->Ok_0,
                coinbase::amount_of::<R>(update.at("new_quantity"@))->Ok_0,
            ];
            let bids = coinbase::levels_for::<R>(updates, "bid"@)->Ok_0;
            let asks = coinbase::levels_for::<R>(updates, "offer"@)->Ok_0;
            let more = coinbase::levels_for::<R>(updates.push(update), "bid"@);
            let others = coinbase::levels_for::<R>(updates.push(update), "offer"@);
            &&& more is Ok
            &&& others is Ok
            &&& update.at("side"@).text() == Some("bid"@) ==> more->Ok_0 == bids.push(level)
                && others->Ok_0 == asks
            &&& update.at("side"@).text() == Some("offer"@) ==> others->Ok_0 == asks.push(level)
                && more->Ok_0 == bids
        }),
{
    reveal_strlit("bid");
    reveal_strlit("offer");
    assert("bid"@.len() == 3 && "offer"@.len() == 5);
    lemma_one_more::<R>(updates, update, "bid"@);
    lemma_one_more::<R>(updates, update, "offer"@);
}

proof fn lemma_one_more<R: Real>(updates: Seq<Json>, update: Json, side: Seq<char>)
    requires
        coinbase::levels_for::<R>(updates, side) is Ok,
    ensures
        coinbase::level_for::<R>(update, side) is Ok ==> coinbase::levels_for::<R>(
            updates.push(update),
            side,
        ) == Ok::<Seq<[R; 2]>, Error>(
            coinbase::levels_for::<R>(updates, side)->Ok_0 + coinbase::level_for::<R>(
                update,
                side,
            )->Ok_0,
        ),
{
    let n = updates.len();
    let all = updates.push(update);
    lemma_gathers_alike(
        n,
        |i: int| coinbase::level_for::<R>(updates[i], side),
        |i: int| coinbase::level_for::<R>(all[i], side),
    );
}

proof fn lemma_gathers_alike<T>(
    n: nat,
    f: spec_fn(int) -> Result<Seq<T>, Error>,
    g: spec_fn(int) -> Result<Seq<T>, Error>,
)
    requires
        forall|i: int| 0 <= i < n ==> #[trigger] f(i) == g(i),
    ensures
        gathered(n, f) == gathered(n, g),
    decreases n,
{
    if n > 0 {
        lemma_gathers_alike(
            (n - 1) as nat,
            f,
            g,
        );
        assert(f(n - 1) == g(n - 1));
    }
}

} // verus!
