//! How a synthetic market moves.
use crate::number::{ratio, Real};
use crate::synthetic::{change_of, deal_of, frame_of};
use crate::types::KindView;
use vstd::prelude::*;

verus! {

/// A change of a synthetic book takes away the ten levels on each side of the last price and brings ten
/// on each side of the new one, a tick of a tenth apart: the bids below it and the asks above. A tilt adds
/// to what the bids display and takes from what the asks display.
pub proof fn law_synthetic_books_surround_the_price<R: Real>(
    symbol: Seq<char>,
    frame: u64,
    last: R,
    price: R,
    tilt: R,
    k: i64,
)
    requires
        1 <= k <= 10,
    ensures
        ({
            let away = R::spec_from_i64(k).spec_times(ratio::<R>(1, 10));
            let two = R::spec_from_i64(2);
            let none = R::spec_from_i64(0);
            change_of(symbol, frame, last, price, tilt) matches KindView::Depth {
                symbol: name,
                bids,
                asks,
                ..
            } && {
                &&& name == symbol
                &&& bids.len() == 20
                &&& asks.len() == 20
                &&& bids[k - 1] == [last.spec_minus(away), none]
                &&& asks[k - 1] == [last.spec_plus(away), none]
                &&& bids[k + 9] == [price.spec_minus(away), two.spec_plus(tilt)]
                &&& asks[k + 9] == [price.spec_plus(away), two.spec_minus(tilt)]
            }
        }),
{
}

/// A synthetic trade is at the new price; the seller was the taker exactly where the price fell.
pub proof fn law_synthetic_trades_follow_the_price<R: Real>(
    symbol: Seq<char>,
    frame: u64,
    last: R,
    price: R,
)
    ensures
        deal_of(symbol, frame, last, price) matches KindView::Trade {
            symbol: name,
            price: paid,
            qty,
            buyer_maker,
            ..
        } && name == symbol && paid == price && qty == ratio::<R>(1, 100) && (buyer_maker
            <==> price.spec_below(last)),
{
}

/// The five events of a frame are numbered behind those of the frame before, all at one time, a tenth of
/// a second behind it, and the last of them is the timer.
pub proof fn law_synthetic_frames_follow_on<R: Real>(
    symbols: Seq<Seq<char>>,
    frame: u64,
    last: Seq<R>,
    waves: Seq<R>,
    tilts: Seq<R>,
    others: (Seq<R>, Seq<R>, Seq<R>),
    k: int,
)
    requires
        0 <= k < 5,
        symbols.len() == 2,
        frame < 100_000_000_000,
    ensures
        ({
            let now = frame_of(symbols, frame, last, waves, tilts);
            let next = frame_of(symbols, (frame + 1) as u64, others.0, others.1, others.2);
            &&& now.len() == 5
            &&& next.len() == 5
            &&& next[k].seq == now[k].seq + 5
            &&& k > 0 ==> now[k].seq == now[k - 1].seq + 1
            &&& next[k].recv_ns == now[k].recv_ns + 100_000_000
            &&& now[k].utc_ns == now[k].recv_ns
            &&& now[k].recv_ns == now[0].recv_ns
            &&& now[k].kind is Timer <==> k == 4
            &&& k < 2 ==> now[k].kind.symbol() == Some(symbols[0])
            &&& 2 <= k < 4 ==> now[k].kind.symbol() == Some(symbols[1])
        }),
{
}

} // verus!
