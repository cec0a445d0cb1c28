//! What a session asks the venue for.
use crate::book::BookView;
use crate::config::Venue;
use crate::session::{funding_from, is_loss, is_waiting, SessionView};
use crate::types::KindView;
use vstd::prelude::*;

verus! {

/// A book that holds updates back is asked for exactly where the venue sends books on request and no
/// reply is awaited, or a source was just lost; the request has a number of its own.
pub proof fn law_waiting_books_are_asked_for(
    session: SessionView,
    loss: bool,
    waiting: Seq<bool>,
    i: int,
)
    requires
        session.wf(),
        0 <= i < 2,
        session.request_epoch[i] < u64::MAX - 1,
    ensures
        ({
            let (next, requests) = session.followed(loss, waiting);
            &&& requests.len() == 2
            &&& requests[i] is Some <==> waiting[i] && session.venue == Venue::BinanceUsdm && (loss
                || !session.pending[i])
            &&& requests[i] is Some ==> requests[i]->0 > session.request_epoch[i]
                && next.request_epoch[i] == requests[i]->0
            &&& next.pending[i] <==> requests[i] is Some || (session.pending[i] && !loss)
        }),
{
    let n = session.request_epoch[i];
    assert(n.wrapping_add(1) == n + 1);
    assert(n.wrapping_add(1).wrapping_add(1) == n + 2);
}

/// Settlements are asked for from the millisecond in which the first position was noted, of whichever
/// asset, or in which the session began where none was.
pub proof fn law_settlements_are_asked_for_from_the_first_position<R>(
    history: Seq<Seq<(u64, R)>>,
    anchor: u64,
)
    requires
        history.len() == 2,
    ensures
        ({
            let ms = funding_from(history, anchor);
            &&& forall|i: int| #![trigger history[i]]
                0 <= i < 2 && history[i].len() > 0 ==> ms * 1_000_000 <= history[i][0].0
            &&& history[0].len() > 0 || history[1].len() > 0 ==> exists|i: int|
                #![trigger history[i]]
                0 <= i < 2 && history[i].len() > 0 && history[i][0].0 < (ms + 1) * 1_000_000
            &&& history[0].len() == 0 && history[1].len() == 0 ==> ms * 1_000_000 <= anchor < (ms + 1)
                * 1_000_000
        }),
{
    let (a, b) = (history[0], history[1]);
    if a.len() > 0 && (b.len() == 0 || a[0].0 <= b[0].0) {
        assert(history[0][0].0 < (funding_from(history, anchor) + 1) * 1_000_000);
    } else if b.len() > 0 {
        assert(history[1][0].0 < (funding_from(history, anchor) + 1) * 1_000_000);
    }
}

/// A book waits for a snapshot while it has no number and holds updates back, and a source is lost with a
/// disconnection or a connection that is down.
pub proof fn law_books_wait_while_updates_are_held<R>(book: BookView<R>, kind: KindView<R>)
    ensures
        is_waiting(book) <==> book.last_id is None && book.buffer.len() > 0,
        is_loss(kind) <==> kind is Disconnect || (kind is Connection && !kind->connected),
{
}

} // verus!
