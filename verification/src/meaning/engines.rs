//! Which events the engine admits, and what it does with them.
use crate::engine::EngineView;
use crate::error::Error;
use crate::features::joint_vector;
use crate::number::Real;
use crate::replay::lemma_advice_keeps;
use crate::text::{lemma_place, place_of};
use crate::types::EventView;
use vstd::prelude::*;

verus! {

/// Whether a place is the first at which a list holds a text.
pub open spec fn is_first(list: Seq<Seq<char>>, text: Seq<char>, i: int) -> bool {
    0 <= i < list.len() && list[i] == text && forall|j: int| 0 <= j < i ==> list[j] != text
}

proof fn lemma_first(list: Seq<Seq<char>>, text: Seq<char>, i: int)
    requires
        is_first(list, text, i),
    ensures
        place_of(list, text) == Some(i),
{
    lemma_place(list, text, 0);
    assert(list[i] == text);
}

/// An event of another schema, or whose number is not above the last one, is refused, and so is one that
/// was received before the last one. Neither changes anything. Every other event moves the clock and the
/// number on to its own.
pub proof fn law_events_are_admitted_in_order<R: Real>(engine: EngineView<R>, e: EventView<R>)
    requires
        engine.books.len() == 2,
    ensures
        e.version != 1 || e.seq <= engine.last_seq ==> engine.after(e).0 == engine
            && engine.after(e).1 is Err && engine.after(e).1->Err_0 == Error::InvalidSequence,
        e.version == 1 && e.seq > engine.last_seq && e.recv_ns < engine.now ==> engine.after(e).0
            == engine && engine.after(e).1 is Err && engine.after(e).1->Err_0
            == Error::ClockMovedBackwards,
        e.version == 1 && e.seq > engine.last_seq && e.recv_ns >= engine.now ==> {
            let after = engine.after(e).0;
            &&& after.now == e.recv_ns
            &&& after.last_seq == e.seq
            &&& after.session == e.session
        },
{
    reveal(EngineView::handled);
    let (seen, moved) = engine.advanced(e).delivered(e);
    if moved is Ok {
        let joined = seen.linked(e).0.checked(e.recv_ns);
        let booked = joined.traded(e, moved->Ok_0).0;
        let next = booked.sampled(e.recv_ns);
        lemma_advice_keeps(next, e, next.features_at(e.recv_ns)->0, 0);
    }
}

/// A connection event sets the state of the feed that it names, "public" or "market", and of no other;
/// one that is up changes nothing else. It is an error to name another.
pub proof fn law_connections_concern_their_feed<R: Real>(engine: EngineView<R>, e: EventView<R>)
    requires
        engine.feeds.len() == 2,
        e.kind is Connection,
    ensures
        ({
            let source = e.kind->source;
            let up = e.kind->connected;
            let (after, r) = engine.linked(e);
            &&& source == "public"@ ==> r is Ok && after.feeds == seq![up, engine.feeds[1]]
            &&& source == "market"@ ==> r is Ok && after.feeds == seq![engine.feeds[0], up]
            &&& source != "public"@ && source != "market"@ ==> r == Err::<(), Error>(
                Error::UnknownFeed,
            ) && after == engine
            &&& up ==> after.books == engine.books && after.histories == engine.histories
                && after.epoch == engine.epoch && after.broker == engine.broker
        }),
{
    reveal_strlit("public");
    reveal_strlit("market");
    assert("public"@[0] == 'p' && "market"@[0] == 'm');
}

/// Data is valid while both feeds are up and both books fresh, and not otherwise.
pub proof fn law_data_is_valid_on_both_sides<R: Real>(engine: EngineView<R>, t: u64)
    ensures
        engine.valid_at(t) <==> forall|i: int|
            0 <= i < 2 ==> #[trigger] engine.feeds[i] && engine.books[i].fresh(
                t,
                engine.config.stale_ms,
            ),
{
    if forall|i: int|
        0 <= i < 2 ==> #[trigger] engine.feeds[i] && engine.books[i].fresh(
            t,
            engine.config.stale_ms,
        ) {
        assert(engine.feeds[0] && engine.feeds[1]);
    }
}

/// An update reaches the book of its own asset and no other. It moves the book on where it leaves it
/// fresh and where the book was not in step before or is at another number now; only then the history
/// notes it. One that shows a gap is counted, and where it makes the book start over, so do both
/// histories.
pub proof fn law_updates_reach_their_own_book<R: Real>(
    engine: EngineView<R>,
    e: EventView<R>,
    i: int,
)
    requires
        engine.books.len() == 2,
        engine.histories.len() == 2,
        0 <= i < 2,
        e.kind is Depth,
        is_first(engine.config.names(), e.kind->Depth_symbol, i),
        engine.books[i].after(e).1 is Ok,
    ensures
        ({
            let (book, complete) = engine.books[i].after(e);
            let old = engine.books[i];
            let (after, r) = engine.delivered(e);
            let moved = book.fresh(e.recv_ns, engine.config.stale_ms) && (!old.synced
                || book.last_id != old.last_id);
            let again = book.generation != old.generation;
            &&& after.books == engine.books.update(i, book)
            &&& after.books[1 - i] == engine.books[1 - i]
            &&& r is Ok
            &&& moved ==> r->Ok_0 == Some(i as usize)
            &&& !moved ==> r->Ok_0 is None
            &&& complete->Ok_0 ==> after.gaps == engine.gaps
            &&& !complete->Ok_0 ==> after.gaps == engine.gaps.wrapping_add(1)
            &&& again ==> after.epoch == engine.epoch.wrapping_add(1) && after.healthy_since is None
                && after.histories[1 - i].mids.len() == 0
            &&& !again ==> after.epoch == engine.epoch && after.healthy_since
                == engine.healthy_since && after.histories[1 - i] == engine.histories[1 - i]
            &&& !again && moved ==> after.histories[i] == engine.histories[i].observed(e, book)
            &&& !again && !moved ==> after.histories[i] == engine.histories[i]
            &&& after.broker == engine.broker
        }),
{
    lemma_first(engine.config.names(), e.kind->Depth_symbol, i);
}

/// A timer samples where data is valid and no sample was taken at its time or later, and at no other
/// time. It completes a sample exactly where the warmup has passed since the data became valid and both
/// histories reach back far enough.
pub proof fn law_samples_wait_for_the_warmup<R: Real>(engine: EngineView<R>, e: EventView<R>)
    requires
        engine.ticked(e).1 is Ok,
    ensures
        ({
            let t = e.recv_ns;
            let since = match engine.healthy_since {
                Some(h) => h,
                None => t,
            };
            let (after, r) = engine.ticked(e);
            let due = e.kind is Timer && engine.valid_at(t) && t > engine.last_sample_ns;
            &&& !due ==> after == engine && r->Ok_0.0 is None && r->Ok_0.1.len() == 0
            &&& due ==> {
                &&& after.last_sample_ns == t
                &&& after.healthy_since == Some(since)
                &&& after.histories[0] == engine.histories[0].sampled(t, engine.books[0])
                &&& after.histories[1] == engine.histories[1].sampled(t, engine.books[1])
                &&& r->Ok_0.0 is Some <==> t >= since + engine.config.warmup_ms * 1_000_000
                    && joint_vector(
                    after.histories[0],
                    after.histories[1],
                    engine.books[0],
                    engine.books[1],
                    t,
                ) is Some
            }
        }),
{
    let next = engine.sampled(e.recv_ns);
    if next.features_at(e.recv_ns) is Some {
        lemma_advice_keeps(next, e, next.features_at(e.recv_ns)->0, 0);
    }
}

/// Each model speaks of its own asset: the account decides on that asset, with the model's prediction and
/// the model's buffer, and the next model on what comes of it. A model that was selected with data of this
/// time or later says nothing, which is an error, and so is a prediction that is not finite.
pub proof fn law_models_speak_of_their_own_asset<R: Real>(
    engine: EngineView<R>,
    e: EventView<R>,
    x: Seq<R>,
    k: int,
    i: int,
)
    requires
        0 <= k < engine.models.len(),
        is_first(engine.config.names(), engine.models[k].symbol@, i),
    ensures
        ({
            let m = engine.models[k];
            let (after, r) = engine.advised(e, x, k);
            let (broker, rows) = engine.broker.decided(
                i,
                m.prediction(x),
                m.entry_buffer_bps,
                e,
                engine.books,
                engine.config,
            );
            let next = EngineView { broker, ..engine };
            let (last, more) = next.advised(e, x, k + 1);
            &&& e.recv_ns <= m.selected_through_ns ==> after == engine && r is Err
            &&& !m.prediction(x).spec_is_finite() ==> after == engine && r is Err
            &&& e.recv_ns > m.selected_through_ns && m.prediction(x).spec_is_finite() ==> {
                &&& after == last
                &&& r is Ok <==> more is Ok
                &&& r is Ok ==> r->Ok_0 == rows + more->Ok_0
                &&& rows.len() > 0
                &&& rows[0].symbol == m.symbol@
                &&& rows[0].action == "prediction"@
                &&& rows[0].value == m.prediction(x)
                &&& rows[0].recv_ns == e.recv_ns
                &&& rows[0].seq == e.seq
            }
        }),
{
    lemma_first(engine.config.names(), engine.models[k].symbol@, i);
}

/// The first event of another session finds nothing connected, no book in step and no history, and
/// the epoch is another. What the account holds is still there.
pub proof fn law_sessions_start_disconnected<R: Real>(engine: EngineView<R>, e: EventView<R>)
    requires
        engine.books.len() == 2,
        engine.epoch < u64::MAX,
        e.session != engine.session,
    ensures
        ({
            let start = engine.advanced(e);
            &&& start.session == e.session
            &&& start.feeds == seq![false, false]
            &&& start.healthy_since is None
            &&& start.epoch == engine.epoch + 1
            &&& start.broker == engine.broker
            &&& forall|i: int|
                0 <= i < 2 ==> {
                    let book = #[trigger] start.books[i];
                    &&& !book.synced
                    &&& book.last_id is None
                    &&& book.bids.len() == 0
                    &&& book.asks.len() == 0
                    &&& book.buffer.len() == 0
                    &&& book.instrument == engine.books[i].instrument
                }
            &&& forall|i: int|
                0 <= i < 2 ==> {
                    let h = #[trigger] start.histories[i];
                    h.mids.len() == 0 && h.flow.len() == 0 && h.trades.len() == 0
                }
        }),
{
}

/// Behind the first event of another session, a feed is up only where that event says so.
pub proof fn law_sessions_wait_for_their_feeds<R: Real>(engine: EngineView<R>, e: EventView<R>)
    requires
        engine.books.len() == 2,
        engine.admission_fault(e) is None,
        e.session != engine.session,
        !(e.kind is Connection),
    ensures
        engine.after(e).0.feeds == seq![false, false],
{
    reveal(EngineView::handled);
    let (seen, moved) = engine.advanced(e).delivered(e);
    if moved is Ok {
        let joined = seen.linked(e).0.checked(e.recv_ns);
        let booked = joined.traded(e, moved->Ok_0).0;
        let next = booked.sampled(e.recv_ns);
        lemma_advice_keeps(next, e, next.features_at(e.recv_ns)->0, 0);
    }
}

} // verus!
