//! How the updates of a product follow on each other over a run of messages.
use crate::error::Error;
use crate::json::Json;
use crate::number::Real;
use crate::recorder::Decoded;
use crate::types::KindView;
use crate::venue::coinbase::{book_event_of, chained, decoded, last_of, sent_at};
use vstd::prelude::*;

verus! {

/// What a new decoder has seen after messages, and what each of them says. It stops at the first
/// that is refused.
pub open spec fn decoded_all<R: Real>(messages: Seq<Json>) -> (
    Map<Seq<char>, u64>,
    Result<Seq<Seq<Decoded<R>>>, Error>,
)
    decreases messages.len(),
{
    if messages.len() == 0 {
        (Map::empty(), Ok(Seq::empty()))
    } else {
        let (before, first) = decoded_all::<R>(messages.drop_last());
        match first {
            Err(fault) => (before, Err(fault)),
            Ok(lists) => {
                let (after, r) = decoded::<R>(before, messages.last());
                (
                    after,
                    match r {
                        Err(fault) => Err(fault),
                        Ok(list) => Ok(lists.push(list)),
                    },
                )
            },
        }
    }
}

/// The events on the book in a message: none, if it is on another channel.
pub open spec fn book_events(message: Json) -> Seq<Json> {
    match (message.at("channel"@).text(), message.at("events"@).items()) {
        (Some(channel), Some(events)) => if channel == "l2_data"@ {
            events
        } else {
            Seq::empty()
        },
        _ => Seq::empty(),
    }
}

/// The number of a message.
pub open spec fn number_of(message: Json) -> u64 {
    message.at("sequence_num"@).unsigned()->0
}

/// Whether an event is about a product.
pub open spec fn names(event: Json, product: Seq<char>) -> bool {
    event.at("product_id"@).text() == Some(product)
}

/// The number of the last message with an event on the book of a product before the event `j` of the
/// message `i`, or 0 where there is none.
pub open spec fn last_named(messages: Seq<Json>, i: int, j: int, product: Seq<char>) -> u64
    decreases i, j,
{
    if j > 0 {
        if names(book_events(messages[i])[j - 1], product) {
            number_of(messages[i])
        } else {
            last_named(messages, i, j - 1, product)
        }
    } else if i > 0 {
        last_named(messages, i - 1, book_events(messages[i - 1]).len() as int, product)
    } else {
        0
    }
}

/// Whether what an event on the book says is a snapshot or an update of its product, with the number
/// of its message, and an update follows on the last event on that product.
pub open spec fn follows_on<R>(kind: KindView<R>, messages: Seq<Json>, i: int, j: int) -> bool {
    let event = book_events(messages[i])[j];
    match kind {
        KindView::Snapshot { symbol, last_id, .. } => names(event, symbol) && last_id == number_of(
            messages[i],
        ),
        KindView::Depth { symbol, first_id, last_id, prev_id, .. } => {
            &&& names(event, symbol)
            &&& last_id == number_of(messages[i])
            &&& first_id == prev_id
            &&& prev_id == last_named(messages, i, j, symbol)
        },
        _ => false,
    }
}

/// What stands before an event does not depend on what comes after it.
proof fn lemma_past(messages: Seq<Json>, i: int, j: int, product: Seq<char>)
    requires
        messages.len() > 0,
        0 <= i < messages.len() - 1 || (i == messages.len() - 1 && j <= 0),
    ensures
        last_named(messages.drop_last(), i, j, product) == last_named(messages, i, j, product),
    decreases i, j,
{
    if j > 0 {
        lemma_past(messages, i, j - 1, product);
    } else if i > 0 {
        lemma_past(messages, i - 1, book_events(messages[i - 1]).len() as int, product);
    }
}

/// Over the events of one message.
proof fn lemma_message<R: Real>(
    seen: Map<Seq<char>, u64>,
    messages: Seq<Json>,
    i: int,
    t: Option<u64>,
    n: nat,
)
    requires
        0 <= i < messages.len(),
        n <= book_events(messages[i]).len(),
        forall|p: Seq<char>| #[trigger] last_of(seen, p) == last_named(messages, i, 0, p),
        chained::<R>(seen, book_events(messages[i]), number_of(messages[i]), t, n).1 is Ok,
    ensures
        ({
            let (after, r) = chained::<R>(
                seen,
                book_events(messages[i]),
                number_of(messages[i]),
                t,
                n,
            );
            &&& r->Ok_0.len() == n
            &&& forall|p: Seq<char>| #[trigger] last_of(after, p) == last_named(messages, i, n as int, p)
            &&& forall|j: int|
                0 <= j < n ==> follows_on((#[trigger] r->Ok_0[j]).0, messages, i, j)
        }),
    decreases n,
{
    if n > 0 {
        let events = book_events(messages[i]);
        let seq = number_of(messages[i]);
        lemma_message::<R>(seen, messages, i, t, (n - 1) as nat);
        let (before, first) = chained::<R>(seen, events, seq, t, (n - 1) as nat);
        let (symbol, kind) = book_event_of::<R>(before, events[n - 1], seq)->Ok_0;
        assert(names(events[n - 1], symbol));
        assert(last_of(before, symbol) == last_named(messages, i, n - 1, symbol));
        assert(follows_on(kind, messages, i, n - 1));
        let after = before.insert(symbol, seq);
        assert forall|p: Seq<char>| #[trigger] last_of(after, p) == last_named(
            messages,
            i,
            n as int,
            p,
        ) by {
            assert(last_of(before, p) == last_named(messages, i, n - 1, p));
        }
    }
}

proof fn lemma_run<R: Real>(messages: Seq<Json>)
    requires
        decoded_all::<R>(messages).1 is Ok,
    ensures
        ({
            let (seen, r) = decoded_all::<R>(messages);
            &&& r->Ok_0.len() == messages.len()
            &&& forall|p: Seq<char>| #[trigger]
                last_of(seen, p) == last_named(messages, messages.len() as int, 0, p)
            &&& forall|i: int, j: int|
                0 <= i < messages.len() && 0 <= j < book_events(messages[i]).len() ==> follows_on(
                    (#[trigger] r->Ok_0[i][j]).0,
                    messages,
                    i,
                    j,
                )
            &&& forall|i: int|
                0 <= i < messages.len() && book_events(messages[i]).len() > 0 ==> (
                #[trigger] r->Ok_0[i]).len() == book_events(messages[i]).len()
        }),
    decreases messages.len(),
{
    if messages.len() > 0 {
        let n = messages.len() - 1;
        let fewer = messages.drop_last();
        lemma_run::<R>(fewer);
        let (before, first) = decoded_all::<R>(fewer);
        let lists = first->Ok_0;
        let last = messages.last();
        assert(messages[n] == last);
        assert forall|p: Seq<char>| #[trigger] last_of(before, p) == last_named(messages, n, 0, p) by {
            lemma_past(messages, n, 0, p);
        }
        let (after, r) = decoded::<R>(before, last);
        let channel = last.at("channel"@).text()->0;
        if channel == "l2_data"@ {
            lemma_message::<R>(before, messages, n, sent_at(last)->Ok_0, book_events(last).len());
        } else {
            assert(book_events(last).len() == 0);
            assert(after == before);
        }
        assert forall|p: Seq<char>| #[trigger] last_of(after, p) == last_named(
            messages,
            messages.len() as int,
            0,
            p,
        ) by {
            assert(last_of(before, p) == last_named(messages, n, 0, p));
        }
        let all = decoded_all::<R>(messages).1->Ok_0;
        assert forall|i: int, j: int|
            0 <= i < messages.len() && 0 <= j < book_events(messages[i]).len() implies follows_on(
            (#[trigger] all[i][j]).0,
            messages,
            i,
            j,
        ) by {
            if i < n {
                assert(fewer[i] == messages[i]);
                assert(follows_on(lists[i][j].0, fewer, i, j));
                let kind = lists[i][j].0;
                if kind is Depth {
                    lemma_past(messages, i, j, kind->Depth_symbol);
                }
            }
        }
        assert forall|i: int|
            0 <= i < messages.len() && book_events(messages[i]).len() > 0 implies (
        #[trigger] all[i]).len() == book_events(messages[i]).len() by {
            if i < n {
                assert(fewer[i] == messages[i]);
                assert(lists[i].len() == book_events(fewer[i]).len());
            }
        }
    }
}

/// Over a run of messages that a new decoder accepts, each event on the book gives one kind, in the
/// order of the events. It carries the number of its message, and an update names as its predecessor
/// the last event on the book of its product, snapshot or update, or 0 where there was none, whatever
/// came between.
pub proof fn law_updates_name_their_predecessor<R: Real>(messages: Seq<Json>, i: int, j: int)
    requires
        decoded_all::<R>(messages).1 is Ok,
        0 <= i < messages.len(),
        0 <= j < book_events(messages[i]).len(),
    ensures
        decoded_all::<R>(messages).1->Ok_0.len() == messages.len(),
        decoded_all::<R>(messages).1->Ok_0[i].len() == book_events(messages[i]).len(),
        follows_on(decoded_all::<R>(messages).1->Ok_0[i][j].0, messages, i, j),
{
    lemma_run::<R>(messages);
    let all = decoded_all::<R>(messages).1->Ok_0;
    assert(all[i].len() == book_events(messages[i]).len());
    assert(follows_on(all[i][j].0, messages, i, j));
}

/// What stands between two events and is about other products, or is no event on the book, changes no
/// predecessor.
pub proof fn law_other_messages_do_not_break_the_chain(
    messages: Seq<Json>,
    i: int,
    j: int,
    a: int,
    b: int,
    product: Seq<char>,
)
    requires
        0 <= a,
        a < i || (a == i && b < j),
        0 <= b < book_events(messages[a]).len(),
        names(book_events(messages[a])[b], product),
        forall|y: int|
            b < y < (if a == i {
                j
            } else {
                book_events(messages[a]).len() as int
            }) ==> !names(#[trigger] book_events(messages[a])[y], product),
        forall|x: int, y: int|
            a < x <= i && 0 <= y < (if x == i {
                j
            } else {
                book_events(messages[x]).len() as int
            }) ==> !names(#[trigger] book_events(messages[x])[y], product),
    ensures
        last_named(messages, i, j, product) == number_of(messages[a]),
    decreases i, j,
{
    if j > 0 {
        if !(a == i && b == j - 1) {
            assert(!names(book_events(messages[i])[j - 1], product));
            law_other_messages_do_not_break_the_chain(messages, i, j - 1, a, b, product);
        }
    } else {
        let n = book_events(messages[i - 1]).len() as int;
        law_other_messages_do_not_break_the_chain(messages, i - 1, n, a, b, product);
    }
}

} // verus!
