//! The daily loss stop: when it is set, what it does to orders, and when it is lifted.
use crate::book::BookView;
use crate::config::Config;
use crate::laws::{has_two_assets, lemma_rules_keep};
use crate::number::{is_zero, Real};
use crate::paper::{is_entry, row_of, BrokerView, JournalView, DAY};
use crate::types::EventView;
use vstd::prelude::*;

verus! {

/// Behind every event the stop is set where the day has lost the limit or more.
pub proof fn law_losses_set_the_stop<R: Real>(
    broker: BrokerView<R>,
    e: EventView<R>,
    books: Seq<BookView<R>>,
    c: Config<R>,
    updated: Option<usize>,
    valid: bool,
)
    requires
        broker.after(e, books, c, updated, valid).1 is Ok,
    ensures
        ({
            let after = broker.after(e, books, c, updated, valid).0;
            c.daily_loss.spec_within(after.day_start.spec_minus(after.equity)) ==> after.stopped
        }),
{
    reveal(BrokerView::after);
}

/// While data is invalid or the daily loss stop is set, no entry is on its way.
pub proof fn law_stop_cancels_entries<R: Real>(
    broker: BrokerView<R>,
    e: EventView<R>,
    books: Seq<BookView<R>>,
    c: Config<R>,
    updated: Option<usize>,
    valid: bool,
)
    requires
        has_two_assets(broker),
        c.fits(e.recv_ns),
        updated is Some ==> updated->0 < 2,
        broker.after(e, books, c, updated, valid).1 is Ok,
        !valid || broker.after(e, books, c, updated, valid).0.stopped,
    ensures
        !is_entry(broker.after(e, books, c, updated, valid).0.pending[0]),
        !is_entry(broker.after(e, books, c, updated, valid).0.pending[1]),
{
    reveal(BrokerView::after);
    let (told, news) = broker.informed(e, books, c, updated);
    let (ready, rules) = told.prepared(e, books, c, valid);
    let dated = told.marked(books, e.recv_ns, c).on_day((e.utc_ns / DAY) as u64);
    lemma_rules_keep(dated, 0, e, c, valid);
    if updated is Some && ready.due(updated->0 as int, e, books, c, valid) {
        let (met, trades, refused) = ready.traded(updated->0 as int, e, books, c);
        if !refused {
            lemma_rules_keep(met.marked(books, e.recv_ns, c), 0, e, c, valid);
        }
    } else {
        lemma_rules_keep(ready.marked(books, e.recv_ns, c), 0, e, c, valid);
    }
}

/// While the daily loss stop is set, what is still held is on its way out.
pub proof fn law_stop_flattens<R: Real>(
    broker: BrokerView<R>,
    e: EventView<R>,
    books: Seq<BookView<R>>,
    c: Config<R>,
    updated: Option<usize>,
    valid: bool,
    i: int,
)
    requires
        has_two_assets(broker),
        0 <= i < 2,
        c.fits(e.recv_ns),
        updated is Some ==> updated->0 < 2,
        broker.after(e, books, c, updated, valid).1 is Ok,
        broker.after(e, books, c, updated, valid).0.stopped,
        !is_zero(broker.after(e, books, c, updated, valid).0.positions[i].qty),
    ensures
        broker.after(e, books, c, updated, valid).0.pending[i] is Some,
        broker.after(e, books, c, updated, valid).0.pending[i]->0.reduce,
{
    law_stop_cancels_entries(broker, e, books, c, updated, valid);
    reveal(BrokerView::after);
    let (told, news) = broker.informed(e, books, c, updated);
    let (ready, rules) = told.prepared(e, books, c, valid);
    let dated = told.marked(books, e.recv_ns, c).on_day((e.utc_ns / DAY) as u64);
    lemma_rules_keep(dated, i, e, c, valid);
    if updated is Some && ready.due(updated->0 as int, e, books, c, valid) {
        let (met, trades, refused) = ready.traded(updated->0 as int, e, books, c);
        if !refused {
            lemma_rules_keep(met.marked(books, e.recv_ns, c), i, e, c, valid);
        }
    } else {
        lemma_rules_keep(ready.marked(books, e.recv_ns, c), i, e, c, valid);
    }
}

/// Once set, the daily loss stop stays until a later UTC day begins.
pub proof fn law_stop_lasts_the_day<R: Real>(
    broker: BrokerView<R>,
    e: EventView<R>,
    books: Seq<BookView<R>>,
    c: Config<R>,
    updated: Option<usize>,
    valid: bool,
)
    requires
        broker.stopped,
        e.utc_ns / DAY <= broker.day,
    ensures
        broker.after(e, books, c, updated, valid).0.stopped,
{
    reveal(BrokerView::after);
}

/// An event of a later UTC day on which nothing trades begins the day at the equity that it leaves,
/// and lifts the stop where no loss is less than the limit.
pub proof fn law_stop_is_lifted_on_a_later_day<R: Real>(
    broker: BrokerView<R>,
    e: EventView<R>,
    books: Seq<BookView<R>>,
    c: Config<R>,
    updated: Option<usize>,
    valid: bool,
)
    requires
        has_two_assets(broker),
        c.latency_ms > 0,
        c.fits(e.recv_ns),
        e.utc_ns / DAY > broker.day,
        updated is Some ==> updated->0 < 2,
        updated is None || !broker.due(updated->0 as int, e, books, c, valid),
        broker.after(e, books, c, updated, valid).1 is Ok,
    ensures
        ({
            let after = broker.after(e, books, c, updated, valid).0;
            &&& after.day == e.utc_ns / DAY
            &&& after.day_start == after.equity
            &&& !c.daily_loss.spec_within(after.equity.spec_minus(after.equity)) ==> !after.stopped
        }),
{
    let (told, news) = broker.informed(e, books, c, updated);
    let marked = told.marked(books, e.recv_ns, c);
    let dated = marked.on_day((e.utc_ns / DAY) as u64);
    let i = if updated is Some {
        updated->0 as int
    } else {
        0
    };
    lemma_rules_keep(dated, i, e, c, valid);
    lemma_rules_leave_value(dated, e, c, valid);
    let ready = dated.enforced(e, c, valid).0;
    assert(updated is Some ==> !ready.due(i, e, books, c, valid));
    let again = ready.marked(books, e.recv_ns, c);
    assert(again.equity == ready.equity);
    lemma_rules_leave_value(again, e, c, valid);
    reveal(BrokerView::after);
}

/// The rules change neither the value of the account nor the day, and set the stop by the loss
/// alone.
proof fn lemma_rules_leave_value<R: Real>(
    broker: BrokerView<R>,
    e: EventView<R>,
    c: Config<R>,
    valid: bool,
)
    ensures
        ({
            let after = broker.enforced(e, c, valid).0;
            &&& after.equity == broker.equity
            &&& after.cash == broker.cash
            &&& after.positions == broker.positions
            &&& after.last_mids == broker.last_mids
            &&& after.day == broker.day
            &&& after.day_start == broker.day_start
            &&& after.stopped == broker.stop_checked(c).stopped
        }),
{
}

/// The journal line of an entry that invalid data or the stop took away.
pub open spec fn cancellation<R: Real>(e: EventView<R>, c: Config<R>, i: int) -> JournalView<R> {
    row_of(e, c, i, "cancel"@, "invalid data or daily loss stop"@)
}

proof fn lemma_contained<A>(a: Seq<A>, b: Seq<A>, x: A)
    requires
        a.contains(x) || b.contains(x),
    ensures
        (a + b).contains(x),
{
    if a.contains(x) {
        let k = a.index_of(x);
        assert((a + b)[k] == x);
    } else {
        let k = b.index_of(x);
        assert((a + b)[a.len() + k] == x);
    }
}

/// Where the rules take an entry away, they say so.
proof fn lemma_rules_journal<R: Real>(
    broker: BrokerView<R>,
    i: int,
    e: EventView<R>,
    c: Config<R>,
    valid: bool,
)
    requires
        has_two_assets(broker),
        0 <= i < 2,
        is_entry(broker.pending[i]),
    ensures
        broker.enforced(e, c, valid).0.pending[i] == broker.pending[i] || broker.enforced(
            e,
            c,
            valid,
        ).1.contains(cancellation(e, c, i)),
{
    let start = broker.stop_checked(c);
    let (first, a) = start.watched(0, e, c, valid);
    let (second, b) = first.watched(1, e, c, valid);
    let row = cancellation(e, c, i);
    if i == 0 {
        if start.cancels(0, valid) {
            assert(a[0] == row);
            lemma_contained(a, b, row);
        }
    } else {
        assert(first.pending[1] == broker.pending[1]);
        if first.cancels(1, valid) {
            assert(b[0] == row);
            lemma_contained(a, b, row);
        }
    }
}

/// What an event leaves, and its journal lines, by whether an order trades on it.
pub proof fn lemma_parts<R: Real>(
    broker: BrokerView<R>,
    e: EventView<R>,
    books: Seq<BookView<R>>,
    c: Config<R>,
    updated: Option<usize>,
    valid: bool,
)
    requires
        broker.after(e, books, c, updated, valid).1 is Ok,
    ensures
        ({
            let (told, news) = broker.informed(e, books, c, updated);
            let (ready, rules) = told.prepared(e, books, c, valid);
            let (met, trades, refused) = ready.traded(updated->0 as int, e, books, c);
            let trading = updated is Some && ready.due(updated->0 as int, e, books, c, valid);
            let quiet = ready.marked(books, e.recv_ns, c).enforced(e, c, valid);
            let behind = met.marked(books, e.recv_ns, c).enforced(e, c, valid);
            let (after, rows) = broker.after(e, books, c, updated, valid);
            (after, rows->Ok_0) == if !trading {
                (quiet.0, news->Ok_0 + rules + quiet.1)
            } else if refused {
                (met, news->Ok_0 + rules + trades)
            } else {
                (behind.0, news->Ok_0 + rules + trades + behind.1)
            }
        }),
{
    reveal(BrokerView::after);
}

/// The news and the day change no order and no position.
pub proof fn lemma_dated<R: Real>(
    broker: BrokerView<R>,
    e: EventView<R>,
    books: Seq<BookView<R>>,
    c: Config<R>,
    updated: Option<usize>,
)
    ensures
        ({
            let told = broker.informed(e, books, c, updated).0;
            let dated = told.marked(books, e.recv_ns, c).on_day((e.utc_ns / DAY) as u64);
            dated.pending == broker.pending && dated.positions == broker.positions
        }),
{
}

/// What trades of one asset leaves the other alone.
pub proof fn lemma_trade_leaves<R: Real>(
    broker: BrokerView<R>,
    j: int,
    i: int,
    e: EventView<R>,
    books: Seq<BookView<R>>,
    c: Config<R>,
)
    requires
        has_two_assets(broker),
        0 <= i < 2,
        0 <= j < 2,
        i != j,
    ensures
        ({
            let met = broker.traded(j, e, books, c).0;
            &&& has_two_assets(met)
            &&& met.pending[i] == broker.pending[i]
            &&& met.positions[i] == broker.positions[i]
        }),
{
}

/// The rules behind the valuation take an entry away only with a journal line.
proof fn lemma_later_rules_journal<R: Real>(
    broker: BrokerView<R>,
    i: int,
    e: EventView<R>,
    books: Seq<BookView<R>>,
    c: Config<R>,
    valid: bool,
    before: Seq<JournalView<R>>,
)
    requires
        has_two_assets(broker),
        0 <= i < 2,
        is_entry(broker.pending[i]),
    ensures
        ({
            let (last, more) = broker.marked(books, e.recv_ns, c).enforced(e, c, valid);
            is_entry(last.pending[i]) || (before + more).contains(cancellation(e, c, i))
        }),
{
    let marked = broker.marked(books, e.recv_ns, c);
    lemma_rules_journal(marked, i, e, c, valid);
    let more = marked.enforced(e, c, valid).1;
    if more.contains(cancellation(e, c, i)) {
        lemma_contained(before, more, cancellation(e, c, i));
    }
}

/// An entry that is gone behind an event has met the book, or the journal tells that invalid data or
/// the stop took it away.
pub proof fn law_dropped_entries_are_journaled<R: Real>(
    broker: BrokerView<R>,
    e: EventView<R>,
    books: Seq<BookView<R>>,
    c: Config<R>,
    updated: Option<usize>,
    valid: bool,
    i: int,
)
    requires
        has_two_assets(broker),
        0 <= i < 2,
        updated is Some ==> updated->0 < 2,
        broker.after(e, books, c, updated, valid).1 is Ok,
        is_entry(broker.pending[i]),
        !is_entry(broker.after(e, books, c, updated, valid).0.pending[i]),
    ensures
        broker.after(e, books, c, updated, valid).1->Ok_0.contains(cancellation(e, c, i)) || (
        updated == Some(i as usize) && broker.due(i, e, books, c, valid)),
{
    lemma_parts(broker, e, books, c, updated, valid);
    lemma_dated(broker, e, books, c, updated);
    let (told, news) = broker.informed(e, books, c, updated);
    let dated = told.marked(books, e.recv_ns, c).on_day((e.utc_ns / DAY) as u64);
    let (ready, rules) = told.prepared(e, books, c, valid);
    let row = cancellation(e, c, i);
    let before = news->Ok_0 + rules;
    let quiet = ready.marked(books, e.recv_ns, c).enforced(e, c, valid).1;
    lemma_rules_journal(dated, i, e, c, valid);
    lemma_rules_keep_assets(dated, e, c, valid);
    if rules.contains(row) {
        lemma_contained(news->Ok_0, rules, row);
    } else {
        lemma_later_rules_journal(ready, i, e, books, c, valid, before);
    }
    if before.contains(row) {
        lemma_contained(before, quiet, row);
    }
    if updated is Some {
        let j = updated->0 as int;
        let (met, trades, refused) = ready.traded(j, e, books, c);
        let behind = met.marked(books, e.recv_ns, c).enforced(e, c, valid).1;
        if before.contains(row) {
            lemma_contained(before, trades, row);
            lemma_contained(before + trades, behind, row);
        } else if j != i {
            lemma_trade_leaves(ready, j, i, e, books, c);
            lemma_later_rules_journal(met, i, e, books, c, valid, before + trades);
        }
    }
}

/// The rules keep the number of assets.
pub proof fn lemma_rules_keep_assets<R: Real>(
    broker: BrokerView<R>,
    e: EventView<R>,
    c: Config<R>,
    valid: bool,
)
    requires
        has_two_assets(broker),
    ensures
        has_two_assets(broker.enforced(e, c, valid).0),
{
}

/// Whether the exit of an asset, if one is on its way, closes the whole position from the other
/// side.
pub open spec fn closes<R: Real>(broker: BrokerView<R>, i: int) -> bool {
    broker.pending[i] is Some && broker.pending[i]->0.reduce ==> {
        let held = broker.positions[i].qty;
        &&& !is_zero(held)
        &&& broker.pending[i]->0.side == held.spec_sign().spec_negated()
        &&& broker.pending[i]->0.qty == held.spec_magnitude()
    }
}

/// The exits that the rules submit close the whole position from the other side.
pub proof fn lemma_rules_close<R: Real>(
    broker: BrokerView<R>,
    i: int,
    e: EventView<R>,
    c: Config<R>,
    valid: bool,
)
    requires
        has_two_assets(broker),
        0 <= i < 2,
        closes(broker, i),
    ensures
        closes(broker.enforced(e, c, valid).0, i),
        has_two_assets(broker.enforced(e, c, valid).0),
        broker.enforced(e, c, valid).0.positions == broker.positions,
{
}

/// On every event on which nothing of the asset trades, an exit, new or old, closes the whole
/// position from the other side.
pub proof fn law_exits_oppose_positions<R: Real>(
    broker: BrokerView<R>,
    e: EventView<R>,
    books: Seq<BookView<R>>,
    c: Config<R>,
    updated: Option<usize>,
    valid: bool,
    i: int,
)
    requires
        has_two_assets(broker),
        0 <= i < 2,
        c.latency_ms > 0,
        c.fits(e.recv_ns),
        updated is Some ==> updated->0 < 2,
        updated != Some(i as usize) || !broker.due(i, e, books, c, valid),
        closes(broker, i),
    ensures
        closes(broker.after(e, books, c, updated, valid).0, i),
{
    reveal(BrokerView::after);
    let (told, news) = broker.informed(e, books, c, updated);
    let dated = told.marked(books, e.recv_ns, c).on_day((e.utc_ns / DAY) as u64);
    let ready = dated.enforced(e, c, valid).0;
    lemma_rules_keep(dated, i, e, c, valid);
    lemma_rules_close(dated, i, e, c, valid);
    assert(updated == Some(i as usize) ==> !ready.due(i, e, books, c, valid));
    let met = ready.traded(updated->0 as int, e, books, c).0;
    if updated is Some && updated->0 as int != i {
        assert(met.pending[i] == ready.pending[i] && met.positions[i] == ready.positions[i]);
        lemma_rules_close(met.marked(books, e.recv_ns, c), i, e, c, valid);
    }
    lemma_rules_close(ready.marked(books, e.recv_ns, c), i, e, c, valid);
}

} // verus!
