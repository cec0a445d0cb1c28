//! When the engine is healthy, and what losing its health does.
use crate::book::BookView;
use crate::causality::is_set_up;
use crate::config::{law_two_instruments, Config};
use crate::engine::EngineView;
use crate::features::HistoryView;
use crate::number::Real;
use crate::paper::{BrokerView, JournalView, DAY};
use crate::replay::lemma_advice_keeps;
use crate::text::lemma_place;
use crate::types::EventView;
use vstd::prelude::*;

verus! {

/// Whether health is claimed only where both feeds are connected and both books fresh now.
pub open spec fn is_health_current<R: Real>(engine: EngineView<R>) -> bool {
    engine.healthy_since is Some ==> engine.valid_at(engine.now)
}

/// The states through which an accepted event leads an engine: behind what it says of books and
/// connections, behind the account, and at its end.
#[verifier::opaque]
pub open spec fn passes<R: Real>(
    engine: EngineView<R>,
    e: EventView<R>,
    linked: EngineView<R>,
    booked: EngineView<R>,
) -> bool {
    let (seen, moved) = engine.advanced(e).delivered(e);
    &&& moved is Ok
    &&& seen.linked(e).1 is Ok
    &&& linked == seen.linked(e).0
    &&& booked == linked.checked(e.recv_ns).traded(e, moved->Ok_0).0
    &&& engine.after(e).0 == booked.ticked(e).0
}

/// An accepted event leads an engine through such states.
pub proof fn lemma_passes<R: Real>(engine: EngineView<R>, e: EventView<R>) -> (r: (
    EngineView<R>,
    EngineView<R>,
))
    requires
        engine.after(e).1 is Ok,
    ensures
        passes(engine, e, r.0, r.1),
{
    reveal(EngineView::handled);
    reveal(passes);
    let (seen, moved) = engine.advanced(e).delivered(e);
    let linked = seen.linked(e).0;
    (linked, linked.checked(e.recv_ns).traded(e, moved->Ok_0).0)
}

/// A timer's work changes neither books, feeds, clock nor epoch, and claims health only where the
/// engine is valid.
pub proof fn lemma_tick_keeps<R: Real>(engine: EngineView<R>, e: EventView<R>)
    ensures
        ({
            let after = engine.ticked(e).0;
            &&& after.books == engine.books
            &&& after.feeds == engine.feeds
            &&& after.now == engine.now
            &&& after.config == engine.config
            &&& after.epoch == engine.epoch
            &&& after.healthy_since is Some ==> engine.healthy_since is Some || engine.valid_at(
                e.recv_ns,
            )
            &&& !engine.valid_at(e.recv_ns) ==> after == engine
            &&& after.healthy_since is None ==> after == engine
        }),
{
    if engine.is_decision(e) {
        let next = engine.sampled(e.recv_ns);
        if next.features_at(e.recv_ns) is Some {
            lemma_advice_keeps(next, e, next.features_at(e.recv_ns)->0, 0);
        }
    }
}

/// Behind every accepted event, health is claimed only where both feeds are connected and both books
/// fresh at that very time.
pub proof fn law_health_is_current<R: Real>(engine: EngineView<R>, e: EventView<R>)
    requires
        engine.after(e).1 is Ok,
    ensures
        is_health_current(engine.after(e).0),
{
    let (linked, booked) = lemma_passes(engine, e);
    reveal(passes);
    let checked = linked.checked(e.recv_ns);
    lemma_tick_keeps(booked, e);
    assert(checked.healthy_since is Some ==> checked.valid_at(e.recv_ns));
    assert(booked.books == checked.books && booked.feeds == checked.feeds);
    assert(engine.advanced(e).now == e.recv_ns);
    assert(booked.now == e.recv_ns);
}

/// Health is current in every state that accepted events lead to.
pub proof fn law_runs_keep_health_current<R: Real>(
    engine: EngineView<R>,
    events: Seq<EventView<R>>,
)
    requires
        is_health_current(engine),
        engine.ran(events).1 is Ok,
    ensures
        is_health_current(engine.ran(events).0),
    decreases events.len(),
{
    if events.len() > 0 {
        law_runs_keep_health_current(engine, events.drop_last());
        law_health_is_current(engine.ran(events.drop_last()).0, events.last());
    }
}

/// Whether a journal line speaks of a prediction or of an entry that follows from one.
pub open spec fn is_signal<R>(row: JournalView<R>) -> bool {
    row.action == "prediction"@ || row.action == "entry_submitted"@
}

/// Whether no journal line speaks of a prediction or of an entry.
pub open spec fn are_silent<R>(rows: Seq<JournalView<R>>) -> bool {
    forall|j: int| 0 <= j < rows.len() ==> !is_signal(#[trigger] rows[j])
}

proof fn lemma_actions_differ()
    ensures
        "funding"@ != "prediction"@ && "funding"@ != "entry_submitted"@,
        "cancel"@ != "prediction"@ && "cancel"@ != "entry_submitted"@,
        "exit_submitted"@ != "prediction"@ && "exit_submitted"@ != "entry_submitted"@,
        "reject"@ != "prediction"@ && "reject"@ != "entry_submitted"@,
        "fill"@ != "prediction"@ && "fill"@ != "entry_submitted"@,
{
    reveal_strlit("prediction");
    reveal_strlit("entry_submitted");
    reveal_strlit("funding");
    reveal_strlit("cancel");
    reveal_strlit("exit_submitted");
    reveal_strlit("reject");
    reveal_strlit("fill");
    assert("prediction"@.len() == 10 && "entry_submitted"@.len() == 15);
    assert("funding"@.len() == 7 && "cancel"@.len() == 6 && "exit_submitted"@.len() == 14);
    assert("reject"@.len() == 6 && "fill"@.len() == 4);
}

proof fn lemma_rules_are_silent<R: Real>(
    broker: BrokerView<R>,
    e: EventView<R>,
    c: Config<R>,
    valid: bool,
)
    ensures
        are_silent(broker.enforced(e, c, valid).1),
{
    lemma_actions_differ();
    let ready = broker.stop_checked(c);
    assert(are_silent(ready.watched(0, e, c, valid).1));
    let first = ready.watched(0, e, c, valid).0;
    assert(are_silent(first.watched(1, e, c, valid).1));
}

proof fn lemma_news_are_silent<R: Real>(
    broker: BrokerView<R>,
    e: EventView<R>,
    books: Seq<BookView<R>>,
    c: Config<R>,
    updated: Option<usize>,
)
    ensures
        broker.informed(e, books, c, updated).1 matches Ok(rows) ==> are_silent(rows),
{
    lemma_actions_differ();
}

proof fn lemma_trades_are_silent<R: Real>(
    broker: BrokerView<R>,
    i: int,
    e: EventView<R>,
    books: Seq<BookView<R>>,
    c: Config<R>,
)
    ensures
        are_silent(broker.traded(i, e, books, c).1),
{
    lemma_actions_differ();
}

/// The account itself never predicts or enters.
proof fn lemma_account_is_silent<R: Real>(
    broker: BrokerView<R>,
    e: EventView<R>,
    books: Seq<BookView<R>>,
    c: Config<R>,
    updated: Option<usize>,
    valid: bool,
)
    ensures
        broker.after(e, books, c, updated, valid).1 matches Ok(rows) ==> are_silent(rows),
{
    reveal(BrokerView::after);
    lemma_news_are_silent(broker, e, books, c, updated);
    let (told, news) = broker.informed(e, books, c, updated);
    let dated = told.marked(books, e.recv_ns, c).on_day((e.utc_ns / DAY) as u64);
    lemma_rules_are_silent(dated, e, c, valid);
    let ready = told.prepared(e, books, c, valid).0;
    lemma_rules_are_silent(ready.marked(books, e.recv_ns, c), e, c, valid);
    if updated is Some {
        lemma_trades_are_silent(ready, updated->0 as int, e, books, c);
        let met = ready.traded(updated->0 as int, e, books, c).0;
        lemma_rules_are_silent(met.marked(books, e.recv_ns, c), e, c, valid);
    }
}

/// An event behind which the engine is not valid gives no sample, no prediction and no entry, and
/// leaves it without health.
pub proof fn law_invalid_engines_are_silent<R: Real>(engine: EngineView<R>, e: EventView<R>)
    requires
        engine.after(e).1 is Ok,
        !engine.after(e).0.valid_at(engine.after(e).0.now),
    ensures
        engine.after(e).1->Ok_0.0 is None,
        are_silent(engine.after(e).1->Ok_0.1),
        engine.after(e).0.healthy_since is None,
{
    law_health_is_current(engine, e);
    let (linked, booked) = lemma_passes(engine, e);
    reveal(passes);
    let checked = linked.checked(e.recv_ns);
    lemma_tick_keeps(booked, e);
    assert(engine.advanced(e).now == e.recv_ns);
    assert(!booked.valid_at(e.recv_ns));
    reveal(EngineView::handled);
    let moved = engine.advanced(e).delivered(e).1;
    lemma_account_is_silent(
        checked.broker,
        e,
        checked.books,
        checked.config,
        moved->Ok_0,
        checked.valid_at(e.recv_ns),
    );
}

/// Whether the histories hold nothing but what an event noted in them.
pub open spec fn is_new_history<R: Real>(engine: EngineView<R>, e: EventView<R>, i: int) -> bool {
    ||| engine.histories[i] == HistoryView::<R>::blank()
    ||| engine.histories[i] == HistoryView::<R>::blank().observed(e, engine.books[i])
}

/// How many resets one event can cause.
pub const MOST_RESETS: u64 = 5;

proof fn lemma_resets<R: Real>(engine: EngineView<R>, e: EventView<R>)
    requires
        is_set_up(engine),
        engine.books.len() == 2,
        engine.histories.len() == 2,
        engine.epoch <= u64::MAX - MOST_RESETS,
        engine.after(e).1 is Ok,
    ensures
        engine.epoch <= engine.after(e).0.epoch <= engine.epoch + MOST_RESETS,
        engine.healthy_since is Some && engine.after(e).0.healthy_since is None ==> {
            &&& engine.after(e).0.epoch > engine.epoch
            &&& is_new_history(engine.after(e).0, e, 0)
            &&& is_new_history(engine.after(e).0, e, 1)
        },
{
    let (linked, booked) = lemma_passes(engine, e);
    reveal(passes);
    let start = engine.advanced(e);
    let (seen, moved) = start.delivered(e);
    let blank = HistoryView::<R>::blank();
    law_two_instruments(engine.config);
    if e.kind.symbol() is Some {
        lemma_place(engine.config.names(), e.kind.symbol()->0, 0);
    }
    assert(engine.epoch <= start.epoch <= engine.epoch + 2);
    assert(engine.healthy_since is Some && start.healthy_since is None ==> start.epoch
        > engine.epoch && start.histories == seq![blank, blank]);
    lemma_delivery_resets(start, e);
    lemma_link_resets(seen, e);
    lemma_tick_keeps(booked, e);
    if engine.after(e).0.healthy_since is None {
        assert(engine.after(e).0 == booked);
    }
}

proof fn lemma_delivery_resets<R: Real>(engine: EngineView<R>, e: EventView<R>)
    requires
        is_set_up(engine),
        engine.books.len() == 2,
        engine.histories.len() == 2,
        engine.epoch < u64::MAX,
        engine.delivered(e).1 is Ok,
    ensures
        ({
            let after = engine.delivered(e).0;
            let blank = HistoryView::<R>::blank();
            &&& engine.epoch <= after.epoch <= engine.epoch + 1
            &&& after.histories.len() == 2
            &&& after.books.len() == 2
            &&& after.config == engine.config
            &&& after.healthy_since is None <==> engine.healthy_since is None || after.epoch
                > engine.epoch
            &&& after.epoch > engine.epoch || engine.histories == seq![blank, blank]
                ==> is_new_history(after, e, 0) && is_new_history(after, e, 1)
        }),
{
    law_two_instruments(engine.config);
    if e.kind.symbol() is Some {
        lemma_place(engine.config.names(), e.kind.symbol()->0, 0);
    }
}

proof fn lemma_link_resets<R: Real>(engine: EngineView<R>, e: EventView<R>)
    requires
        engine.books.len() == 2,
        engine.histories.len() == 2,
        engine.epoch < u64::MAX,
    ensures
        ({
            let after = engine.linked(e).0;
            let blank = HistoryView::<R>::blank();
            &&& engine.epoch <= after.epoch <= engine.epoch + 1
            &&& after.epoch == engine.epoch ==> after.histories == engine.histories && after.books
                == engine.books && after.healthy_since == engine.healthy_since
            &&& after.epoch > engine.epoch ==> after.histories == seq![blank, blank]
                && after.healthy_since is None
        }),
{
}

/// The epoch does not fall.
pub proof fn law_epochs_do_not_fall<R: Real>(engine: EngineView<R>, e: EventView<R>)
    requires
        is_set_up(engine),
        engine.books.len() == 2,
        engine.histories.len() == 2,
        engine.epoch <= u64::MAX - MOST_RESETS,
        engine.after(e).1 is Ok,
    ensures
        engine.epoch <= engine.after(e).0.epoch <= engine.epoch + MOST_RESETS,
{
    lemma_resets(engine, e);
}

/// An event that costs the engine its health begins a new epoch, and leaves no history but what it
/// noted itself: a new warmup is needed.
pub proof fn law_lost_health_starts_an_epoch<R: Real>(engine: EngineView<R>, e: EventView<R>)
    requires
        is_set_up(engine),
        engine.books.len() == 2,
        engine.histories.len() == 2,
        engine.epoch <= u64::MAX - MOST_RESETS,
        engine.healthy_since is Some,
        engine.after(e).1 is Ok,
        engine.after(e).0.healthy_since is None,
    ensures
        engine.after(e).0.epoch > engine.epoch,
        is_new_history(engine.after(e).0, e, 0),
        is_new_history(engine.after(e).0, e, 1),
{
    lemma_resets(engine, e);
}

} // verus!
