//! What the histories forget does not matter: the features are those of the complete record.
use crate::book::BookView;
use crate::features::{
    earlier, flow_after, mid_at, path_after, signed_after, trimmed_flow, trimmed_mids,
    trimmed_trades, volume_after, HistoryView,
};
use crate::number::{whole, Real};
use crate::types::{EventView, KindView, MS, SECOND};
use vstd::prelude::*;

verus! {

/// What is noted in a history: an event, or the mid price at a timer, with the book of its time.
pub enum Note<R> {
    Observed(EventView<R>, BookView<R>),
    Sampled(u64, BookView<R>),
}

impl<R> Note<R> {
    /// When it was noted.
    pub open spec fn time(self) -> u64 {
        match self {
            Note::Observed(e, _) => e.recv_ns,
            Note::Sampled(t, _) => t,
        }
    }
}

impl<R: Real> HistoryView<R> {
    /// The history after a note, without what it then forgets.
    pub open spec fn noted(self, note: Note<R>) -> HistoryView<R> {
        match note {
            Note::Observed(e, book) => self.observed(e, book),
            Note::Sampled(t, book) => self.sampled(t, book),
        }
    }

    /// The record after a note, of which nothing is forgotten.
    pub open spec fn extended(self, note: Note<R>) -> HistoryView<R> {
        match note {
            Note::Observed(e, book) => self.recorded(e, book),
            Note::Sampled(t, book) => HistoryView {
                mids: match book.mid() {
                    Some(mid) => self.mids.push((t, mid)),
                    None => self.mids,
                },
                ..self
            },
        }
    }
}

/// The history that notes leave.
pub open spec fn history_of<R: Real>(notes: Seq<Note<R>>) -> HistoryView<R>
    decreases notes.len(),
{
    if notes.len() == 0 {
        HistoryView::blank()
    } else {
        history_of(notes.drop_last()).noted(notes.last())
    }
}

/// The complete record of notes.
pub open spec fn record_of<R: Real>(notes: Seq<Note<R>>) -> HistoryView<R>
    decreases notes.len(),
{
    if notes.len() == 0 {
        HistoryView::blank()
    } else {
        record_of(notes.drop_last()).extended(notes.last())
    }
}

/// Whether notes were taken at times that do not decrease, none of them behind `now`.
pub open spec fn are_ordered<R>(notes: Seq<Note<R>>, now: u64) -> bool {
    &&& forall|i: int, j: int|
        0 <= i <= j < notes.len() ==> (#[trigger] notes[i]).time() <= (#[trigger] notes[j]).time()
    &&& forall|i: int| 0 <= i < notes.len() ==> (#[trigger] notes[i]).time() <= now
}

/// How many entries of the second list are not in the first.
spec fn lost<T>(kept: Seq<T>, all: Seq<T>) -> int {
    all.len() - kept.len()
}

/// Whether a list is what is left of another without its first entries.
spec fn is_tail<T>(kept: Seq<T>, all: Seq<T>) -> bool {
    kept.len() <= all.len() && kept == all.skip(lost(kept, all))
}

/// Whether a history is a record without entries that nothing behind `cutoff` asks for.
spec fn abridges<R>(h: HistoryView<R>, w: HistoryView<R>, cutoff: u64, latest: u64) -> bool {
    &&& h.last_top == w.last_top
    &&& h.last_trade == w.last_trade
    &&& is_tail(h.mids, w.mids)
    &&& is_tail(h.flow, w.flow)
    &&& is_tail(h.trades, w.trades)
    &&& lost(h.mids, w.mids) > 0 ==> h.mids.len() > 0 && h.mids[0].0 <= cutoff
    &&& forall|i: int, j: int|
        0 <= i <= j < w.mids.len() ==> (#[trigger] w.mids[i]).0 <= (#[trigger] w.mids[j]).0
    &&& forall|i: int| 0 <= i < w.mids.len() ==> (#[trigger] w.mids[i]).0 <= latest
    &&& forall|i: int| 0 <= i < lost(h.flow, w.flow) ==> (#[trigger] w.flow[i]).0 <= cutoff
    &&& forall|i: int| 0 <= i < lost(h.trades, w.trades) ==> (#[trigger] w.trades[i]).0 <= cutoff
}

proof fn lemma_trimmed_mids<R>(s: Seq<(u64, R)>, cutoff: u64)
    ensures
        is_tail(trimmed_mids(s, cutoff), s),
        lost(trimmed_mids(s, cutoff), s) > 0 ==> trimmed_mids(s, cutoff).len() > 0
            && trimmed_mids(s, cutoff)[0].0 <= cutoff,
    decreases s.len(),
{
    if s.len() > 1 && s[1].0 <= cutoff {
        let rest = s.drop_first();
        lemma_trimmed_mids(rest, cutoff);
        let t = trimmed_mids(rest, cutoff);
        assert(rest.skip(lost(t, rest)) =~= s.skip(lost(t, s)));
        if lost(t, rest) == 0 {
            assert(t =~= rest);
        }
    } else {
        assert(s.skip(0) =~= s);
    }
}

proof fn lemma_trimmed_flow<R>(s: Seq<(u64, R)>, cutoff: u64)
    ensures
        is_tail(trimmed_flow(s, cutoff), s),
        forall|i: int|
            0 <= i < lost(trimmed_flow(s, cutoff), s) ==> (#[trigger] s[i]).0 <= cutoff,
    decreases s.len(),
{
    if s.len() > 0 && s[0].0 <= cutoff {
        let rest = s.drop_first();
        lemma_trimmed_flow(rest, cutoff);
        let t = trimmed_flow(rest, cutoff);
        assert(rest.skip(lost(t, rest)) =~= s.skip(lost(t, s)));
        assert forall|i: int| 0 <= i < lost(t, s) implies (#[trigger] s[i]).0 <= cutoff by {
            if i > 0 {
                assert(rest[i - 1] == s[i]);
            }
        }
    } else {
        assert(s.skip(0) =~= s);
    }
}

proof fn lemma_trimmed_trades<R>(s: Seq<(u64, R, R)>, cutoff: u64)
    ensures
        is_tail(trimmed_trades(s, cutoff), s),
        forall|i: int|
            0 <= i < lost(trimmed_trades(s, cutoff), s) ==> (#[trigger] s[i]).0 <= cutoff,
    decreases s.len(),
{
    if s.len() > 0 && s[0].0 <= cutoff {
        let rest = s.drop_first();
        lemma_trimmed_trades(rest, cutoff);
        let t = trimmed_trades(rest, cutoff);
        assert(rest.skip(lost(t, rest)) =~= s.skip(lost(t, s)));
        assert forall|i: int| 0 <= i < lost(t, s) implies (#[trigger] s[i]).0 <= cutoff by {
            if i > 0 {
                assert(rest[i - 1] == s[i]);
            }
        }
    } else {
        assert(s.skip(0) =~= s);
    }
}

/// The tail of a tail is a tail.
proof fn lemma_tail_of_tail<T>(a: Seq<T>, b: Seq<T>, c: Seq<T>)
    requires
        is_tail(a, b),
        is_tail(b, c),
    ensures
        is_tail(a, c),
{
    assert(b.skip(lost(a, b)) =~= c.skip(lost(a, c)));
}

/// An entry that both lists get leaves the one a tail of the other.
proof fn lemma_tail_grows<T>(a: Seq<T>, b: Seq<T>, x: T)
    requires
        is_tail(a, b),
    ensures
        is_tail(a.push(x), b.push(x)),
{
    assert(b.push(x).skip(lost(a, b)) =~= b.skip(lost(a, b)).push(x));
}

proof fn lemma_extended_abridges<R: Real>(
    h: HistoryView<R>,
    w: HistoryView<R>,
    cutoff: u64,
    latest: u64,
    note: Note<R>,
)
    requires
        abridges(h, w, cutoff, latest),
        latest <= note.time(),
    ensures
        abridges(h.extended(note), w.extended(note), cutoff, note.time()),
{
    let a = h.extended(note);
    let b = w.extended(note);
    if b.mids.len() > w.mids.len() {
        lemma_tail_grows(h.mids, w.mids, b.mids.last());
        assert(a.mids =~= h.mids.push(b.mids.last()));
        assert(b.mids =~= w.mids.push(b.mids.last()));
    }
    if b.flow.len() > w.flow.len() {
        lemma_tail_grows(h.flow, w.flow, b.flow.last());
        assert(a.flow =~= h.flow.push(b.flow.last()));
        assert(b.flow =~= w.flow.push(b.flow.last()));
    }
    if b.trades.len() > w.trades.len() {
        lemma_tail_grows(h.trades, w.trades, b.trades.last());
        assert(a.trades =~= h.trades.push(b.trades.last()));
        assert(b.trades =~= w.trades.push(b.trades.last()));
    }
}

proof fn lemma_trimmed_abridges<R: Real>(
    h: HistoryView<R>,
    w: HistoryView<R>,
    cutoff: u64,
    latest: u64,
    later: u64,
)
    requires
        abridges(h, w, cutoff, latest),
        cutoff <= later,
    ensures
        abridges(
            HistoryView { mids: trimmed_mids(h.mids, later), ..h },
            w,
            later,
            latest,
        ),
        abridges(
            HistoryView {
                mids: trimmed_mids(h.mids, later),
                flow: trimmed_flow(h.flow, later),
                trades: trimmed_trades(h.trades, later),
                ..h
            },
            w,
            later,
            latest,
        ),
{
    lemma_trimmed_mids(h.mids, later);
    lemma_trimmed_flow(h.flow, later);
    lemma_trimmed_trades(h.trades, later);
    let m = trimmed_mids(h.mids, later);
    lemma_tail_of_tail(m, h.mids, w.mids);
    if lost(m, h.mids) == 0 {
        assert(m =~= h.mids);
    }
    let f = trimmed_flow(h.flow, later);
    lemma_tail_of_tail(f, h.flow, w.flow);
    assert forall|i: int| 0 <= i < lost(f, w.flow) implies (#[trigger] w.flow[i]).0 <= later by {
        if i >= lost(h.flow, w.flow) {
            assert(h.flow[i - lost(h.flow, w.flow)] == w.flow[i]);
        }
    }
    let t = trimmed_trades(h.trades, later);
    lemma_tail_of_tail(t, h.trades, w.trades);
    assert forall|i: int| 0 <= i < lost(t, w.trades) implies (#[trigger] w.trades[i]).0
        <= later by {
        if i >= lost(h.trades, w.trades) {
            assert(h.trades[i - lost(h.trades, w.trades)] == w.trades[i]);
        }
    }
}

proof fn lemma_history_abridges<R: Real>(notes: Seq<Note<R>>, now: u64)
    requires
        are_ordered(notes, now),
    ensures
        ({
            let latest = if notes.len() == 0 {
                0
            } else {
                notes.last().time()
            };
            abridges(
                history_of(notes),
                record_of(notes),
                earlier(latest, 5 * SECOND),
                latest,
            )
        }),
    decreases notes.len(),
{
    if notes.len() == 0 {
        let b = HistoryView::<R>::blank();
        assert(b.mids.skip(0) =~= b.mids);
        assert(b.flow.skip(0) =~= b.flow);
        assert(b.trades.skip(0) =~= b.trades);
    } else {
        let before = notes.drop_last();
        let note = notes.last();
        assert forall|i: int, j: int| 0 <= i <= j < before.len() implies (
        #[trigger] before[i]).time() <= (#[trigger] before[j]).time() by {
            assert(notes[i].time() <= notes[j].time());
        }
        assert forall|i: int| 0 <= i < before.len() implies (#[trigger] before[i]).time()
            <= now by {
            assert(notes[i].time() <= now);
        }
        lemma_history_abridges(before, now);
        let latest = if before.len() == 0 {
            0
        } else {
            before.last().time()
        };
        if before.len() > 0 {
            assert(notes[before.len() - 1].time() <= notes[before.len() as int].time());
        }
        let cutoff = earlier(latest, 5 * SECOND);
        let h = history_of(before);
        let w = record_of(before);
        lemma_extended_abridges(h, w, cutoff, latest, note);
        lemma_trimmed_abridges(
            h.extended(note),
            w.extended(note),
            cutoff,
            note.time(),
            earlier(note.time(), 5 * SECOND),
        );
    }
}

proof fn lemma_mid_at_tail<R>(all: Seq<(u64, R)>, n: int, t: u64)
    requires
        0 <= n <= all.len(),
        n > 0 ==> n < all.len() && all[n].0 <= t,
    ensures
        mid_at(all.skip(n), t) == mid_at(all, t),
    decreases all.len(),
{
    let kept = all.skip(n);
    if n == 0 {
        assert(kept =~= all);
    } else if all.last().0 > t {
        assert(kept.drop_last() =~= all.drop_last().skip(n));
        lemma_mid_at_tail(all.drop_last(), n, t);
    }
}

proof fn lemma_path_after_tail<R: Real>(all: Seq<(u64, R)>, n: int, t: u64, base: R)
    requires
        0 <= n <= all.len(),
        forall|i: int| 0 <= i < n ==> (#[trigger] all[i]).0 <= t,
    ensures
        path_after(all.skip(n), t, base) == path_after(all, t, base),
    decreases all.len(),
{
    let kept = all.skip(n);
    if n < all.len() {
        assert(kept.drop_last() =~= all.drop_last().skip(n));
        lemma_path_after_tail(all.drop_last(), n, t, base);
    } else if all.len() > 0 {
        lemma_path_after_tail(all.drop_last(), n - 1, t, base);
        assert(all.drop_last().skip(n - 1) =~= kept);
        assert(all[n - 1].0 <= t);
    } else {
        assert(kept =~= all);
    }
}

proof fn lemma_flow_after_tail<R: Real>(all: Seq<(u64, R)>, n: int, t: u64)
    requires
        0 <= n <= all.len(),
        forall|i: int| 0 <= i < n ==> (#[trigger] all[i]).0 <= t,
    ensures
        flow_after(all.skip(n), t) == flow_after(all, t),
    decreases all.len(),
{
    let kept = all.skip(n);
    if n < all.len() {
        assert(kept.drop_last() =~= all.drop_last().skip(n));
        lemma_flow_after_tail(all.drop_last(), n, t);
    } else if all.len() > 0 {
        lemma_flow_after_tail(all.drop_last(), n - 1, t);
        assert(all.drop_last().skip(n - 1) =~= kept);
        assert(all[n - 1].0 <= t);
    } else {
        assert(kept =~= all);
    }
}

proof fn lemma_trades_after_tail<R: Real>(all: Seq<(u64, R, R)>, n: int, t: u64)
    requires
        0 <= n <= all.len(),
        forall|i: int| 0 <= i < n ==> (#[trigger] all[i]).0 <= t,
    ensures
        signed_after(all.skip(n), t) == signed_after(all, t),
        volume_after(all.skip(n), t) == volume_after(all, t),
    decreases all.len(),
{
    let kept = all.skip(n);
    if n < all.len() {
        assert(kept.drop_last() =~= all.drop_last().skip(n));
        lemma_trades_after_tail(all.drop_last(), n, t);
    } else if all.len() > 0 {
        lemma_trades_after_tail(all.drop_last(), n - 1, t);
        assert(all.drop_last().skip(n - 1) =~= kept);
        assert(all[n - 1].0 <= t);
    } else {
        assert(kept =~= all);
    }
}

proof fn lemma_same_window<R: Real>(
    h: HistoryView<R>,
    w: HistoryView<R>,
    cutoff: u64,
    latest: u64,
    now: u64,
    window_ms: u64,
    mid: R,
)
    requires
        abridges(h, w, cutoff, latest),
        cutoff <= earlier(now, window_ms * MS),
    ensures
        h.window(now, window_ms, mid) == w.window(now, window_ms, mid),
{
    let start = earlier(now, window_ms * MS);
    let n = lost(h.mids, w.mids);
    if n > 0 {
        assert(w.mids[n] == h.mids[0]);
    }
    assert forall|i: int| 0 <= i < n implies (#[trigger] w.mids[i]).0 <= start by {
        assert(w.mids[i].0 <= w.mids[n].0);
    }
    lemma_mid_at_tail(w.mids, n, start);
    if mid_at(w.mids, start) is Some {
        lemma_path_after_tail(w.mids, n, start, mid_at(w.mids, start)->0);
    }
    lemma_flow_after_tail(w.flow, lost(h.flow, w.flow), start);
    lemma_trades_after_tail(w.trades, lost(h.trades, w.trades), start);
}

/// What a history has forgotten changes no feature: at any time from its last note on, it gives the
/// vector that the complete record gives.
pub proof fn law_trimming_changes_no_feature<R: Real>(
    notes: Seq<Note<R>>,
    now: u64,
    book: BookView<R>,
)
    requires
        are_ordered(notes, now),
    ensures
        history_of(notes).vector(now, book) == record_of(notes).vector(now, book),
{
    lemma_history_abridges(notes, now);
    let latest = if notes.len() == 0 {
        0
    } else {
        notes.last().time()
    };
    if notes.len() > 0 {
        assert(notes[notes.len() - 1].time() <= now);
    }
    let cutoff = earlier(latest, 5 * SECOND);
    let h = history_of(notes);
    let w = record_of(notes);
    if book.top() is Some {
        let (b, bq, a, aq) = book.top()->0;
        let mid = b.spec_plus(a).spec_over(whole::<R>(2));
        lemma_same_window(h, w, cutoff, latest, now, 100, mid);
        lemma_same_window(h, w, cutoff, latest, now, 1000, mid);
        lemma_same_window(h, w, cutoff, latest, now, 5000, mid);
    }
}

/// There is a vector exactly where the book has a top and a mid price was noted five seconds ago or
/// earlier.
pub proof fn law_vectors_need_five_seconds<R: Real>(
    notes: Seq<Note<R>>,
    now: u64,
    book: BookView<R>,
)
    requires
        are_ordered(notes, now),
    ensures
        history_of(notes).vector(now, book) is None <==> book.top() is None || mid_at(
            record_of(notes).mids,
            earlier(now, 5 * SECOND),
        ) is None,
{
    law_trimming_changes_no_feature(notes, now, book);
    let mids = record_of(notes).mids;
    lemma_later_mid(mids, earlier(now, 5000 * MS), earlier(now, 1000 * MS));
    lemma_later_mid(mids, earlier(now, 5000 * MS), earlier(now, 100 * MS));
    assert(5000 * MS == 5 * SECOND);
}

proof fn lemma_later_mid<R>(mids: Seq<(u64, R)>, t: u64, later: u64)
    requires
        t <= later,
    ensures
        mid_at(mids, t) is Some ==> mid_at(mids, later) is Some,
    decreases mids.len(),
{
    if mids.len() > 0 {
        lemma_later_mid(mids.drop_last(), t, later);
    }
}

/// The id of the trade that a note tells of, if it tells of one.
pub open spec fn trade_id<R>(note: Note<R>) -> Option<u64> {
    match note {
        Note::Observed(e, _) => match e.kind {
            KindView::Trade { id, .. } => Some(id),
            _ => None,
        },
        Note::Sampled(_, _) => None,
    }
}

/// The record remembers the largest trade id that was noted, so that a trade counts exactly where
/// its id exceeds those of all trades before it.
pub proof fn law_trades_count_once<R: Real>(notes: Seq<Note<R>>)
    ensures
        forall|i: int|
            0 <= i < notes.len() && trade_id(#[trigger] notes[i]) is Some ==> record_of(
                notes,
            ).last_trade is Some && trade_id(notes[i])->0 <= record_of(notes).last_trade->0,
        record_of(notes).last_trade is Some ==> exists|i: int|
            0 <= i < notes.len() && trade_id(#[trigger] notes[i]) == record_of(notes).last_trade,
    decreases notes.len(),
{
    if notes.len() > 0 {
        let before = notes.drop_last();
        law_trades_count_once(before);
        assert forall|i: int|
            0 <= i < notes.len() && trade_id(#[trigger] notes[i]) is Some implies record_of(
            notes,
        ).last_trade is Some && trade_id(notes[i])->0 <= record_of(notes).last_trade->0 by {
            if i < before.len() {
                assert(before[i] == notes[i]);
            }
        }
        if record_of(notes).last_trade is Some {
            if record_of(notes).last_trade == record_of(before).last_trade {
                let i = choose|i: int|
                    0 <= i < before.len() && trade_id(#[trigger] before[i]) == record_of(
                        before,
                    ).last_trade;
                assert(notes[i] == before[i]);
            } else {
                assert(trade_id(notes[notes.len() - 1]) == record_of(notes).last_trade);
            }
        }
    }
}

} // verus!
