//! What samples, labels and predictions are.
use crate::engine::{EngineView, SampleView};
use crate::features::{joint_vector, return_bps};
use crate::fixed::{doubled, halved, log_near_one, odd_powers, Fixed, LOG_TERMS, LOG_TWO, SCALE};
use crate::meaning::arithmetic::{cuts, lemma_cut, lemma_quotient};
use crate::number::Real;
use crate::replay::{lemma_advice_keeps, LabelView};
use crate::types::EventView;
use vstd::prelude::*;

verus! {

/// Whether a label is what became of one asset since a sample: the time, place and features of the
/// sample, its own price then, and the return of its own price since then, in basis points.
pub open spec fn tells_of<R: Real>(
    l: LabelView<R>,
    s: SampleView<R>,
    engine: EngineView<R>,
    t: u64,
) -> bool {
    let i = l.asset;
    &&& i == 0 || i == 1
    &&& l.recv_ns == s.recv_ns
    &&& l.seq == s.seq
    &&& l.epoch == s.epoch
    &&& s.epoch == engine.epoch
    &&& l.features == s.features
    &&& l.mid == s.mids[i]
    &&& l.spread_bps == s.spreads_bps[i]
    &&& l.label_end_ns == s.recv_ns + engine.config.horizon_ms * 1_000_000
    &&& l.label_end_ns < t
    &&& engine.valid_at(l.label_end_ns)
    &&& l.target_bps == R::spec_from_i64(10_000).spec_times(
        engine.books[i].mid()->0.spec_over(s.mids[i]).spec_log(),
    )
}

/// Every label tells of one of the samples that waited.
pub proof fn law_labels_tell_of_their_own_asset<R: Real>(
    engine: EngineView<R>,
    waiting: Seq<SampleView<R>>,
    t: u64,
    n: int,
)
    requires
        0 <= n < engine.matured(waiting, t).1.len(),
        forall|j: int| 0 <= j < waiting.len() ==> engine.config.fits((#[trigger] waiting[j]).recv_ns),
    ensures
        exists|j: int|
            0 <= j < waiting.len() && tells_of(
                engine.matured(waiting, t).1[n],
                #[trigger] waiting[j],
                engine,
                t,
            ),
    decreases waiting.len(),
{
    let s = waiting[0];
    let rest = waiting.drop_first();
    let more = engine.matured(rest, t).1;
    let all = engine.matured(waiting, t).1;
    assert(engine.config.fits(s.recv_ns));
    let head = all.len() - more.len();
    if n < head {
        assert(tells_of(all[n], s, engine, t));
    } else {
        assert(all[n] == more[n - head]);
        assert forall|j: int| 0 <= j < rest.len() implies engine.config.fits(
            (#[trigger] rest[j]).recv_ns,
        ) by {
            assert(rest[j] == waiting[j + 1]);
        }
        law_labels_tell_of_their_own_asset(engine, rest, t, n - head);
        let j = choose|j: int|
            0 <= j < rest.len() && tells_of(more[n - head], #[trigger] rest[j], engine, t);
        assert(waiting[j + 1] == rest[j]);
    }
}

/// Every sample whose second has passed, within its epoch and with fresh books at its end, gets a label
/// for each asset.
pub proof fn law_samples_are_labelled_for_both_assets<R: Real>(
    engine: EngineView<R>,
    waiting: Seq<SampleView<R>>,
    t: u64,
    j: int,
    i: int,
)
    requires
        0 <= i < 2,
        0 <= j < waiting.len(),
        forall|a: int, b: int|
            0 <= a <= b < waiting.len() ==> (#[trigger] waiting[a]).recv_ns <= (
            #[trigger] waiting[b]).recv_ns,
        engine.config.fits(waiting[j].recv_ns),
        waiting[j].recv_ns + engine.config.horizon_ms * 1_000_000 < t,
        waiting[j].epoch == engine.epoch,
        engine.valid_at((waiting[j].recv_ns + engine.config.horizon_ms * 1_000_000) as u64),
    ensures
        exists|n: int|
            0 <= n < engine.matured(waiting, t).1.len() && (#[trigger] engine.matured(
                waiting,
                t,
            ).1[n]).asset == i && tells_of(engine.matured(waiting, t).1[n], waiting[j], engine, t),
    decreases waiting.len(),
{
    let s = waiting[0];
    assert(s.recv_ns <= waiting[j].recv_ns);
    let rest = waiting.drop_first();
    let more = engine.matured(rest, t).1;
    let all = engine.matured(waiting, t).1;
    let head = all.len() - more.len();
    if j == 0 {
        assert(all[i] == engine.label_of(s, i));
        assert(all[i].asset == i);
    } else {
        assert forall|a: int, b: int| 0 <= a <= b < rest.len() implies (#[trigger] rest[a]).recv_ns
            <= (#[trigger] rest[b]).recv_ns by {
            assert(waiting[a + 1].recv_ns <= waiting[b + 1].recv_ns);
        }
        assert(rest[j - 1] == waiting[j]);
        law_samples_are_labelled_for_both_assets(engine, rest, t, j - 1, i);
        let n = choose|n: int|
            0 <= n < more.len() && (#[trigger] more[n]).asset == i && tells_of(
                more[n],
                rest[j - 1],
                engine,
                t,
            );
        assert(all[head + n] == more[n]);
    }
}

/// A sample carries the time, number and epoch of its event, the features of the state behind it, the
/// prices of its books, and of each asset the spread that its features have too.
pub proof fn law_samples_show_the_books<R: Real>(engine: EngineView<R>, e: EventView<R>, i: int)
    requires
        0 <= i < 2,
        engine.after(e).1 is Ok,
        engine.after(e).1->Ok_0.0 is Some,
    ensures
        ({
            let (after, out) = engine.after(e);
            let s = out->Ok_0.0->0;
            &&& s.recv_ns == e.recv_ns
            &&& s.seq == e.seq
            &&& s.epoch == after.epoch
            &&& after.books[i].mid() is Some
            &&& s.mids[i] == after.books[i].mid()->0
            &&& s.features.len() == 37
            &&& s.spreads_bps[i] == s.features[17 * i]
            &&& Some(s.features) == joint_vector(
                after.histories[0],
                after.histories[1],
                after.books[0],
                after.books[1],
                e.recv_ns,
            )
        }),
{
    reveal(EngineView::handled);
    let (seen, moved) = engine.advanced(e).delivered(e);
    let joined = seen.linked(e).0.checked(e.recv_ns);
    let booked = joined.traded(e, moved->Ok_0).0;
    let next = booked.sampled(e.recv_ns);
    lemma_advice_keeps(next, e, next.features_at(e.recv_ns)->0, 0);
}

proof fn lemma_powers_grow(t: int, sq: int, u: int, sr: int, j: int)
    requires
        0 <= t <= u,
        0 <= sq <= sr,
        0 <= j,
    ensures
        0 <= odd_powers(t, sq, j) <= odd_powers(u, sr, j),
    decreases LOG_TERMS - j,
{
    if j < LOG_TERMS {
        assert(0 <= t / (2 * j + 1) <= u / (2 * j + 1)) by (nonlinear_arith)
            requires
                0 <= t <= u,
                0 <= j,
        ;
        assert(0 <= t * sq <= u * sr) by (nonlinear_arith)
            requires
                0 <= t <= u,
                0 <= sq <= sr,
        ;
        lemma_powers_grow(t * sq / SCALE as int, sq, u * sr / SCALE as int, sr, j + 1);
    }
}

proof fn lemma_zero_powers(j: int)
    requires
        0 <= j,
    ensures
        odd_powers(0, 0, j) == 0,
    decreases LOG_TERMS - j,
{
    if j < LOG_TERMS {
        assert(0int / (2 * j + 1) == 0) by (nonlinear_arith)
            requires
                0 <= j,
        ;
        lemma_zero_powers(j + 1);
    }
}

/// The series at the end of its range, term by term.
proof fn lemma_most_powers()
    ensures
        odd_powers(333_333_333, 111_111_110, 0) <= 346_573_590,
{
    assert(odd_powers(0, 111_111_110, 12) == 0);
    assert(0int * 111_111_110 / 1_000_000_000 == 0 && 0int / 23 == 0);
    assert(odd_powers(0, 111_111_110, 11) == 0);
    assert(0int * 111_111_110 / 1_000_000_000 == 0 && 0int / 21 == 0);
    assert(odd_powers(0, 111_111_110, 10) == 0);
    assert(0int * 111_111_110 / 1_000_000_000 == 0 && 0int / 19 == 0);
    assert(odd_powers(0, 111_111_110, 9) == 0);
    assert(7int * 111_111_110 / 1_000_000_000 == 0 && 7int / 17 == 0);
    assert(odd_powers(7, 111_111_110, 8) == 0);
    assert(69int * 111_111_110 / 1_000_000_000 == 7 && 69int / 15 == 4);
    assert(odd_powers(69, 111_111_110, 7) == 4);
    assert(627int * 111_111_110 / 1_000_000_000 == 69 && 627int / 13 == 48);
    assert(odd_powers(627, 111_111_110, 6) == 52);
    assert(5_644int * 111_111_110 / 1_000_000_000 == 627 && 5_644int / 11 == 513);
    assert(odd_powers(5_644, 111_111_110, 5) == 565);
    assert(50_805int * 111_111_110 / 1_000_000_000 == 5_644 && 50_805int / 9 == 5_645);
    assert(odd_powers(50_805, 111_111_110, 4) == 6_210);
    assert(457_247int * 111_111_110 / 1_000_000_000 == 50_805 && 457_247int / 7 == 65_321);
    assert(odd_powers(457_247, 111_111_110, 3) == 71_531);
    assert(4_115_226int * 111_111_110 / 1_000_000_000 == 457_247 && 4_115_226int / 5 == 823_045);
    assert(odd_powers(4_115_226, 111_111_110, 2) == 894_576);
    assert(37_037_036int * 111_111_110 / 1_000_000_000 == 4_115_226 && 37_037_036int / 3 == 12_345_678);
    assert(odd_powers(37_037_036, 111_111_110, 1) == 13_240_254);
    assert(333_333_333int * 111_111_110 / 1_000_000_000 == 37_037_036 && 333_333_333int / 1 == 333_333_333);
    assert(odd_powers(333_333_333, 111_111_110, 0) == 346_573_587);
}

proof fn lemma_near_one(m: int)
    requires
        SCALE <= m < 2 * SCALE,
    ensures
        0 <= log_near_one(m) <= LOG_TWO,
        m == SCALE ==> log_near_one(m) == 0,
{
    let y = (m - SCALE) * SCALE / (m + SCALE);
    assert(0 <= y <= 333_333_333) by (nonlinear_arith)
        requires
            y == (m - SCALE) * SCALE / (m + SCALE),
            SCALE <= m < 2 * SCALE,
            SCALE == 1_000_000_000,
    ;
    assert(0 <= y * y <= 333_333_333 * 333_333_333) by (nonlinear_arith)
        requires
            0 <= y <= 333_333_333,
    ;
    lemma_powers_grow(y, y * y / SCALE as int, 333_333_333, 111_111_110, 0);
    lemma_most_powers();
    if m == SCALE {
        assert(y == 0) by (nonlinear_arith)
            requires
                y == (m - SCALE) * SCALE / (m + SCALE),
                m == SCALE,
                SCALE == 1_000_000_000,
        ;
        assert(y * y == 0) by (nonlinear_arith)
            requires
                y == 0,
        ;
        lemma_zero_powers(0);
    }
}

proof fn lemma_halved(m: int, k: int)
    requires
        m >= SCALE,
    ensures
        SCALE <= halved(m, k).0 < 2 * SCALE,
        halved(m, k).1 >= k,
        m < 2 * SCALE ==> halved(m, k) == (m, k),
    decreases m,
{
    if m >= 2 * SCALE {
        lemma_halved(m / 2, k + 1);
    }
}

proof fn lemma_doubled(m: int, k: int)
    requires
        0 < m < 2 * SCALE,
    ensures
        SCALE <= doubled(m, k).0 < 2 * SCALE,
        doubled(m, k).1 <= k,
        m < SCALE ==> doubled(m, k).1 < k,
        m >= SCALE ==> doubled(m, k) == (m, k),
    decreases 2 * SCALE - m,
{
    if m < SCALE {
        lemma_doubled(m * 2, k - 1);
    }
}

/// The logarithm of one is zero, that of more is not below zero, and that of less is not above it.
pub proof fn law_logarithms_tell_growth(x: Fixed)
    requires
        x.units > 0,
    ensures
        x.units == SCALE ==> x.spec_log().units == 0,
        x.units >= SCALE ==> x.spec_log().units >= 0,
        x.units <= SCALE ==> x.spec_log().units <= 0,
{
    let u = x.units as int;
    if u >= SCALE {
        lemma_halved(u, 0);
        let (h, up) = halved(u, 0);
        lemma_doubled(h, up);
        lemma_near_one(h);
        assert(up * LOG_TWO >= 0) by (nonlinear_arith)
            requires
                up >= 0,
                LOG_TWO == 693_147_181,
        ;
    } else {
        assert(halved(u, 0) == (u, 0int));
        lemma_doubled(u, 0);
        let (m, k) = doubled(u, 0);
        lemma_near_one(m);
        assert(k * LOG_TWO <= -LOG_TWO) by (nonlinear_arith)
            requires
                k <= -1,
                LOG_TWO == 693_147_181,
        ;
    }
}

/// A return is zero where the price has not moved, not below zero where it rose, and not above it where
/// it fell.
pub proof fn law_returns_follow_the_price(to: Fixed, from: Fixed)
    requires
        from.units > 0,
        0 < to.units,
        to.units * SCALE <= i64::MAX * from.units,
        from.units <= to.units * SCALE,
    ensures
        to.units == from.units ==> return_bps(to, from).units == 0,
        to.units >= from.units ==> return_bps(to, from).units >= 0,
        to.units <= from.units ==> return_bps(to, from).units <= 0,
{
    lemma_quotient(to, from);
    let r = to.spec_over(from);
    let (a, b, q) = (to.units as int, from.units as int, r.units as int);
    assert(a * SCALE >= 0);
    assert(q > 0 && (a == b ==> q == SCALE) && (a >= b ==> q >= SCALE) && (a <= b ==> q <= SCALE))
        by (nonlinear_arith)
        requires
            cuts(q, a * SCALE, b),
            a * SCALE >= 0,
            a > 0,
            b > 0,
            b <= a * SCALE,
            SCALE == 1_000_000_000,
    ;
    law_logarithms_tell_growth(r);
    let n = r.spec_log().units as int;
    let w = Fixed::spec_from_i64(10_000);
    assert(w.units == 10_000 * SCALE);
    assert((n >= 0 ==> w.units * n >= 0) && (n <= 0 ==> w.units * n <= 0) && (n == 0 ==> w.units
        * n == 0)) by (nonlinear_arith)
        requires
            w.units > 0,
    ;
    lemma_cut(w.units * n, SCALE as int);
}

/// The label of an asset whose price has not moved is zero, whatever the other asset did; it is not
/// below zero where the price rose and not above it where the price fell.
pub proof fn law_labels_follow_the_price(
    engine: EngineView<Fixed>,
    s: SampleView<Fixed>,
    l: LabelView<Fixed>,
    t: u64,
)
    requires
        tells_of(l, s, engine, t),
        ({
            let (now, then) = (engine.books[l.asset].mid()->0, s.mids[l.asset]);
            &&& 0 < now.units
            &&& 0 < then.units
            &&& now.units * SCALE <= i64::MAX * then.units
            &&& then.units <= now.units * SCALE
        }),
    ensures
        ({
            let (now, then) = (engine.books[l.asset].mid()->0, s.mids[l.asset]);
            &&& now == then ==> l.target_bps.units == 0
            &&& now.units >= then.units ==> l.target_bps.units >= 0
            &&& now.units <= then.units ==> l.target_bps.units <= 0
        }),
{
    law_returns_follow_the_price(engine.books[l.asset].mid()->0, s.mids[l.asset]);
}

/// A sample whose second has not passed waits on, in its place among those that wait.
pub proof fn law_samples_wait_for_their_second<R: Real>(
    engine: EngineView<R>,
    waiting: Seq<SampleView<R>>,
    t: u64,
    j: int,
)
    requires
        0 <= j < waiting.len(),
        forall|a: int, b: int|
            0 <= a <= b < waiting.len() ==> (#[trigger] waiting[a]).recv_ns <= (
            #[trigger] waiting[b]).recv_ns,
        waiting[j].recv_ns + engine.config.horizon_ms * 1_000_000 >= t,
    ensures
        ({
            let rest = engine.matured(waiting, t).0;
            let gone = waiting.len() - rest.len();
            &&& 0 <= gone <= j
            &&& rest == waiting.skip(gone)
            &&& rest[j - gone] == waiting[j]
        }),
    decreases waiting.len(),
{
    let rest = engine.matured(waiting, t).0;
    let s = waiting[0];
    if s.recv_ns + engine.config.horizon_ms * 1_000_000 >= t {
        assert(rest == waiting);
        assert(waiting.skip(0) =~= waiting);
    } else {
        assert(j > 0);
        let fewer = waiting.drop_first();
        assert(fewer[j - 1] == waiting[j]);
        law_samples_wait_for_their_second(engine, fewer, t, j - 1);
        let gone = waiting.len() - rest.len();
        assert(fewer.skip(gone - 1) =~= waiting.skip(gone));
    }
}

} // verus!
