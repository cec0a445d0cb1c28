//! What a model predicts, in decimal numbers of fixed scale.
use crate::fixed::{quotient_of, Fixed, SCALE};
use crate::meaning::arithmetic::{lemma_cut, lemma_cuts_agree, lemma_quotient};
use crate::model::{terms, Model};
use crate::number::{total, Real};
use vstd::prelude::*;

verus! {

/// Whether a model has as many means, scales and coefficients as a vector has inputs, and scales above
/// zero.
pub open spec fn is_sized(m: Model<Fixed>, x: Seq<Fixed>) -> bool {
    &&& m.mean.len() == x.len()
    &&& m.scale.len() == x.len()
    &&& m.coefficients.len() == x.len()
    &&& forall|k: int| 0 <= k < x.len() ==> (#[trigger] m.scale@[k]).units > 0
}

/// The term of an input that stands at its mean is zero, and that of one a whole scale above it is its
/// coefficient.
proof fn lemma_term(mean: Fixed, scale: Fixed, weight: Fixed)
    requires
        scale.units > 0,
    ensures
        mean.spec_minus(mean).spec_over(scale).spec_times(weight).units == 0,
        mean.spec_plus(scale).spec_minus(mean).spec_over(scale).spec_times(weight) == weight,
{
    let none = mean.spec_minus(mean);
    assert(none.units == 0);
    lemma_quotient(none, scale);
    let z = none.spec_over(scale);
    assert(z.units == 0);
    assert(z.units * weight.units == 0) by (nonlinear_arith)
        requires
            z.units == 0,
    ;
    lemma_cut(0, SCALE as int);
    let s = mean.spec_plus(scale).spec_minus(mean);
    assert(s == scale);
    let d = scale.units as int;
    lemma_cut(d * SCALE, d);
    assert((d * SCALE) / d == SCALE && d * SCALE >= 0) by (nonlinear_arith)
        requires
            d > 0,
            SCALE == 1_000_000_000,
    ;
    assert(quotient_of(d * SCALE, d) == SCALE);
    let one = s.spec_over(scale);
    assert(one.units == SCALE);
    let n = weight.units as int;
    assert(SCALE * n == n * SCALE) by (nonlinear_arith);
    lemma_cut(SCALE * n, SCALE as int);
    lemma_cuts_agree(quotient_of(SCALE * n, SCALE as int), n, n * SCALE, SCALE as int);
}

proof fn lemma_total_of_zeros(s: Seq<Fixed>)
    requires
        forall|j: int| 0 <= j < s.len() ==> (#[trigger] s[j]).units == 0,
    ensures
        total(s).units == 0,
    decreases s.len(),
{
    if s.len() > 0 {
        let fewer = s.drop_last();
        assert forall|j: int| 0 <= j < fewer.len() implies (#[trigger] fewer[j]).units == 0 by {
            assert(fewer[j] == s[j]);
        }
        lemma_total_of_zeros(fewer);
        assert(s[s.len() - 1].units == 0);
    }
}

proof fn lemma_total_update(s: Seq<Fixed>, k: int, x: Fixed)
    requires
        0 <= k < s.len(),
    ensures
        total(s.update(k, x)) == total(s.update(k, Fixed { units: 0 })).spec_plus(x),
    decreases s.len(),
{
    let none = Fixed { units: 0 };
    let fewer = s.drop_last();
    if k == s.len() - 1 {
        assert(s.update(k, x).drop_last() =~= fewer);
        assert(s.update(k, none).drop_last() =~= fewer);
    } else {
        lemma_total_update(fewer, k, x);
        assert(s.update(k, x).drop_last() =~= fewer.update(k, x));
        assert(s.update(k, none).drop_last() =~= fewer.update(k, none));
        assert(s.update(k, x).last() == s.last() && s.update(k, none).last() == s.last());
    }
}

/// Where every input stands at its mean, a model predicts its intercept.
pub proof fn law_mean_inputs_predict_the_intercept(m: Model<Fixed>)
    requires
        is_sized(m, m.mean@),
    ensures
        m.prediction(m.mean@) == m.intercept,
{
    let s = terms(m.mean@, m.mean@, m.scale@, m.coefficients@);
    assert forall|j: int| 0 <= j < s.len() implies (#[trigger] s[j]).units == 0 by {
        assert(m.scale@[j].units > 0);
        lemma_term(m.mean@[j], m.scale@[j], m.coefficients@[j]);
    }
    lemma_total_of_zeros(s);
}

/// An input that moves from its mean to one scale above it moves the prediction by its own
/// coefficient, whatever the other inputs are.
pub proof fn law_inputs_weigh_by_their_coefficients(m: Model<Fixed>, x: Seq<Fixed>, k: int)
    requires
        is_sized(m, x),
        0 <= k < x.len(),
    ensures
        m.prediction(x.update(k, m.mean@[k].spec_plus(m.scale@[k]))) == m.prediction(
            x.update(k, m.mean@[k]),
        ).spec_plus(m.coefficients@[k]),
{
    let (mean, scale, w) = (m.mean@[k], m.scale@[k], m.coefficients@[k]);
    assert(m.scale@[k].units > 0);
    lemma_term(mean, scale, w);
    let low = terms(x.update(k, mean), m.mean@, m.scale@, m.coefficients@);
    let high = terms(
        x.update(k, mean.spec_plus(scale)),
        m.mean@,
        m.scale@,
        m.coefficients@,
    );
    let none = Fixed { units: 0 };
    assert(low[k] == none);
    assert(high =~= low.update(k, w));
    assert(low =~= low.update(k, none));
    lemma_total_update(low, k, w);
}

} // verus!
