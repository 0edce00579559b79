//! Properties of the filter that hold over many steps or all inputs.
use crate::fixed::{
    in_range, lemma_div_fraction, lemma_mul_fraction, lemma_mul_one, mul_spec, sub_spec, LIMIT, SCALE,
};
use crate::kalman::{batch, KalmanModel};
use vstd::prelude::*;

verus! {

/// The state after `n` predictions.
pub open spec fn predicted_times(m: KalmanModel, n: nat) -> KalmanModel
    decreases n,
{
    if n == 0 {
        m
    } else {
        predicted_times(m, (n - 1) as nat).predicted()
    }
}

/// The state after `n` advances, each with the observation `z`.
pub open spec fn advanced_times(m: KalmanModel, z: int, n: nat) -> KalmanModel
    decreases n,
{
    if n == 0 {
        m
    } else {
        advanced_times(m, z, (n - 1) as nat).advanced(z)
    }
}

/// The state after advancing once with each of the first `i` observations.
pub open spec fn steps(m: KalmanModel, zs: Seq<int>, i: nat) -> KalmanModel
    decreases i,
{
    if i == 0 {
        m
    } else {
        steps(m, zs, (i - 1) as nat).advanced(zs[i - 1])
    }
}

/// With `A = 1` and `Q = 0`, any number of predictions leaves the estimate
/// and its variance as they were.
pub proof fn lemma_predict_steady(m: KalmanModel, n: nat)
    requires
        m.valid(),
        m.a == SCALE,
        m.q == 0,
    ensures
        predicted_times(m, n) == m,
    decreases n,
{
    if n > 0 {
        lemma_predict_steady(m, (n - 1) as nat);
        lemma_mul_one(m.x);
        lemma_mul_one(m.p);
    }
}

/// One advance of the unit model of `lemma_constant_observation_converges`.
proof fn lemma_unit_model_step(m: KalmanModel, z: int)
    requires
        m.valid(),
        in_range(z),
        m.a == SCALE,
        m.h == SCALE,
        m.q == 0,
        m.r == SCALE,
        m.p >= 0,
    ensures
        m.advance_ok(),
        m.x <= z ==> m.x <= m.advanced(z).x <= z,
        z <= m.x ==> z <= m.advanced(z).x <= m.x,
        0 <= m.advanced(z).p <= m.p,
        m.advanced(z).valid(),
        m.advanced(z).a == m.a && m.advanced(z).h == m.h,
        m.advanced(z).q == m.q && m.advanced(z).r == m.r,
{
    lemma_predict_steady(m, 1);
    assert(m.predicted() == m);
    lemma_mul_one(m.p);
    lemma_mul_one(m.x);
    let s = m.innovation_cov();
    assert(s == if m.p + SCALE > LIMIT { LIMIT as int } else { m.p + SCALE });
    lemma_div_fraction(m.p, s);
    let k = m.gain();
    lemma_mul_one(k);
    let y = sub_spec(z, m.x);
    lemma_mul_fraction(k, y);
    lemma_mul_fraction(k, SCALE - k);
    lemma_mul_fraction(SCALE - k, m.p);
    assert(mul_spec(m.p, SCALE - k) == mul_spec(SCALE - k, m.p)) by {
        assert(m.p * (SCALE - k) == (SCALE - k) * m.p) by (nonlinear_arith);
    }
}

/// With `A = H = R = 1` and `Q = 0`, and a nonnegative starting variance,
/// feeding the same observation `z` again and again never fails; each
/// advance moves the estimate toward `z` without passing it, and never
/// increases the variance, which stays nonnegative.
pub proof fn lemma_constant_observation_converges(m: KalmanModel, z: int, n: nat)
    requires
        m.valid(),
        in_range(z),
        m.a == SCALE,
        m.h == SCALE,
        m.q == 0,
        m.r == SCALE,
        m.p >= 0,
    ensures
        advanced_times(m, z, n).advance_ok(),
        advanced_times(m, z, n).x <= z ==> advanced_times(m, z, n).x <= advanced_times(
            m,
            z,
            n + 1,
        ).x <= z,
        z <= advanced_times(m, z, n).x ==> z <= advanced_times(m, z, n + 1).x
            <= advanced_times(m, z, n).x,
        0 <= advanced_times(m, z, n + 1).p <= advanced_times(m, z, n).p,
{
    lemma_unit_model_holds(m, z, n);
    lemma_unit_model_step(advanced_times(m, z, n), z);
}

/// Advancing the unit model keeps its coefficients, its validity and a
/// nonnegative variance.
proof fn lemma_unit_model_holds(m: KalmanModel, z: int, n: nat)
    requires
        m.valid(),
        in_range(z),
        m.a == SCALE,
        m.h == SCALE,
        m.q == 0,
        m.r == SCALE,
        m.p >= 0,
    ensures
        advanced_times(m, z, n).valid(),
        advanced_times(m, z, n).a == SCALE,
        advanced_times(m, z, n).h == SCALE,
        advanced_times(m, z, n).q == 0,
        advanced_times(m, z, n).r == SCALE,
        advanced_times(m, z, n).p >= 0,
    decreases n,
{
    if n > 0 {
        lemma_unit_model_holds(m, z, (n - 1) as nat);
        lemma_unit_model_step(advanced_times(m, z, (n - 1) as nat), z);
    }
}

/// With `H = 0` and `R = 0` the innovation covariance is zero, so every
/// update fails (and, by the contract of `update`, changes nothing).
pub proof fn lemma_no_observation_is_singular(m: KalmanModel)
    requires
        m.valid(),
        m.h == 0,
        m.r == 0,
    ensures
        m.innovation_cov() == 0,
        m.singular(),
{
}

/// When no step is singular, a batch run gives the estimate of each advance,
/// in order, and ends in the state that advancing once per observation gives.
pub proof fn lemma_batch_matches_steps(m: KalmanModel, zs: Seq<int>)
    requires
        forall|i: int| 0 <= i < zs.len() ==> (#[trigger] steps(m, zs, i as nat)).advance_ok(),
    ensures
        batch(m, zs).0 == steps(m, zs, zs.len()),
        batch(m, zs).1 == Some(Seq::new(zs.len(), |i: int| steps(m, zs, (i + 1) as nat).x)),
    decreases zs.len(),
{
    if zs.len() > 0 {
        let pre = zs.drop_last();
        lemma_steps_prefix(m, zs, (zs.len() - 1) as nat);
        assert forall|i: int| 0 <= i < pre.len() implies (#[trigger] steps(
            m,
            pre,
            i as nat,
        )).advance_ok() by {
            lemma_steps_prefix(m, zs, i as nat);
            assert(steps(m, zs, i as nat).advance_ok());
        }
        lemma_batch_matches_steps(m, pre);
        assert(steps(m, zs, (zs.len() - 1) as nat).advance_ok());
        let o = Seq::new(pre.len(), |i: int| steps(m, pre, (i + 1) as nat).x);
        let full = Seq::new(zs.len(), |i: int| steps(m, zs, (i + 1) as nat).x);
        assert forall|i: int| 0 <= i < pre.len() implies o[i] == full[i] by {
            lemma_steps_prefix(m, zs, (i + 1) as nat);
        }
        assert(o.push(steps(m, zs, zs.len()).x) =~= full);
    }
}

/// The states along a run over `zs` and over `zs` without its last
/// observation agree up to that observation.
proof fn lemma_steps_prefix(m: KalmanModel, zs: Seq<int>, i: nat)
    requires
        0 < zs.len(),
        i < zs.len(),
    ensures
        steps(m, zs.drop_last(), i) == steps(m, zs, i),
    decreases i,
{
    if i > 0 {
        lemma_steps_prefix(m, zs, (i - 1) as nat);
    }
}

/// When the advance with observation `k` is the first to fail, the batch run
/// fails, returns no estimates, and leaves the state in which that advance
/// left it.
pub proof fn lemma_batch_fails_fast(m: KalmanModel, zs: Seq<int>, k: nat)
    requires
        k < zs.len(),
        forall|i: int| 0 <= i < k ==> (#[trigger] steps(m, zs, i as nat)).advance_ok(),
        !steps(m, zs, k).advance_ok(),
    ensures
        batch(m, zs).1 is None,
        batch(m, zs).0 == steps(m, zs, k + 1),
    decreases zs.len(),
{
    if k + 1 < zs.len() {
        let pre = zs.drop_last();
        assert forall|i: int| 0 <= i < k implies (#[trigger] steps(m, pre, i as nat)).advance_ok() by {
            lemma_steps_prefix(m, zs, i as nat);
        }
        lemma_steps_prefix(m, zs, k);
        lemma_steps_prefix(m, zs, k + 1);
        lemma_batch_fails_fast(m, pre, k);
    } else {
        let pre = zs.drop_last();
        assert forall|i: int| 0 <= i < pre.len() implies (#[trigger] steps(
            m,
            pre,
            i as nat,
        )).advance_ok() by {
            lemma_steps_prefix(m, zs, i as nat);
        }
        lemma_batch_matches_steps(m, pre);
        lemma_steps_prefix(m, zs, k);
    }
}

} // verus!
