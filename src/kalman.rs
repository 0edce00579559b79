//! The scalar Kalman filter: construction, predict, update, advance and batch runs.
use crate::fixed::{
    abs_spec, add_spec, div_spec, in_range, mul_spec, sub_spec, Fixed, SCALE,
};
use vstd::prelude::*;

verus! {

/// Innovation covariances whose magnitude is below this many raw units
/// (that is, below 1e-8) are treated as singular.
pub const SINGULAR_BOUND: i128 = 10_000_000_000;

/// The one way a step can fail.
#[derive(Clone, Copy, Debug, PartialEq, Eq, Structural)]
pub enum KalmanError {
    /// The innovation covariance was too close to zero to invert.
    FailedScalarInverse,
}

impl KalmanError {
    /// The name of the scalar that could not be inverted.
    pub fn scalar_name(&self) -> (r: &'static str)
        ensures
            r@ == "Innovation (measurement pre-fit residual `S`)"@,
    {
        "Innovation (measurement pre-fit residual `S`)"
    }
}

/// The filter's state and coefficients, each as a count of units of 1e-18.
pub struct KalmanModel {
    pub x: int,
    pub p: int,
    pub a: int,
    pub h: int,
    pub q: int,
    pub r: int,
}

impl KalmanModel {
    /// Every field is a value that `Fixed` can hold.
    pub open spec fn valid(self) -> bool {
        &&& in_range(self.x)
        &&& in_range(self.p)
        &&& in_range(self.a)
        &&& in_range(self.h)
        &&& in_range(self.q)
        &&& in_range(self.r)
    }

    /// One step of the process model: `x ← A·x`, `P ← A·P·A + Q`.
    pub open spec fn predicted(self) -> KalmanModel {
        KalmanModel {
            x: mul_spec(self.a, self.x),
            p: add_spec(mul_spec(mul_spec(self.a, self.p), self.a), self.q),
            ..self
        }
    }

    /// The innovation covariance `S = H·P·H + R`.
    pub open spec fn innovation_cov(self) -> int {
        add_spec(mul_spec(mul_spec(self.h, self.p), self.h), self.r)
    }

    /// `S` is too small in magnitude to invert.
    pub open spec fn singular(self) -> bool {
        abs_spec(self.innovation_cov()) < SINGULAR_BOUND
    }

    /// The Kalman gain `K = P·H / S`.
    pub open spec fn gain(self) -> int {
        div_spec(mul_spec(self.p, self.h), self.innovation_cov())
    }

    /// The state after observing `z`: `x ← x + K·(z − H·x)`, `P ← P·(1 − K·H)`.
    pub open spec fn corrected(self, z: int) -> KalmanModel {
        KalmanModel {
            x: add_spec(self.x, mul_spec(self.gain(), sub_spec(z, mul_spec(self.h, self.x)))),
            p: mul_spec(self.p, sub_spec(SCALE as int, mul_spec(self.gain(), self.h))),
            ..self
        }
    }

    /// Whether a predict followed by an update succeeds; the observation
    /// plays no part in it.
    pub open spec fn advance_ok(self) -> bool {
        !self.predicted().singular()
    }

    /// The state after a predict and an update with `z`; when the update
    /// fails, the prediction is kept.
    pub open spec fn advanced(self, z: int) -> KalmanModel {
        if self.advance_ok() {
            self.predicted().corrected(z)
        } else {
            self.predicted()
        }
    }
}

/// The values of a sequence of fixed-point numbers.
pub open spec fn values(s: Seq<Fixed>) -> Seq<int> {
    s.map_values(|f: Fixed| f@)
}

/// A batch run over `zs`: the final state, and the estimate after each step,
/// or `None` once a step has failed (later observations are not used).
pub open spec fn batch(m: KalmanModel, zs: Seq<int>) -> (KalmanModel, Option<Seq<int>>)
    decreases zs.len(),
{
    if zs.len() == 0 {
        (m, Some(Seq::empty()))
    } else {
        let (m1, out) = batch(m, zs.drop_last());
        match out {
            None => (m1, None),
            Some(o) => {
                let m2 = m1.advanced(zs.last());
                if m1.advance_ok() {
                    (m2, Some(o.push(m2.x)))
                } else {
                    (m2, None)
                }
            },
        }
    }
}

/// Once a batch run has failed, later observations change nothing.
pub proof fn lemma_batch_stops(m: KalmanModel, zs: Seq<int>, n: int)
    requires
        0 <= n <= zs.len(),
        batch(m, zs.take(n)).1 is None,
    ensures
        batch(m, zs) == batch(m, zs.take(n)),
    decreases zs.len(),
{
    if zs.len() == n {
        assert(zs.take(n) =~= zs);
    } else {
        assert(zs.drop_last().take(n) =~= zs.take(n));
        lemma_batch_stops(m, zs.drop_last(), n);
    }
}

/// A scalar Kalman filter with no control input.
pub struct ScalarKalman {
    x: Fixed,
    p: Fixed,
    a: Fixed,
    h: Fixed,
    q: Fixed,
    r: Fixed,
}

impl View for ScalarKalman {
    type V = KalmanModel;

    closed spec fn view(&self) -> KalmanModel {
        KalmanModel {
            x: self.x@,
            p: self.p@,
            a: self.a@,
            h: self.h@,
            q: self.q@,
            r: self.r@,
        }
    }
}

impl ScalarKalman {
    /// A filter with coefficients `A, H, Q, R`, estimate `x0` and variance
    /// `P0`; a missing initial value is zero.
    pub fn new(
        a: Fixed,
        h: Fixed,
        q: Fixed,
        r: Fixed,
        x0: Option<Fixed>,
        p0: Option<Fixed>,
    ) -> (s: ScalarKalman)
        ensures
            s@ == (KalmanModel {
                x: match x0 {
                    Some(v) => v@,
                    None => 0,
                },
                p: match p0 {
                    Some(v) => v@,
                    None => 0,
                },
                a: a@,
                h: h@,
                q: q@,
                r: r@,
            }),
            s@.valid(),
    {
        let x = match x0 {
            Some(v) => v,
            None => Fixed::zero(),
        };
        let p = match p0 {
            Some(v) => v,
            None => Fixed::zero(),
        };
        let s = ScalarKalman { x, p, a, h, q, r };
        s.check_valid();
        s
    }

    fn check_valid(&self)
        ensures
            self@.valid(),
    {
        self.x.check_range();
        self.p.check_range();
        self.a.check_range();
        self.h.check_range();
        self.q.check_range();
        self.r.check_range();
    }

    /// The current estimate.
    pub fn x(&self) -> (r: Fixed)
        ensures
            r@ == self@.x,
    {
        self.x
    }

    /// The current variance of the estimate.
    pub fn p(&self) -> (r: Fixed)
        ensures
            r@ == self@.p,
    {
        self.p
    }

    /// The state transition coefficient.
    pub fn a(&self) -> (r: Fixed)
        ensures
            r@ == self@.a,
    {
        self.a
    }

    /// The observation coefficient.
    pub fn h(&self) -> (r: Fixed)
        ensures
            r@ == self@.h,
    {
        self.h
    }

    /// The process noise variance.
    pub fn q(&self) -> (r: Fixed)
        ensures
            r@ == self@.q,
    {
        self.q
    }

    /// The observation noise variance.
    pub fn r(&self) -> (r: Fixed)
        ensures
            r@ == self@.r,
    {
        self.r
    }

    /// Moves the estimate one step forward under the process model.
    pub fn predict(&mut self)
        ensures
            final(self)@ == old(self)@.predicted(),
            final(self)@.valid(),
    {
        self.x = self.a.mul(self.x);
        self.p = self.a.mul(self.p).mul(self.a).add(self.q);
        self.check_valid();
    }

    /// Corrects the estimate with the observation `z`. Fails, changing
    /// nothing, when the innovation covariance is singular.
    pub fn update(&mut self, z: Fixed) -> (res: Result<(), KalmanError>)
        ensures
            res is Err <==> old(self)@.singular(),
            res is Err ==> final(self)@ == old(self)@,
            res is Ok ==> final(self)@ == old(self)@.corrected(z@),
            final(self)@.valid(),
    {
        self.check_valid();
        let y = z.sub(self.h.mul(self.x));
        let s = self.h.mul(self.p).mul(self.h).add(self.r);
        if s.abs().raw() < SINGULAR_BOUND {
            return Err(KalmanError::FailedScalarInverse);
        }
        let k = self.p.mul(self.h).div(s);
        self.x = self.x.add(k.mul(y));
        self.p = self.p.mul(Fixed::one().sub(k.mul(self.h)));
        self.check_valid();
        Ok(())
    }

    /// Predicts, then updates with `z`, and returns the corrected estimate.
    /// A failed update leaves the prediction in place.
    pub fn advance(&mut self, z: Fixed) -> (res: Result<Fixed, KalmanError>)
        ensures
            final(self)@ == old(self)@.advanced(z@),
            res is Ok <==> old(self)@.advance_ok(),
            res matches Ok(v) ==> v@ == final(self)@.x,
            final(self)@.valid(),
    {
        self.predict();
        match self.update(z) {
            Ok(()) => Ok(self.x),
            Err(e) => Err(e),
        }
    }
}

/// Advances `filter` once per observation, in order, and returns the
/// estimate after each step. The first failed step ends the run with its
/// error; the filter keeps what the steps up to it did.
pub fn kfilter(filter: &mut ScalarKalman, vec: Vec<Fixed>) -> (res: Result<Vec<Fixed>, KalmanError>)
    ensures
        final(filter)@ == batch(old(filter)@, values(vec@)).0,
        match res {
            Ok(out) => batch(old(filter)@, values(vec@)).1 == Some(values(out@)),
            Err(e) => batch(old(filter)@, values(vec@)).1 is None,
        },
        final(filter)@.valid(),
{
    let ghost m0 = filter@;
    let ghost zs = values(vec@);
    filter.check_valid();
    let mut out: Vec<Fixed> = Vec::with_capacity(vec.len());
    let mut i: usize = 0;
    proof {
        assert(zs.take(0) =~= Seq::<int>::empty());
        assert(values(out@) =~= Seq::<int>::empty());
    }
    while i < vec.len()
        invariant
            i <= vec.len(),
            zs == values(vec@),
            m0 == old(filter)@,
            filter@ == batch(m0, zs.take(i as int)).0,
            batch(m0, zs.take(i as int)).1 == Some(values(out@)),
            filter@.valid(),
        decreases vec.len() - i,
    {
        proof {
            assert(zs.take(i + 1).drop_last() =~= zs.take(i as int));
        }
        match filter.advance(vec[i]) {
            Ok(v) => {
                proof {
                    assert(values(out@.push(v)) =~= values(out@).push(v@));
                }
                out.push(v);
            },
            Err(e) => {
                proof {
                    lemma_batch_stops(m0, zs, i + 1);
                }
                return Err(e);
            },
        }
        i += 1;
    }
    proof {
        assert(zs.take(i as int) =~= zs);
    }
    Ok(out)
}

} // verus!
