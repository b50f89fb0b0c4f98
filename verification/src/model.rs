//! Distance strategies.
//!
//! The engine never interprets a stored row itself: a strategy maps a
//! pair of rows to a totally ordered `u64` ranking key, where a smaller
//! key always means closer, and scales a key by the pruning parameter
//! alpha.  The strategy chosen by the embedding decides what the raw
//! words mean; the strategy here reads each word as an unsigned
//! coordinate and ranks by exact saturating integer arithmetic.

use vstd::prelude::*;
use crate::metric::Metric;

verus! {

/// How the engine ranks stored rows against one another or a query.
///
/// `distance` must be a function of the metric and the two rows alone:
/// the specification functions pin each implementation down, so every
/// ranking the engine reports is reproducible.
pub trait DistanceModel: Sized {
    /// The ranking key of row `b` as seen from `a` under metric `m`.
    /// The default is a placeholder that nothing evaluates: a strategy
    /// that verified callers reason about overrides it to pin the
    /// meaning of its keys, while a strategy defined outside the
    /// verifier may leave it be.
    open spec fn distance_spec(&self, m: Metric, a: Seq<u32>, b: Seq<u32>) -> u64 {
        0
    }

    /// The key `d` scaled by the pruning parameter alpha; the default
    /// is a placeholder in the same sense.
    open spec fn occlusion_spec(&self, d: u64) -> u64 {
        0
    }

    fn distance(&self, m: Metric, a: &[u32], b: &[u32]) -> (r: u64)
        ensures
            r == self.distance_spec(m, a@, b@),
    ;

    fn occlusion(&self, d: u64) -> (r: u64)
        ensures
            r == self.occlusion_spec(d),
    ;
}

/// The squared difference of two coordinates; fits in a `u64`.
pub open spec fn spec_sq_diff(x: u32, y: u32) -> u64 {
    (if x >= y {
        (x - y) * (x - y)
    } else {
        (y - x) * (y - x)
    }) as u64
}

/// Saturating left fold of the squared coordinate differences.
pub open spec fn spec_l2_acc(a: Seq<u32>, b: Seq<u32>, acc: u64) -> u64
    decreases a.len(),
{
    if a.len() == 0 || b.len() == 0 {
        acc
    } else {
        spec_l2_acc(a.drop_first(), b.drop_first(), sat_add64(acc, spec_sq_diff(a[0], b[0])))
    }
}

/// Saturating left fold of the coordinate products.
pub open spec fn spec_ip_acc(a: Seq<u32>, b: Seq<u32>, acc: u64) -> u64
    decreases a.len(),
{
    if a.len() == 0 || b.len() == 0 {
        acc
    } else {
        spec_ip_acc(a.drop_first(), b.drop_first(), sat_add64(acc, (a[0] * b[0]) as u64))
    }
}

pub open spec fn sat_add64(x: u64, y: u64) -> u64 {
    if x + y > u64::MAX {
        u64::MAX
    } else {
        (x + y) as u64
    }
}

/// The default strategy: ranks over the stored full-precision rows,
/// reading each 32-bit word as an unsigned coordinate.  L2 is the
/// saturating sum of squared differences; inner product is ranked by
/// flipping the saturating sum of products, so a larger product gives a
/// smaller key.  Alpha is a rational `alpha_num / alpha_den >= 1`.
pub struct FullPrecisionStrategy {
    alpha_num: u32,
    alpha_den: u32,
}

impl FullPrecisionStrategy {
    /// The strategy with alpha = 1: a candidate is occluded exactly by
    /// anything at least as close to it as it is to the target.
    pub fn new() -> (r: Self)
        ensures
            r.alpha() == (1u32, 1u32),
    {
        FullPrecisionStrategy { alpha_num: 1, alpha_den: 1 }
    }

    /// The strategy with alpha = num / den.
    pub fn with_alpha(num: u32, den: u32) -> (r: Self)
        requires
            den >= 1,
            num >= den,
        ensures
            r.alpha() == (num, den),
    {
        FullPrecisionStrategy { alpha_num: num, alpha_den: den }
    }

    pub closed spec fn alpha(&self) -> (u32, u32) {
        (self.alpha_num, self.alpha_den)
    }
}

impl DistanceModel for FullPrecisionStrategy {
    open spec fn distance_spec(&self, m: Metric, a: Seq<u32>, b: Seq<u32>) -> u64 {
        match m {
            Metric::L2 => spec_l2_acc(a, b, 0),
            Metric::InnerProduct => (u64::MAX - spec_ip_acc(a, b, 0)) as u64,
        }
    }

    open spec fn occlusion_spec(&self, d: u64) -> u64 {
        let den = if self.alpha().1 == 0 {
            1
        } else {
            self.alpha().1 as int
        };
        let scaled = d * self.alpha().0 as int / den;
        if scaled > u64::MAX {
            u64::MAX
        } else {
            scaled as u64
        }
    }

    fn distance(&self, m: Metric, a: &[u32], b: &[u32]) -> (r: u64)
        ensures
            r == self.distance_spec(m, a@, b@),
    {
        let n = if a.len() <= b.len() {
            a.len()
        } else {
            b.len()
        };
        let mut acc: u64 = 0;
        let mut i: usize = 0;
        proof {
            assert(a@.skip(0) =~= a@);
            assert(b@.skip(0) =~= b@);
        }
        match m {
            Metric::L2 => {
                while i < n
                    invariant
                        i <= n,
                        n == if a@.len() <= b@.len() {
                            a@.len()
                        } else {
                            b@.len()
                        },
                        spec_l2_acc(a@.skip(i as int), b@.skip(i as int), acc) == spec_l2_acc(
                            a@,
                            b@,
                            0,
                        ),
                    decreases n - i,
                {
                    let x = *vstd::slice::slice_index_get(a, i);
                    let y = *vstd::slice::slice_index_get(b, i);
                    let d: u64 = if x >= y {
                        (x - y) as u64
                    } else {
                        (y - x) as u64
                    };
                    proof {
                        assert(a@.skip(i as int).drop_first() =~= a@.skip(i + 1));
                        assert(b@.skip(i as int).drop_first() =~= b@.skip(i + 1));
                        assert(d * d <= u64::MAX) by (nonlinear_arith)
                            requires
                                d < 0x1_0000_0000,
                        ;
                        assert(a@.skip(i as int)[0] == a@[i as int]);
                        assert(b@.skip(i as int)[0] == b@[i as int]);
                    }
                    acc = acc.saturating_add(d * d);
                    i = i + 1;
                }
                proof {
                    assert(a@.skip(n as int).len() == 0 || b@.skip(n as int).len() == 0);
                }
                acc
            },
            Metric::InnerProduct => {
                while i < n
                    invariant
                        i <= n,
                        n == if a@.len() <= b@.len() {
                            a@.len()
                        } else {
                            b@.len()
                        },
                        spec_ip_acc(a@.skip(i as int), b@.skip(i as int), acc) == spec_ip_acc(
                            a@,
                            b@,
                            0,
                        ),
                    decreases n - i,
                {
                    let x = *vstd::slice::slice_index_get(a, i);
                    let y = *vstd::slice::slice_index_get(b, i);
                    proof {
                        assert(a@.skip(i as int).drop_first() =~= a@.skip(i + 1));
                        assert(b@.skip(i as int).drop_first() =~= b@.skip(i + 1));
                        assert((x as u64) * (y as u64) <= u64::MAX) by (nonlinear_arith)
                            requires
                                x < 0x1_0000_0000 && y < 0x1_0000_0000,
                        ;
                        assert(a@.skip(i as int)[0] == a@[i as int]);
                        assert(b@.skip(i as int)[0] == b@[i as int]);
                    }
                    acc = acc.saturating_add((x as u64) * (y as u64));
                    i = i + 1;
                }
                proof {
                    assert(a@.skip(n as int).len() == 0 || b@.skip(n as int).len() == 0);
                }
                u64::MAX - acc
            },
        }
    }

    fn occlusion(&self, d: u64) -> (r: u64)
        ensures
            r == self.occlusion_spec(d),
    {
        let den: u64 = if self.alpha_den == 0 {
            1
        } else {
            self.alpha_den as u64
        };
        proof {
            assert((d as u128) * (self.alpha_num as u128) <= (u64::MAX as u128) * (
            u32::MAX as u128)) by (nonlinear_arith)
                requires
                    d <= u64::MAX && self.alpha_num <= u32::MAX,
            ;
        }
        let wide: u128 = (d as u128) * (self.alpha_num as u128) / (den as u128);
        if wide > u64::MAX as u128 {
            u64::MAX
        } else {
            wide as u64
        }
    }
}

} // verus!
