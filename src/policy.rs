use vstd::prelude::*;

verus! {

/// Scale of a random draw: a `u32` draw `r` stands for the fraction `r / 2^32`.
pub const DRAW_SCALE: u128 = 0x1_0000_0000;

/// The constants of the alternation decision. With `L` characters of output
/// so far, the chance to move on to the next alternative is bounded by
/// `p = 1 / (additive + L / divisor + 1)`.
#[derive(Clone, Copy, Debug, PartialEq, Eq, Structural)]
pub struct BranchPolicy {
    pub divisor: u64,
    pub additive: u64,
}

/// Whether a draw moves on to the next alternative: the draw `r = draw / 2^32`
/// must be below both `p = 1 / (additive + out_len / divisor + 1)`, that is
/// `divisor / (additive * divisor + out_len + divisor)`, and
/// `u = (arity - 1) / arity`.
pub open spec fn moves_on(policy: BranchPolicy, out_len: int, arity: int, draw: int) -> bool {
    &&& draw * (policy.additive * policy.divisor + out_len + policy.divisor) < policy.divisor
        * DRAW_SCALE
    &&& draw * arity < (arity - 1) * DRAW_SCALE
}

proof fn lemma_length_terms(additive: int, divisor: int)
    requires
        0 <= additive < 0x1_0000_0000_0000_0000,
        0 <= divisor < 0x1_0000_0000_0000_0000,
    ensures
        0 <= additive * divisor < 0x1_0000_0000_0000_0000_0000_0000_0000_0000,
        divisor * DRAW_SCALE < 0x1_0000_0000_0000_0000_0000_0000,
{
    assert(0 <= additive * divisor <= 0xffff_ffff_ffff_ffff * 0xffff_ffff_ffff_ffff)
        by (nonlinear_arith)
        requires
            0 <= additive <= 0xffff_ffff_ffff_ffff,
            0 <= divisor <= 0xffff_ffff_ffff_ffff,
    ;
    assert(divisor * DRAW_SCALE < 0x1_0000_0000_0000_0000_0000_0000) by (nonlinear_arith)
        requires
            0 <= divisor < 0x1_0000_0000_0000_0000,
    ;
}

/// A draw of at least one times a total above the bound is above the bound.
proof fn lemma_scaled_exceeds(d: int, total: int, bound: int)
    requires
        d >= 1,
        bound >= 0,
        total > bound,
    ensures
        !(d * total < bound),
{
    assert(d * total >= total) by (nonlinear_arith)
        requires
            d >= 1,
            total >= 0,
    ;
}

impl BranchPolicy {
    /// Divisor 50 and additive 1.
    pub fn standard() -> (p: BranchPolicy)
        ensures
            p.divisor == 50,
            p.additive == 1,
    {
        BranchPolicy { divisor: 50, additive: 1 }
    }

    /// Decides, for a statement of `arity` alternatives reached after
    /// `out_len` characters of output, whether `draw` skips to the next
    /// alternative (true) or commits to the current one (false).
    pub fn moves_on(&self, out_len: usize, arity: usize, draw: u32) -> (r: bool)
        ensures
            r == moves_on(*self, out_len as int, arity as int, draw as int),
    {
        let d = draw as u128;
        let bound = self.divisor as u128 * DRAW_SCALE;
        proof {
            lemma_length_terms(self.additive as int, self.divisor as int);
        }
        let product = self.additive as u128 * self.divisor as u128;
        let ghost total_sum: int = self.additive * self.divisor + out_len + self.divisor;
        // With a nonzero draw the product is at least the total, so a total
        // above the bound decides the comparison without computing it.
        let by_length = if d == 0 {
            bound > 0
        } else if product > bound {
            proof {
                lemma_scaled_exceeds(d as int, total_sum, bound as int);
            }
            false
        } else {
            let total = product + out_len as u128 + self.divisor as u128;
            if total > bound {
                proof {
                    lemma_scaled_exceeds(d as int, total_sum, bound as int);
                }
                false
            } else {
                assert(d * total < 0x1_0000_0000_0000_0000_0000_0000_0000_0000) by (nonlinear_arith)
                    requires
                        d < 0x1_0000_0000,
                        total <= bound,
                        bound < 0x1_0000_0000_0000_0000_0000_0000,
                ;
                d * total < bound
            }
        };
        if arity == 0 {
            assert(!(draw * arity < (arity - 1) * DRAW_SCALE));
            return false;
        }
        let a = arity as u128;
        assert(d * a < 0x1_0000_0000_0000_0000_0000_0000) by (nonlinear_arith)
            requires
                d < 0x1_0000_0000,
                a < 0x1_0000_0000_0000_0000,
        ;
        assert((a - 1) * DRAW_SCALE < 0x1_0000_0000_0000_0000_0000_0000) by (nonlinear_arith)
            requires
                1 <= a < 0x1_0000_0000_0000_0000,
        ;
        let by_arity = d * a < (a - 1) * DRAW_SCALE;
        by_length && by_arity
    }
}

} // verus!
