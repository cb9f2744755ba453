use vstd::prelude::*;

verus! {

/// An edge density kept as an exact ratio: `edges / vertices`, read as zero
/// when `vertices` is zero.
#[derive(Clone, Copy, Debug, PartialEq, Eq, Structural)]
pub struct Density {
    pub edges: usize,
    pub vertices: usize,
}

impl Density {
    /// Numerator of the ratio that this density stands for.
    pub open spec fn num(self) -> nat {
        if self.vertices == 0 {
            0
        } else {
            self.edges as nat
        }
    }

    /// Denominator of the ratio that this density stands for (never zero).
    pub open spec fn den(self) -> nat {
        if self.vertices == 0 {
            1
        } else {
            self.vertices as nat
        }
    }

    /// `self` is at most `other`, compared as rational numbers.
    pub open spec fn spec_le(self, other: Density) -> bool {
        self.num() * other.den() <= other.num() * self.den()
    }

    /// `self` is at most `other`, compared as rational numbers.
    pub fn at_most(&self, other: &Density) -> (r: bool)
        ensures
            r == self.spec_le(*other),
    {
        let a: u128 = if self.vertices == 0 { 0 } else { self.edges as u128 };
        let b: u128 = if self.vertices == 0 { 1 } else { self.vertices as u128 };
        let c: u128 = if other.vertices == 0 { 0 } else { other.edges as u128 };
        let d: u128 = if other.vertices == 0 { 1 } else { other.vertices as u128 };
        assert(a * d <= u64::MAX * u64::MAX) by (nonlinear_arith)
            requires
                a <= u64::MAX,
                d <= u64::MAX,
        ;
        assert(c * b <= u64::MAX * u64::MAX) by (nonlinear_arith)
            requires
                c <= u64::MAX,
                b <= u64::MAX,
        ;
        a * d <= c * b
    }
}

/// Comparison of densities is a total preorder.
pub proof fn lemma_density_order(a: Density, b: Density, c: Density)
    ensures
        a.spec_le(a),
        a.spec_le(b) || b.spec_le(a),
        a.spec_le(b) && b.spec_le(c) ==> a.spec_le(c),
{
    let (an, ad, bn, bd, cn, cd) = (a.num() as int, a.den() as int, b.num() as int, b.den() as int, c.num() as int, c.den() as int);
    assert(an * bd <= bn * ad && bn * cd <= cn * bd ==> an * cd <= cn * ad) by (nonlinear_arith)
        requires
            ad > 0,
            bd > 0,
            cd > 0,
            an >= 0,
            bn >= 0,
            cn >= 0,
    ;
}

} // verus!
