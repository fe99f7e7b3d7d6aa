//! Exact rational numbers, used for split scores and leaf predictions.
use vstd::prelude::*;
use vstd::arithmetic::div_mod::lemma_fundamental_div_mod;

verus! {

/// The rational number `num / den`. A well-formed value has a positive
/// denominator and a numerator whose negation is representable.
#[derive(Debug, Clone, Copy)]
pub struct Ratio {
    pub num: i128,
    pub den: u128,
}

/// `p1 / q1 <= p2 / q2` for non-negative numerators, decided by comparing
/// continued-fraction expansions, so that no product is ever formed.
fn frac_le(p1: u128, q1: u128, p2: u128, q2: u128) -> (r: bool)
    requires
        q1 > 0,
        q2 > 0,
    ensures
        r == (p1 * q2 <= p2 * q1),
    decreases q1 + q2,
{
    let a1 = p1 / q1;
    let a2 = p2 / q2;
    let r1 = p1 % q1;
    let r2 = p2 % q2;
    proof {
        lemma_fundamental_div_mod(p1 as int, q1 as int);
        lemma_fundamental_div_mod(p2 as int, q2 as int);
    }
    let ghost (gp1, gq1, gp2, gq2, ga1, ga2, gr1, gr2) = (
        p1 as int,
        q1 as int,
        p2 as int,
        q2 as int,
        a1 as int,
        a2 as int,
        r1 as int,
        r2 as int,
    );
    assert(gp1 == gq1 * ga1 + gr1 && 0 <= gr1 < gq1);
    assert(gp2 == gq2 * ga2 + gr2 && 0 <= gr2 < gq2);
    if a1 < a2 {
        assert(gp1 * gq2 < gp2 * gq1) by (nonlinear_arith)
            requires
                gp1 == gq1 * ga1 + gr1,
                0 <= gr1 < gq1,
                gp2 == gq2 * ga2 + gr2,
                0 <= gr2,
                ga1 + 1 <= ga2,
                gq2 > 0,
        {
            assert(gp1 < gq1 * (ga1 + 1));
            assert(gq1 * (ga1 + 1) <= gq1 * ga2);
            assert(gp1 * gq2 < gq1 * ga2 * gq2);
            assert(gq1 * ga2 * gq2 <= gp2 * gq1);
        }
        true
    } else if a1 > a2 {
        assert(gp2 * gq1 < gp1 * gq2) by (nonlinear_arith)
            requires
                gp2 == gq2 * ga2 + gr2,
                0 <= gr2 < gq2,
                gp1 == gq1 * ga1 + gr1,
                0 <= gr1,
                ga2 + 1 <= ga1,
                gq1 > 0,
        {
            assert(gp2 < gq2 * (ga2 + 1));
            assert(gq2 * (ga2 + 1) <= gq2 * ga1);
            assert(gp2 * gq1 < gq2 * ga1 * gq1);
            assert(gq2 * ga1 * gq1 <= gp1 * gq2);
        }
        false
    } else {
        assert(gp1 * gq2 - gp2 * gq1 == gr1 * gq2 - gr2 * gq1) by (nonlinear_arith)
            requires
                gp1 == gq1 * ga1 + gr1,
                gp2 == gq2 * ga2 + gr2,
                ga1 == ga2,
        ;
        if r1 == 0 {
            assert(0 <= gr2 * gq1) by (nonlinear_arith)
                requires
                    gr2 >= 0,
                    gq1 > 0,
            ;
            true
        } else if r2 == 0 {
            assert(0 < gr1 * gq2) by (nonlinear_arith)
                requires
                    gr1 > 0,
                    gq2 > 0,
            ;
            false
        } else {
            let r = frac_le(q2, r2, q1, r1);
            assert(gq2 * gr1 == gr1 * gq2 && gq1 * gr2 == gr2 * gq1) by (nonlinear_arith);
            r
        }
    }
}

impl Ratio {
    pub open spec fn wf(&self) -> bool {
        self.den > 0 && self.num > i128::MIN
    }

    /// `self <= other` as rational numbers.
    pub open spec fn le_spec(&self, other: &Ratio) -> bool {
        self.num * other.den <= other.num * self.den
    }

    /// `self == other` as rational numbers.
    pub open spec fn same_value(&self, other: &Ratio) -> bool {
        self.num * other.den == other.num * self.den
    }

    /// Builds `num / den`.
    pub fn new(num: i128, den: u128) -> (r: Ratio)
        requires
            den > 0,
            num > i128::MIN,
        ensures
            r.num == num,
            r.den == den,
            r.wf(),
    {
        Ratio { num, den }
    }

    /// Whether `self <= other` as rational numbers.
    pub fn le(&self, other: &Ratio) -> (r: bool)
        requires
            self.wf(),
            other.wf(),
        ensures
            r == self.le_spec(other),
    {
        let ghost (n1, d1, n2, d2) = (self.num as int, self.den as int, other.num as int, other.den as int);
        if self.num >= 0 && other.num >= 0 {
            frac_le(self.num as u128, self.den, other.num as u128, other.den)
        } else if self.num < 0 && other.num >= 0 {
            assert(n1 * d2 < 0 <= n2 * d1) by (nonlinear_arith)
                requires
                    n1 < 0,
                    n2 >= 0,
                    d1 > 0,
                    d2 > 0,
            ;
            true
        } else if self.num >= 0 {
            assert(n2 * d1 < 0 <= n1 * d2) by (nonlinear_arith)
                requires
                    n2 < 0,
                    n1 >= 0,
                    d1 > 0,
                    d2 > 0,
            ;
            false
        } else {
            let r = frac_le((-other.num) as u128, other.den, (-self.num) as u128, self.den);
            assert((-n2) * d1 <= (-n1) * d2 <==> n1 * d2 <= n2 * d1) by (nonlinear_arith);
            r
        }
    }

    /// Whether `self` is well formed.
    pub fn is_wf(&self) -> (r: bool)
        ensures
            r == self.wf(),
    {
        self.den > 0 && self.num > i128::MIN
    }

    /// Whether `self` is zero.
    pub fn is_zero(&self) -> (r: bool)
        ensures
            r == (self.num == 0),
    {
        self.num == 0
    }
}

/// Equality of values for well-formed operands, of fields otherwise.
pub open spec fn same_ratio(a: Ratio, b: Ratio) -> bool {
    if a.wf() && b.wf() {
        a.same_value(&b)
    } else {
        a.num == b.num && a.den == b.den
    }
}

impl Ratio {
    /// Executable form of [`same_ratio`].
    pub fn equals(&self, other: &Ratio) -> (r: bool)
        ensures
            r == same_ratio(*self, *other),
    {
        if self.is_wf() && other.is_wf() {
            self.le(other) && other.le(self)
        } else {
            self.num == other.num && self.den == other.den
        }
    }
}

impl PartialEq for Ratio {
    fn eq(&self, other: &Ratio) -> (r: bool) {
        self.equals(other)
    }
}

impl vstd::std_specs::cmp::PartialEqSpecImpl for Ratio {
    open spec fn obeys_eq_spec() -> bool {
        true
    }

    open spec fn eq_spec(&self, other: &Ratio) -> bool {
        same_ratio(*self, *other)
    }
}

/// `<=` on ratios with positive denominators is transitive.
pub proof fn lemma_le_transitive(a: Ratio, b: Ratio, c: Ratio)
    requires
        a.den > 0,
        b.den > 0,
        c.den > 0,
        a.le_spec(&b),
        b.le_spec(&c),
    ensures
        a.le_spec(&c),
{
    let (an, ad, bn, bd, cn, cd) = (
        a.num as int,
        a.den as int,
        b.num as int,
        b.den as int,
        c.num as int,
        c.den as int,
    );
    assert(an * bd * cd <= bn * ad * cd) by (nonlinear_arith)
        requires
            an * bd <= bn * ad,
            cd > 0,
    ;
    assert(bn * cd * ad <= cn * bd * ad) by (nonlinear_arith)
        requires
            bn * cd <= cn * bd,
            ad > 0,
    ;
    assert(bd * (an * cd) <= bd * (cn * ad)) by (nonlinear_arith)
        requires
            an * bd * cd <= bn * ad * cd,
            bn * cd * ad <= cn * bd * ad,
    ;
    assert(an * cd <= cn * ad) by (nonlinear_arith)
        requires
            bd * (an * cd) <= bd * (cn * ad),
            bd > 0,
    ;
}

/// Any two ratios are ordered one way or the other.
pub proof fn lemma_le_total(a: Ratio, b: Ratio)
    ensures
        a.le_spec(&b) || b.le_spec(&a),
{
}

} // verus!
