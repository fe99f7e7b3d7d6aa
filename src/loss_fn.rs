//! Scoring strategies: how good a candidate split is, and what a leaf predicts.
use vstd::prelude::*;

use crate::ratio::Ratio;
use crate::split_values::{goes_left, route_to_left, NullDirection, SplitScore};

verus! {

/// The most rows a target may have: it keeps every exact score within 128 bits.
pub const MAX_ROWS: usize = 16777216;

/// Among the first `k` rows, the number that go to the side `left` under `mask`
/// and `dir`, and whose label is `label`.
pub open spec fn tally(
    target: Seq<bool>,
    mask: Seq<Option<bool>>,
    dir: NullDirection,
    left: bool,
    label: bool,
    k: int,
) -> nat
    decreases k,
{
    if k <= 0 {
        0
    } else {
        tally(target, mask, dir, left, label, k - 1) + if goes_left(mask[k - 1], dir) == left
            && target[k - 1] == label {
            1nat
        } else {
            0nat
        }
    }
}

/// Number of rows that go to the side `left`.
pub open spec fn side_size(
    target: Seq<bool>,
    mask: Seq<Option<bool>>,
    dir: NullDirection,
    left: bool,
) -> int {
    (tally(target, mask, dir, left, true, target.len() as int) + tally(
        target,
        mask,
        dir,
        left,
        false,
        target.len() as int,
    )) as int
}

/// Number of rows labelled `true` that go to the side `left`.
pub open spec fn side_trues(
    target: Seq<bool>,
    mask: Seq<Option<bool>>,
    dir: NullDirection,
    left: bool,
) -> int {
    tally(target, mask, dir, left, true, target.len() as int) as int
}

/// Number of `true` labels.
pub open spec fn count_true(target: Seq<bool>) -> nat
    decreases target.len(),
{
    if target.len() == 0 {
        0
    } else {
        count_true(target.drop_last()) + if target.last() {
            1nat
        } else {
            0nat
        }
    }
}

/// A split with missing values sent as `dir` is viable when neither side is empty.
pub open spec fn viable(target: Seq<bool>, mask: Seq<Option<bool>>, dir: NullDirection) -> bool {
    side_size(target, mask, dir, true) > 0 && side_size(target, mask, dir, false) > 0
}

/// Gini impurity strategy: impurity of a group is `1 - p² - (1-p)² = 2·t·f/n²`
/// with `t` true and `f` false labels among `n`.
#[derive(Debug, Clone, Copy)]
pub struct Gini;

/// Gradient/Hessian strategy for the logistic loss, around the fixed working
/// prediction `num / den`, strictly between 0 and 1.
#[derive(Debug, Clone, Copy)]
pub struct Logit {
    pub num: u16,
    pub den: u16,
}

/// The weighted Gini impurity of groups A and B of sizes `n_a`, `n_b`
/// holding `t_a`, `t_b` true labels: `Σ (n_g/N)·2·t_g·f_g/n_g²`, over the
/// common denominator `N·n_a·n_b`. An empty group adds nothing, so with one
/// group empty it is the impurity `2·t·f/N²` of the other, the whole set.
pub open spec fn gini_weighted(n_a: int, t_a: int, n_b: int, t_b: int) -> Ratio {
    if n_a == 0 {
        Ratio { num: (2 * (t_b * (n_b - t_b))) as i128, den: (n_b * n_b) as u128 }
    } else if n_b == 0 {
        Ratio { num: (2 * (t_a * (n_a - t_a))) as i128, den: (n_a * n_a) as u128 }
    } else {
        Ratio {
            num: (2 * (t_a * (n_a - t_a) * n_b + t_b * (n_b - t_b) * n_a)) as i128,
            den: ((n_a + n_b) * n_a * n_b) as u128,
        }
    }
}

/// The Logit score of two non-empty groups: minus the gain of the split,
/// `gain(A) + gain(B) - gain(A∪B)`. With working prediction `p = s/d`, a group
/// of `n` rows and `t` true labels has gradient sum `(n·s - t·d)/d` and Hessian
/// sum `n·s·(d-s)/d²`, so its gain `(Σgrad)²/Σhess` is `u²/(n·K)` with
/// `u = n·s - t·d` and `K = s·(d-s)`; the sum is put over `n_a·n_b·N·K`.
pub open spec fn logit_score(l: Logit, n_a: int, t_a: int, n_b: int, t_b: int) -> Ratio {
    let s = l.num as int;
    let d = l.den as int;
    let u_a = n_a * s - t_a * d;
    let u_b = n_b * s - t_b * d;
    let u = u_a + u_b;
    let n = n_a + n_b;
    Ratio {
        num: (-(u_a * u_a * n_b * n + u_b * u_b * n_a * n - u * u * n_a * n_b)) as i128,
        den: (n_a * n_b * n * (s * (d - s))) as u128,
    }
}

/// The Logit leaf value `-(Σgrad)/(Σhess)` over `n` rows with `t` true labels:
/// `-((n·s - t·d)/d) / (n·s·(d-s)/d²) = d·(t·d - n·s) / (n·s·(d-s))`.
pub open spec fn logit_leaf(l: Logit, n: int, t: int) -> Ratio {
    let s = l.num as int;
    let d = l.den as int;
    Ratio { num: (d * (t * d - n * s)) as i128, den: (n * (s * (d - s))) as u128 }
}

/// The closed set of scoring strategies.
#[derive(Debug, Clone, Copy)]
pub enum ScoringFunction {
    Logit(Logit),
    Gini(Gini),
}

impl Logit {
    pub open spec fn wf(&self) -> bool {
        0 < self.num < self.den
    }

    /// The strategy around the working prediction `num / den`.
    pub fn new(num: u16, den: u16) -> (r: Logit)
        requires
            0 < num < den,
        ensures
            r == (Logit { num, den }),
    {
        Logit { num, den }
    }
}

impl ScoringFunction {
    pub open spec fn wf(&self) -> bool {
        match self {
            ScoringFunction::Logit(l) => l.wf(),
            ScoringFunction::Gini(_) => true,
        }
    }

    /// The score of the split of `target` by `mask` with missing values sent
    /// as `dir`: for Gini whenever the target is not empty, for Logit when
    /// the split is viable.
    pub open spec fn score_for(
        &self,
        target: Seq<bool>,
        mask: Seq<Option<bool>>,
        dir: NullDirection,
    ) -> Ratio {
        let n_a = side_size(target, mask, dir, true);
        let t_a = side_trues(target, mask, dir, true);
        let n_b = side_size(target, mask, dir, false);
        let t_b = side_trues(target, mask, dir, false);
        match self {
            ScoringFunction::Gini(_) => gini_weighted(n_a, t_a, n_b, t_b),
            ScoringFunction::Logit(l) => logit_score(*l, n_a, t_a, n_b, t_b),
        }
    }

    /// The best score of a candidate split over both places for missing
    /// values, ties going left; `None` when neither place leaves both sides
    /// non-empty, that is when every row has the same mask value. Gini scores
    /// both places, one that leaves a side empty included; Logit only those
    /// that leave both sides non-empty, an empty side having no Hessian.
    pub open spec fn split_score_spec(
        &self,
        target: Seq<bool>,
        mask: Seq<Option<bool>>,
    ) -> Option<SplitScore> {
        let sl = self.score_for(target, mask, NullDirection::Left);
        let sr = self.score_for(target, mask, NullDirection::Right);
        let vl = viable(target, mask, NullDirection::Left);
        let vr = viable(target, mask, NullDirection::Right);
        if let ScoringFunction::Gini(_) = self {
            if !(vl || vr) {
                None
            } else if sl.le_spec(&sr) {
                Some(SplitScore { score: sl, null_direction: NullDirection::Left })
            } else {
                Some(SplitScore { score: sr, null_direction: NullDirection::Right })
            }
        } else if vl && (!vr || sl.le_spec(&sr)) {
            Some(SplitScore { score: sl, null_direction: NullDirection::Left })
        } else if vr {
            Some(SplitScore { score: sr, null_direction: NullDirection::Right })
        } else {
            None
        }
    }

    /// The prediction of a leaf holding the non-empty `target`.
    pub open spec fn pred_spec(&self, target: Seq<bool>) -> Ratio {
        let n = target.len() as int;
        let t = count_true(target) as int;
        match self {
            ScoringFunction::Gini(_) => Ratio { num: t as i128, den: n as u128 },
            ScoringFunction::Logit(l) => logit_leaf(*l, n, t),
        }
    }
}

/// `a·b <= x·y` for `0 <= a <= x` and `0 <= b <= y`.
proof fn lemma_mul_le(a: int, b: int, x: int, y: int)
    requires
        0 <= a <= x,
        0 <= b <= y,
    ensures
        0 <= a * b <= x * y,
{
    assert(0 <= a * b <= x * y) by (nonlinear_arith)
        requires
            0 <= a <= x,
            0 <= b <= y,
    ;
}

/// The gain of a split over a common denominator is a square.
proof fn lemma_gain_identity(ua: int, ub: int, na: int, nb: int)
    ensures
        ua * ua * nb * (na + nb) + ub * ub * na * (na + nb) - (ua + ub) * (ua + ub) * na * nb == (ua
            * nb - ub * na) * (ua * nb - ub * na),
{
    let p = ua * ua;
    let q = ub * ub;
    let r = ua * ub;
    assert((ua + ub) * (ua + ub) == p + 2 * r + q) by (nonlinear_arith)
        requires
            p == ua * ua,
            q == ub * ub,
            r == ua * ub,
    ;
    assert(ua * ua * nb * (na + nb) == p * (na * nb) + p * (nb * nb)) by (nonlinear_arith)
        requires
            p == ua * ua,
    ;
    assert(ub * ub * na * (na + nb) == q * (na * na) + q * (na * nb)) by (nonlinear_arith)
        requires
            q == ub * ub,
    ;
    assert((p + 2 * r + q) * na * nb == p * (na * nb) + 2 * (r * (na * nb)) + q * (na * nb))
        by (nonlinear_arith);
    let x = ua * nb;
    let y = ub * na;
    assert((x - y) * (x - y) == x * x - 2 * (x * y) + y * y) by (nonlinear_arith);
    assert(x * x == p * (nb * nb)) by (nonlinear_arith)
        requires
            x == ua * nb,
            p == ua * ua,
    ;
    assert(y * y == q * (na * na)) by (nonlinear_arith)
        requires
            y == ub * na,
            q == ub * ub,
    ;
    assert(x * y == r * (na * nb)) by (nonlinear_arith)
        requires
            x == ua * nb,
            y == ub * na,
            r == ua * ub,
    ;
}

/// The cross difference of two sides' true counts is small enough to square.
proof fn lemma_cross_bound(na: int, ta: int, nb: int, tb: int)
    requires
        0 <= ta <= na,
        0 <= tb <= nb,
        na + nb <= MAX_ROWS,
    ensures
        -0x4000_0000_0000 <= tb * na - ta * nb <= 0x4000_0000_0000,
        (tb * na - ta * nb) * (tb * na - ta * nb) <= 0x1000_0000_0000_0000_0000_0000,
{
    let m = MAX_ROWS as int;
    lemma_mul_le(tb, na, nb, na);
    lemma_mul_le(ta, nb, na, nb);
    assert(nb * na == na * nb) by (nonlinear_arith);
    assert(4 * (na * nb) <= (na + nb) * (na + nb)) by (nonlinear_arith);
    lemma_mul_le(na + nb, na + nb, m, m);
    let c = na * nb;
    let g = tb * na - ta * nb;
    assert(-c <= g <= c);
    assert(g * g <= c * c) by (nonlinear_arith)
        requires
            -c <= g <= c,
    ;
    lemma_mul_le(c, c, 0x4000_0000_0000, 0x4000_0000_0000);
}

/// Sizes and true counts of both sides of the split of `target` by `mask`
/// with missing values sent as `dir`: `(n_a, t_a, n_b, t_b)`, A being the left side.
fn side_counts(target: &Vec<bool>, mask: &Vec<Option<bool>>, dir: NullDirection) -> (r: (
    u64,
    u64,
    u64,
    u64,
))
    requires
        target.len() == mask.len(),
        target.len() <= MAX_ROWS,
    ensures
        r.0 == side_size(target@, mask@, dir, true),
        r.1 == side_trues(target@, mask@, dir, true),
        r.2 == side_size(target@, mask@, dir, false),
        r.3 == side_trues(target@, mask@, dir, false),
        r.1 <= r.0,
        r.3 <= r.2,
        r.0 + r.2 == target.len(),
{
    let mut ta: u64 = 0;
    let mut fa: u64 = 0;
    let mut tb: u64 = 0;
    let mut fb: u64 = 0;
    let mut i: usize = 0;
    while i < target.len()
        invariant
            i <= target.len(),
            target.len() == mask.len(),
            target.len() <= MAX_ROWS,
            ta == tally(target@, mask@, dir, true, true, i as int),
            fa == tally(target@, mask@, dir, true, false, i as int),
            tb == tally(target@, mask@, dir, false, true, i as int),
            fb == tally(target@, mask@, dir, false, false, i as int),
            ta + fa + tb + fb == i,
        decreases target.len() - i,
    {
        let left = route_to_left(mask[i], dir);
        if left {
            if target[i] {
                ta = ta + 1;
            } else {
                fa = fa + 1;
            }
        } else {
            if target[i] {
                tb = tb + 1;
            } else {
                fb = fb + 1;
            }
        }
        i = i + 1;
    }
    (ta + fa, ta, tb + fb, tb)
}

/// Number of `true` labels in `target`.
fn true_count(target: &Vec<bool>) -> (r: u64)
    requires
        target.len() <= MAX_ROWS,
    ensures
        r == count_true(target@),
        r <= target.len(),
{
    let mut c: u64 = 0;
    let mut i: usize = 0;
    while i < target.len()
        invariant
            i <= target.len() <= MAX_ROWS,
            c == count_true(target@.take(i as int)),
            c <= i,
        decreases target.len() - i,
    {
        assert(target@.take(i as int + 1).drop_last() =~= target@.take(i as int));
        if target[i] {
            c = c + 1;
        }
        i = i + 1;
    }
    assert(target@.take(i as int) =~= target@);
    c
}

impl Gini {
    /// The weighted impurity of two sides, not both empty.
    fn impurity(n_a: u64, t_a: u64, n_b: u64, t_b: u64) -> (r: Ratio)
        requires
            0 < n_a + n_b <= MAX_ROWS,
            t_a <= n_a,
            t_b <= n_b,
        ensures
            r == gini_weighted(n_a as int, t_a as int, n_b as int, t_b as int),
            r.wf(),
    {
        proof {
            lemma_side_score_wf(
                ScoringFunction::Gini(Gini),
                n_a as int,
                t_a as int,
                n_b as int,
                t_b as int,
            );
        }
        let na = n_a as u128;
        let ta = t_a as u128;
        let nb = n_b as u128;
        let tb = t_b as u128;
        if n_a == 0 {
            Ratio { num: (2 * (tb * (nb - tb))) as i128, den: nb * nb }
        } else if n_b == 0 {
            Ratio { num: (2 * (ta * (na - ta))) as i128, den: na * na }
        } else {
            let ghost m = MAX_ROWS as int;
            proof {
                lemma_mul_le(ta as int, (na - ta) as int, m, m);
                lemma_mul_le(tb as int, (nb - tb) as int, m, m);
                lemma_mul_le((ta * (na - ta)) as int, nb as int, m * m, m);
                lemma_mul_le((tb * (nb - tb)) as int, na as int, m * m, m);
                lemma_mul_le((na + nb) as int, na as int, m, m);
                lemma_mul_le(((na + nb) * na) as int, nb as int, m * m, m);
            }
            let num = 2 * (ta * (na - ta) * nb + tb * (nb - tb) * na);
            let den = (na + nb) * na * nb;
            Ratio { num: num as i128, den }
        }
    }
}

impl Logit {
    /// The gradient `p - y` and Hessian `p·(1-p)` of the logistic loss at
    /// the working prediction `p`, for a row labelled `y`.
    pub fn grad_and_hess(&self, target: bool) -> (r: (Ratio, Ratio))
        requires
            self.wf(),
        ensures
            r.0 == (Ratio {
                num: (self.num - if target {
                    self.den as int
                } else {
                    0
                }) as i128,
                den: self.den as u128,
            }),
            r.1 == (Ratio {
                num: (self.num * (self.den - self.num)) as i128,
                den: (self.den * self.den) as u128,
            }),
            r.0.wf(),
            r.1.wf(),
    {
        let s = self.num as i128;
        let d = self.den as i128;
        let y: i128 = if target {
            d
        } else {
            0
        };
        proof {
            lemma_mul_le(s as int, (d - s) as int, 0x10000, 0x10000);
            lemma_mul_le(d as int, d as int, 0x10000, 0x10000);
            assert(0 < (d as int) * (d as int)) by (nonlinear_arith)
                requires
                    d > 0,
            ;
        }
        let grad = Ratio { num: s - y, den: self.den as u128 };
        let hess = Ratio { num: s * (d - s), den: (self.den as u128) * (self.den as u128) };
        (grad, hess)
    }

    /// Minus the gain of a split into two non-empty sides, computed as
    /// `-(d·(t_b·n_a - t_a·n_b))² / (n_a·n_b·N·K)`.
    fn gain_score(&self, n_a: u64, t_a: u64, n_b: u64, t_b: u64) -> (r: Ratio)
        requires
            self.wf(),
            0 < n_a,
            0 < n_b,
            t_a <= n_a,
            t_b <= n_b,
            n_a + n_b <= MAX_ROWS,
        ensures
            r == logit_score(*self, n_a as int, t_a as int, n_b as int, t_b as int),
            r.wf(),
            r.num <= 0,
    {
        let ghost (gna, gta, gnb, gtb) = (n_a as int, t_a as int, n_b as int, t_b as int);
        let ghost (gs, gd) = (self.num as int, self.den as int);
        let ghost m = MAX_ROWS as int;
        proof {
            lemma_cross_bound(gna, gta, gnb, gtb);
            lemma_mul_le(gtb, gna, m, m);
            lemma_mul_le(gta, gnb, m, m);
        }
        let diff: i128 = (t_b as i128) * (n_a as i128) - (t_a as i128) * (n_b as i128);
        let ghost gdiff = diff as int;
        assert(gdiff == gtb * gna - gta * gnb);
        assert(gdiff * gdiff <= 0x1000_0000_0000_0000_0000_0000);
        assert(0 <= gdiff * gdiff) by (nonlinear_arith);
        let sq: i128 = diff * diff;
        let d: i128 = self.den as i128;
        let s: i128 = self.num as i128;
        proof {
            lemma_mul_le(gd, gd, 0x10000, 0x10000);
            lemma_mul_le(gd * gd, sq as int, 0x1_0000_0000, 0x1000_0000_0000_0000_0000_0000);
        }
        let num: i128 = -(d * d * sq);
        let na = n_a as u128;
        let nb = n_b as u128;
        let n: u128 = na + nb;
        proof {
            lemma_mul_le(gs, gd - gs, 0x10000, 0x10000);
            lemma_mul_le(gna, gnb, m, m);
            lemma_mul_le(gna * gnb, gna + gnb, m * m, m);
            lemma_mul_le(gna * gnb * (gna + gnb), gs * (gd - gs), m * m * m, 0x1_0000_0000);
            assert(0 < gna * gnb * (gna + gnb) * (gs * (gd - gs))) by (nonlinear_arith)
                requires
                    gna > 0,
                    gnb > 0,
                    gs > 0,
                    gd - gs > 0,
            ;
        }
        let k: u128 = (s * (d - s)) as u128;
        let den: u128 = na * nb * n * k;
        proof {
            let u_a = gna * gs - gta * gd;
            let u_b = gnb * gs - gtb * gd;
            let u = u_a + u_b;
            let gn = gna + gnb;
            lemma_gain_identity(u_a, u_b, gna, gnb);
            assert(u_a * gnb - u_b * gna == gd * gdiff) by (nonlinear_arith)
                requires
                    u_a == gna * gs - gta * gd,
                    u_b == gnb * gs - gtb * gd,
                    gdiff == gtb * gna - gta * gnb,
            ;
            assert((gd * gdiff) * (gd * gdiff) == gd * gd * (gdiff * gdiff)) by (nonlinear_arith);
        }
        Ratio { num, den }
    }

    /// The leaf value `d·(t·d - n·s) / (n·s·(d-s))` over `n > 0` rows with `t`
    /// true labels.
    fn leaf_value(&self, n: u64, t: u64) -> (r: Ratio)
        requires
            self.wf(),
            0 < n <= MAX_ROWS,
            t <= n,
        ensures
            r == logit_leaf(*self, n as int, t as int),
            r.wf(),
    {
        let d: i128 = self.den as i128;
        let s: i128 = self.num as i128;
        let ghost (gn, gt, gd, gs) = (n as int, t as int, d as int, s as int);
        let ghost m = MAX_ROWS as int;
        proof {
            lemma_mul_le(gt, gd, m, 0x10000);
            lemma_mul_le(gn, gs, m, 0x10000);
            lemma_mul_le(gs, gd - gs, 0x10000, 0x10000);
            lemma_mul_le(gn, gs * (gd - gs), m, 0x1_0000_0000);
            assert(0 < gn * (gs * (gd - gs))) by (nonlinear_arith)
                requires
                    gn > 0,
                    gs > 0,
                    gd - gs > 0,
            ;
            assert(-(m * 0x10000) <= gt * gd - gn * gs <= m * 0x10000);
            assert(-(m * 0x10000) * 0x10000 <= gd * (gt * gd - gn * gs) <= m * 0x10000 * 0x10000)
                by (nonlinear_arith)
                requires
                    -(m * 0x10000) <= gt * gd - gn * gs <= m * 0x10000,
                    0 < gd <= 0x10000,
            ;
        }
        let u: i128 = (t as i128) * d - (n as i128) * s;
        let num: i128 = d * u;
        let den: u128 = (n as u128) * ((s * (d - s)) as u128);
        Ratio { num, den }
    }
}

impl ScoringFunction {
    /// The score of a split into two sides, non-empty for Logit, not both
    /// empty for Gini.
    fn side_score(&self, n_a: u64, t_a: u64, n_b: u64, t_b: u64) -> (r: Ratio)
        requires
            self.wf(),
            0 < n_a + n_b,
            self is Logit ==> 0 < n_a && 0 < n_b,
            t_a <= n_a,
            t_b <= n_b,
            n_a + n_b <= MAX_ROWS,
        ensures
            r == (match self {
                ScoringFunction::Gini(_) => gini_weighted(
                    n_a as int,
                    t_a as int,
                    n_b as int,
                    t_b as int,
                ),
                ScoringFunction::Logit(l) => logit_score(
                    *l,
                    n_a as int,
                    t_a as int,
                    n_b as int,
                    t_b as int,
                ),
            }),
            r.wf(),
    {
        match self {
            ScoringFunction::Gini(_) => Gini::impurity(n_a, t_a, n_b, t_b),
            ScoringFunction::Logit(l) => l.gain_score(n_a, t_a, n_b, t_b),
        }
    }

    /// Scores the candidate split of `target` by the ternary `mask`
    /// (`Some(true)` left, `Some(false)` right, `None` missing), sending the
    /// missing rows to whichever side scores better; `None` when the candidate
    /// is not viable.
    pub fn split_score(&self, target: &Vec<bool>, mask: &Vec<Option<bool>>) -> (r: Option<
        SplitScore,
    >)
        requires
            self.wf(),
            target.len() == mask.len(),
            target.len() <= MAX_ROWS,
        ensures
            r == self.split_score_spec(target@, mask@),
            r matches Some(s) ==> s.score.wf(),
    {
        let (na_l, ta_l, nb_l, tb_l) = side_counts(target, mask, NullDirection::Left);
        let (na_r, ta_r, nb_r, tb_r) = side_counts(target, mask, NullDirection::Right);
        let vl = na_l > 0 && nb_l > 0;
        let vr = na_r > 0 && nb_r > 0;
        if let ScoringFunction::Gini(_) = self {
            if !(vl || vr) {
                return None;
            }
            let sl = self.side_score(na_l, ta_l, nb_l, tb_l);
            let sr = self.side_score(na_r, ta_r, nb_r, tb_r);
            if sl.le(&sr) {
                Some(SplitScore { score: sl, null_direction: NullDirection::Left })
            } else {
                Some(SplitScore { score: sr, null_direction: NullDirection::Right })
            }
        } else if vl {
            let sl = self.side_score(na_l, ta_l, nb_l, tb_l);
            if vr {
                let sr = self.side_score(na_r, ta_r, nb_r, tb_r);
                if sl.le(&sr) {
                    Some(SplitScore { score: sl, null_direction: NullDirection::Left })
                } else {
                    Some(SplitScore { score: sr, null_direction: NullDirection::Right })
                }
            } else {
                Some(SplitScore { score: sl, null_direction: NullDirection::Left })
            }
        } else if vr {
            let sr = self.side_score(na_r, ta_r, nb_r, tb_r);
            Some(SplitScore { score: sr, null_direction: NullDirection::Right })
        } else {
            None
        }
    }

    /// The prediction of a leaf holding `target`: the fraction of `true`
    /// labels for Gini, the one-step Newton value for Logit.
    pub fn pred(&self, target: &Vec<bool>) -> (r: Ratio)
        requires
            self.wf(),
            0 < target.len() <= MAX_ROWS,
        ensures
            r == self.pred_spec(target@),
            r.wf(),
    {
        let t = true_count(target);
        let n = target.len() as u64;
        match self {
            ScoringFunction::Gini(_) => Ratio { num: t as i128, den: n as u128 },
            ScoringFunction::Logit(l) => l.leaf_value(n, t),
        }
    }
}

/// Every row goes to exactly one side, with exactly one label.
pub proof fn lemma_tally_total(
    target: Seq<bool>,
    mask: Seq<Option<bool>>,
    dir: NullDirection,
    k: int,
)
    requires
        k >= 0,
    ensures
        tally(target, mask, dir, true, true, k) + tally(target, mask, dir, true, false, k) + tally(
            target,
            mask,
            dir,
            false,
            true,
            k,
        ) + tally(target, mask, dir, false, false, k) == k,
    decreases k,
{
    if k > 0 {
        lemma_tally_total(target, mask, dir, k - 1);
    }
}

/// The score of two non-empty sides is a well-formed ratio.
pub proof fn lemma_side_score_wf(f: ScoringFunction, n_a: int, t_a: int, n_b: int, t_b: int)
    requires
        f.wf(),
        0 <= t_a <= n_a,
        0 <= t_b <= n_b,
        0 < n_a + n_b <= MAX_ROWS,
        f is Logit ==> 0 < n_a && 0 < n_b,
    ensures
        (match f {
            ScoringFunction::Gini(_) => gini_weighted(n_a, t_a, n_b, t_b),
            ScoringFunction::Logit(l) => logit_score(l, n_a, t_a, n_b, t_b),
        }).wf(),
        0 < n_a && 0 < n_b ==> gini_weighted(n_a, t_a, n_b, t_b).num == 2 * (t_a * (n_a - t_a)
            * n_b + t_b * (n_b - t_b) * n_a),
        0 < n_a && 0 < n_b ==> gini_weighted(n_a, t_a, n_b, t_b).den == (n_a + n_b) * n_a * n_b,
        n_a == 0 ==> gini_weighted(n_a, t_a, n_b, t_b).num == 2 * (t_b * (n_b - t_b)),
        n_a == 0 ==> gini_weighted(n_a, t_a, n_b, t_b).den == n_b * n_b,
        n_b == 0 ==> gini_weighted(n_a, t_a, n_b, t_b).num == 2 * (t_a * (n_a - t_a)),
        n_b == 0 ==> gini_weighted(n_a, t_a, n_b, t_b).den == n_a * n_a,
{
    let m = MAX_ROWS as int;
    lemma_mul_le(n_a, n_a, m, m);
    lemma_mul_le(n_b, n_b, m, m);
    assert(n_a > 0 ==> 0 < n_a * n_a) by (nonlinear_arith);
    assert(n_b > 0 ==> 0 < n_b * n_b) by (nonlinear_arith);
    lemma_mul_le(t_a, n_a - t_a, m, m);
    lemma_mul_le(t_b, n_b - t_b, m, m);
    lemma_mul_le(t_a * (n_a - t_a), n_b, m * m, m);
    lemma_mul_le(t_b * (n_b - t_b), n_a, m * m, m);
    lemma_mul_le(n_a + n_b, n_a, m, m);
    lemma_mul_le((n_a + n_b) * n_a, n_b, m * m, m);
    assert(n_a > 0 && n_b > 0 ==> 0 < (n_a + n_b) * n_a * n_b) by (nonlinear_arith);
    match f {
        ScoringFunction::Gini(_) => {},
        ScoringFunction::Logit(l) => {
            let s = l.num as int;
            let d = l.den as int;
            lemma_cross_bound(n_a, t_a, n_b, t_b);
            let g = t_b * n_a - t_a * n_b;
            assert(0 <= g * g) by (nonlinear_arith);
            lemma_mul_le(d, d, 0x10000, 0x10000);
            lemma_mul_le(d * d, g * g, 0x1_0000_0000, 0x1000_0000_0000_0000_0000_0000);
            let u_a = n_a * s - t_a * d;
            let u_b = n_b * s - t_b * d;
            lemma_gain_identity(u_a, u_b, n_a, n_b);
            assert(u_a * n_b - u_b * n_a == d * g) by (nonlinear_arith)
                requires
                    u_a == n_a * s - t_a * d,
                    u_b == n_b * s - t_b * d,
                    g == t_b * n_a - t_a * n_b,
            ;
            assert((d * g) * (d * g) == d * d * (g * g)) by (nonlinear_arith);
            lemma_mul_le(s, d - s, 0x10000, 0x10000);
            lemma_mul_le(n_a, n_b, m, m);
            lemma_mul_le(n_a * n_b, n_a + n_b, m * m, m);
            lemma_mul_le(n_a * n_b * (n_a + n_b), s * (d - s), m * m * m, 0x1_0000_0000);
            assert(0 < n_a * n_b * (n_a + n_b) * (s * (d - s))) by (nonlinear_arith)
                requires
                    n_a > 0,
                    n_b > 0,
                    s > 0,
                    d - s > 0,
            ;
        },
    }
}

/// A score of a viable candidate on a target within the row limit is a
/// well-formed ratio.
pub proof fn lemma_split_score_wf(f: ScoringFunction, target: Seq<bool>, mask: Seq<Option<bool>>)
    requires
        f.wf(),
        target.len() <= MAX_ROWS,
    ensures
        f.split_score_spec(target, mask) matches Some(s) ==> s.score.wf(),
{
    let n = target.len() as int;
    lemma_tally_total(target, mask, NullDirection::Left, n);
    lemma_tally_total(target, mask, NullDirection::Right, n);
    let vl = viable(target, mask, NullDirection::Left);
    let vr = viable(target, mask, NullDirection::Right);
    if vl || vr {
        assert(n > 0);
        if vl || f is Gini {
            lemma_side_score_wf(
                f,
                side_size(target, mask, NullDirection::Left, true),
                side_trues(target, mask, NullDirection::Left, true),
                side_size(target, mask, NullDirection::Left, false),
                side_trues(target, mask, NullDirection::Left, false),
            );
        }
        if vr || f is Gini {
            lemma_side_score_wf(
                f,
                side_size(target, mask, NullDirection::Right, true),
                side_trues(target, mask, NullDirection::Right, true),
                side_size(target, mask, NullDirection::Right, false),
                side_trues(target, mask, NullDirection::Right, false),
            );
        }
    }
}

/// A row counts towards its own side and label.
pub proof fn lemma_tally_positive(
    target: Seq<bool>,
    mask: Seq<Option<bool>>,
    dir: NullDirection,
    k: int,
    r: int,
)
    requires
        0 <= r < k,
    ensures
        tally(target, mask, dir, goes_left(mask[r], dir), target[r], k) > 0,
    decreases k,
{
    if k - 1 > r {
        lemma_tally_positive(target, mask, dir, k - 1, r);
    }
}

/// How many rows hold a label does not depend on where missing values go.
proof fn lemma_label_total(
    target: Seq<bool>,
    mask: Seq<Option<bool>>,
    label: bool,
    k: int,
)
    requires
        k >= 0,
    ensures
        tally(target, mask, NullDirection::Left, true, label, k) + tally(
            target,
            mask,
            NullDirection::Left,
            false,
            label,
            k,
        ) == tally(target, mask, NullDirection::Right, true, label, k) + tally(
            target,
            mask,
            NullDirection::Right,
            false,
            label,
            k,
        ),
    decreases k,
{
    if k > 0 {
        lemma_label_total(target, mask, label, k - 1);
    }
}

/// Sending missing values left never takes a row off the left side.
proof fn lemma_left_grows(target: Seq<bool>, mask: Seq<Option<bool>>, label: bool, k: int)
    ensures
        tally(target, mask, NullDirection::Right, true, label, k) <= tally(
            target,
            mask,
            NullDirection::Left,
            true,
            label,
            k,
        ),
    decreases k,
{
    if k > 0 {
        lemma_left_grows(target, mask, label, k - 1);
    }
}

/// With `a`, `b` true and false labels in one group and `c`, `d` in the
/// other, the Gini gain of the split, over a common denominator, is a square.
proof fn lemma_gini_gain_identity(a: int, b: int, c: int, d: int)
    ensures
        (a + c) * (b + d) * ((a + b) * (c + d)) - ((a + b) + (c + d)) * (a * b * (c + d) + c * d * (
        a + b)) == (a * (c + d) - c * (a + b)) * (a * (c + d) - c * (a + b)),
{
    let (na, nb) = (a + b, c + d);
    let (pp, qq) = (a * b, c * d);
    let (u, w, p, q) = (a * d, c * b, a * c, b * d);
    let nn = na * nb;
    let x = pp * nb + qq * na;
    assert(na * x == pp * nn + qq * (na * na)) by (nonlinear_arith)
        requires
            x == pp * nb + qq * na,
            nn == na * nb,
    ;
    assert(nb * x == pp * (nb * nb) + qq * nn) by (nonlinear_arith)
        requires
            x == pp * nb + qq * na,
            nn == na * nb,
    ;
    assert((na + nb) * x == na * x + nb * x) by (nonlinear_arith);
    assert((a + c) * (b + d) == pp + qq + u + w) by (nonlinear_arith)
        requires
            pp == a * b,
            qq == c * d,
            u == a * d,
            w == c * b,
    ;
    assert(nn == p + u + w + q) by (nonlinear_arith)
        requires
            nn == na * nb,
            na == a + b,
            nb == c + d,
            p == a * c,
            u == a * d,
            w == c * b,
            q == b * d,
    ;
    assert(nb * nb == c * c + 2 * (c * d) + d * d) by (nonlinear_arith)
        requires
            nb == c + d,
    ;
    assert(na * na == a * a + 2 * (a * b) + b * b) by (nonlinear_arith)
        requires
            na == a + b,
    ;
    assert(pp * (c * c) == p * w) by (nonlinear_arith)
        requires
            pp == a * b,
            p == a * c,
            w == c * b,
    ;
    assert(pp * (c * d) == u * w) by (nonlinear_arith)
        requires
            pp == a * b,
            u == a * d,
            w == c * b,
    ;
    assert(pp * (d * d) == q * u) by (nonlinear_arith)
        requires
            pp == a * b,
            q == b * d,
            u == a * d,
    ;
    assert(qq * (a * a) == p * u) by (nonlinear_arith)
        requires
            qq == c * d,
            p == a * c,
            u == a * d,
    ;
    assert(qq * (a * b) == u * w) by (nonlinear_arith)
        requires
            qq == c * d,
            u == a * d,
            w == c * b,
    ;
    assert(qq * (b * b) == q * w) by (nonlinear_arith)
        requires
            qq == c * d,
            q == b * d,
            w == c * b,
    ;
    assert(pp * (nb * nb) == pp * (c * c) + 2 * (pp * (c * d)) + pp * (d * d)) by (nonlinear_arith)
        requires
            nb * nb == c * c + 2 * (c * d) + d * d,
    ;
    assert(qq * (na * na) == qq * (a * a) + 2 * (qq * (a * b)) + qq * (b * b)) by (nonlinear_arith)
        requires
            na * na == a * a + 2 * (a * b) + b * b,
    ;
    assert((pp + qq + u + w) * nn == pp * nn + qq * nn + (u + w) * nn) by (nonlinear_arith);
    assert((u + w) * (p + u + w + q) == (u + w) * (p + q) + (u + w) * (u + w)) by (nonlinear_arith);
    assert((u + w) * (p + q) == p * w + q * u + p * u + q * w) by (nonlinear_arith);
    assert((u + w) * (u + w) - 4 * (u * w) == (u - w) * (u - w)) by (nonlinear_arith);
    assert(a * (c + d) - c * (a + b) == u - w) by (nonlinear_arith)
        requires
            u == a * d,
            w == c * b,
    ;
    assert(x == a * b * (c + d) + c * d * (a + b)) by (nonlinear_arith)
        requires
            x == pp * nb + qq * na,
            pp == a * b,
            qq == c * d,
            na == a + b,
            nb == c + d,
    ;
}

/// Splitting a set into two non-empty groups never raises its weighted Gini
/// impurity: the difference is `(t_a·n_b - t_b·n_a)²` over a positive number.
pub proof fn lemma_gini_split_no_worse(n_a: int, t_a: int, n_b: int, t_b: int)
    requires
        0 <= t_a <= n_a,
        0 <= t_b <= n_b,
        0 < n_a,
        0 < n_b,
        n_a + n_b <= MAX_ROWS,
    ensures
        gini_weighted(n_a, t_a, n_b, t_b).le_spec(&gini_weighted(0, 0, n_a + n_b, t_a + t_b)),
{
    let f = ScoringFunction::Gini(Gini);
    lemma_side_score_wf(f, n_a, t_a, n_b, t_b);
    lemma_side_score_wf(f, 0, 0, n_a + n_b, t_a + t_b);
    let n = n_a + n_b;
    let t = t_a + t_b;
    let x = t_a * (n_a - t_a) * n_b + t_b * (n_b - t_b) * n_a;
    let g = t_a * n_b - t_b * n_a;
    lemma_gini_gain_identity(t_a, n_a - t_a, t_b, n_b - t_b);
    assert(0 <= g * g) by (nonlinear_arith);
    assert((2 * x) * (n * n) <= (2 * (t * (n - t))) * (n * n_a * n_b)) by (nonlinear_arith)
        requires
            n * x <= t * (n - t) * (n_a * n_b),
            n > 0,
    ;
}

/// A candidate with a row that goes right whatever the null direction is
/// scored with missing values sent to a side that leaves both sides non-empty.
pub proof fn lemma_chosen_side_viable(
    f: ScoringFunction,
    target: Seq<bool>,
    mask: Seq<Option<bool>>,
    r: int,
)
    requires
        f.wf(),
        target.len() <= MAX_ROWS,
        0 <= r < target.len(),
        mask.len() == target.len(),
        mask[r] == Some(false),
    ensures
        f.split_score_spec(target, mask) matches Some(s) ==> viable(target, mask, s.null_direction)
            && s.score == f.score_for(target, mask, s.null_direction) && s.score.wf(),
{
    let n = target.len() as int;
    lemma_split_score_wf(f, target, mask);
    lemma_tally_positive(target, mask, NullDirection::Left, n, r);
    lemma_tally_positive(target, mask, NullDirection::Right, n, r);
    lemma_tally_total(target, mask, NullDirection::Left, n);
    lemma_tally_total(target, mask, NullDirection::Right, n);
    let vl = viable(target, mask, NullDirection::Left);
    let vr = viable(target, mask, NullDirection::Right);
    assert(side_size(target, mask, NullDirection::Left, false) > 0);
    assert(side_size(target, mask, NullDirection::Right, false) > 0);
    if f is Gini && vl && !vr {
        lemma_label_total(target, mask, true, n);
        lemma_label_total(target, mask, false, n);
        let n_a = side_size(target, mask, NullDirection::Left, true);
        let t_a = side_trues(target, mask, NullDirection::Left, true);
        let n_b = side_size(target, mask, NullDirection::Left, false);
        let t_b = side_trues(target, mask, NullDirection::Left, false);
        assert(side_size(target, mask, NullDirection::Right, true) == 0);
        assert(side_trues(target, mask, NullDirection::Right, true) == 0);
        assert(side_size(target, mask, NullDirection::Right, false) == n_a + n_b);
        assert(side_trues(target, mask, NullDirection::Right, false) == t_a + t_b);
        lemma_gini_split_no_worse(n_a, t_a, n_b, t_b);
        assert(f.score_for(target, mask, NullDirection::Right) == gini_weighted(
            0,
            0,
            n_a + n_b,
            t_a + t_b,
        ));
        assert(f.score_for(target, mask, NullDirection::Left).le_spec(
            &f.score_for(target, mask, NullDirection::Right),
        ));
    }
    if !vl {
        lemma_left_grows(target, mask, true, n);
        lemma_left_grows(target, mask, false, n);
        assert(!vr);
    }
}

} // verus!
