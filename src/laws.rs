//! Properties of fitting, splitting and predicting, stated over the models
//! that the functions' contracts use.
use vstd::prelude::*;

use crate::loss_fn::{
    gini_weighted, lemma_chosen_side_viable, lemma_side_score_wf, lemma_split_score_wf,
    lemma_tally_positive, lemma_tally_total, side_size, side_trues, tally, viable,
    Gini, ScoringFunction, MAX_ROWS,
};
use crate::ratio::{lemma_le_total, lemma_le_transitive};
use crate::split::{
    all_rows, before, best_split_spec, candidate, find_column, lemma_first_minimum_upto, lemma_route_counts,
    lemma_route_len_same, lemma_route_total, mask_of, pick_better, route, valid_pos, Candidate,
};
use crate::split_values::{goes_left, NullDirection};
use crate::tree::{build_spec, first_ill_formed, fit_spec, leaf, shape_error, split_cols, walk, Tree, TreeError};

verus! {

/// With no depth left, the tree is one leaf predicting over the whole target.
pub proof fn lemma_depth_zero_is_leaf(
    cols: Seq<(String, Seq<Option<i64>>)>,
    target: Seq<bool>,
    f: ScoringFunction,
    collapse: bool,
)
    ensures
        build_spec(cols, target, 0, f, collapse) == leaf(f.pred_spec(target)),
        shape_error(cols, target) is None ==> fit_spec(cols, target, 0, f, collapse) == Ok::<
            Tree,
            TreeError,
        >(leaf(f.pred_spec(target))),
{
}

/// A split sends every row of the target, and of every column, to exactly
/// one side.
pub proof fn lemma_split_keeps_rows(
    cols: Seq<(String, Seq<Option<i64>>)>,
    target: Seq<bool>,
    mask: Seq<Option<bool>>,
    dir: NullDirection,
)
    requires
        all_rows(cols, target.len() as int),
        mask.len() == target.len(),
    ensures
        route(target, mask, dir, true).len() + route(target, mask, dir, false).len()
            == target.len(),
        forall|j: int|
            0 <= j < cols.len() ==> #[trigger] split_cols(cols, mask, dir, true)[j].1.len()
                + split_cols(cols, mask, dir, false)[j].1.len() == cols[j].1.len(),
        forall|j: int|
            0 <= j < cols.len() ==> #[trigger] split_cols(cols, mask, dir, true)[j].1.len()
                == route(target, mask, dir, true).len(),
        forall|j: int|
            0 <= j < cols.len() ==> #[trigger] split_cols(cols, mask, dir, false)[j].1.len()
                == route(target, mask, dir, false).len(),
{
    lemma_route_total(target, mask, dir, target.len() as int);
    assert forall|j: int| 0 <= j < cols.len() implies #[trigger] split_cols(
        cols,
        mask,
        dir,
        true,
    )[j].1.len() + split_cols(cols, mask, dir, false)[j].1.len() == cols[j].1.len() by {
        lemma_route_total(cols[j].1, mask, dir, cols[j].1.len() as int);
    }
    assert forall|j: int| 0 <= j < cols.len() implies #[trigger] split_cols(
        cols,
        mask,
        dir,
        true,
    )[j].1.len() == route(target, mask, dir, true).len() by {
        lemma_route_len_same(cols[j].1, target, mask, dir, true, target.len() as int);
    }
    assert forall|j: int| 0 <= j < cols.len() implies #[trigger] split_cols(
        cols,
        mask,
        dir,
        false,
    )[j].1.len() == route(target, mask, dir, false).len() by {
        lemma_route_len_same(cols[j].1, target, mask, dir, false, target.len() as int);
    }
}

/// At every split that growing a tree from `cols` and `target` makes, the
/// rows of the node, of the target and of every column, are those of its two
/// children together.
pub open spec fn splits_keep_rows(
    cols: Seq<(String, Seq<Option<i64>>)>,
    target: Seq<bool>,
    depth: nat,
    f: ScoringFunction,
) -> bool
    decreases depth,
{
    if depth == 0 {
        true
    } else {
        match best_split_spec(cols, target, f) {
            None => true,
            Some(c) => {
                let v = cols[c.0 as int].1[c.1 as int].unwrap();
                let mask = mask_of(cols[c.0 as int].1, v);
                let dir = c.2.null_direction;
                let next: nat = if c.2.score.num == 0 {
                    0
                } else {
                    (depth - 1) as nat
                };
                let lt = route(target, mask, dir, true);
                let rt = route(target, mask, dir, false);
                let lc = split_cols(cols, mask, dir, true);
                let rc = split_cols(cols, mask, dir, false);
                &&& lt.len() + rt.len() == target.len()
                &&& forall|j: int|
                    0 <= j < cols.len() ==> #[trigger] lc[j].1.len() + rc[j].1.len()
                        == cols[j].1.len()
                &&& splits_keep_rows(lc, lt, next, f)
                &&& splits_keep_rows(rc, rt, next, f)
            },
        }
    }
}

/// Every split of a grown tree keeps the rows, at every depth.
pub proof fn lemma_splits_keep_rows(
    cols: Seq<(String, Seq<Option<i64>>)>,
    target: Seq<bool>,
    depth: nat,
    f: ScoringFunction,
)
    requires
        f.wf(),
        all_rows(cols, target.len() as int),
        target.len() <= MAX_ROWS,
        cols.len() <= usize::MAX,
    ensures
        splits_keep_rows(cols, target, depth, f),
    decreases depth,
{
    if depth > 0 {
        lemma_best_split_is_first_minimum(cols, target, f);
        if let Some(c) = best_split_spec(cols, target, f) {
            let v = cols[c.0 as int].1[c.1 as int].unwrap();
            let mask = mask_of(cols[c.0 as int].1, v);
            let dir = c.2.null_direction;
            let next: nat = if c.2.score.num == 0 {
                0
            } else {
                (depth - 1) as nat
            };
            lemma_split_keeps_rows(cols, target, mask, dir);
            let lc = split_cols(cols, mask, dir, true);
            let rc = split_cols(cols, mask, dir, false);
            let lt = route(target, mask, dir, true);
            let rt = route(target, mask, dir, false);
            assert(all_rows(lc, lt.len() as int));
            assert(all_rows(rc, rt.len() as int));
            lemma_splits_keep_rows(lc, lt, next, f);
            lemma_splits_keep_rows(rc, rt, next, f);
        }
    }
}

/// A row whose value of a split's feature is missing is predicted by the
/// child that the split's null direction names, whatever its other values.
pub proof fn lemma_missing_follows_direction(
    tree: Tree,
    cols: Seq<(String, Seq<Option<i64>>)>,
    r: int,
)
    requires
        tree.split_info is Some,
        tree.left is Some,
        tree.right is Some,
        find_column(cols, tree.split_info.unwrap().name@, 0) matches Some(j) && cols[j].1[r]
            is None,
    ensures
        walk(tree, cols, r) == if tree.split_info.unwrap().score.null_direction
            == NullDirection::Left {
            walk(*tree.left.unwrap(), cols, r)
        } else {
            walk(*tree.right.unwrap(), cols, r)
        },
{
}

/// The split search returns a viable candidate of lowest score, the first
/// such in column-then-row order; it finds none exactly when no candidate is
/// viable.
pub proof fn lemma_best_split_is_first_minimum(
    cols: Seq<(String, Seq<Option<i64>>)>,
    target: Seq<bool>,
    f: ScoringFunction,
)
    requires
        f.wf(),
        target.len() <= MAX_ROWS,
        all_rows(cols, target.len() as int),
        cols.len() <= usize::MAX,
    ensures
        best_split_spec(cols, target, f) is None <==> forall|j: int, i: int|
            valid_pos(cols, j, i) ==> #[trigger] candidate(cols, target, f, j, i) is None,
        best_split_spec(cols, target, f) matches Some(c) ==> {
            &&& valid_pos(cols, c.0 as int, c.1 as int)
            &&& candidate(cols, target, f, c.0 as int, c.1 as int) == Some(c.2)
            &&& forall|j: int, i: int|
                valid_pos(cols, j, i) && #[trigger] candidate(cols, target, f, j, i) is Some
                    ==> c.2.score.le_spec(&candidate(cols, target, f, j, i).unwrap().score)
            &&& forall|j: int, i: int|
                valid_pos(cols, j, i) && before(j, i, c.0 as int, c.1 as int) && #[trigger] candidate(
                    cols,
                    target,
                    f,
                    j,
                    i,
                ) is Some ==> !candidate(cols, target, f, j, i).unwrap().score.le_spec(&c.2.score)
        },
{
    lemma_first_minimum_upto(cols, target, f, cols.len() as int, 0);
    match best_split_spec(cols, target, f) {
        None => {},
        Some(c) => {
            assert(candidate(cols, target, f, c.0 as int, c.1 as int) is Some);
        },
    }
}

/// The reduction of candidates is associative, with no candidate as its
/// identity, so any grouping of an ordered reduction finds the same split.
pub proof fn lemma_reduction_associative(a: Option<Candidate>, b: Option<Candidate>, c: Option<Candidate>)
    requires
        a matches Some(x) ==> x.2.score.wf(),
        b matches Some(y) ==> y.2.score.wf(),
        c matches Some(z) ==> z.2.score.wf(),
    ensures
        pick_better(pick_better(a, b), c) == pick_better(a, pick_better(b, c)),
        pick_better(None, a) == a,
        pick_better(a, None) == a,
{
    if let (Some(x), Some(y), Some(z)) = (a, b, c) {
        if x.2.score.le_spec(&y.2.score) && y.2.score.le_spec(&z.2.score) {
            lemma_le_transitive(x.2.score, y.2.score, z.2.score);
        }
        if !x.2.score.le_spec(&y.2.score) && !y.2.score.le_spec(&z.2.score) {
            lemma_le_total(x.2.score, y.2.score);
            lemma_le_total(y.2.score, z.2.score);
            if x.2.score.le_spec(&z.2.score) {
                lemma_le_transitive(y.2.score, x.2.score, z.2.score);
            }
        }
    }
}

/// The value of column `j` at row `i` separates the labels: every row has a
/// value in column `j`, both labels occur, and the rows below that value are
/// exactly those of one label.
pub open spec fn separates(
    cols: Seq<(String, Seq<Option<i64>>)>,
    target: Seq<bool>,
    j: int,
    i: int,
) -> bool {
    &&& valid_pos(cols, j, i)
    &&& cols[j].1[i] is Some
    &&& forall|r: int| 0 <= r < target.len() ==> #[trigger] cols[j].1[r] is Some
    &&& exists|r: int| 0 <= r < target.len() && #[trigger] target[r]
    &&& exists|r: int| 0 <= r < target.len() && !#[trigger] target[r]
    &&& ((forall|r: int|
        0 <= r < target.len() ==> (#[trigger] cols[j].1[r].unwrap() < cols[j].1[i].unwrap())
            == target[r]) || (forall|r: int|
        0 <= r < target.len() ==> (#[trigger] cols[j].1[r].unwrap() < cols[j].1[i].unwrap())
            == !target[r]))
}

/// Where every row goes to the side of its label, no row goes to the side of
/// the other label.
proof fn lemma_sides_follow_labels(
    target: Seq<bool>,
    mask: Seq<Option<bool>>,
    dir: NullDirection,
    left_label: bool,
    k: int,
)
    requires
        0 <= k <= target.len(),
        forall|r: int| 0 <= r < k ==> goes_left(#[trigger] mask[r], dir) == (target[r] == left_label),
    ensures
        tally(target, mask, dir, true, !left_label, k) == 0,
        tally(target, mask, dir, false, left_label, k) == 0,
    decreases k,
{
    if k > 0 {
        lemma_sides_follow_labels(target, mask, dir, left_label, k - 1);
        assert(goes_left(mask[k - 1], dir) == (target[k - 1] == left_label));
    }
}

/// Two sides each holding one label only have Gini score zero.
proof fn lemma_pure_sides_score_zero(
    target: Seq<bool>,
    mask: Seq<Option<bool>>,
    dir: NullDirection,
    left_label: bool,
)
    requires
        target.len() <= MAX_ROWS,
        tally(target, mask, dir, true, !left_label, target.len() as int) == 0,
        tally(target, mask, dir, false, left_label, target.len() as int) == 0,
        side_size(target, mask, dir, true) > 0,
        side_size(target, mask, dir, false) > 0,
    ensures
        ScoringFunction::Gini(Gini).score_for(target, mask, dir).num == 0,
{
    let f = ScoringFunction::Gini(Gini);
    let n = target.len() as int;
    let n_a = side_size(target, mask, dir, true);
    let t_a = side_trues(target, mask, dir, true);
    let n_b = side_size(target, mask, dir, false);
    let t_b = side_trues(target, mask, dir, false);
    lemma_tally_total(target, mask, dir, n);
    lemma_side_score_wf(f, n_a, t_a, n_b, t_b);
    if left_label {
        assert(t_a == n_a && t_b == 0);
    } else {
        assert(t_a == 0 && t_b == n_b);
    }
    assert(t_a * (n_a - t_a) == 0 && t_b * (n_b - t_b) == 0) by (nonlinear_arith)
        requires
            (t_a == n_a || t_a == 0) && (t_b == n_b || t_b == 0),
    ;
    assert(gini_weighted(n_a, t_a, n_b, t_b).num == 0) by (nonlinear_arith)
        requires
            gini_weighted(n_a, t_a, n_b, t_b).num == 2 * (t_a * (n_a - t_a) * n_b + t_b * (n_b
                - t_b) * n_a),
            t_a * (n_a - t_a) == 0,
            t_b * (n_b - t_b) == 0,
    ;
}

/// The root of `t` splits with score zero into two leaves, one predicting 0
/// and the other 1.
pub open spec fn pure_split(t: Tree) -> bool {
    &&& t.split_info matches Some(info) && info.score.score.num == 0
    &&& t.left matches Some(l) && *l == leaf(l.prediction.unwrap())
    &&& t.right matches Some(r) && *r == leaf(r.prediction.unwrap())
    &&& {
        let pl = t.left.unwrap().prediction.unwrap();
        let pr = t.right.unwrap().prediction.unwrap();
        &&& pl.den > 0 && pr.den > 0
        &&& (pl.num == 0 && pr.num == pr.den) || (pl.num == pl.den && pr.num == 0)
    }
}

/// Column `j` separates the labels at threshold `t`: every row has a value
/// there, both labels occur, and the rows below `t` are exactly those of one
/// label.
pub open spec fn separable_at(
    cols: Seq<(String, Seq<Option<i64>>)>,
    target: Seq<bool>,
    j: int,
    t: i64,
) -> bool {
    &&& 0 <= j < cols.len()
    &&& forall|r: int| 0 <= r < target.len() ==> #[trigger] cols[j].1[r] is Some
    &&& exists|r: int| 0 <= r < target.len() && #[trigger] target[r]
    &&& exists|r: int| 0 <= r < target.len() && !#[trigger] target[r]
    &&& ((forall|r: int|
        0 <= r < target.len() ==> (#[trigger] cols[j].1[r].unwrap() < t) == target[r]) || (forall|
        r: int,
    |
        0 <= r < target.len() ==> (#[trigger] cols[j].1[r].unwrap() < t) == !target[r]))
}

/// Among the first `k` rows, the first one holding the least value that is
/// at least `t`; -1 where there is none.
spec fn least_at_least(vals: Seq<Option<i64>>, t: i64, k: int) -> int
    decreases k,
{
    if k <= 0 {
        -1
    } else {
        let p = least_at_least(vals, t, k - 1);
        let x = vals[k - 1].unwrap();
        if x >= t && (p < 0 || x < vals[p].unwrap()) {
            k - 1
        } else {
            p
        }
    }
}

proof fn lemma_least_at_least(vals: Seq<Option<i64>>, t: i64, k: int)
    requires
        k >= 0,
    ensures
        least_at_least(vals, t, k) >= 0 ==> 0 <= least_at_least(vals, t, k) < k && vals[least_at_least(
            vals,
            t,
            k,
        )].unwrap() >= t,
        forall|r: int|
            0 <= r < k && #[trigger] vals[r].unwrap() >= t ==> least_at_least(vals, t, k) >= 0
                && vals[r].unwrap() >= vals[least_at_least(vals, t, k)].unwrap(),
    decreases k,
{
    if k > 0 {
        lemma_least_at_least(vals, t, k - 1);
    }
}

/// A column aligned with the target passes the shape check.
proof fn lemma_aligned_no_ill_formed(cols: Seq<(String, Seq<Option<i64>>)>, n: int, j: int)
    requires
        all_rows(cols, n),
        0 <= j,
    ensures
        first_ill_formed(cols, n, j) is None,
    decreases cols.len() - j,
{
    if j < cols.len() {
        lemma_aligned_no_ill_formed(cols, n, j + 1);
    }
}

/// Where one column separates the two labels at some threshold, fitting
/// with the Gini strategy and any depth of at least one splits the root
/// with score zero into two leaves predicting 0 and 1.
pub proof fn lemma_separable_gives_pure_leaves(
    cols: Seq<(String, Seq<Option<i64>>)>,
    target: Seq<bool>,
    depth: nat,
    collapse: bool,
)
    requires
        all_rows(cols, target.len() as int),
        target.len() <= MAX_ROWS,
        cols.len() <= usize::MAX,
        depth >= 1,
        exists|j: int, t: i64| separable_at(cols, target, j, t),
    ensures
        fit_spec(cols, target, depth, ScoringFunction::Gini(Gini), collapse) matches Ok(tree)
            && pure_split(tree),
{
    let (j, t) = choose|j: int, t: i64| separable_at(cols, target, j, t);
    let n = target.len() as int;
    let vals = cols[j].1;
    let rt = choose|r: int| 0 <= r < n && #[trigger] target[r];
    let rf = choose|r: int| 0 <= r < n && !#[trigger] target[r];
    let below_true = forall|r: int| 0 <= r < n ==> (#[trigger] vals[r].unwrap() < t) == target[r];
    let rh = if below_true { rf } else { rt };
    assert(vals[rh].unwrap() >= t);
    lemma_least_at_least(vals, t, n);
    let i = least_at_least(vals, t, n);
    assert forall|r: int| 0 <= r < n implies (#[trigger] vals[r].unwrap() < vals[i].unwrap()) == (
    vals[r].unwrap() < t) by {
    }
    assert(separates(cols, target, j, i));
    lemma_separable_build_pure(cols, target, depth, collapse);
    lemma_aligned_no_ill_formed(cols, n, 0);
}

/// The same as [`lemma_separable_gives_pure_leaves`], for a threshold that
/// is a value of the column, on the tree that the builder grows.
#[verifier::rlimit(80)]
proof fn lemma_separable_build_pure(
    cols: Seq<(String, Seq<Option<i64>>)>,
    target: Seq<bool>,
    depth: nat,
    collapse: bool,
)
    requires
        all_rows(cols, target.len() as int),
        target.len() <= MAX_ROWS,
        cols.len() <= usize::MAX,
        depth >= 1,
        exists|j: int, i: int| separates(cols, target, j, i),
    ensures
        pure_split(build_spec(cols, target, depth, ScoringFunction::Gini(Gini), collapse)),
{
    let f = ScoringFunction::Gini(Gini);
    let n = target.len() as int;
    let (j, i) = choose|j: int, i: int| separates(cols, target, j, i);
    let v = cols[j].1[i].unwrap();
    let mask = mask_of(cols[j].1, v);
    let left_label = (forall|r: int|
        0 <= r < target.len() ==> (#[trigger] cols[j].1[r].unwrap() < v) == target[r]);
    // the separating candidate scores zero
    assert forall|dir: NullDirection| true implies tally(target, mask, dir, true, !left_label, n)
        == 0 && tally(target, mask, dir, false, left_label, n) == 0 && side_size(
        target,
        mask,
        dir,
        true,
    ) > 0 && side_size(target, mask, dir, false) > 0 by {
        assert forall|r: int| 0 <= r < n implies goes_left(#[trigger] mask[r], dir) == (target[r]
            == left_label) by {
            assert(cols[j].1[r] is Some);
        }
        lemma_sides_follow_labels(target, mask, dir, left_label, n);
        let rt = choose|r: int| 0 <= r < target.len() && #[trigger] target[r];
        let rf = choose|r: int| 0 <= r < target.len() && !#[trigger] target[r];
        lemma_tally_positive(target, mask, dir, n, rt);
        lemma_tally_positive(target, mask, dir, n, rf);
        assert(goes_left(mask[rt], dir) == left_label);
        assert(goes_left(mask[rf], dir) == !left_label);
    }
    lemma_pure_sides_score_zero(target, mask, NullDirection::Left, left_label);
    lemma_pure_sides_score_zero(target, mask, NullDirection::Right, left_label);
    assert(candidate(cols, target, f, j, i) matches Some(s) && s.score.num == 0);
    lemma_split_score_wf(f, target, mask);
    // so the best candidate scores zero too, and its sides are pure
    lemma_best_split_is_first_minimum(cols, target, f);
    let c = best_split_spec(cols, target, f).unwrap();
    let vc = cols[c.0 as int].1[c.1 as int].unwrap();
    let mc = mask_of(cols[c.0 as int].1, vc);
    let dir = c.2.null_direction;
    let n_a = side_size(target, mc, dir, true);
    let t_a = side_trues(target, mc, dir, true);
    let n_b = side_size(target, mc, dir, false);
    let t_b = side_trues(target, mc, dir, false);
    assert(f.split_score_spec(target, mc) == Some(c.2));
    assert(mc[c.1 as int] == Some(false));
    lemma_chosen_side_viable(f, target, mc, c.1 as int);
    assert(viable(target, mc, dir) && c.2.score == gini_weighted(n_a, t_a, n_b, t_b));
    lemma_tally_total(target, mc, dir, n);
    lemma_side_score_wf(f, n_a, t_a, n_b, t_b);
    let z = candidate(cols, target, f, j, i).unwrap().score;
    assert(c.2.score.le_spec(&z));
    let (gn, gd) = (c.2.score.num as int, c.2.score.den as int);
    assert(gn == 0) by (nonlinear_arith)
        requires
            gn * (z.den as int) <= (z.num as int) * gd,
            z.num == 0,
            z.den > 0,
            gn >= 0,
    {
    }
    assert(t_a * (n_a - t_a) == 0 && t_b * (n_b - t_b) == 0) by (nonlinear_arith)
        requires
            2 * (t_a * (n_a - t_a) * n_b + t_b * (n_b - t_b) * n_a) == 0,
            0 <= t_a <= n_a,
            0 <= t_b <= n_b,
            n_a > 0,
            n_b > 0,
    {
        assert(0 <= t_a * (n_a - t_a));
        assert(0 <= t_b * (n_b - t_b));
        assert(0 <= t_a * (n_a - t_a) * n_b);
        assert(0 <= t_b * (n_b - t_b) * n_a);
    }
    assert((t_a == 0 || t_a == n_a) && (t_b == 0 || t_b == n_b)) by (nonlinear_arith)
        requires
            t_a * (n_a - t_a) == 0,
            t_b * (n_b - t_b) == 0,
    ;
    // both labels occur, so the two pure sides hold different labels
    let rt = choose|r: int| 0 <= r < target.len() && #[trigger] target[r];
    let rf = choose|r: int| 0 <= r < target.len() && !#[trigger] target[r];
    lemma_tally_positive(target, mc, dir, n, rt);
    lemma_tally_positive(target, mc, dir, n, rf);
    // the children are leaves over the two sides
    let lt = route(target, mc, dir, true);
    let rtg = route(target, mc, dir, false);
    lemma_route_counts(target, mc, dir, true, n);
    lemma_route_counts(target, mc, dir, false, n);
    assert(build_spec(split_cols(cols, mc, dir, true), lt, 0, f, collapse) == leaf(f.pred_spec(lt)));
    assert(build_spec(split_cols(cols, mc, dir, false), rtg, 0, f, collapse) == leaf(
        f.pred_spec(rtg),
    ));
}

/// Fitting is a function of its inputs: equal data sets, targets,
/// depths and strategies give equal results.
pub proof fn lemma_fit_deterministic(
    cols1: Seq<(String, Seq<Option<i64>>)>,
    cols2: Seq<(String, Seq<Option<i64>>)>,
    target1: Seq<bool>,
    target2: Seq<bool>,
    depth: nat,
    f: ScoringFunction,
    collapse: bool,
)
    requires
        cols1 == cols2,
        target1 == target2,
    ensures
        fit_spec(cols1, target1, depth, f, collapse) == fit_spec(cols2, target2, depth, f, collapse),
{
}

} // verus!
