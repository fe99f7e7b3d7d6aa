//! The recursive tree builder and the predictor.
use vstd::prelude::*;

use crate::loss_fn::{lemma_chosen_side_viable, ScoringFunction, MAX_ROWS};
use crate::ratio::{same_ratio, Ratio};
use crate::split::{
    all_rows, best_split_spec, lemma_route_counts, lemma_route_len_same,
    lemma_route_total, find_column, first_short, mask_of, max_len, route, DataSet, DataSetRowsError, Target,
};
use crate::split_values::{NullDirection, SplitInfo};

verus! {

/// How deep a tree may grow.
#[derive(Debug, Clone, Copy, PartialEq, Eq, Structural)]
pub struct TreeConfig {
    pub max_depth: usize,
}

impl Default for TreeConfig {
    fn default() -> (r: TreeConfig)
        ensures
            r.max_depth == 0,
    {
        TreeConfig { max_depth: 0 }
    }
}

/// Why fitting or predicting failed.
#[derive(Debug, Clone, PartialEq)]
pub enum TreeError {
    DataSetRowsError(DataSetRowsError),
    /// A split tests a feature that the data set lacks.
    CouldNotFindFeature(String),
    /// A node is neither a complete split nor a leaf with a prediction.
    NoPredictionInLeaf,
}

/// A binary decision tree: an internal node holds `split_info`, `left` and
/// `right`; a leaf holds only `prediction`.
#[derive(Debug, PartialEq)]
pub struct Tree {
    pub split_info: Option<SplitInfo>,
    pub left: Option<Box<Tree>>,
    pub right: Option<Box<Tree>>,
    pub prediction: Option<Ratio>,
}

/// The leaf predicting `p`.
pub open spec fn leaf(p: Ratio) -> Tree {
    Tree { split_info: None, left: None, right: None, prediction: Some(p) }
}

/// Whether `t` is an internal node.
pub open spec fn is_internal(t: Tree) -> bool {
    t.split_info is Some && t.left is Some && t.right is Some
}

/// A child subtree whose own split scores differently from its parent's is
/// replaced by a leaf over the child's rows.
pub open spec fn collapse_child(
    child: Tree,
    parent_score: Ratio,
    f: ScoringFunction,
    rows: Seq<bool>,
) -> Tree {
    if is_internal(child) && !same_ratio(child.split_info.unwrap().score.score, parent_score) {
        leaf(f.pred_spec(rows))
    } else {
        child
    }
}

/// Every column of `cols` restricted to the rows that go to the side `left`.
pub open spec fn split_cols(
    cols: Seq<(String, Seq<Option<i64>>)>,
    mask: Seq<Option<bool>>,
    dir: NullDirection,
    left: bool,
) -> Seq<(String, Seq<Option<i64>>)> {
    Seq::new(cols.len(), |j: int| (cols[j].0, route(cols[j].1, mask, dir, left)))
}

/// The tree grown from `cols` and `target` with `depth` levels left. A split
/// of score zero ends the growth there, its children being leaves: for Gini
/// both its sides are pure, for Logit it gains nothing. With `collapse`, a
/// child whose split scores differently from its parent's becomes a leaf.
pub open spec fn build_spec(
    cols: Seq<(String, Seq<Option<i64>>)>,
    target: Seq<bool>,
    depth: nat,
    f: ScoringFunction,
    collapse: bool,
) -> Tree
    decreases depth,
{
    if depth == 0 {
        leaf(f.pred_spec(target))
    } else {
        match best_split_spec(cols, target, f) {
            None => leaf(f.pred_spec(target)),
            Some(c) => {
                let v = cols[c.0 as int].1[c.1 as int].unwrap();
                let mask = mask_of(cols[c.0 as int].1, v);
                let s = c.2;
                let dir = s.null_direction;
                let next: nat = if s.score.num == 0 {
                    0
                } else {
                    (depth - 1) as nat
                };
                let lt = route(target, mask, dir, true);
                let rt = route(target, mask, dir, false);
                let lc = build_spec(split_cols(cols, mask, dir, true), lt, next, f, collapse);
                let rc = build_spec(split_cols(cols, mask, dir, false), rt, next, f, collapse);
                let info = SplitInfo { name: cols[c.0 as int].0, value: v, score: s };
                if collapse {
                    Tree {
                        split_info: Some(info),
                        left: Some(Box::new(collapse_child(lc, s.score, f, lt))),
                        right: Some(Box::new(collapse_child(rc, s.score, f, rt))),
                        prediction: None,
                    }
                } else {
                    Tree {
                        split_info: Some(info),
                        left: Some(Box::new(lc)),
                        right: Some(Box::new(rc)),
                        prediction: None,
                    }
                }
            },
        }
    }
}

/// The first shape error of a data set and target for fitting: no columns or
/// no rows, then the first column whose length differs from the target's.
pub open spec fn shape_error(cols: Seq<(String, Seq<Option<i64>>)>, target: Seq<bool>) -> Option<
    DataSetRowsError,
> {
    if cols.len() == 0 || target.len() == 0 {
        Some(DataSetRowsError::EmptyDF)
    } else {
        first_ill_formed(cols, target.len() as int, 0)
    }
}

/// From column `j` on, the first column whose length is not `n`.
pub open spec fn first_ill_formed(cols: Seq<(String, Seq<Option<i64>>)>, n: int, j: int) -> Option<
    DataSetRowsError,
>
    decreases cols.len() - j,
{
    if j < 0 || j >= cols.len() {
        None
    } else if cols[j].1.len() != n {
        Some(DataSetRowsError::IllFormedColumn(cols[j].0, cols[j].1.len() as usize))
    } else {
        first_ill_formed(cols, n, j + 1)
    }
}

/// The outcome of fitting.
pub open spec fn fit_spec(
    cols: Seq<(String, Seq<Option<i64>>)>,
    target: Seq<bool>,
    max_depth: nat,
    f: ScoringFunction,
    collapse: bool,
) -> Result<Tree, TreeError> {
    match shape_error(cols, target) {
        Some(e) => Err(TreeError::DataSetRowsError(e)),
        None => Ok(build_spec(cols, target, max_depth, f, collapse)),
    }
}

/// Whether subtrees that score differently from their parent's split are
/// replaced by leaves after they are built.
#[derive(Debug, Clone, Copy, PartialEq, Eq, Structural)]
pub enum DivergencePolicy {
    Collapse,
    Keep,
}

/// The first shape error, checked in the order [`shape_error`] gives.
fn check_shape(samples: &DataSet, target: &Vec<bool>) -> (r: Option<DataSetRowsError>)
    ensures
        r == shape_error(samples@, target@),
        r is None ==> all_rows(samples@, target@.len() as int),
{
    if samples.len() == 0 || target.len() == 0 {
        return Some(DataSetRowsError::EmptyDF);
    }
    let mut j: usize = 0;
    while j < samples.len()
        invariant
            j <= samples@.len(),
            samples@.len() > 0,
            target@.len() > 0,
            forall|k: int| 0 <= k < j ==> #[trigger] samples@[k].1.len() == target@.len(),
            shape_error(samples@, target@) == first_ill_formed(samples@, target@.len() as int, j as int),
        decreases samples@.len() - j,
    {
        let (name, values) = samples.column(j);
        if values.len() != target.len() {
            return Some(DataSetRowsError::IllFormedColumn(name.clone(), values.len()));
        }
        j = j + 1;
    }
    None
}

impl Tree {
    /// Grows a tree from `samples` and `target` to at most
    /// `tree_config.max_depth` levels, scoring splits with `score_fn`; a child
    /// whose split scores differently from its parent's becomes a leaf.
    pub fn fit(
        samples: &DataSet,
        target: &Vec<bool>,
        tree_config: &TreeConfig,
        score_fn: &ScoringFunction,
    ) -> (r: Result<Tree, TreeError>)
        requires
            score_fn.wf(),
            target.len() <= MAX_ROWS,
        ensures
            r == fit_spec(samples@, target@, tree_config.max_depth as nat, *score_fn, true),
    {
        Tree::fit_with_policy(samples, target, tree_config, score_fn, DivergencePolicy::Collapse)
    }

    /// [`Tree::fit`], with the policy for children that score differently
    /// from their parent made explicit.
    pub fn fit_with_policy(
        samples: &DataSet,
        target: &Vec<bool>,
        tree_config: &TreeConfig,
        score_fn: &ScoringFunction,
        policy: DivergencePolicy,
    ) -> (r: Result<Tree, TreeError>)
        requires
            score_fn.wf(),
            target.len() <= MAX_ROWS,
        ensures
            r == fit_spec(
                samples@,
                target@,
                tree_config.max_depth as nat,
                *score_fn,
                policy == DivergencePolicy::Collapse,
            ),
    {
        match check_shape(samples, target) {
            Some(e) => Err(TreeError::DataSetRowsError(e)),
            None => {
                let collapse = match policy {
                    DivergencePolicy::Collapse => true,
                    DivergencePolicy::Keep => false,
                };
                Ok(Tree::build_tree_recursive(samples, target, tree_config.max_depth, score_fn, collapse))
            },
        }
    }

    /// The leaf over `target`.
    fn build_leaf(target: &Vec<bool>, split_function: &ScoringFunction) -> (r: Tree)
        requires
            split_function.wf(),
            0 < target.len() <= MAX_ROWS,
        ensures
            r == leaf(split_function.pred_spec(target@)),
    {
        let pred = split_function.pred(target);
        Tree { split_info: None, left: None, right: None, prediction: Some(pred) }
    }

    /// `child`, or a leaf over `rows` where `child` is a split scoring
    /// differently from `parent_score`.
    fn collapse_divergent(
        child: Tree,
        parent_score: &Ratio,
        split_function: &ScoringFunction,
        rows: &Vec<bool>,
    ) -> (r: Tree)
        requires
            split_function.wf(),
            0 < rows.len() <= MAX_ROWS,
        ensures
            r == collapse_child(child, *parent_score, *split_function, rows@),
    {
        if child.split_info.is_some() && child.left.is_some() && child.right.is_some() {
            let diverges = match &child.split_info {
                Some(info) => !info.score.score.equals(parent_score),
                None => false,
            };
            if diverges {
                return Tree::build_leaf(rows, split_function);
            }
        }
        child
    }

    fn build_tree_recursive(
        samples: &DataSet,
        target: &Vec<bool>,
        max_depth: usize,
        split_function: &ScoringFunction,
        collapse: bool,
    ) -> (r: Tree)
        requires
            split_function.wf(),
            0 < target.len() <= MAX_ROWS,
            all_rows(samples@, target.len() as int),
        ensures
            r == build_spec(samples@, target@, max_depth as nat, *split_function, collapse),
        decreases max_depth,
    {
        if max_depth == 0 {
            return Tree::build_leaf(target, split_function);
        }
        match samples.find_best_split(target, split_function) {
            Err(_) => Tree::build_leaf(target, split_function),
            Ok((split_info, mask)) => {
                let ghost cols = samples@;
                let ghost c = best_split_spec(cols, target@, *split_function).unwrap();
                proof {
                    assert(mask@[c.1 as int] == Some(false));
                    lemma_chosen_side_viable(*split_function, target@, mask@, c.1 as int);
                }
                let dir = split_info.score.null_direction;
                let next: usize = if split_info.score.score.is_zero() {
                    0
                } else {
                    max_depth - 1
                };
                let (left_samples, right_samples) = samples.split(&mask, dir);
                let (left_tar, right_tar) = target.split(&mask, dir);
                proof {
                    assert(mask@.len() == target@.len());
                    lemma_route_counts(target@, mask@, dir, true, target@.len() as int);
                    lemma_route_counts(target@, mask@, dir, false, target@.len() as int);
                    lemma_route_total(target@, mask@, dir, target@.len() as int);
                    assert forall|k: int| 0 <= k < left_samples@.len() implies #[trigger] left_samples@[k].1.len()
                        == left_tar@.len() by {
                        lemma_route_len_same(cols[k].1, target@, mask@, dir, true, target@.len() as int);
                    }
                    assert forall|k: int| 0 <= k < right_samples@.len() implies #[trigger] right_samples@[k].1.len()
                        == right_tar@.len() by {
                        lemma_route_len_same(cols[k].1, target@, mask@, dir, false, target@.len() as int);
                    }
                    assert(left_samples@ =~= split_cols(cols, mask@, dir, true));
                    assert(right_samples@ =~= split_cols(cols, mask@, dir, false));
                }
                let left_tree = Tree::build_tree_recursive(
                    &left_samples,
                    &left_tar,
                    next,
                    split_function,
                    collapse,
                );
                let right_tree = Tree::build_tree_recursive(
                    &right_samples,
                    &right_tar,
                    next,
                    split_function,
                    collapse,
                );
                let (left_tree, right_tree) = if collapse {
                    (
                        Tree::collapse_divergent(left_tree, &split_info.score.score, split_function, &left_tar),
                        Tree::collapse_divergent(right_tree, &split_info.score.score, split_function, &right_tar),
                    )
                } else {
                    (left_tree, right_tree)
                };
                Tree {
                    split_info: Some(split_info),
                    left: Some(Box::new(left_tree)),
                    right: Some(Box::new(right_tree)),
                    prediction: None,
                }
            },
        }
    }
}

/// The prediction of `tree` for row `r` of `cols`: at a split, a present
/// value below the threshold goes left and any other right, a missing one as
/// the split's null direction says.
pub open spec fn walk(tree: Tree, cols: Seq<(String, Seq<Option<i64>>)>, r: int) -> Result<
    Ratio,
    TreeError,
>
    decreases tree,
{
    match tree {
        Tree { split_info: Some(info), left: Some(l), right: Some(rt), prediction: _ } => {
            match find_column(cols, info.name@, 0) {
                None => Err(TreeError::CouldNotFindFeature(info.name)),
                Some(j) => {
                    let go_left = match cols[j].1[r] {
                        Some(v) => v < info.value,
                        None => info.score.null_direction == NullDirection::Left,
                    };
                    if go_left {
                        walk(*l, cols, r)
                    } else {
                        walk(*rt, cols, r)
                    }
                },
            }
        },
        _ => match tree.prediction {
            Some(p) => Ok(p),
            None => Err(TreeError::NoPredictionInLeaf),
        },
    }
}

/// The prediction for row `r`, or the error that stops there.
pub open spec fn row_result(tree: Tree, cols: Seq<(String, Seq<Option<i64>>)>, r: int) -> Result<
    Ratio,
    TreeError,
> {
    match first_short(cols, r, 0) {
        Some(e) => Err(TreeError::DataSetRowsError(e)),
        None => walk(tree, cols, r),
    }
}

/// The predictions for the first `k` rows, or the first error among them.
pub open spec fn predict_rows(tree: Tree, cols: Seq<(String, Seq<Option<i64>>)>, k: int) -> Result<
    Seq<Ratio>,
    TreeError,
>
    decreases k,
{
    if k <= 0 {
        Ok(seq![])
    } else {
        match predict_rows(tree, cols, k - 1) {
            Err(e) => Err(e),
            Ok(s) => match row_result(tree, cols, k - 1) {
                Err(e) => Err(e),
                Ok(p) => Ok(s.push(p)),
            },
        }
    }
}

/// The outcome of predicting every row of `cols`; the rows are as many as
/// the longest column has.
pub open spec fn predict_spec(tree: Tree, cols: Seq<(String, Seq<Option<i64>>)>) -> Result<
    Seq<Ratio>,
    TreeError,
> {
    if cols.len() == 0 {
        Err(TreeError::DataSetRowsError(DataSetRowsError::EmptyDF))
    } else {
        predict_rows(tree, cols, max_len(cols) as int)
    }
}

/// Once a row fails, the predictions of every longer prefix fail the same way.
proof fn lemma_error_persists(tree: Tree, cols: Seq<(String, Seq<Option<i64>>)>, k: int, k2: int)
    requires
        0 <= k <= k2,
        predict_rows(tree, cols, k) is Err,
    ensures
        predict_rows(tree, cols, k2) == predict_rows(tree, cols, k),
    decreases k2 - k,
{
    if k2 > k {
        lemma_error_persists(tree, cols, k, k2 - 1);
    }
}

impl Tree {
    /// The index of the first column named `name`.
    fn feature_column(samples: &DataSet, name: &String) -> (r: Option<usize>)
        ensures
            r matches Some(j) ==> find_column(samples@, name@, 0) == Some(j as int) && j
                < samples@.len(),
            r is None ==> find_column(samples@, name@, 0) is None,
    {
        let mut j: usize = 0;
        while j < samples.len()
            invariant
                j <= samples@.len(),
                find_column(samples@, name@, 0) == find_column(samples@, name@, j as int),
            decreases samples@.len() - j,
        {
            let (col_name, _) = samples.column(j);
            if col_name.eq(name) {
                return Some(j);
            }
            j = j + 1;
        }
        None
    }

    /// The prediction for row `row` of `samples`.
    fn predict_single_value(&self, samples: &DataSet, row: usize) -> (r: Result<Ratio, TreeError>)
        requires
            forall|k: int| 0 <= k < samples@.len() ==> row < #[trigger] samples@[k].1.len(),
        ensures
            r == walk(*self, samples@, row as int),
        decreases self,
    {
        match (&self.split_info, &self.left, &self.right) {
            (Some(info), Some(l), Some(rt)) => {
                match Tree::feature_column(samples, &info.name) {
                    None => Err(TreeError::CouldNotFindFeature(info.name.clone())),
                    Some(j) => {
                        let (_, values) = samples.column(j);
                        let go_left = match values[row] {
                            Some(v) => v < info.value,
                            None => match info.score.null_direction {
                                NullDirection::Left => true,
                                NullDirection::Right => false,
                            },
                        };
                        if go_left {
                            l.predict_single_value(samples, row)
                        } else {
                            rt.predict_single_value(samples, row)
                        }
                    },
                }
            },
            _ => match self.prediction {
                Some(p) => Ok(p),
                None => Err(TreeError::NoPredictionInLeaf),
            },
        }
    }

    /// The first column of `samples` that lacks row `row`.
    fn short_column(samples: &DataSet, row: usize) -> (r: Option<DataSetRowsError>)
        ensures
            r == first_short(samples@, row as int, 0),
            r is None ==> forall|k: int|
                0 <= k < samples@.len() ==> row < #[trigger] samples@[k].1.len(),
    {
        let mut j: usize = 0;
        while j < samples.len()
            invariant
                j <= samples@.len(),
                first_short(samples@, row as int, 0) == first_short(samples@, row as int, j as int),
                forall|k: int| 0 <= k < j ==> row < #[trigger] samples@[k].1.len(),
            decreases samples@.len() - j,
        {
            let (name, values) = samples.column(j);
            if values.len() <= row {
                return Some(DataSetRowsError::IllFormedColumn(name.clone(), row));
            }
            j = j + 1;
        }
        None
    }

    /// Predicts every row of `samples`, in order; the first error stops it.
    pub fn predict(&self, samples: &DataSet) -> (r: Result<Vec<Ratio>, TreeError>)
        ensures
            match predict_spec(*self, samples@) {
                Ok(s) => r matches Ok(v) && v@ == s,
                Err(e) => r == Err::<Vec<Ratio>, TreeError>(e),
            },
    {
        let n = match samples.num_rows() {
            Ok(n) => n,
            Err(e) => {
                return Err(TreeError::DataSetRowsError(e));
            },
        };
        let mut out: Vec<Ratio> = Vec::new();
        let mut row: usize = 0;
        while row < n
            invariant
                row <= n,
                n == max_len(samples@),
                samples@.len() > 0,
                predict_rows(*self, samples@, row as int) == Ok::<Seq<Ratio>, TreeError>(out@),
            decreases n - row,
        {
            let res = match Tree::short_column(samples, row) {
                Some(e) => Err(TreeError::DataSetRowsError(e)),
                None => self.predict_single_value(samples, row),
            };
            match res {
                Err(e) => {
                    proof {
                        lemma_error_persists(*self, samples@, row as int + 1, n as int);
                    }
                    return Err(e);
                },
                Ok(p) => {
                    out.push(p);
                },
            }
            row = row + 1;
        }
        Ok(out)
    }
}

} // verus!
