//! Columnar data, ternary masks, partitioning, and the search for the best split.
use vstd::prelude::*;

use crate::loss_fn::{count_true, lemma_split_score_wf, tally, ScoringFunction, MAX_ROWS};
use crate::ratio::{lemma_le_total, lemma_le_transitive};
use crate::split_values::{goes_left, route_to_left, NullDirection, SplitInfo, SplitScore};

verus! {

/// Why no split was chosen.
#[derive(Debug, Clone, Copy, PartialEq, Eq, Structural)]
pub enum BestSplitNotFound {
    /// No candidate split leaves both sides non-empty.
    NoSplitRequired,
}

/// A data set whose shape is not usable.
#[derive(Debug, Clone, PartialEq)]
pub enum DataSetRowsError {
    /// The named column does not have the expected rows: its length, or the
    /// first row it lacks.
    IllFormedColumn(String, usize),
    /// The data set has no columns, or no rows.
    EmptyDF,
}

/// The ternary mask of `values` at `threshold`: `Some(true)` below it,
/// `Some(false)` at or above it, `None` where the value is missing.
pub open spec fn mask_of(values: Seq<Option<i64>>, threshold: i64) -> Seq<Option<bool>> {
    Seq::new(
        values.len(),
        |i: int|
            match values[i] {
                Some(v) => Some(v < threshold),
                None => None,
            },
    )
}

/// The present values of `values`, in order.
pub open spec fn present_values(values: Seq<Option<i64>>) -> Seq<i64>
    decreases values.len(),
{
    if values.len() == 0 {
        seq![]
    } else {
        let p = present_values(values.drop_last());
        match values.last() {
            Some(v) => p.push(v),
            None => p,
        }
    }
}

/// Among the first `k` rows, those that go to the side `left` under `mask`
/// and `dir`, in order.
pub open spec fn route_upto<T>(
    values: Seq<T>,
    mask: Seq<Option<bool>>,
    dir: NullDirection,
    left: bool,
    k: int,
) -> Seq<T>
    decreases k,
{
    if k <= 0 {
        seq![]
    } else {
        let p = route_upto(values, mask, dir, left, k - 1);
        if goes_left(mask[k - 1], dir) == left {
            p.push(values[k - 1])
        } else {
            p
        }
    }
}

/// The rows of `values` that go to the side `left` under `mask` and `dir`.
pub open spec fn route<T>(
    values: Seq<T>,
    mask: Seq<Option<bool>>,
    dir: NullDirection,
    left: bool,
) -> Seq<T> {
    route_upto(values, mask, dir, left, values.len() as int)
}

/// Splits `values` into the rows that go left and those that go right.
pub fn partition<T: Copy>(values: &Vec<T>, mask: &Vec<Option<bool>>, dir: NullDirection) -> (r: (
    Vec<T>,
    Vec<T>,
))
    requires
        values.len() == mask.len(),
    ensures
        r.0@ == route(values@, mask@, dir, true),
        r.1@ == route(values@, mask@, dir, false),
{
    let mut left: Vec<T> = Vec::new();
    let mut right: Vec<T> = Vec::new();
    let mut i: usize = 0;
    while i < values.len()
        invariant
            i <= values.len() == mask.len(),
            left@ == route_upto(values@, mask@, dir, true, i as int),
            right@ == route_upto(values@, mask@, dir, false, i as int),
        decreases values.len() - i,
    {
        if route_to_left(mask[i], dir) {
            left.push(values[i]);
        } else {
            right.push(values[i]);
        }
        i = i + 1;
    }
    (left, right)
}

/// A numeric feature column with missing entries.
pub trait Feature {
    spec fn feature_values(&self) -> Seq<Option<i64>>;

    /// The candidate thresholds: every present value, in row order.
    fn find_splits(&self) -> (r: Vec<i64>)
        ensures
            r@ == present_values(self.feature_values()),
    ;

    /// The ternary mask of the column at `split`.
    fn mask(&self, split: i64) -> (r: Vec<Option<bool>>)
        ensures
            r@ == mask_of(self.feature_values(), split),
    ;
}

impl Feature for Vec<Option<i64>> {
    open spec fn feature_values(&self) -> Seq<Option<i64>> {
        self@
    }

    fn find_splits(&self) -> (r: Vec<i64>) {
        let mut out: Vec<i64> = Vec::new();
        let mut i: usize = 0;
        while i < self.len()
            invariant
                i <= self.len(),
                out@ == present_values(self@.take(i as int)),
            decreases self.len() - i,
        {
            assert(self@.take(i as int + 1).drop_last() =~= self@.take(i as int));
            if let Some(v) = self[i] {
                out.push(v);
            }
            i = i + 1;
        }
        assert(self@.take(i as int) =~= self@);
        out
    }

    fn mask(&self, split: i64) -> (r: Vec<Option<bool>>) {
        let mut out: Vec<Option<bool>> = Vec::new();
        let mut i: usize = 0;
        while i < self.len()
            invariant
                i <= self.len(),
                out@ =~= mask_of(self@, split).take(i as int),
            decreases self.len() - i,
        {
            let m = match self[i] {
                Some(v) => Some(v < split),
                None => None,
            };
            out.push(m);
            i = i + 1;
        }
        out
    }
}

/// A sequence of boolean labels, aligned with the rows of a data set.
pub trait Target: Sized {
    spec fn labels(&self) -> Seq<bool>;

    fn len(&self) -> (r: usize)
        ensures
            r == self.labels().len(),
    ;

    /// The labels of the rows that go left and of those that go right.
    fn split(&self, mask: &Vec<Option<bool>>, null_direction: NullDirection) -> (r: (Self, Self))
        requires
            mask@.len() == self.labels().len(),
        ensures
            r.0.labels() == route(self.labels(), mask@, null_direction, true),
            r.1.labels() == route(self.labels(), mask@, null_direction, false),
    ;
}

impl Target for Vec<bool> {
    open spec fn labels(&self) -> Seq<bool> {
        self@
    }

    fn len(&self) -> (r: usize) {
        self.len()
    }

    fn split(&self, mask: &Vec<Option<bool>>, null_direction: NullDirection) -> (r: (
        Vec<bool>,
        Vec<bool>,
    )) {
        partition(self, mask, null_direction)
    }
}

/// A columnar data set: named numeric columns, in insertion order, with
/// unique names.
#[derive(Debug, Clone)]
pub struct DataSet {
    columns: Vec<(String, Vec<Option<i64>>)>,
}

/// A candidate split: the column, the row whose value is the threshold, and
/// its score.
pub type Candidate = (usize, usize, SplitScore);

/// The length of the longest column of `cols`; 0 without columns.
pub open spec fn max_len(cols: Seq<(String, Seq<Option<i64>>)>) -> nat
    decreases cols.len(),
{
    if cols.len() == 0 {
        0
    } else {
        let m = max_len(cols.drop_last());
        if cols.last().1.len() > m {
            cols.last().1.len()
        } else {
            m
        }
    }
}

/// From column `j` on, the first column that lacks row `r`.
pub open spec fn first_short(cols: Seq<(String, Seq<Option<i64>>)>, r: int, j: int) -> Option<
    DataSetRowsError,
>
    decreases cols.len() - j,
{
    if j < 0 || j >= cols.len() {
        None
    } else if cols[j].1.len() <= r {
        Some(DataSetRowsError::IllFormedColumn(cols[j].0, r as usize))
    } else {
        first_short(cols, r, j + 1)
    }
}

/// From column `j` on, the index of the first column named `name`.
pub open spec fn find_column(cols: Seq<(String, Seq<Option<i64>>)>, name: Seq<char>, j: int) -> Option<
    int,
>
    decreases cols.len() - j,
{
    if j < 0 || j >= cols.len() {
        None
    } else if cols[j].0@ == name {
        Some(j)
    } else {
        find_column(cols, name, j + 1)
    }
}

/// No column from `j` on is named `name`.
proof fn lemma_find_column_none(cols: Seq<(String, Seq<Option<i64>>)>, name: Seq<char>, j: int)
    requires
        0 <= j,
        forall|k: int| j <= k < cols.len() ==> #[trigger] cols[k].0@ != name,
    ensures
        find_column(cols, name, j) is None,
    decreases cols.len() - j,
{
    if j < cols.len() {
        lemma_find_column_none(cols, name, j + 1);
    }
}

/// `cols` with the column `name` set to `values`: in place where a column of
/// that name exists, else as a new last column.
pub open spec fn with_column(
    cols: Seq<(String, Seq<Option<i64>>)>,
    name: String,
    values: Seq<Option<i64>>,
) -> Seq<(String, Seq<Option<i64>>)> {
    match find_column(cols, name@, 0) {
        Some(j) => cols.update(j, (name, values)),
        None => cols.push((name, values)),
    }
}

/// The columns `given` as names and value sequences.
pub open spec fn columns_view(given: Seq<(String, Vec<Option<i64>>)>) -> Seq<
    (String, Seq<Option<i64>>),
> {
    Seq::new(given.len(), |j: int| (given[j].0, given[j].1@))
}

/// The data set made by setting the first `k` of `given` in order, starting
/// from no columns.
pub open spec fn inserted(given: Seq<(String, Seq<Option<i64>>)>, k: int) -> Seq<
    (String, Seq<Option<i64>>),
>
    decreases k,
{
    if k <= 0 {
        seq![]
    } else {
        with_column(inserted(given, k - 1), given[k - 1].0, given[k - 1].1)
    }
}

/// Columns with distinct names are set one after the other, unchanged.
proof fn lemma_inserted_unique(given: Seq<(String, Seq<Option<i64>>)>, k: int)
    requires
        0 <= k <= given.len(),
        unique_names(given),
    ensures
        inserted(given, k) == given.take(k),
    decreases k,
{
    if k > 0 {
        lemma_inserted_unique(given, k - 1);
        let prev = given.take(k - 1);
        assert forall|i: int| 0 <= i < prev.len() implies #[trigger] prev[i].0@ != given[k
            - 1].0@ by {
            assert(prev[i] == given[i]);
        }
        lemma_find_column_none(prev, given[k - 1].0@, 0);
        assert(prev.push(given[k - 1]) =~= given.take(k));
    }
}

/// Row `r` of `cols`: each column's name with its value there.
pub open spec fn row_of(cols: Seq<(String, Seq<Option<i64>>)>, r: int) -> Seq<(String, Option<i64>)> {
    Seq::new(cols.len(), |j: int| (cols[j].0, cols[j].1[r]))
}

/// The first `k` rows of `cols`, or the first column that lacks one of them.
pub open spec fn rows_upto(cols: Seq<(String, Seq<Option<i64>>)>, k: int) -> Result<
    Seq<Seq<(String, Option<i64>)>>,
    DataSetRowsError,
>
    decreases k,
{
    if k <= 0 {
        Ok(seq![])
    } else {
        match rows_upto(cols, k - 1) {
            Err(e) => Err(e),
            Ok(s) => match first_short(cols, k - 1, 0) {
                Some(e) => Err(e),
                None => Ok(s.push(row_of(cols, k - 1))),
            },
        }
    }
}

/// Once a row is missing, every longer prefix of rows fails the same way.
proof fn lemma_rows_error_persists(cols: Seq<(String, Seq<Option<i64>>)>, k: int, k2: int)
    requires
        0 <= k <= k2,
        rows_upto(cols, k) is Err,
    ensures
        rows_upto(cols, k2) == rows_upto(cols, k),
    decreases k2 - k,
{
    if k2 > k {
        lemma_rows_error_persists(cols, k, k2 - 1);
    }
}

/// Every column of `cols` has `n` rows.
pub open spec fn all_rows(cols: Seq<(String, Seq<Option<i64>>)>, n: int) -> bool {
    forall|j: int| 0 <= j < cols.len() ==> #[trigger] cols[j].1.len() == n
}

/// The column names of `cols` are pairwise distinct.
pub open spec fn unique_names(cols: Seq<(String, Seq<Option<i64>>)>) -> bool {
    forall|a: int, b: int|
        0 <= a < b < cols.len() ==> #[trigger] cols[a].0@ != #[trigger] cols[b].0@
}

/// The score of the candidate whose threshold is the value of column `j` at
/// row `i`; `None` when that value is missing or the split is not viable.
pub open spec fn candidate(
    cols: Seq<(String, Seq<Option<i64>>)>,
    target: Seq<bool>,
    f: ScoringFunction,
    j: int,
    i: int,
) -> Option<SplitScore> {
    match cols[j].1[i] {
        Some(v) => f.split_score_spec(target, mask_of(cols[j].1, v)),
        None => None,
    }
}

/// The candidate at column `j`, row `i`, with its position.
pub open spec fn candidate_at(
    cols: Seq<(String, Seq<Option<i64>>)>,
    target: Seq<bool>,
    f: ScoringFunction,
    j: int,
    i: int,
) -> Option<Candidate> {
    match candidate(cols, target, f, j, i) {
        Some(s) => Some((j as usize, i as usize, s)),
        None => None,
    }
}

/// The better of two candidates: the second only where it scores strictly lower.
pub open spec fn pick_better(a: Option<Candidate>, b: Option<Candidate>) -> Option<Candidate> {
    match (a, b) {
        (None, _) => b,
        (_, None) => a,
        (Some(x), Some(y)) => if x.2.score.le_spec(&y.2.score) {
            a
        } else {
            b
        },
    }
}

/// The best candidate among those of the columns before `j` and the first `i`
/// rows of column `j`, ties going to the first.
pub open spec fn best_upto(
    cols: Seq<(String, Seq<Option<i64>>)>,
    target: Seq<bool>,
    f: ScoringFunction,
    j: int,
    i: int,
) -> Option<Candidate>
    decreases j, i,
{
    if j <= 0 && i <= 0 {
        None
    } else if i > 0 {
        pick_better(best_upto(cols, target, f, j, i - 1), candidate_at(cols, target, f, j, i - 1))
    } else {
        best_upto(cols, target, f, j - 1, cols[j - 1].1.len() as int)
    }
}

/// The best candidate of the whole data set.
pub open spec fn best_split_spec(
    cols: Seq<(String, Seq<Option<i64>>)>,
    target: Seq<bool>,
    f: ScoringFunction,
) -> Option<Candidate> {
    best_upto(cols, target, f, cols.len() as int, 0)
}

/// The better of two candidates, the first on a tie: the reduction that the
/// split search applies, in order, to all candidates.
pub fn better_candidate(a: Option<Candidate>, b: Option<Candidate>) -> (r: Option<Candidate>)
    requires
        a matches Some(x) ==> x.2.score.wf(),
        b matches Some(y) ==> y.2.score.wf(),
    ensures
        r == pick_better(a, b),
{
    match (a, b) {
        (None, _) => b,
        (_, None) => a,
        (Some(x), Some(y)) => if x.2.score.le(&y.2.score) {
            a
        } else {
            b
        },
    }
}

impl View for DataSet {
    type V = Seq<(String, Seq<Option<i64>>)>;

    closed spec fn view(&self) -> Seq<(String, Seq<Option<i64>>)> {
        Seq::new(self.columns@.len(), |j: int| (self.columns@[j].0, self.columns@[j].1@))
    }
}

impl DataSet {
    /// An empty data set.
    pub fn new() -> (r: DataSet)
        ensures
            r@ == Seq::<(String, Seq<Option<i64>>)>::empty(),
    {
        let r = DataSet { columns: Vec::new() };
        assert(r@ =~= Seq::<(String, Seq<Option<i64>>)>::empty());
        r
    }

    /// Sets the column `name` to `values`: in place where a column of that
    /// name exists, else as a new last column.
    pub fn insert(&mut self, name: String, values: Vec<Option<i64>>)
        ensures
            final(self)@ == with_column(old(self)@, name, values@),
            unique_names(old(self)@) ==> unique_names(final(self)@),
    {
        let mut j: usize = 0;
        while j < self.columns.len()
            invariant
                j <= self.columns@.len(),
                self@ == old(self)@,
                self@.len() == self.columns@.len(),
                find_column(self@, name@, 0) == find_column(self@, name@, j as int),
                forall|k: int| 0 <= k < j ==> #[trigger] self@[k].0@ != name@,
            decreases self.columns.len() - j,
        {
            assert(self@[j as int].0 == self.columns@[j as int].0);
            if self.columns[j].0 == name {
                let ghost before = self@;
                self.columns.set(j, (name, values));
                assert(self@ =~= before.update(j as int, (name, values@)));
                return;
            }
            j = j + 1;
        }
        let ghost before = self@;
        self.columns.push((name, values));
        assert(self@ =~= before.push((name, values@)));
    }

    /// A data set of the given columns, set in order as [`DataSet::insert`]
    /// does: with distinct names, exactly the given columns.
    pub fn from_columns(columns: Vec<(String, Vec<Option<i64>>)>) -> (r: DataSet)
        ensures
            r@ == inserted(columns_view(columns@), columns@.len() as int),
            unique_names(columns_view(columns@)) ==> r@ == columns_view(columns@),
            unique_names(r@),
    {
        let ghost given = columns_view(columns@);
        let ghost all = columns@;
        let mut r = DataSet::new();
        let mut columns = columns;
        let ghost mut i: int = 0;
        while columns.len() > 0
            invariant
                0 <= i <= all.len(),
                columns@ == all.subrange(i, all.len() as int),
                given == columns_view(all),
                r@ == inserted(given, i),
                unique_names(r@),
            decreases columns.len(),
        {
            let (name, values) = columns.remove(0);
            assert(name == given[i].0 && values@ == given[i].1);
            r.insert(name, values);
            proof {
                i = i + 1;
            }
            assert(columns@ =~= all.subrange(i, all.len() as int));
        }
        proof {
            if unique_names(given) {
                lemma_inserted_unique(given, given.len() as int);
                assert(given.take(given.len() as int) =~= given);
            }
        }
        r
    }

    /// Number of columns.
    pub fn len(&self) -> (r: usize)
        ensures
            r == self@.len(),
    {
        self.columns.len()
    }

    /// The name and values of column `j`.
    pub fn column(&self, j: usize) -> (r: (&String, &Vec<Option<i64>>))
        requires
            j < self@.len(),
        ensures
            *r.0 == self@[j as int].0,
            r.1@ == self@[j as int].1,
    {
        (&self.columns[j].0, &self.columns[j].1)
    }

    /// Number of rows: the length of the longest column; `EmptyDF` without columns.
    pub fn num_rows(&self) -> (r: Result<usize, DataSetRowsError>)
        ensures
            self@.len() == 0 ==> r == Err::<usize, DataSetRowsError>(DataSetRowsError::EmptyDF),
            self@.len() > 0 ==> r == Ok::<usize, DataSetRowsError>(max_len(self@) as usize),
            self@.len() > 0 ==> max_len(self@) <= usize::MAX,
    {
        if self.columns.len() == 0 {
            return Err(DataSetRowsError::EmptyDF);
        }
        let mut n: usize = 0;
        let mut j: usize = 0;
        while j < self.columns.len()
            invariant
                j <= self@.len(),
                n == max_len(self@.take(j as int)),
            decreases self.columns.len() - j,
        {
            assert(self@.take(j as int + 1).drop_last() =~= self@.take(j as int));
            assert(self@[j as int].1.len() == self.columns@[j as int].1.len());
            if self.columns[j].1.len() > n {
                n = self.columns[j].1.len();
            }
            j = j + 1;
        }
        assert(self@.take(j as int) =~= self@);
        Ok(n)
    }

    /// Every row, as each column's name with its value there; `EmptyDF`
    /// without columns, else the first column shorter than the longest one,
    /// with the first row it lacks.
    pub fn rows(&self) -> (r: Result<Vec<Vec<(String, Option<i64>)>>, DataSetRowsError>)
        ensures
            self@.len() == 0 ==> r == Err::<Vec<Vec<(String, Option<i64>)>>, DataSetRowsError>(
                DataSetRowsError::EmptyDF,
            ),
            self@.len() > 0 ==> match rows_upto(self@, max_len(self@) as int) {
                Err(e) => r == Err::<Vec<Vec<(String, Option<i64>)>>, DataSetRowsError>(e),
                Ok(s) => (r matches Ok(v) && v@.len() == s.len() && forall|k: int|
                    0 <= k < s.len() ==> #[trigger] v@[k]@ == s[k]),
            },
    {
        let n = match self.num_rows() {
            Ok(n) => n,
            Err(e) => {
                return Err(e);
            },
        };
        let mut out: Vec<Vec<(String, Option<i64>)>> = Vec::new();
        let mut row: usize = 0;
        while row < n
            invariant
                row <= n,
                n == max_len(self@),
                self@.len() > 0,
                rows_upto(self@, row as int) matches Ok(s) && out@.len() == s.len() && forall|k: int|
                    0 <= k < s.len() ==> #[trigger] out@[k]@ == s[k],
            decreases n - row,
        {
            let ghost prev = rows_upto(self@, row as int).unwrap();
            let mut cells: Vec<(String, Option<i64>)> = Vec::new();
            let mut j: usize = 0;
            while j < self.columns.len()
                invariant
                    j <= self@.len(),
                    first_short(self@, row as int, 0) == first_short(self@, row as int, j as int),
                    forall|k: int| 0 <= k < j ==> row < #[trigger] self@[k].1.len(),
                    cells@ =~= row_of(self@, row as int).take(j as int),
                    row < n,
                    n == max_len(self@),
                    self@.len() > 0,
                    rows_upto(self@, row as int) == Ok::<
                        Seq<Seq<(String, Option<i64>)>>,
                        DataSetRowsError,
                    >(prev),
                    out@.len() == prev.len(),
                    forall|k: int| 0 <= k < prev.len() ==> #[trigger] out@[k]@ == prev[k],
                decreases self@.len() - j,
            {
                assert(self@[j as int] == (self.columns@[j as int].0, self.columns@[j as int].1@));
                if self.columns[j].1.len() <= row {
                    let name = self.columns[j].0.clone();
                    proof {
                        assert(first_short(self@, row as int, j as int) == Some(
                            DataSetRowsError::IllFormedColumn(name, row),
                        ));
                        assert(rows_upto(self@, row as int + 1) == Err::<
                            Seq<Seq<(String, Option<i64>)>>,
                            DataSetRowsError,
                        >(DataSetRowsError::IllFormedColumn(name, row)));
                        lemma_rows_error_persists(self@, row as int + 1, n as int);
                    }
                    return Err(DataSetRowsError::IllFormedColumn(name, row));
                }
                cells.push((self.columns[j].0.clone(), self.columns[j].1[row]));
                j = j + 1;
            }
            out.push(cells);
            proof {
                assert(rows_upto(self@, row as int + 1) == Ok::<
                    Seq<Seq<(String, Option<i64>)>>,
                    DataSetRowsError,
                >(prev.push(row_of(self@, row as int))));
            }
            row = row + 1;
        }
        Ok(out)
    }

    /// Splits every column by `mask`, missing rows going as `null_direction`.
    pub fn split(&self, mask: &Vec<Option<bool>>, null_direction: NullDirection) -> (r: (
        DataSet,
        DataSet,
    ))
        requires
            all_rows(self@, mask@.len() as int),
        ensures
            r.0@.len() == self@.len(),
            r.1@.len() == self@.len(),
            forall|j: int|
                0 <= j < self@.len() ==> #[trigger] r.0@[j] == (
                    self@[j].0,
                    route(self@[j].1, mask@, null_direction, true),
                ),
            forall|j: int|
                0 <= j < self@.len() ==> #[trigger] r.1@[j] == (
                    self@[j].0,
                    route(self@[j].1, mask@, null_direction, false),
                ),
    {
        let mut left: Vec<(String, Vec<Option<i64>>)> = Vec::new();
        let mut right: Vec<(String, Vec<Option<i64>>)> = Vec::new();
        let mut j: usize = 0;
        while j < self.columns.len()
            invariant
                j <= self@.len(),
                all_rows(self@, mask@.len() as int),
                left@.len() == j,
                right@.len() == j,
                forall|k: int| 0 <= k < j ==> #[trigger] left@[k].0 == self@[k].0,
                forall|k: int| 0 <= k < j ==> #[trigger] right@[k].0 == self@[k].0,
                forall|k: int|
                    0 <= k < j ==> #[trigger] left@[k].1@ == route(self@[k].1, mask@, null_direction, true),
                forall|k: int|
                    0 <= k < j ==> #[trigger] right@[k].1@ == route(self@[k].1, mask@, null_direction, false),
            decreases self.columns.len() - j,
        {
            assert(self@[j as int].1.len() == mask@.len());
            let (l, r) = partition(&self.columns[j].1, mask, null_direction);
            let name = self.columns[j].0.clone();
            assert(name == self@[j as int].0 && self.columns@[j as int].1@ == self@[j as int].1);
            left.push((name, l));
            right.push((self.columns[j].0.clone(), r));
            j = j + 1;
        }
        let dl = DataSet { columns: left };
        let dr = DataSet { columns: right };
        assert forall|k: int| 0 <= k < self@.len() implies #[trigger] dl@[k] == (
            self@[k].0,
            route(self@[k].1, mask@, null_direction, true),
        ) by {
            assert(dl@[k] == (left@[k].0, left@[k].1@));
        }
        assert forall|k: int| 0 <= k < self@.len() implies #[trigger] dr@[k] == (
            self@[k].0,
            route(self@[k].1, mask@, null_direction, false),
        ) by {
            assert(dr@[k] == (right@[k].0, right@[k].1@));
        }
        (dl, dr)
    }

    /// The best split of `target` over every column and every present value
    /// of it as threshold, with its mask: the lowest score, ties going to the
    /// earliest column and row. `NoSplitRequired` when no candidate is viable.
    pub fn find_best_split(&self, target: &Vec<bool>, score_function: &ScoringFunction) -> (r:
        Result<(SplitInfo, Vec<Option<bool>>), BestSplitNotFound>)
        requires
            score_function.wf(),
            target.len() <= MAX_ROWS,
            all_rows(self@, target.len() as int),
        ensures
            match best_split_spec(self@, target@, *score_function) {
                None => r == Err::<(SplitInfo, Vec<Option<bool>>), BestSplitNotFound>(
                    BestSplitNotFound::NoSplitRequired,
                ),
                Some(c) => (r matches Ok((info, mask)) && 0 <= c.0 < self@.len() && 0 <= c.1
                    < self@[c.0 as int].1.len() && self@[c.0 as int].1[c.1 as int] == Some(
                    info.value,
                ) && info.name == self@[c.0 as int].0 && info.score == c.2 && candidate(
                    self@,
                    target@,
                    *score_function,
                    c.0 as int,
                    c.1 as int,
                ) == Some(c.2) && mask@ == mask_of(
                    self@[c.0 as int].1,
                    info.value,
                )),
            },
    {
        let mut best: Option<Candidate> = None;
        let mut j: usize = 0;
        while j < self.columns.len()
            invariant
                j <= self@.len(),
                score_function.wf(),
                target.len() <= MAX_ROWS,
                all_rows(self@, target.len() as int),
                best == best_upto(self@, target@, *score_function, j as int, 0),
                best matches Some(b) ==> b.2.score.wf() && b.0 < j && b.1 < self@[b.0 as int].1.len()
                    && self@[b.0 as int].1[b.1 as int] is Some && candidate(
                    self@,
                    target@,
                    *score_function,
                    b.0 as int,
                    b.1 as int,
                ) == Some(b.2),
            decreases self.columns.len() - j,
        {
            let col = &self.columns[j].1;
            assert(col@ == self@[j as int].1);
            let mut i: usize = 0;
            while i < col.len()
                invariant
                    j < self@.len(),
                    col@ == self@[j as int].1,
                    i <= col.len(),
                    score_function.wf(),
                    target.len() <= MAX_ROWS,
                    all_rows(self@, target.len() as int),
                    best == best_upto(self@, target@, *score_function, j as int, i as int),
                    best matches Some(b) ==> b.2.score.wf() && b.0 <= j && b.1 < self@[b.0 as int].1.len()
                        && self@[b.0 as int].1[b.1 as int] is Some && candidate(
                        self@,
                        target@,
                        *score_function,
                        b.0 as int,
                        b.1 as int,
                    ) == Some(b.2),
                decreases col.len() - i,
            {
                let cand: Option<Candidate> = match col[i] {
                    Some(v) => {
                        let mask = col.mask(v);
                        match score_function.split_score(target, &mask) {
                            Some(s) => Some((j, i, s)),
                            None => None,
                        }
                    },
                    None => None,
                };
                assert(cand == candidate_at(self@, target@, *score_function, j as int, i as int));
                best = better_candidate(best, cand);
                i = i + 1;
            }
            assert(best_upto(self@, target@, *score_function, j as int + 1, 0) == best_upto(
                self@,
                target@,
                *score_function,
                j as int,
                self@[j as int].1.len() as int,
            ));
            j = j + 1;
        }
        match best {
            None => Err(BestSplitNotFound::NoSplitRequired),
            Some((bj, bi, score)) => {
                let col = &self.columns[bj].1;
                assert(col@ == self@[bj as int].1);
                let value = col[bi].unwrap();
                let mask = col.mask(value);
                Ok((SplitInfo { name: self.columns[bj].0.clone(), value, score }, mask))
            },
        }
    }
}

/// How many rows go to a side does not depend on what the rows hold.
pub proof fn lemma_route_len_same<A, B>(
    a: Seq<A>,
    b: Seq<B>,
    mask: Seq<Option<bool>>,
    dir: NullDirection,
    left: bool,
    k: int,
)
    ensures
        route_upto(a, mask, dir, left, k).len() == route_upto(b, mask, dir, left, k).len(),
    decreases k,
{
    if k > 0 {
        lemma_route_len_same(a, b, mask, dir, left, k - 1);
    }
}

/// The rows that go left and those that go right are all the rows.
pub proof fn lemma_route_total<A>(values: Seq<A>, mask: Seq<Option<bool>>, dir: NullDirection, k: int)
    requires
        k >= 0,
    ensures
        route_upto(values, mask, dir, true, k).len() + route_upto(values, mask, dir, false, k).len()
            == k,
    decreases k,
{
    if k > 0 {
        lemma_route_total(values, mask, dir, k - 1);
    }
}

/// The labels sent to a side are as many as the scoring counts, and hold as
/// many `true` labels.
pub proof fn lemma_route_counts(
    target: Seq<bool>,
    mask: Seq<Option<bool>>,
    dir: NullDirection,
    left: bool,
    k: int,
)
    requires
        0 <= k <= target.len(),
    ensures
        route_upto(target, mask, dir, left, k).len() == tally(target, mask, dir, left, true, k)
            + tally(target, mask, dir, left, false, k),
        count_true(route_upto(target, mask, dir, left, k)) == tally(
            target,
            mask,
            dir,
            left,
            true,
            k,
        ),
    decreases k,
{
    if k > 0 {
        lemma_route_counts(target, mask, dir, left, k - 1);
        let p = route_upto(target, mask, dir, left, k - 1);
        if goes_left(mask[k - 1], dir) == left {
            assert(p.push(target[k - 1]).drop_last() =~= p);
        }
    }
}

/// Column `j2`, row `i2` comes before column `j`, row `i` in search order.
pub open spec fn before(j2: int, i2: int, j: int, i: int) -> bool {
    j2 < j || (j2 == j && i2 < i)
}

/// Column `j`, row `i` is a position of `cols`.
pub open spec fn valid_pos(cols: Seq<(String, Seq<Option<i64>>)>, j: int, i: int) -> bool {
    0 <= j < cols.len() && 0 <= i < cols[j].1.len()
}

/// What the search has established once it has passed every position before
/// column `j`, row `i`: its best is a candidate scoring no worse than any
/// candidate passed, and strictly better than those passed before it.
pub open spec fn first_minimum_upto(
    cols: Seq<(String, Seq<Option<i64>>)>,
    target: Seq<bool>,
    f: ScoringFunction,
    j: int,
    i: int,
) -> bool {
    match best_upto(cols, target, f, j, i) {
        None => forall|j2: int, i2: int|
            valid_pos(cols, j2, i2) && before(j2, i2, j, i) ==> #[trigger] candidate(
                cols,
                target,
                f,
                j2,
                i2,
            ) is None,
        Some(c) => {
            &&& valid_pos(cols, c.0 as int, c.1 as int)
            &&& before(c.0 as int, c.1 as int, j, i)
            &&& candidate(cols, target, f, c.0 as int, c.1 as int) == Some(c.2)
            &&& forall|j2: int, i2: int|
                valid_pos(cols, j2, i2) && before(j2, i2, j, i) && #[trigger] candidate(
                    cols,
                    target,
                    f,
                    j2,
                    i2,
                ) is Some ==> c.2.score.le_spec(&candidate(cols, target, f, j2, i2).unwrap().score)
                    && (before(j2, i2, c.0 as int, c.1 as int) ==> !candidate(
                    cols,
                    target,
                    f,
                    j2,
                    i2,
                ).unwrap().score.le_spec(&c.2.score))
        },
    }
}

#[verifier::rlimit(60)]
pub proof fn lemma_first_minimum_upto(
    cols: Seq<(String, Seq<Option<i64>>)>,
    target: Seq<bool>,
    f: ScoringFunction,
    j: int,
    i: int,
)
    requires
        f.wf(),
        target.len() <= MAX_ROWS,
        all_rows(cols, target.len() as int),
        cols.len() <= usize::MAX,
        target.len() <= usize::MAX,
        0 <= j <= cols.len(),
        j < cols.len() ==> 0 <= i <= cols[j].1.len(),
        j == cols.len() ==> i == 0,
    ensures
        first_minimum_upto(cols, target, f, j, i),
    decreases j, i,
{
    if j <= 0 && i <= 0 {
    } else if i > 0 {
        lemma_first_minimum_upto(cols, target, f, j, i - 1);
        let prev = best_upto(cols, target, f, j, i - 1);
        let cand = candidate_at(cols, target, f, j, i - 1);
        match cols[j].1[i - 1] {
            Some(v) => lemma_split_score_wf(f, target, mask_of(cols[j].1, v)),
            None => {},
        }
        match prev {
            None => {},
            Some(p) => {
                match cols[p.0 as int].1[p.1 as int] {
                    Some(v) => lemma_split_score_wf(f, target, mask_of(cols[p.0 as int].1, v)),
                    None => {},
                }
                match cand {
                    None => {},
                    Some(c) => {
                        if !p.2.score.le_spec(&c.2.score) {
                            assert forall|j2: int, i2: int|
                                valid_pos(cols, j2, i2) && before(j2, i2, j, i) && #[trigger] candidate(
                                    cols,
                                    target,
                                    f,
                                    j2,
                                    i2,
                                ) is Some implies c.2.score.le_spec(
                                &candidate(cols, target, f, j2, i2).unwrap().score,
                            ) && (before(j2, i2, c.0 as int, c.1 as int) ==> !candidate(
                                cols,
                                target,
                                f,
                                j2,
                                i2,
                            ).unwrap().score.le_spec(&c.2.score)) by {
                                let s = candidate(cols, target, f, j2, i2).unwrap().score;
                                match cols[j2].1[i2] {
                                    Some(v) => lemma_split_score_wf(
                                        f,
                                        target,
                                        mask_of(cols[j2].1, v),
                                    ),
                                    None => {},
                                }
                                if before(j2, i2, j, i - 1) {
                                    lemma_le_total(c.2.score, p.2.score);
                                    lemma_le_transitive(c.2.score, p.2.score, s);
                                    if s.le_spec(&c.2.score) {
                                        lemma_le_transitive(p.2.score, s, c.2.score);
                                    }
                                } else {
                                    lemma_le_total(s, s);
                                }
                            }
                        } else {
                            assert forall|j2: int, i2: int|
                                valid_pos(cols, j2, i2) && before(j2, i2, j, i) && #[trigger] candidate(
                                    cols,
                                    target,
                                    f,
                                    j2,
                                    i2,
                                ) is Some implies p.2.score.le_spec(
                                &candidate(cols, target, f, j2, i2).unwrap().score,
                            ) && (before(j2, i2, p.0 as int, p.1 as int) ==> !candidate(
                                cols,
                                target,
                                f,
                                j2,
                                i2,
                            ).unwrap().score.le_spec(&p.2.score)) by {
                                if !before(j2, i2, j, i - 1) {
                                    assert(j2 == j && i2 == i - 1);
                                }
                            }
                        }
                    },
                }
            },
        }
    } else {
        lemma_first_minimum_upto(cols, target, f, j - 1, cols[j - 1].1.len() as int);
        assert forall|j2: int, i2: int| valid_pos(cols, j2, i2) implies before(j2, i2, j, i)
            == before(j2, i2, j - 1, cols[j - 1].1.len() as int) by {
        }
    }
}

} // verus!
