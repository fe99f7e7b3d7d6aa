use kyt::split::better_candidate;
use kyt::{
    BestSplitNotFound, DataSet, DataSetRowsError, DivergencePolicy, Gini, Logit, NullDirection,
    Ratio, ScoringFunction, SplitInfo, SplitScore, Target, Tree, TreeConfig, TreeError,
};

fn leaf(num: i128, den: u128) -> Tree {
    Tree {
        split_info: None,
        left: None,
        right: None,
        prediction: Some(Ratio::new(num, den)),
    }
}

fn node(name: &str, value: i64, score: Ratio, dir: NullDirection, l: Tree, r: Tree) -> Tree {
    Tree {
        split_info: Some(SplitInfo::new(
            name.to_string(),
            value,
            SplitScore {
                score,
                null_direction: dir,
            },
        )),
        left: Some(Box::new(l)),
        right: Some(Box::new(r)),
        prediction: None,
    }
}

fn f1(values: Vec<Option<i64>>) -> DataSet {
    DataSet::from_columns(vec![("F1".to_string(), values)])
}

#[test]
fn separable_data_gives_pure_leaves() {
    let data = DataSet::from_columns(vec![
        ("noise".to_string(), vec![Some(5), Some(1), Some(5), Some(1)]),
        ("F1".to_string(), vec![Some(10), Some(20), Some(30), Some(40)]),
    ]);
    let target = vec![false, false, true, true];
    let tree = Tree::fit(&data, &target, &TreeConfig { max_depth: 3 }, &ScoringFunction::Gini(Gini))
        .unwrap();
    let expected = node(
        "F1",
        30,
        Ratio::new(0, 1),
        NullDirection::Left,
        leaf(0, 1),
        leaf(1, 1),
    );
    assert_eq!(tree, expected);
}

#[test]
fn depth_zero_is_one_leaf() {
    let data = f1(vec![Some(1), Some(2), Some(3), None]);
    let target = vec![true, false, true, true];
    let gini = Tree::fit(&data, &target, &TreeConfig { max_depth: 0 }, &ScoringFunction::Gini(Gini))
        .unwrap();
    assert_eq!(gini, leaf(3, 4));
    let logit = ScoringFunction::Logit(Logit::new(1, 2));
    let tree = Tree::fit(&data, &target, &TreeConfig { max_depth: 0 }, &logit).unwrap();
    // -(Σgrad)/(Σhess) = -(4·1/2 - 3)/(4·1/4) = 1
    assert_eq!(tree, leaf(1, 1));
    assert_eq!(Some(logit.pred(&target)), tree.prediction);
}

#[test]
fn split_keeps_every_row() {
    let data = DataSet::from_columns(vec![
        ("a".to_string(), vec![Some(1), None, Some(3), Some(4), None]),
        ("b".to_string(), vec![Some(9), Some(8), Some(7), Some(6), Some(5)]),
    ]);
    let target = vec![true, false, true, false, true];
    let mask = vec![Some(true), None, Some(false), Some(true), None];
    for dir in [NullDirection::Left, NullDirection::Right] {
        let (l, r) = data.split(&mask, dir);
        let (lt, rt) = target.split(&mask, dir);
        assert_eq!(lt.len() + rt.len(), target.len());
        for j in 0..data.len() {
            assert_eq!(l.column(j).1.len() + r.column(j).1.len(), 5);
            assert_eq!(l.column(j).1.len(), lt.len());
        }
        assert_eq!(l.num_rows(), Ok(lt.len()));
        assert_eq!(r.num_rows(), Ok(rt.len()));
    }
    let (l, r) = data.split(&mask, NullDirection::Right);
    assert_eq!(l.column(1).1, &vec![Some(9), Some(6)]);
    assert_eq!(r.column(1).1, &vec![Some(8), Some(7), Some(5)]);
}

#[test]
fn missing_value_follows_null_direction() {
    let tree = node(
        "F1",
        2,
        Ratio::new(0, 1),
        NullDirection::Left,
        leaf(7, 1),
        leaf(-3, 1),
    );
    let data = DataSet::from_columns(vec![
        ("other".to_string(), vec![Some(100), Some(-100)]),
        ("F1".to_string(), vec![None, None]),
    ]);
    assert_eq!(tree.predict(&data), Ok(vec![Ratio::new(7, 1), Ratio::new(7, 1)]));
    let right = node(
        "F1",
        2,
        Ratio::new(0, 1),
        NullDirection::Right,
        leaf(7, 1),
        leaf(-3, 1),
    );
    assert_eq!(right.predict(&data), Ok(vec![Ratio::new(-3, 1), Ratio::new(-3, 1)]));
}

#[test]
fn fitting_twice_gives_the_same_tree() {
    let data = DataSet::from_columns(vec![
        ("x".to_string(), vec![Some(3), Some(1), None, Some(4), Some(1), Some(5)]),
        ("y".to_string(), vec![Some(2), Some(7), Some(1), None, Some(8), Some(2)]),
    ]);
    let target = vec![true, false, true, false, false, true];
    let cfg = TreeConfig { max_depth: 3 };
    for f in [ScoringFunction::Gini(Gini), ScoringFunction::Logit(Logit::new(1, 3))] {
        let a = Tree::fit(&data, &target, &cfg, &f);
        let b = Tree::fit(&data, &target, &cfg, &f);
        assert!(a.is_ok());
        assert_eq!(a, b);
    }
}

#[test]
fn empty_data_set_is_rejected() {
    let data = DataSet::new();
    let r = Tree::fit(&data, &vec![true], &TreeConfig { max_depth: 1 }, &ScoringFunction::Gini(Gini));
    assert_eq!(r, Err(TreeError::DataSetRowsError(DataSetRowsError::EmptyDF)));
    assert_eq!(data.num_rows(), Err(DataSetRowsError::EmptyDF));
    assert_eq!(
        leaf(1, 1).predict(&data),
        Err(TreeError::DataSetRowsError(DataSetRowsError::EmptyDF))
    );
}

#[test]
fn empty_target_is_rejected() {
    let data = f1(vec![]);
    let r = Tree::fit(&data, &vec![], &TreeConfig { max_depth: 1 }, &ScoringFunction::Gini(Gini));
    assert_eq!(r, Err(TreeError::DataSetRowsError(DataSetRowsError::EmptyDF)));
}

#[test]
fn ragged_column_is_rejected() {
    let data = DataSet::from_columns(vec![
        ("F1".to_string(), vec![Some(1), Some(2), Some(3)]),
        ("F2".to_string(), vec![Some(1), Some(2)]),
    ]);
    let r = Tree::fit(&data, &vec![true, false, true], &TreeConfig { max_depth: 1 }, &ScoringFunction::Gini(Gini));
    assert_eq!(
        r,
        Err(TreeError::DataSetRowsError(DataSetRowsError::IllFormedColumn("F2".to_string(), 2)))
    );
    assert_eq!(data.num_rows(), Ok(3));
    let tree = leaf(1, 2);
    assert_eq!(
        tree.predict(&data),
        Err(TreeError::DataSetRowsError(DataSetRowsError::IllFormedColumn("F2".to_string(), 2)))
    );
}

#[test]
fn unknown_feature_and_empty_leaf() {
    let tree = node("G", 1, Ratio::new(0, 1), NullDirection::Left, leaf(1, 1), leaf(0, 1));
    assert_eq!(
        tree.predict(&f1(vec![Some(1)])),
        Err(TreeError::CouldNotFindFeature("G".to_string()))
    );
    let broken = Tree {
        split_info: None,
        left: None,
        right: None,
        prediction: None,
    };
    assert_eq!(broken.predict(&f1(vec![Some(1)])), Err(TreeError::NoPredictionInLeaf));
}

#[test]
fn constant_feature_needs_no_split() {
    let data = f1(vec![Some(4), Some(4), Some(4)]);
    let r = data.find_best_split(&vec![true, false, true], &ScoringFunction::Gini(Gini));
    assert_eq!(r.err(), Some(BestSplitNotFound::NoSplitRequired));
    let tree = Tree::fit(&data, &vec![true, false, true], &TreeConfig { max_depth: 4 }, &ScoringFunction::Gini(Gini));
    assert_eq!(tree, Ok(leaf(2, 3)));
}

#[test]
fn ties_go_to_the_first_candidate() {
    let data = f1(vec![Some(1), Some(2), Some(3), Some(4)]);
    let target = vec![true, false, true, false];
    let (info, mask) = data.find_best_split(&target, &ScoringFunction::Gini(Gini)).unwrap();
    // thresholds 2 and 4 both give weighted impurity 1/3
    assert_eq!(info.value, 2);
    assert_eq!(info.score.score, Ratio::new(1, 3));
    assert_eq!(mask, vec![Some(true), Some(false), Some(false), Some(false)]);
    let twins = DataSet::from_columns(vec![
        ("a".to_string(), vec![Some(1), Some(2)]),
        ("b".to_string(), vec![Some(1), Some(2)]),
    ]);
    let (info, _) = twins.find_best_split(&vec![true, false], &ScoringFunction::Gini(Gini)).unwrap();
    assert_eq!(info.name, "a");
}

#[test]
fn shallow_tree_has_exact_leaves() {
    let data = f1(vec![Some(1), Some(2), Some(3), Some(4)]);
    let target = vec![true, false, true, false];
    let tree = Tree::fit(&data, &target, &TreeConfig { max_depth: 1 }, &ScoringFunction::Gini(Gini)).unwrap();
    let expected = node("F1", 2, Ratio::new(1, 3), NullDirection::Left, leaf(1, 1), leaf(1, 3));
    assert_eq!(tree, expected);
}

#[test]
fn keep_policy_keeps_diverging_children() {
    let data = f1(vec![Some(1), Some(2), Some(3)]);
    let target = vec![true, false, false];
    let f = ScoringFunction::Logit(Logit::new(1, 2));
    let tree =
        Tree::fit_with_policy(&data, &target, &TreeConfig { max_depth: 2 }, &f, DivergencePolicy::Keep)
            .unwrap();
    let right = node("F1", 3, Ratio::new(0, 1), NullDirection::Left, leaf(-2, 1), leaf(-2, 1));
    let expected = node("F1", 2, Ratio::new(-8, 3), NullDirection::Left, leaf(2, 1), right);
    assert_eq!(tree, expected);
}

#[test]
fn missing_rows_go_where_impurity_is_lower() {
    let target = vec![true, true, false, false];
    let mask = vec![Some(true), None, Some(false), Some(false)];
    let s = ScoringFunction::Gini(Gini).split_score(&target, &mask).unwrap();
    assert_eq!(s.null_direction, NullDirection::Left);
    assert_eq!(s.score, Ratio::new(0, 1));
    let mask = vec![Some(true), Some(true), None, Some(false)];
    let s = ScoringFunction::Gini(Gini).split_score(&target, &mask).unwrap();
    assert_eq!(s.null_direction, NullDirection::Right);
    // no row goes right: sending the missing row left scores the whole set,
    // which is pure, and ties go left
    let s = ScoringFunction::Gini(Gini)
        .split_score(&vec![true, true], &vec![Some(true), None])
        .unwrap();
    assert_eq!(s.null_direction, NullDirection::Left);
    assert_eq!(s.score, Ratio::new(0, 1));
    // no row goes left: sending the missing row right scores the whole set
    let s = ScoringFunction::Gini(Gini)
        .split_score(&vec![true, false, true], &vec![None, Some(false), Some(false)])
        .unwrap();
    assert_eq!(s.null_direction, NullDirection::Left);
    assert_eq!(s.score, Ratio::new(1, 3));
    let s = ScoringFunction::Gini(Gini)
        .split_score(&vec![true, true, false], &vec![Some(true), None, Some(true)])
        .unwrap();
    assert_eq!(s.null_direction, NullDirection::Right);
    assert_eq!(s.score, Ratio::new(1, 3));
    // Logit leaves out a place that empties a side
    let s = ScoringFunction::Logit(Logit::new(1, 2))
        .split_score(&vec![true, true, false], &vec![Some(true), None, Some(true)])
        .unwrap();
    assert_eq!(s.null_direction, NullDirection::Right);
    // all rows on one side, or all missing: no viable split
    assert_eq!(ScoringFunction::Gini(Gini).split_score(&target, &vec![None; 4]), None);
    assert_eq!(ScoringFunction::Gini(Gini).split_score(&target, &vec![Some(true); 4]), None);
    assert_eq!(
        ScoringFunction::Logit(Logit::new(1, 2)).split_score(&target, &vec![Some(false); 4]),
        None
    );
}

#[test]
fn logit_scores_are_exact() {
    let f = ScoringFunction::Logit(Logit::new(1, 4));
    let target = vec![true, false, false, true];
    let s = f.split_score(&target, &vec![Some(true), Some(true), Some(false), Some(false)]).unwrap();
    assert_eq!(s.score, Ratio::new(0, 1));
    let s = f.split_score(&target, &vec![Some(true), Some(false), Some(false), Some(false)]).unwrap();
    // D = 1·1 - 1·3 = -2, d = 4: -(16·4)/(1·3·4·3) = -16/9
    assert_eq!(s.score, Ratio::new(-16, 9));
    // leaf: d(t·d - n·s)/(n·s(d-s)) = 4(8 - 4)/(4·3) = 4/3
    assert_eq!(f.pred(&target), Ratio::new(4, 3));
}

#[test]
fn ratio_order_and_equality() {
    let a = Ratio::new(-8, 3);
    let b = Ratio::new(-16, 6);
    assert_eq!(a, b);
    assert!(a.le(&b) && b.le(&a));
    assert!(Ratio::new(1, 3).le(&Ratio::new(1, 2)));
    assert!(!Ratio::new(1, 2).le(&Ratio::new(1, 3)));
    assert!(Ratio::new(-1, 2).le(&Ratio::new(0, 5)));
    assert!(Ratio::new(i128::MAX, u128::MAX).le(&Ratio::new(i128::MAX, u128::MAX - 1)));
    assert!(!Ratio::new(i128::MAX, u128::MAX - 1).le(&Ratio::new(i128::MAX, u128::MAX)));
    assert_ne!(Ratio::new(2, 3), Ratio::new(3, 4));
    assert!(Ratio::new(0, 9).is_zero());
}

#[test]
fn insert_replaces_a_column_of_the_same_name() {
    let mut data = DataSet::new();
    data.insert("a".to_string(), vec![Some(1)]);
    data.insert("b".to_string(), vec![Some(2)]);
    data.insert("a".to_string(), vec![Some(3), None]);
    assert_eq!(data.len(), 2);
    assert_eq!(data.column(0).0, "a");
    assert_eq!(data.column(0).1, &vec![Some(3), None]);
    assert_eq!(data.num_rows(), Ok(2));
}

#[test]
fn reduction_keeps_the_earlier_of_equal_scores() {
    let s = |n: i128, d: u128| SplitScore {
        score: Ratio::new(n, d),
        null_direction: NullDirection::Left,
    };
    let a = Some((0, 1, s(1, 3)));
    let b = Some((1, 0, s(2, 6)));
    let c = Some((2, 2, s(1, 4)));
    assert_eq!(better_candidate(a, b), a);
    assert_eq!(better_candidate(b, a), b);
    assert_eq!(better_candidate(a, c), c);
    assert_eq!(better_candidate(None, b), b);
    assert_eq!(
        better_candidate(better_candidate(a, b), c),
        better_candidate(a, better_candidate(b, c))
    );
}

#[test]
fn grad_and_hess_for_a_false_label() {
    let (g, h) = Logit::new(1, 4).grad_and_hess(false);
    assert_eq!(g, Ratio::new(1, 4));
    assert_eq!(h, Ratio::new(3, 16));
}

#[test]
fn from_columns_keeps_order_and_replaces_repeats() {
    let data = DataSet::from_columns(vec![
        ("z".to_string(), vec![Some(1)]),
        ("a".to_string(), vec![None]),
        ("z".to_string(), vec![Some(5)]),
    ]);
    assert_eq!(data.len(), 2);
    assert_eq!(data.column(0), (&"z".to_string(), &vec![Some(5)]));
    assert_eq!(data.column(1), (&"a".to_string(), &vec![None]));
}

#[test]
fn rows_pair_names_with_values() {
    let data = DataSet::from_columns(vec![
        ("a".to_string(), vec![Some(1), None]),
        ("b".to_string(), vec![Some(3), Some(4)]),
    ]);
    assert_eq!(
        data.rows(),
        Ok(vec![
            vec![("a".to_string(), Some(1)), ("b".to_string(), Some(3))],
            vec![("a".to_string(), None), ("b".to_string(), Some(4))],
        ])
    );
    let ragged = DataSet::from_columns(vec![
        ("a".to_string(), vec![Some(1), Some(2)]),
        ("b".to_string(), vec![Some(3)]),
    ]);
    assert_eq!(
        ragged.rows(),
        Err(DataSetRowsError::IllFormedColumn("b".to_string(), 1))
    );
    assert_eq!(DataSet::new().rows(), Err(DataSetRowsError::EmptyDF));
}
