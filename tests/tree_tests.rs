use kyt::{
    DataSet, Feature, Gini, Logit, NullDirection, Ratio, ScoringFunction, SplitInfo, SplitScore,
    Tree, TreeConfig,
};

fn leaf(num: i128, den: u128) -> Tree {
    Tree {
        split_info: None,
        left: None,
        right: None,
        prediction: Some(Ratio::new(num, den)),
    }
}

fn one_feature(name: &str, values: Vec<Option<i64>>) -> DataSet {
    DataSet::from_columns(vec![(name.to_string(), values)])
}

fn logit_tree() -> Tree {
    Tree {
        split_info: Some(SplitInfo::new(
            "F1".to_string(),
            2,
            SplitScore {
                score: Ratio::new(-8, 3),
                null_direction: NullDirection::Left,
            },
        )),
        left: Some(Box::new(leaf(2, 1))),
        right: Some(Box::new(leaf(-2, 1))),
        prediction: None,
    }
}

#[test]
fn test_stuff() {
    let logit = Logit::new(1, 2);
    let g = Ratio::new(-1, 2);
    let h = Ratio::new(1, 4);
    let (g_res, h_res) = logit.grad_and_hess(true);
    assert_eq!(g, g_res, "Wrong grad for Logit");
    assert_eq!(h, h_res, "Wrong hess for Logit");
}

#[test]
fn mod_test_tree() {
    let data = one_feature("F1", vec![Some(1), Some(2), Some(3)]);
    let target = vec![true, false, false];
    let tree_config = TreeConfig { max_depth: 2 };
    let score_fn = ScoringFunction::Gini(Gini);
    let tree = Tree::fit(&data, &target, &tree_config, &score_fn);
    let output_tree = Tree {
        split_info: Some(SplitInfo::new(
            "F1".to_string(),
            2,
            SplitScore {
                score: Ratio::new(0, 1),
                null_direction: NullDirection::Left,
            },
        )),
        left: Some(Box::new(leaf(1, 1))),
        right: Some(Box::new(leaf(0, 1))),
        prediction: None,
    };
    assert_eq!(
        output_tree,
        tree.expect("Tree did not fit correctly"),
        "Tree did not fit correctly"
    );
}

#[test]
fn test_with_logit() {
    let data = one_feature("F1", vec![Some(1), Some(2), Some(3)]);
    let target = vec![true, false, false];
    let tree_config = TreeConfig { max_depth: 2 };
    let score_fn = ScoringFunction::Logit(Logit::new(1, 2));
    let tree = Tree::fit(&data, &target, &tree_config, &score_fn);
    assert_eq!(
        logit_tree(),
        tree.expect("Tree did not fit correctly"),
        "Tree did not fit correctly"
    );
}

#[test]
fn mod_test_prediction() {
    let output_tree = logit_tree();
    let dataset = one_feature("F1", vec![Some(1), Some(3)]);
    let pred = output_tree.predict(&dataset).unwrap();
    assert_eq!(vec![Ratio::new(2, 1), Ratio::new(-2, 1)], pred, "Wrong predictions")
}

fn check_best_split(values: Vec<Option<i64>>) {
    let data = one_feature("sample", values);
    let target = vec![true, false];
    let score_fn = ScoringFunction::Gini(Gini);
    let (info, filter_mask) = data
        .find_best_split(&target, &score_fn)
        .expect("No split found");
    assert_eq!(info.name, "sample", "Wrong column index");
    assert_eq!(filter_mask, vec![Some(true), Some(false)]);
    assert_eq!(info.value, 2, "Wrong threshold");
}

#[test]
fn test_best_split_ints() {
    check_best_split(vec![Some(1), Some(2)]);
}

#[test]
fn test_best_split() {
    check_best_split(vec![Some(1), Some(2)]);
}

#[test]
fn test_mask_split() {
    let data: Vec<Option<i64>> = vec![Some(1), None, Some(2)];
    let result = data.mask(2);
    let output = vec![Some(true), None, Some(false)];
    assert_eq!(output, result, "Filtermask broken")
}

#[test]
fn test_possible_splits() {
    let data: Vec<Option<i64>> = vec![Some(1), None, Some(2)];
    let splits = data.find_splits();
    let first_output = Some((1, vec![Some(false), None, Some(false)]));
    let second_result = Some((2, vec![Some(true), None, Some(false)]));
    assert_eq!(
        first_output,
        splits.first().map(|s| (*s, data.mask(*s))),
        "Wrong first candidate"
    );
    assert_eq!(
        second_result,
        splits.get(1).map(|s| (*s, data.mask(*s))),
        "Wrong second candidate"
    );
}

#[test]
fn test_logit_split() {
    let df = one_feature("f1", vec![Some(1), Some(2), Some(3)]);
    let tar = vec![true, true, false];
    let score_fn = ScoringFunction::Logit(Logit::new(1, 2));
    if let Ok((split_info, _)) = df.find_best_split(&tar, &score_fn) {
        assert_eq!("f1".to_string(), split_info.name, "Wrong split col");
        assert_eq!(3, split_info.value, "Wrong split point");
    } else {
        panic!("Cannot find split")
    };
}

#[test]
fn test_logit_split_score() {
    let tar = vec![true, true, false];
    let score_fn = ScoringFunction::Logit(Logit::new(1, 2));
    // gains 1 + 0 and 2 + 1, less the unsplit gain 1/3
    let filter_1 = vec![Some(true), Some(false), Some(false)];
    let res_1 = score_fn.split_score(&tar, &filter_1);
    assert_eq!(Ratio::new(-2, 3), res_1.unwrap().score, "Wrong Score");

    let filter_2 = vec![Some(true), Some(true), Some(false)];
    let res_2 = score_fn.split_score(&tar, &filter_2);
    assert_eq!(Ratio::new(-8, 3), res_2.unwrap().score, "Wrong Score");
}

#[test]
fn test_null_feat() {
    let feat_split = vec![Some(1), None, None].find_splits()[0];
    assert_eq!(1, feat_split, "Wrong splits for null vals")
}

#[test]
fn tree_test_tree() {
    let data = one_feature("sample", vec![Some(1), Some(2), None]);
    let target = vec![true, false, false];
    let tree_config = TreeConfig { max_depth: 2 };
    let score_fn = ScoringFunction::Gini(Gini);
    let tree = Tree::fit(&data, &target, &tree_config, &score_fn);
    // the missing row is labelled like the right side, so sending it right
    // leaves both sides pure
    let output_tree = Tree {
        split_info: Some(SplitInfo::new(
            "sample".to_string(),
            2,
            SplitScore {
                score: Ratio::new(0, 1),
                null_direction: NullDirection::Right,
            },
        )),
        left: Some(Box::new(leaf(1, 1))),
        right: Some(Box::new(leaf(0, 1))),
        prediction: None,
    };
    assert_eq!(tree, Ok(output_tree), "Tree did not fit correctly");
}

#[test]
fn tree_test_prediction() {
    let tree = Tree {
        split_info: Some(SplitInfo::new(
            "sample".to_string(),
            2,
            SplitScore {
                score: Ratio::new(0, 1),
                null_direction: NullDirection::Left,
            },
        )),
        left: Some(Box::new(leaf(1, 1))),
        right: Some(Box::new(leaf(0, 1))),
        prediction: None,
    };
    let samples = one_feature("sample", vec![Some(1), Some(2), Some(3), None]);
    let out = tree.predict(&samples).unwrap();
    assert_eq!(
        out,
        vec![
            Ratio::new(1, 1),
            Ratio::new(0, 1),
            Ratio::new(0, 1),
            Ratio::new(1, 1)
        ]
    );
}
