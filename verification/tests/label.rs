use libm::log2;
use search_evaluation::domain::judgment::IdealResult;
use search_evaluation::domain::label::{Label, Labels};

fn judged(document_id: &str, gain: f64) -> IdealResult {
    IdealResult {
        document_id: document_id.to_string(),
        impairment_gain: gain.to_bits(),
    }
}

fn discounted_sum(gains: &[u64]) -> f64 {
    let mut score = 0.0;
    for (index, gain) in gains.iter().enumerate() {
        score += 1.0 / log2(index as f64 + 2.0) * f64::from_bits(*gain);
    }
    score
}

fn relative_eq(left: f64, right: f64) -> bool {
    if left == right {
        return true;
    }
    let largest = left.abs().max(right.abs());
    (left - right).abs() <= f64::EPSILON || (left - right).abs() <= largest * f64::EPSILON
}

#[test]
fn test_labels_new() {
    let label1 = Label::new("query1".to_string(), vec![]);
    let label2 = Label::new("query2".to_string(), vec![]);
    let actual = Labels::new(vec![label1.clone(), label2.clone()]);
    assert_eq!(actual.get("query1"), Some(&label1));
    assert_eq!(actual.get("query2"), Some(&label2));
    assert_eq!(actual.get("query3"), None);
    assert_eq!(actual.get(""), None);
}

#[test]
fn test_labels_get() {
    let label1 = Label::new("query1".to_string(), vec![]);
    let label2 = Label::new("query2".to_string(), vec![]);
    let labels = Labels::new(vec![label1, label2.clone()]);
    let actual = labels.get("query2");
    assert_eq!(actual, Some(&label2));
}

#[test]
fn test_labels_get_none() {
    let label1 = Label::new("query1".to_string(), vec![]);
    let labels = Labels::new(vec![label1]);
    let actual = labels.get("query2");
    assert_eq!(actual, None);
}

#[test]
fn test_label_new() {
    let ideal_result_1 = judged("doc_1", 0.5);
    let ideal_result_2 = judged("doc_2", 0.2);
    let ideal_result_3 = judged("doc_3", 1.0);
    let ideal_result_4 = judged("doc_4", 0.2);
    let ideal_result_5 = judged("doc_5", 0.5);
    let ideal_result_6 = judged("doc_6", 1.0);
    let actual = Label::new(
        "query1".to_string(),
        vec![
            ideal_result_1.clone(),
            ideal_result_2.clone(),
            ideal_result_3.clone(),
            ideal_result_4.clone(),
            ideal_result_5.clone(),
            ideal_result_6.clone(),
        ],
    );
    assert_eq!(actual.query_id(), "query1");
    assert_eq!(
        actual.ideal_results(),
        &vec![
            ideal_result_3.clone(),
            ideal_result_6.clone(),
            ideal_result_1.clone(),
            ideal_result_5.clone(),
            ideal_result_2.clone(),
            ideal_result_4.clone(),
        ]
    );
    assert_eq!(actual.get_gain("doc_1"), Some(0.5f64.to_bits()));
    assert_eq!(actual.get_gain("doc_2"), Some(0.2f64.to_bits()));
    assert_eq!(actual.get_gain("doc_3"), Some(1.0f64.to_bits()));
    assert_eq!(actual.get_gain("doc_4"), Some(0.2f64.to_bits()));
    assert_eq!(actual.get_gain("doc_5"), Some(0.5f64.to_bits()));
    assert_eq!(actual.get_gain("doc_6"), Some(1.0f64.to_bits()));
    assert_eq!(actual.get_gain("doc_7"), None);
}

#[test]
fn test_label_score() {
    let label = Label::new(
        "query1".to_string(),
        vec![
            judged("doc_3", 1.0),
            judged("doc_6", 1.0),
            judged("doc_1", 0.5),
            judged("doc_5", 0.5),
            judged("doc_2", 0.2),
            judged("doc_4", 0.2),
        ],
    );
    let gains = label.gains();
    assert_eq!(
        gains,
        vec![
            1.0f64.to_bits(),
            1.0f64.to_bits(),
            0.5f64.to_bits(),
            0.5f64.to_bits(),
            0.2f64.to_bits(),
            0.2f64.to_bits(),
        ]
    );
    assert!(relative_eq(
        discounted_sum(&gains),
        1.0 / log2(2.0) * 1.0
            + 1.0 / log2(3.0) * 1.0
            + 1.0 / log2(4.0) * 0.5
            + 1.0 / log2(5.0) * 0.5
            + 1.0 / log2(6.0) * 0.2
            + 1.0 / log2(7.0) * 0.2
    ));
}

#[test]
fn label_of_no_judgments_is_empty() {
    let label = Label::new("query1".to_string(), vec![]);
    assert_eq!(label.query_id(), "query1");
    assert!(label.ideal_results().is_empty());
    assert!(label.gains().is_empty());
    assert_eq!(label.get_gain("doc1"), None);
    assert_eq!(discounted_sum(&label.gains()), 0.0);
}

#[test]
fn equal_gains_keep_the_order_given() {
    let label = Label::new(
        "q".to_string(),
        vec![
            judged("b", 0.5),
            judged("a", 0.5),
            judged("z", 2.0),
            judged("c", 0.5),
            judged("y", 2.0),
        ],
    );
    let order: Vec<&str> = label
        .ideal_results()
        .iter()
        .map(|r| r.document_id.as_str())
        .collect();
    assert_eq!(order, vec!["z", "y", "b", "a", "c"]);
}

#[test]
fn both_zeros_are_one_gain() {
    let label = Label::new(
        "q".to_string(),
        vec![
            judged("minus", -0.0),
            judged("plus", 0.0),
            judged("below", -1.0),
            judged("above", 1.0e-300),
        ],
    );
    let order: Vec<&str> = label
        .ideal_results()
        .iter()
        .map(|r| r.document_id.as_str())
        .collect();
    assert_eq!(order, vec!["above", "minus", "plus", "below"]);
}

#[test]
fn negative_and_infinite_gains_are_ordered_as_numbers() {
    let label = Label::new(
        "q".to_string(),
        vec![
            judged("a", -2.5),
            judged("b", f64::NEG_INFINITY),
            judged("c", 3.0),
            judged("d", f64::INFINITY),
            judged("e", -0.25),
            judged("f", 5.0e-324),
        ],
    );
    let order: Vec<&str> = label
        .ideal_results()
        .iter()
        .map(|r| r.document_id.as_str())
        .collect();
    assert_eq!(order, vec!["d", "c", "f", "e", "a", "b"]);
}

#[test]
fn a_gain_that_is_no_number_stops_nothing() {
    let given = vec![
        judged("a", 2.0),
        judged("n", f64::NAN),
        judged("b", 3.0),
        judged("c", 1.0),
        judged("d", 4.0),
    ];
    let label = Label::new("q".to_string(), given.clone());
    let ranked = label.ideal_results();
    assert_eq!(ranked.len(), given.len());
    for entry in &given {
        assert_eq!(ranked.iter().filter(|r| *r == entry).count(), 1);
    }
    for pair in ranked.windows(2) {
        let left = f64::from_bits(pair[0].impairment_gain);
        let right = f64::from_bits(pair[1].impairment_gain);
        assert!(!(left < right));
    }
    let order: Vec<&str> = ranked.iter().map(|r| r.document_id.as_str()).collect();
    assert_eq!(order, vec!["a", "n", "d", "b", "c"]);
}

#[test]
fn a_document_judged_twice_has_the_gain_ranked_last() {
    let label = Label::new(
        "q".to_string(),
        vec![judged("d", 0.2), judged("e", 0.7), judged("d", 0.9)],
    );
    assert_eq!(label.get_gain("d"), Some(0.2f64.to_bits()));
    assert_eq!(label.get_gain("e"), Some(0.7f64.to_bits()));
    let tied = Label::new(
        "q".to_string(),
        vec![judged("d", 0.0), judged("d", -0.0)],
    );
    assert_eq!(tied.get_gain("d"), Some((-0.0f64).to_bits()));
}

#[test]
fn of_two_labels_for_one_query_the_later_is_kept() {
    let first = Label::new("q".to_string(), vec![judged("a", 1.0)]);
    let second = Label::new("q".to_string(), vec![judged("b", 2.0)]);
    let other = Label::new("r".to_string(), vec![]);
    let labels = Labels::new(vec![first.clone(), other.clone(), second.clone()]);
    assert_eq!(labels.get("q"), Some(&second));
    assert_eq!(labels.get("r"), Some(&other));
    let labels = Labels::new(vec![second, other, first.clone()]);
    assert_eq!(labels.get("q"), Some(&first));
}

#[test]
fn names_are_told_apart_by_every_character() {
    let label = Label::new(
        "q".to_string(),
        vec![
            judged("caf\u{e9}", 1.0),
            judged("cafe", 2.0),
            judged("", 3.0),
            judged("caf", 4.0),
            judged("\u{1f600}", 5.0),
        ],
    );
    assert_eq!(label.get_gain("caf\u{e9}"), Some(1.0f64.to_bits()));
    assert_eq!(label.get_gain("cafe"), Some(2.0f64.to_bits()));
    assert_eq!(label.get_gain(""), Some(3.0f64.to_bits()));
    assert_eq!(label.get_gain("caf"), Some(4.0f64.to_bits()));
    assert_eq!(label.get_gain("\u{1f600}"), Some(5.0f64.to_bits()));
    assert_eq!(label.get_gain("cafes"), None);
    assert_eq!(label.get_gain("Cafe"), None);
}

#[test]
fn a_copy_of_a_label_says_the_same() {
    let label = Label::new(
        "query1".to_string(),
        vec![judged("doc1", 0.5), judged("doc2", 0.2), judged("doc3", 1.0)],
    );
    let copy = label.clone();
    assert_eq!(copy, label);
    assert_eq!(copy.query_id(), "query1");
    assert_eq!(copy.gains(), label.gains());
    let single = IdealResult::new("doc1".to_string(), 0.5f64.to_bits());
    assert_eq!(single.duplicate(), judged("doc1", 0.5));
}
