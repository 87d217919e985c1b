use libm::log2;
use search_evaluation::domain::judgment::IdealResult;
use search_evaluation::domain::label::{Label, Labels};
use search_evaluation::domain::search_result::{EvaluationResult, SearchResult, SearchResults};

fn judged(document_id: &str, gain: f64) -> IdealResult {
    IdealResult {
        document_id: document_id.to_string(),
        impairment_gain: gain.to_bits(),
    }
}

fn discounted_sum(gains: &[u64]) -> f64 {
    let mut score = 0.0;
    for (index, gain) in gains.iter().enumerate() {
        score += 1.0 / log2(index as f64 + 2.0) * f64::from_bits(*gain);
    }
    score
}

fn ranking(query_id: &str, document_ids: &[&str]) -> SearchResult {
    SearchResult {
        query_id: query_id.to_string(),
        document_ids: document_ids.iter().map(|d| d.to_string()).collect(),
    }
}

#[test]
fn test_search_result_evaluate() {
    let search_result = SearchResult {
        query_id: "query1".to_string(),
        document_ids: vec!["doc1".to_string(), "doc2".to_string(), "doc3".to_string()],
    };
    let labels = Labels::new(vec![Label::new(
        "query1".to_string(),
        vec![judged("doc2", 0.2), judged("doc1", 0.5), judged("doc3", 1.0)],
    )]);

    let actual = search_result.evaluate(&labels);
    assert_eq!(
        actual,
        EvaluationResult {
            ideal_gains: vec![1.0f64.to_bits(), 0.5f64.to_bits(), 0.2f64.to_bits()],
            gains: vec![0.5f64.to_bits(), 0.2f64.to_bits(), 1.0f64.to_bits()],
        }
    );
    assert_eq!(
        discounted_sum(&actual.ideal_gains),
        1.0 / log2(2.0) * 1.0 + 1.0 / log2(3.0) * 0.5 + 1.0 / log2(4.0) * 0.2
    );
    assert_eq!(
        discounted_sum(&actual.gains),
        1.0 / log2(2.0) * 0.5 + 1.0 / log2(3.0) * 0.2 + 1.0 / log2(4.0) * 1.0
    );
}

#[test]
fn test_search_result_evaluate_none_label() {
    let search_result = SearchResult {
        query_id: "query1".to_string(),
        document_ids: vec!["doc1".to_string(), "doc2".to_string(), "doc3".to_string()],
    };
    let labels = Labels::new(vec![Label::new(
        "query2".to_string(),
        vec![judged("doc2", 0.2), judged("doc1", 0.5), judged("doc3", 1.0)],
    )]);

    let actual = search_result.evaluate(&labels);
    assert_eq!(
        actual,
        EvaluationResult {
            ideal_gains: vec![],
            gains: vec![],
        }
    );
    assert_eq!(discounted_sum(&actual.ideal_gains), 0.0);
    assert_eq!(discounted_sum(&actual.gains), 0.0);
}

#[test]
fn test_search_result_evaluate_none_gain() {
    let search_result = SearchResult {
        query_id: "query1".to_string(),
        document_ids: vec!["doc1".to_string(), "doc2".to_string(), "doc3".to_string()],
    };
    let labels = Labels::new(vec![Label::new(
        "query1".to_string(),
        vec![judged("doc4", 0.2), judged("doc1", 0.5), judged("doc3", 1.0)],
    )]);

    let actual = search_result.evaluate(&labels);
    assert_eq!(
        actual,
        EvaluationResult {
            ideal_gains: vec![1.0f64.to_bits(), 0.5f64.to_bits(), 0.2f64.to_bits()],
            gains: vec![0.5f64.to_bits(), 0.0f64.to_bits(), 1.0f64.to_bits()],
        }
    );
    assert_eq!(
        discounted_sum(&actual.ideal_gains),
        1.0 / log2(2.0) * 1.0 + 1.0 / log2(3.0) * 0.5 + 1.0 / log2(4.0) * 0.2
    );
    assert_eq!(
        discounted_sum(&actual.gains),
        1.0 / log2(2.0) * 0.5 + 0.0 + 1.0 / log2(4.0) * 1.0
    );
}

#[test]
fn the_ideal_order_collects_the_ideal_gains() {
    let labels = Labels::new(vec![Label::new(
        "query1".to_string(),
        vec![judged("doc1", 0.5), judged("doc2", 0.2), judged("doc3", 1.0)],
    )]);
    let actual = ranking("query1", &["doc3", "doc1", "doc2"]).evaluate(&labels);
    assert_eq!(actual.gains, actual.ideal_gains);
    assert_eq!(
        discounted_sum(&actual.gains),
        discounted_sum(&actual.ideal_gains)
    );
}

#[test]
fn no_order_of_the_judged_documents_scores_above_the_ideal() {
    let labels = Labels::new(vec![Label::new(
        "q".to_string(),
        vec![
            judged("a", 0.5),
            judged("b", 0.2),
            judged("c", 1.0),
            judged("d", 3.0),
        ],
    )]);
    let documents = ["a", "b", "c", "d"];
    let mut best = f64::NEG_INFINITY;
    let mut ideal = 0.0;
    let mut seen = 0;
    for i in 0..4 {
        for j in 0..4 {
            for k in 0..4 {
                for l in 0..4 {
                    if i == j || i == k || i == l || j == k || j == l || k == l {
                        continue;
                    }
                    let order = [documents[i], documents[j], documents[k], documents[l]];
                    let actual = ranking("q", &order).evaluate(&labels);
                    let dcg = discounted_sum(&actual.gains);
                    ideal = discounted_sum(&actual.ideal_gains);
                    assert!(dcg <= ideal);
                    if dcg > best {
                        best = dcg;
                    }
                    seen += 1;
                }
            }
        }
    }
    assert_eq!(seen, 24);
    assert_eq!(best, ideal);
    assert_eq!(
        ideal,
        1.0 / log2(2.0) * 3.0 + 1.0 / log2(3.0) * 1.0 + 1.0 / log2(4.0) * 0.5 + 1.0 / log2(5.0) * 0.2
    );
}

#[test]
fn a_label_is_the_same_for_every_order_of_its_judgments() {
    let entries = [judged("doc1", 0.5), judged("doc2", 0.2), judged("doc3", 1.0)];
    let reference = Label::new("query1".to_string(), entries.to_vec());
    let orders = [[0, 1, 2], [0, 2, 1], [1, 0, 2], [1, 2, 0], [2, 0, 1], [2, 1, 0]];
    for order in orders {
        let given: Vec<IdealResult> = order.iter().map(|i| entries[*i].clone()).collect();
        let label = Label::new("query1".to_string(), given);
        assert_eq!(label, reference);
        assert_eq!(label.gains(), reference.gains());
        assert_eq!(
            discounted_sum(&label.gains()),
            discounted_sum(&reference.gains())
        );
    }
}

#[test]
fn a_query_without_judgments_scores_zero() {
    let labels = Labels::new(vec![Label::new("query1".to_string(), vec![])]);
    let actual = ranking("query1", &["doc1", "doc2"]).evaluate(&labels);
    assert_eq!(actual.ideal_gains, Vec::<u64>::new());
    assert_eq!(actual.gains, vec![0u64, 0u64]);
    assert_eq!(discounted_sum(&actual.ideal_gains), 0.0);
    assert_eq!(discounted_sum(&actual.gains), 0.0);
}

#[test]
fn an_unknown_query_scores_zero_whatever_was_returned() {
    let labels = Labels::new(vec![Label::new(
        "query1".to_string(),
        vec![judged("doc1", 0.5)],
    )]);
    for documents in [vec![], vec!["doc1"], vec!["doc1", "doc1", "x"]] {
        let actual = ranking("query2", &documents).evaluate(&labels);
        assert!(actual.ideal_gains.is_empty());
        assert!(actual.gains.is_empty());
        assert_eq!(discounted_sum(&actual.gains), 0.0);
    }
    let none = Labels::new(vec![]);
    let actual = ranking("query1", &["doc1"]).evaluate(&none);
    assert!(actual.ideal_gains.is_empty() && actual.gains.is_empty());
}

#[test]
fn an_unjudged_document_collects_zero_at_its_rank() {
    let labels = Labels::new(vec![Label::new(
        "q".to_string(),
        vec![judged("a", 2.0), judged("b", 1.0)],
    )]);
    let actual = ranking("q", &["x", "a", "y", "b"]).evaluate(&labels);
    assert_eq!(
        actual.gains,
        vec![0u64, 2.0f64.to_bits(), 0u64, 1.0f64.to_bits()]
    );
    assert_eq!(
        discounted_sum(&actual.gains),
        1.0 / log2(3.0) * 2.0 + 1.0 / log2(5.0) * 1.0
    );
}

#[test]
fn a_document_returned_twice_collects_twice() {
    let labels = Labels::new(vec![Label::new(
        "q".to_string(),
        vec![judged("a", 2.0), judged("b", 1.0)],
    )]);
    let actual = ranking("q", &["a", "a", "b"]).evaluate(&labels);
    assert_eq!(
        actual.gains,
        vec![2.0f64.to_bits(), 2.0f64.to_bits(), 1.0f64.to_bits()]
    );
    assert_eq!(
        actual.ideal_gains,
        vec![2.0f64.to_bits(), 1.0f64.to_bits()]
    );
}

#[test]
fn rankings_are_held_by_value() {
    let results = SearchResults {
        list: vec![ranking("q", &["a"]), ranking("r", &[])],
    };
    assert_eq!(results.list.len(), 2);
    assert_eq!(results.list[0], ranking("q", &["a"]));
    assert_ne!(results.list[0], results.list[1]);
}
