use segment::filter::{
    check_optimized_filter, NestedOptimizedFilter, OptimizedCondition, OptimizedFilter,
};

fn empty_filter() -> OptimizedFilter {
    OptimizedFilter { should: None, must: None, must_not: None, nested: None }
}

fn table(matching: &[u32]) -> OptimizedCondition {
    let len = matching.iter().cloned().max().map(|m| m as usize + 1).unwrap_or(0);
    let mut bits = vec![false; len];
    for id in matching {
        bits[*id as usize] = true;
    }
    OptimizedCondition::Checker(bits)
}

#[test]
fn empty_filter_matches_everything() {
    let filter = empty_filter();
    assert!(check_optimized_filter(&filter, 0));
    assert!(check_optimized_filter(&filter, 12345));
}

#[test]
fn should_needs_one_match() {
    let mut filter = empty_filter();
    filter.should = Some(vec![table(&[1, 2]), table(&[4])]);
    assert!(check_optimized_filter(&filter, 2));
    assert!(check_optimized_filter(&filter, 4));
    assert!(!check_optimized_filter(&filter, 3));
    assert!(!check_optimized_filter(&filter, 100));
}

#[test]
fn must_needs_every_match() {
    let mut filter = empty_filter();
    filter.must = Some(vec![table(&[1, 2, 3]), table(&[2, 3, 4])]);
    assert!(check_optimized_filter(&filter, 2));
    assert!(check_optimized_filter(&filter, 3));
    assert!(!check_optimized_filter(&filter, 1));
    assert!(!check_optimized_filter(&filter, 4));
}

#[test]
fn must_not_rejects_any_match() {
    let mut filter = empty_filter();
    filter.must_not = Some(vec![table(&[5])]);
    assert!(check_optimized_filter(&filter, 4));
    assert!(!check_optimized_filter(&filter, 5));
}

#[test]
fn nested_consults_only_inner_must() {
    let mut inner = empty_filter();
    inner.must = Some(vec![table(&[7, 8]), table(&[8])]);
    // only the inner `must` counts, and every checker in it has to match;
    // these two would reject 8 if they were consulted
    inner.must_not = Some(vec![table(&[8])]);
    inner.should = Some(vec![table(&[9])]);
    let mut filter = empty_filter();
    filter.nested = Some(Box::new(NestedOptimizedFilter {
        path: String::from("payload.part"),
        filter: inner,
    }));
    assert!(check_optimized_filter(&filter, 8));
    // 7 passes the first inner checker but not the second
    assert!(!check_optimized_filter(&filter, 7));
    assert!(!check_optimized_filter(&filter, 9));
}

#[test]
fn subfilters_combine_with_short_circuit_semantics() {
    let mut sub = empty_filter();
    sub.should = Some(vec![table(&[1]), table(&[2])]);
    let mut filter = empty_filter();
    filter.must = Some(vec![OptimizedCondition::Filter(sub), table(&[1, 3])]);
    assert!(check_optimized_filter(&filter, 1));
    assert!(!check_optimized_filter(&filter, 2));
    assert!(!check_optimized_filter(&filter, 3));
}
