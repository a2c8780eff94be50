use rbe::{Bag, BagError, Cardinality, CardinalityError, FailureReason, MatchResult, Max, Rbe};

fn bag_of(entries: &[(&str, usize)]) -> Bag {
    let mut bag = Bag::new();
    for (k, n) in entries {
        bag.insert_n(k.to_string(), *n);
    }
    bag
}

fn symbol(key: &str, min: usize, max: Max) -> Rbe {
    Rbe::symbol(key.to_string(), min, max).unwrap()
}

#[test]
fn exactly_one_passes_only_for_one() {
    let e = symbol("k", 1, Max::IntMax(1));
    for n in 0..5 {
        let r = rbe::matcher::matches(&e, &bag_of(&[("k", n)]), false);
        assert_eq!(r.is_pass(), n == 1, "n = {n}");
    }
    assert_eq!(
        rbe::matcher::matches(&e, &bag_of(&[("k", 2)]), false),
        MatchResult::Fail(FailureReason::CardinalityMismatch {
            key: "k".to_string(),
            expected: Cardinality::one(),
            actual: 2,
        })
    );
    assert_eq!(
        rbe::matcher::matches(&e, &Bag::new(), true),
        MatchResult::Fail(FailureReason::CardinalityMismatch {
            key: "k".to_string(),
            expected: Cardinality::one(),
            actual: 0,
        })
    );
}

#[test]
fn zero_or_more_accepts_empty_bag() {
    let e = symbol("k", 0, Max::Unbounded);
    assert_eq!(rbe::matcher::matches(&e, &Bag::new(), false), MatchResult::Pass);
    assert_eq!(rbe::matcher::matches(&e, &bag_of(&[("k", 7)]), false), MatchResult::Pass);
}

#[test]
fn and_with_unexpected_key() {
    let e = Rbe::and(vec![
        symbol("a", 1, Max::IntMax(1)),
        symbol("b", 1, Max::Unbounded),
    ]);
    assert_eq!(rbe::matcher::matches(&e, &bag_of(&[("a", 1), ("b", 3)]), false), MatchResult::Pass);
    let with_c = bag_of(&[("a", 1), ("b", 3), ("c", 1)]);
    assert_eq!(
        rbe::matcher::matches(&e, &with_c, false),
        MatchResult::Fail(FailureReason::UnexpectedKey {
            key: "c".to_string()
        })
    );
    assert_eq!(rbe::matcher::matches(&e, &with_c, true), MatchResult::Pass);
    assert_eq!(
        rbe::matcher::matches(&e, &bag_of(&[("a", 2), ("b", 3)]), false),
        MatchResult::Fail(FailureReason::NoValidPartition)
    );
}

#[test]
fn or_takes_one_alternative() {
    let e = Rbe::or(vec![
        symbol("a", 1, Max::IntMax(1)),
        symbol("b", 1, Max::IntMax(1)),
    ]);
    assert_eq!(rbe::matcher::matches(&e, &bag_of(&[("a", 1)]), false), MatchResult::Pass);
    assert_eq!(rbe::matcher::matches(&e, &bag_of(&[("b", 1)]), false), MatchResult::Pass);
    assert_eq!(
        rbe::matcher::matches(&e, &bag_of(&[("a", 1), ("b", 1)]), false),
        MatchResult::Fail(FailureReason::AlternativesExhausted)
    );
    let both = Rbe::and(vec![
        Rbe::or(vec![symbol("a", 1, Max::IntMax(1))]),
        Rbe::or(vec![symbol("b", 1, Max::IntMax(1))]),
    ]);
    assert_eq!(rbe::matcher::matches(&both, &bag_of(&[("a", 1), ("b", 1)]), false), MatchResult::Pass);
}

#[test]
fn repeated_runs_agree() {
    let e = Rbe::and(vec![
        symbol("a", 1, Max::IntMax(2)),
        Rbe::or(vec![symbol("a", 2, Max::IntMax(2)), symbol("b", 1, Max::IntMax(1))]),
    ]);
    for bag in [
        bag_of(&[("a", 3)]),
        bag_of(&[("a", 1), ("b", 1)]),
        bag_of(&[("a", 5)]),
    ] {
        let first = rbe::matcher::matches(&e, &bag, false);
        for _ in 0..3 {
            assert_eq!(rbe::matcher::matches(&e, &bag, false), first);
        }
    }
}

#[test]
fn foo_scenarios() {
    let e = symbol("foo", 1, Max::IntMax(1));
    assert_eq!(rbe::matcher::matches(&e, &bag_of(&[("foo", 1)]), false), MatchResult::Pass);
    assert_eq!(
        rbe::matcher::matches(&e, &bag_of(&[("foo", 1), ("other", 1)]), false),
        MatchResult::Fail(FailureReason::UnexpectedKey {
            key: "other".to_string()
        })
    );
}

#[test]
fn empty_expression() {
    let e = Rbe::empty();
    assert_eq!(rbe::matcher::matches(&e, &Bag::new(), false), MatchResult::Pass);
    assert_eq!(
        rbe::matcher::matches(&e, &bag_of(&[("x", 1)]), false),
        MatchResult::Fail(FailureReason::UnexpectedKey {
            key: "x".to_string()
        })
    );
    assert_eq!(rbe::matcher::matches(&e, &bag_of(&[("x", 1)]), true), MatchResult::Pass);
    assert_eq!(rbe::matcher::matches(&e, &bag_of(&[("x", 0)]), false), MatchResult::Pass);
}

#[test]
fn shared_key_split_between_parts() {
    let e = Rbe::and(vec![
        symbol("a", 2, Max::IntMax(2)),
        symbol("a", 1, Max::IntMax(1)),
        symbol("b", 0, Max::IntMax(1)),
    ]);
    assert!(rbe::matcher::matches(&e, &bag_of(&[("a", 3)]), false).is_pass());
    assert!(rbe::matcher::matches(&e, &bag_of(&[("a", 3), ("b", 1)]), false).is_pass());
    assert!(!rbe::matcher::matches(&e, &bag_of(&[("a", 2)]), false).is_pass());
    assert!(!rbe::matcher::matches(&e, &bag_of(&[("a", 4)]), false).is_pass());
    assert!(!rbe::matcher::matches(&e, &bag_of(&[("a", 3), ("b", 2)]), false).is_pass());
}

#[test]
fn nested_and_or() {
    let e = Rbe::or(vec![
        Rbe::and(vec![symbol("a", 1, Max::IntMax(1)), symbol("b", 1, Max::IntMax(1))]),
        Rbe::and(vec![symbol("c", 1, Max::Unbounded)]),
    ]);
    assert!(rbe::matcher::matches(&e, &bag_of(&[("a", 1), ("b", 1)]), false).is_pass());
    assert!(rbe::matcher::matches(&e, &bag_of(&[("c", 4)]), false).is_pass());
    assert!(!rbe::matcher::matches(&e, &bag_of(&[("a", 1), ("c", 1)]), false).is_pass());
    assert_eq!(
        rbe::matcher::matches(&Rbe::and(vec![]), &Bag::new(), false),
        MatchResult::Pass
    );
    assert_eq!(
        rbe::matcher::matches(&Rbe::or(vec![]), &Bag::new(), false),
        MatchResult::Fail(FailureReason::AlternativesExhausted)
    );
}

#[test]
fn cardinality_construction() {
    assert_eq!(
        Cardinality::new(3, Max::IntMax(2)),
        Err(CardinalityError::MinGreaterThanMax {
            min: 3,
            max: Max::IntMax(2)
        })
    );
    assert_eq!(
        Rbe::symbol("a".to_string(), 2, Max::IntMax(1)),
        Err(CardinalityError::MinGreaterThanMax {
            min: 2,
            max: Max::IntMax(1)
        })
    );
    let c = Cardinality::new(1, Max::Unbounded).unwrap();
    assert_eq!(c, Cardinality::one_or_more());
    assert!(c.contains(1) && c.contains(100) && !c.contains(0));
    assert!(Cardinality::optional().contains(0));
    assert!(!Cardinality::optional().contains(2));
    assert!(Cardinality::zero_or_more().contains(0));
    assert_eq!(Max::IntMax(3).decrement(), Max::IntMax(2));
    assert_eq!(Max::Unbounded.decrement(), Max::Unbounded);
    assert!(Max::IntMax(3).le(&Max::Unbounded));
    assert!(!Max::Unbounded.le(&Max::IntMax(3)));
    assert!(Max::IntMax(2).le(&Max::IntMax(3)));
    assert!(Max::Unbounded.contains(usize::MAX));
}

#[test]
fn bag_operations() {
    let mut b = Bag::new();
    assert!(b.is_empty());
    b.insert("a".to_string());
    b.insert("a".to_string());
    b.insert_n("b".to_string(), 3);
    assert_eq!(b.count(&"a".to_string()), 2);
    assert_eq!(b.count(&"b".to_string()), 3);
    assert_eq!(b.count(&"c".to_string()), 0);
    assert!(!b.is_empty());
    assert_eq!(b.remove(&"a".to_string()), Ok(()));
    assert_eq!(b.count(&"a".to_string()), 1);
    assert_eq!(
        b.remove(&"c".to_string()),
        Err(BagError::NotInBag {
            key: "c".to_string()
        })
    );
    let mut other = Bag::from_keys(vec!["a".to_string(), "c".to_string(), "c".to_string()]);
    assert_eq!(other.count(&"c".to_string()), 2);
    other.union(&b);
    assert_eq!(other.count(&"a".to_string()), 2);
    assert_eq!(other.count(&"b".to_string()), 3);
    assert_eq!(other.count(&"c".to_string()), 2);
    let mut z = bag_of(&[("z", 1)]);
    assert_eq!(z.remove(&"z".to_string()), Ok(()));
    assert!(z.is_empty());
    assert_eq!(
        z.remove(&"z".to_string()),
        Err(BagError::NotInBag {
            key: "z".to_string()
        })
    );
}

#[test]
fn bag_equality_ignores_order() {
    let a = bag_of(&[("x", 2), ("y", 1)]);
    let b = Bag::from_keys(vec!["y".to_string(), "x".to_string(), "x".to_string()]);
    assert!(a.equals(&b));
    assert!(b.equals(&a));
    let c = bag_of(&[("x", 2), ("y", 1), ("z", 0)]);
    assert!(a.equals(&c));
    let d = bag_of(&[("x", 1), ("y", 1)]);
    assert!(!a.equals(&d));
    let e = bag_of(&[("x", 2)]);
    assert!(!a.equals(&e));
    assert!(!e.equals(&a));
    let mut rebuilt = Bag::new();
    for (k, n) in a.counts() {
        rebuilt.insert_n(k, n);
    }
    assert!(rebuilt.equals(&a));
}
