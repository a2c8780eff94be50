use rbe::valued::{cond_check, matches_values};
use rbe::{Cardinality, FailureReason, MatchCond, Max, Rbe1, ValuedResult};

fn occ(pairs: &[(&str, &str)]) -> Vec<(String, String)> {
    pairs
        .iter()
        .map(|(k, v)| (k.to_string(), v.to_string()))
        .collect()
}

fn sym(key: &str, cond: MatchCond, min: usize, max: Max) -> Rbe1 {
    Rbe1::symbol(key.to_string(), cond, min, max).unwrap()
}

fn fail_of(r: ValuedResult) -> FailureReason {
    match r {
        ValuedResult::Fail(reason) => reason,
        ValuedResult::Pass(_) => panic!("expected a failure"),
    }
}

#[test]
fn conditions() {
    let none: Vec<(String, String)> = vec![];
    let conf = occ(&[("alice", "Person")]);
    assert!(cond_check(&MatchCond::Any, &"x".to_string(), &none));
    assert!(cond_check(&MatchCond::Value("x".to_string()), &"x".to_string(), &none));
    assert!(!cond_check(&MatchCond::Value("x".to_string()), &"y".to_string(), &none));
    assert!(cond_check(&MatchCond::Ref("Person".to_string()), &"alice".to_string(), &conf));
    assert!(!cond_check(&MatchCond::Ref("Person".to_string()), &"bob".to_string(), &conf));
    assert!(!cond_check(&MatchCond::Ref("Company".to_string()), &"alice".to_string(), &conf));
}

#[test]
fn symbol_with_value_condition() {
    let e = sym("name", MatchCond::Value("Ann".to_string()), 1, Max::IntMax(1));
    let none: Vec<(String, String)> = vec![];
    let r = matches_values(&e, &occ(&[("name", "Ann")]), false, &none);
    match r {
        ValuedResult::Pass(c) => {
            assert_eq!(c.len(), 1);
            assert_eq!(
                c.iter()[0],
                (
                    "name".to_string(),
                    "Ann".to_string(),
                    0,
                    MatchCond::Value("Ann".to_string())
                )
            );
        }
        ValuedResult::Fail(reason) => panic!("unexpected failure {reason:?}"),
    }
    assert_eq!(
        fail_of(matches_values(&e, &occ(&[("name", "Bob")]), false, &none)),
        FailureReason::ValueConditionFailed {
            key: "name".to_string(),
            value: "Bob".to_string()
        }
    );
    assert_eq!(
        fail_of(matches_values(&e, &occ(&[("name", "Ann"), ("name", "Ann")]), false, &none)),
        FailureReason::CardinalityMismatch {
            key: "name".to_string(),
            expected: Cardinality::one(),
            actual: 2
        }
    );
    assert_eq!(
        fail_of(matches_values(&e, &occ(&[("name", "Ann"), ("age", "3")]), false, &none)),
        FailureReason::UnexpectedKey {
            key: "age".to_string()
        }
    );
    assert!(matches_values(&e, &occ(&[("name", "Ann"), ("age", "3")]), true, &none).is_pass());
}

#[test]
fn same_key_split_by_condition() {
    let e = Rbe1::and(vec![
        sym("knows", MatchCond::Ref("Person".to_string()), 1, Max::IntMax(1)),
        sym("knows", MatchCond::Ref("Company".to_string()), 1, Max::IntMax(1)),
    ]);
    let conf = occ(&[("alice", "Person"), ("acme", "Company")]);
    let bag = occ(&[("knows", "acme"), ("knows", "alice")]);
    match matches_values(&e, &bag, false, &conf) {
        ValuedResult::Pass(c) => {
            let mut got: Vec<(String, String, usize)> = c
                .iter()
                .iter()
                .map(|(k, v, comp, _)| (k.clone(), v.clone(), *comp))
                .collect();
            got.sort();
            assert_eq!(
                got,
                vec![
                    ("knows".to_string(), "acme".to_string(), 1),
                    ("knows".to_string(), "alice".to_string(), 0)
                ]
            );
        }
        ValuedResult::Fail(reason) => panic!("unexpected failure {reason:?}"),
    }
    let two_people = occ(&[("knows", "alice"), ("knows", "alice")]);
    assert_eq!(
        fail_of(matches_values(&e, &two_people, false, &conf)),
        FailureReason::NoValidPartition
    );
}

#[test]
fn alternatives_with_values() {
    let e = Rbe1::or(vec![
        sym("p", MatchCond::Value("1".to_string()), 1, Max::Unbounded),
        sym("p", MatchCond::Value("2".to_string()), 1, Max::Unbounded),
    ]);
    let none: Vec<(String, String)> = vec![];
    assert!(matches_values(&e, &occ(&[("p", "2"), ("p", "2")]), false, &none).is_pass());
    assert_eq!(
        fail_of(matches_values(&e, &occ(&[("p", "1"), ("p", "2")]), false, &none)),
        FailureReason::AlternativesExhausted
    );
    assert!(matches_values(&Rbe1::empty(), &vec![], false, &none).is_pass());
    assert!(
        matches_values(&sym("p", MatchCond::Any, 0, Max::Unbounded), &vec![], false, &none)
            .is_pass()
    );
}
