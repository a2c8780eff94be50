use rbe::{Bag, ExpectedResult, Max, Rbe, RbeTest, RbeTests};

fn bag_of(entries: &[(&str, usize)]) -> Bag {
    let mut bag = Bag::new();
    for (k, n) in entries {
        bag.insert_n(k.to_string(), *n);
    }
    bag
}

fn symbol(key: &str, min: usize, max: Max) -> Rbe {
    Rbe::symbol(key.to_string(), min, max).unwrap()
}

fn fixture(name: &str, rbe: Rbe, bag: Bag, open: bool, pass: bool) -> RbeTest {
    let match_result = if pass {
        ExpectedResult::Pass
    } else {
        ExpectedResult::Fail {
            reason: String::new(),
        }
    };
    RbeTest::new(
        name.to_string(),
        "basic".to_string(),
        format!("basic/{name}"),
        rbe,
        bag,
        open,
        match_result,
    )
}

fn basic_suite() -> RbeTests {
    let mut tests = RbeTests::new();
    tests.add_test(fixture(
        "basic",
        symbol("foo", 1, Max::IntMax(1)),
        bag_of(&[("foo", 1)]),
        false,
        true,
    ));
    tests.add_test(fixture(
        "a_1_1_with_a_2_fail",
        symbol("a", 1, Max::IntMax(1)),
        bag_of(&[("a", 2)]),
        false,
        false,
    ));
    tests.add_test(fixture(
        "a_1_1_with_a_1_b_1_closed_fail",
        symbol("a", 1, Max::IntMax(1)),
        bag_of(&[("a", 1), ("b", 1)]),
        false,
        false,
    ));
    tests.add_test(fixture(
        "a_1_1_with_a_1_b_1_open_pass",
        symbol("a", 1, Max::IntMax(1)),
        bag_of(&[("a", 1), ("b", 1)]),
        true,
        true,
    ));
    tests.add_test(fixture(
        "a_0_u_with_empty_pass",
        symbol("a", 0, Max::Unbounded),
        Bag::new(),
        false,
        true,
    ));
    tests.add_test(fixture(
        "and_a_1_1_b_1_u_with_a_1_b_3_pass",
        Rbe::and(vec![
            symbol("a", 1, Max::IntMax(1)),
            symbol("b", 1, Max::Unbounded),
        ]),
        bag_of(&[("a", 1), ("b", 3)]),
        false,
        true,
    ));
    tests.add_test(fixture(
        "or_a_1_1_b_1_1_with_a_1_b_1_fail",
        Rbe::or(vec![
            symbol("a", 1, Max::IntMax(1)),
            symbol("b", 1, Max::IntMax(1)),
        ]),
        bag_of(&[("a", 1), ("b", 1)]),
        false,
        false,
    ));
    tests.add_test(fixture(
        "and_a_1_2_a_1_2_with_a_3_pass",
        Rbe::and(vec![
            symbol("a", 1, Max::IntMax(2)),
            symbol("a", 1, Max::IntMax(2)),
        ]),
        bag_of(&[("a", 3)]),
        false,
        true,
    ));
    tests
}

#[test]
fn basic_test() {
    let rbe_test = fixture(
        "basic",
        symbol("foo", 1, Max::IntMax(1)),
        bag_of(&[("foo", 1)]),
        false,
        true,
    );
    assert_eq!(
        rbe_test.run(),
        rbe::RbeTestResult::passed("basic".to_string())
    )
}

#[test]
fn building_a_suite() {
    let values = vec![
        symbol("a", 1, Max::IntMax(1)),
        symbol("b", 2, Max::IntMax(3)),
    ];
    let mut rbe_test = RbeTest::default();
    rbe_test.set_group("test".to_string());
    rbe_test.set_name("basic".to_string());
    rbe_test.set_full_name("test/basic".to_string());
    rbe_test.set_rbe(Rbe::and(values));
    rbe_test.set_bag(Bag::from_keys(vec!["a".to_string(), "b".to_string()]));
    let ts = vec![rbe_test];
    let mut rbe_tests = RbeTests::new();
    rbe_tests.with_tests(ts);
    assert_eq!(rbe_tests.total(), 1);
    assert_eq!(rbe_tests.tests()[0].group(), "test");
}

#[test]
fn first_test_of_a_group() {
    let mut tests = RbeTests::new();
    let mut t = fixture(
        "basic",
        symbol("foo", 1, Max::IntMax(1)),
        bag_of(&[("foo", 1)]),
        false,
        true,
    );
    t.set_group("test".to_string());
    tests.add_test(t);
    let t0 = &tests.tests()[0];
    assert_eq!("test", t0.group());
    assert_eq!(rbe::RbeTestResult::passed("basic".to_string()), t0.run());
}

#[test]
fn run_test_suite() {
    let rbe_tests = basic_suite();
    let results = rbe_tests.run();
    for t in results.failed() {
        println!("Failed: {}: error: {:?}", t.name(), t.err());
    }
    assert_eq!(results.count_passed(), rbe_tests.total());
    assert_eq!(results.count_failed(), 0);
}

#[test]
fn run_single() {
    let name = "a_1_1_with_a_2_fail".to_string();
    println!("Running single test: {name}");
    let rbe_tests = basic_suite();
    let results = rbe_tests.run_by_name(&name);
    for t in results.failed() {
        println!("Failed: {}: error: {:?}", t.name(), t.err());
    }
    assert_eq!(results.count_passed(), 1);
    assert_eq!(results.count_failed(), 0);
}

#[test]
fn wrong_declaration_is_reported() {
    let t = fixture(
        "wrong",
        symbol("a", 1, Max::IntMax(1)),
        bag_of(&[("a", 2)]),
        false,
        true,
    );
    let r = t.run();
    assert!(!r.is_passed());
    assert_eq!(r.name(), "wrong");
    assert!(matches!(r.err(), Some(rbe::MatchResult::Fail(_))));
    let mut suite = RbeTests::new();
    suite.add_test(t);
    let results = suite.run();
    assert_eq!(results.count_passed(), 0);
    assert_eq!(results.count_failed(), 1);
    assert_eq!(results.failed().len(), 1);
}

#[test]
fn run_by_unknown_name_runs_nothing() {
    let results = basic_suite().run_by_name(&"nothing".to_string());
    assert_eq!(results.count_passed(), 0);
    assert_eq!(results.count_failed(), 0);
}

#[test]
fn fixture_run_matches_verdict() {
    let t = fixture(
        "and_pass",
        Rbe::and(vec![
            symbol("a", 1, Max::IntMax(1)),
            symbol("b", 1, Max::Unbounded),
        ]),
        bag_of(&[("a", 1), ("b", 3)]),
        false,
        true,
    );
    assert!(rbe::matcher::matches(&t.rbe, &t.bag, t.open).is_pass());
    assert!(t.run().is_passed());
}
