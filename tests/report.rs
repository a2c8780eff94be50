use rbe::ValidationReport;

#[test]
fn report_conformance() {
    let mut r: ValidationReport<String> = ValidationReport::default();
    assert!(r.conforms());
    assert!(r.results().is_empty());
    r.add_results(vec![]);
    assert!(r.conforms());
    r.add_result("focus :a violates :S".to_string());
    assert!(!r.conforms());
    r.add_results(vec!["x".to_string(), "y".to_string()]);
    assert_eq!(r.results().len(), 3);
    assert_eq!(r.results()[1], "x");
    let mut other: ValidationReport<String> = ValidationReport::new();
    assert!(r != other);
    other.add_results(vec!["1".to_string(), "2".to_string(), "3".to_string()]);
    assert!(!other.conforms());
    assert!(r == other);
    assert!(r.same_outcome(&other));
}
