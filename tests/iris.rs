use rbe::{IriS, IriSError};
use std::str::FromStr;

#[test]
fn creating_iris() {
    let iri = IriS::from_str("http://example.org/").unwrap();
    assert_eq!(iri.to_string(), "<http://example.org/>");
}

#[test]
fn obtaining_iri_as_str() {
    let iri = IriS::from_str("http://example.org/p1").unwrap();
    assert_eq!(iri.as_str(), "http://example.org/p1");
}

#[test]
fn rejects_text_that_is_no_iri() {
    match IriS::new("not an iri") {
        Err(IriSError::IriParseError { str, .. }) => assert_eq!(str, "not an iri"),
        Ok(i) => panic!("accepted {}", i.as_str()),
    }
}

#[test]
fn extending_an_iri() {
    let base = IriS::new("http://example.org/").unwrap();
    let p = base.extend("p1").unwrap();
    assert_eq!(p.as_str(), "http://example.org/p1");
    assert!(base.extend(" with spaces").is_err());
    assert_eq!(IriS::default().as_str(), "");
    assert_eq!(IriS::new_unchecked("x").as_str(), "x");
}

#[test]
fn named_nodes() {
    let iri = IriS::new("http://example.org/a").unwrap();
    let node = iri.as_named_node();
    assert_eq!(node.as_str(), "http://example.org/a");
    let back = IriS::from_named_node(node);
    assert_eq!(back, iri);
}
