use crate::text::push_str;
use vstd::prelude::*;

verus! {

/// Declares oxrdf's `NamedNode`, the IRI of the RDF model, which this library hands to and
/// takes from callers.
#[verifier::external_type_specification]
#[verifier::external_body]
pub struct ExNamedNode(oxrdf::NamedNode);

/// Whether oxrdf's IRI parser accepts the text as an IRI.
pub uninterp spec fn iri_accepted(s: Seq<char>) -> bool;

/// Relies on `oxrdf::NamedNode::new`: it accepts or rejects the text according to the IRI
/// grammar, so the outcome depends on the text alone; on rejection it reports why.
#[verifier::external_body]
fn check_iri(s: &str) -> (r: Result<(), String>)
    ensures
        r is Ok == iri_accepted(s@),
{
    match oxrdf::NamedNode::new(s) {
        Ok(_) => Ok(()),
        Err(e) => Err(e.to_string()),
    }
}

/// Relies on `oxrdf::NamedNode::new_unchecked`: it builds a named node from the text
/// without checking it.
#[verifier::external_body]
fn named_node_unchecked(s: &str) -> (r: oxrdf::NamedNode) {
    oxrdf::NamedNode::new_unchecked(s)
}

/// Relies on `oxrdf::NamedNode::as_str`: the text of the named node.
#[verifier::external_body]
fn named_node_text(n: &oxrdf::NamedNode) -> (r: String) {
    n.as_str().to_string()
}

/// Why a text is not an IRI.
#[derive(Debug, Clone, PartialEq, Eq)]
pub enum IriSError {
    IriParseError { str: String, err: String },
}

/// An IRI, held as its text.
#[derive(Debug, Clone, PartialEq, Eq, Hash)]
pub struct IriS {
    iri: String,
}

impl View for IriS {
    type V = Seq<char>;

    closed spec fn view(&self) -> Seq<char> {
        self.iri@
    }
}

impl IriS {
    /// The IRI written `s`, if `s` is one.
    pub fn new(s: &str) -> (r: Result<IriS, IriSError>)
        ensures
            r is Ok == iri_accepted(s@),
            r matches Ok(i) ==> i@ == s@,
            r matches Err(IriSError::IriParseError { str, .. }) ==> str@ == s@,
    {
        match check_iri(s) {
            Ok(()) => Ok(IriS { iri: s.to_owned() }),
            Err(err) => Err(IriSError::IriParseError { str: s.to_owned(), err }),
        }
    }

    /// The IRI written `s`, taken as it is.
    pub fn new_unchecked(s: &str) -> (r: IriS)
        ensures
            r@ == s@,
    {
        IriS { iri: s.to_owned() }
    }

    pub fn as_str(&self) -> (r: &str)
        ensures
            r@ == self@,
    {
        self.iri.as_str()
    }

    pub fn from_named_node(iri: oxrdf::NamedNode) -> (r: IriS) {
        IriS { iri: named_node_text(&iri) }
    }

    pub fn as_named_node(&self) -> (r: oxrdf::NamedNode) {
        named_node_unchecked(self.iri.as_str())
    }

    /// The IRI whose text is this one's followed by `s`, if that is an IRI.
    pub fn extend(&self, s: &str) -> (r: Result<IriS, IriSError>)
        ensures
            r is Ok == iri_accepted(self@ + s@),
            r matches Ok(i) ==> i@ == self@ + s@,
    {
        let mut text = self.iri.clone();
        push_str(&mut text, s);
        IriS::new(text.as_str())
    }

    /// The IRI between angle brackets, as written in Turtle.
    pub fn to_string(&self) -> (r: String)
        ensures
            r@ == seq!['<'] + self@ + seq!['>'],
    {
        proof {
            reveal_strlit("<");
            reveal_strlit(">");
        }
        let mut out = "<".to_owned();
        push_str(&mut out, self.iri.as_str());
        push_str(&mut out, ">");
        out
    }
}

impl Default for IriS {
    fn default() -> (r: IriS)
        ensures
            r@ == Seq::<char>::empty(),
    {
        IriS { iri: String::new() }
    }
}

impl std::str::FromStr for IriS {
    type Err = IriSError;

    fn from_str(s: &str) -> Result<IriS, IriSError> {
        IriS::new(s)
    }
}

} // verus!
