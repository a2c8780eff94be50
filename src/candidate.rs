use vstd::prelude::*;

verus! {

/// A condition that the value of an occurrence must meet for a symbol to take it.
#[derive(Debug, Clone, PartialEq, Eq)]
pub enum MatchCond {
    /// Any value is accepted.
    Any,
    /// Only this value is accepted.
    Value(String),
    /// The value must conform to the shape named here; the caller decides conformance.
    Ref(String),
}

impl MatchCond {
    pub fn duplicate(&self) -> (r: MatchCond)
        ensures
            r == *self,
    {
        match self {
            MatchCond::Any => MatchCond::Any,
            MatchCond::Value(v) => MatchCond::Value(v.clone()),
            MatchCond::Ref(s) => MatchCond::Ref(s.clone()),
        }
    }
}

/// Position of a symbol among the parts of the conjunction that owns it.
pub type Component = usize;

/// The attribution of bag entries to symbols: for each occurrence taken, its key, its value,
/// the component that took it and the condition that accepted it.
#[derive(Debug)]
pub struct Candidate {
    values: Vec<(String, String, Component, MatchCond)>,
}

impl View for Candidate {
    type V = Seq<(String, String, Component, MatchCond)>;

    closed spec fn view(&self) -> Seq<(String, String, Component, MatchCond)> {
        self.values@
    }
}

impl Candidate {
    pub fn new(values: Vec<(String, String, Component, MatchCond)>) -> (r: Candidate)
        ensures
            r@ == values@,
    {
        Candidate { values }
    }

    /// The attributed occurrences, in order.
    pub fn iter(&self) -> (r: &Vec<(String, String, Component, MatchCond)>)
        ensures
            r@ == self@,
    {
        &self.values
    }

    pub fn len(&self) -> (r: usize)
        ensures
            r == self@.len(),
    {
        self.values.len()
    }
}

} // verus!
