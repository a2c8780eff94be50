use vstd::prelude::*;

verus! {

/// The outcome of validating data against shapes: whether it conforms, and one result per
/// violation found.
#[derive(Debug)]
pub struct ValidationReport<R> {
    conforms: bool,
    results: Vec<R>,
}

impl<R> ValidationReport<R> {
    pub closed spec fn spec_conforms(&self) -> bool {
        self.conforms
    }

    pub closed spec fn spec_results(&self) -> Seq<R> {
        self.results@
    }

    /// A report is conformant exactly when it holds no result.
    pub closed spec fn wf(&self) -> bool {
        self.conforms == (self.results@.len() == 0)
    }

    pub fn new() -> (r: ValidationReport<R>)
        ensures
            r.wf(),
            r.spec_conforms(),
            r.spec_results() == Seq::<R>::empty(),
    {
        ValidationReport { conforms: true, results: Vec::new() }
    }

    pub fn conforms(&self) -> (r: bool)
        ensures
            r == self.spec_conforms(),
    {
        self.conforms
    }

    pub fn results(&self) -> (r: &Vec<R>)
        ensures
            r@ == self.spec_results(),
    {
        &self.results
    }

    /// Records a violation; the report no longer conforms.
    pub fn add_result(&mut self, result: R)
        requires
            old(self).wf(),
        ensures
            final(self).wf(),
            !final(self).spec_conforms(),
            final(self).spec_results() == old(self).spec_results().push(result),
    {
        if self.conforms {
            self.conforms = false;
        }
        self.results.push(result);
    }

    /// Records violations; the report no longer conforms if there was any.
    pub fn add_results(&mut self, results: Vec<R>)
        requires
            old(self).wf(),
        ensures
            final(self).wf(),
            final(self).spec_conforms() == (old(self).spec_conforms() && results@.len() == 0),
            final(self).spec_results() == old(self).spec_results() + results@,
    {
        let mut results = results;
        if self.conforms && results.len() > 0 {
            self.conforms = false;
        }
        self.results.append(&mut results);
    }

    /// Two reports agree when they agree on conformance and on the number of results.
    pub fn same_outcome(&self, other: &ValidationReport<R>) -> (r: bool)
        ensures
            r == (self.spec_conforms() == other.spec_conforms() && self.spec_results().len()
                == other.spec_results().len()),
    {
        self.conforms == other.conforms && self.results.len() == other.results.len()
    }
}

impl<R> PartialEq for ValidationReport<R> {
    fn eq(&self, other: &ValidationReport<R>) -> (r: bool) {
        self.same_outcome(other)
    }
}

impl<R> vstd::std_specs::cmp::PartialEqSpecImpl for ValidationReport<R> {
    open spec fn obeys_eq_spec() -> bool {
        true
    }

    open spec fn eq_spec(&self, other: &ValidationReport<R>) -> bool {
        self.spec_conforms() == other.spec_conforms() && self.spec_results().len()
            == other.spec_results().len()
    }
}

impl<R> Default for ValidationReport<R> {
    fn default() -> (r: ValidationReport<R>)
        ensures
            r.wf(),
            r.spec_conforms(),
            r.spec_results() == Seq::<R>::empty(),
    {
        ValidationReport::new()
    }
}

} // verus!
