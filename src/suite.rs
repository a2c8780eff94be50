use crate::fixture::{agrees, RbeTest, RbeTestResult};
use vstd::prelude::*;

verus! {

/// The fixtures of `s` whose name is `name`, in their order.
pub open spec fn with_name(s: Seq<RbeTest>, name: Seq<char>) -> Seq<RbeTest>
    decreases s.len(),
{
    if s.len() == 0 {
        Seq::empty()
    } else {
        let p = with_name(s.drop_last(), name);
        if s.last().name@ == name {
            p.push(s.last())
        } else {
            p
        }
    }
}

/// How many of the results are passes.
pub open spec fn num_passed(s: Seq<RbeTestResult>) -> nat
    decreases s.len(),
{
    if s.len() == 0 {
        0
    } else {
        num_passed(s.drop_last()) + if s.last() is Passed {
            1nat
        } else {
            0nat
        }
    }
}

/// Each result is the run of the fixture at the same position.
pub open spec fn results_of(r: Seq<RbeTestResult>, t: Seq<RbeTest>) -> bool {
    &&& r.len() == t.len()
    &&& forall|i: int|
        0 <= i < r.len() ==> (#[trigger] r[i] is Passed) == agrees(t[i]) && r[i].spec_name()
            == t[i].name
}

proof fn lemma_num_passed_le(s: Seq<RbeTestResult>)
    ensures
        num_passed(s) <= s.len(),
    decreases s.len(),
{
    if s.len() > 0 {
        lemma_num_passed_le(s.drop_last());
    }
}

/// A suite of fixtures.
#[derive(Debug)]
pub struct RbeTests {
    pub tests: Vec<RbeTest>,
}

/// The results of running a suite, in the order of its fixtures.
#[derive(Debug)]
pub struct RbeTestResults {
    pub results: Vec<RbeTestResult>,
}

impl RbeTests {
    pub fn new() -> (r: RbeTests)
        ensures
            r.tests@ == Seq::<RbeTest>::empty(),
    {
        RbeTests { tests: Vec::new() }
    }

    /// Appends the fixtures of `tests` to the suite.
    pub fn with_tests(&mut self, tests: Vec<RbeTest>)
        ensures
            final(self).tests@ == old(self).tests@ + tests@,
    {
        let mut tests = tests;
        self.tests.append(&mut tests);
    }

    pub fn add_test(&mut self, test: RbeTest)
        ensures
            final(self).tests@ == old(self).tests@.push(test),
    {
        self.tests.push(test);
    }

    pub fn tests(&self) -> (r: &Vec<RbeTest>)
        ensures
            r == &self.tests,
    {
        &self.tests
    }

    /// Number of fixtures in the suite.
    pub fn total(&self) -> (r: usize)
        ensures
            r == self.tests.len(),
    {
        self.tests.len()
    }

    /// Runs every fixture.
    pub fn run(&self) -> (r: RbeTestResults)
        requires
            forall|i: int| 0 <= i < self.tests.len() ==> (#[trigger] self.tests@[i]).bag.wf(),
        ensures
            results_of(r.results@, self.tests@),
    {
        let mut results: Vec<RbeTestResult> = Vec::new();
        let mut i: usize = 0;
        while i < self.tests.len()
            invariant
                i <= self.tests.len(),
                forall|j: int| 0 <= j < self.tests.len() ==> (#[trigger] self.tests@[j]).bag.wf(),
                results_of(results@, self.tests@.subrange(0, i as int)),
            decreases self.tests.len() - i,
        {
            let r = self.tests[i].run();
            results.push(r);
            i = i + 1;
        }
        assert(self.tests@.subrange(0, self.tests.len() as int) =~= self.tests@);
        RbeTestResults { results }
    }

    /// Runs the fixtures named `name`.
    pub fn run_by_name(&self, name: &String) -> (r: RbeTestResults)
        requires
            forall|i: int| 0 <= i < self.tests.len() ==> (#[trigger] self.tests@[i]).bag.wf(),
        ensures
            results_of(r.results@, with_name(self.tests@, name@)),
    {
        let mut results: Vec<RbeTestResult> = Vec::new();
        let mut i: usize = 0;
        while i < self.tests.len()
            invariant
                i <= self.tests.len(),
                forall|j: int| 0 <= j < self.tests.len() ==> (#[trigger] self.tests@[j]).bag.wf(),
                results_of(results@, with_name(self.tests@.subrange(0, i as int), name@)),
            decreases self.tests.len() - i,
        {
            proof {
                assert(self.tests@.subrange(0, i + 1).drop_last() =~= self.tests@.subrange(
                    0,
                    i as int,
                ));
            }
            if self.tests[i].name == *name {
                let r = self.tests[i].run();
                results.push(r);
            }
            i = i + 1;
        }
        assert(self.tests@.subrange(0, self.tests.len() as int) =~= self.tests@);
        RbeTestResults { results }
    }
}

impl RbeTestResults {
    /// Number of fixtures whose verdict agreed with their declaration.
    pub fn count_passed(&self) -> (r: usize)
        ensures
            r == num_passed(self.results@),
    {
        let mut n: usize = 0;
        let mut i: usize = 0;
        while i < self.results.len()
            invariant
                i <= self.results.len(),
                n == num_passed(self.results@.subrange(0, i as int)),
            decreases self.results.len() - i,
        {
            proof {
                assert(self.results@.subrange(0, i + 1).drop_last() =~= self.results@.subrange(
                    0,
                    i as int,
                ));
                lemma_num_passed_le(self.results@.subrange(0, i as int));
            }
            if self.results[i].is_passed() {
                n = n + 1;
            }
            i = i + 1;
        }
        assert(self.results@.subrange(0, self.results.len() as int) =~= self.results@);
        n
    }

    /// Number of fixtures whose verdict disagreed with their declaration.
    pub fn count_failed(&self) -> (r: usize)
        ensures
            r == self.results.len() - num_passed(self.results@),
    {
        proof {
            lemma_num_passed_le(self.results@);
        }
        self.results.len() - self.count_passed()
    }

    /// The failed results, in order.
    pub fn failed(&self) -> (r: Vec<&RbeTestResult>)
        ensures
            r.len() == self.results.len() - num_passed(self.results@),
            forall|i: int| 0 <= i < r.len() ==> #[trigger] r@[i] is Failed,
    {
        let mut out: Vec<&RbeTestResult> = Vec::new();
        let mut i: usize = 0;
        while i < self.results.len()
            invariant
                i <= self.results.len(),
                out.len() == i - num_passed(self.results@.subrange(0, i as int)),
                forall|j: int| 0 <= j < out.len() ==> #[trigger] out@[j] is Failed,
            decreases self.results.len() - i,
        {
            proof {
                assert(self.results@.subrange(0, i + 1).drop_last() =~= self.results@.subrange(
                    0,
                    i as int,
                ));
                lemma_num_passed_le(self.results@.subrange(0, i as int));
            }
            if !self.results[i].is_passed() {
                out.push(&self.results[i]);
            }
            i = i + 1;
        }
        assert(self.results@.subrange(0, self.results.len() as int) =~= self.results@);
        out
    }
}

} // verus!
