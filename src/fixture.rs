use crate::bag::Bag;
use crate::matcher::{passes, MatchResult};
use crate::rbe::Rbe;
use vstd::multiset::Multiset;
use vstd::prelude::*;

verus! {

/// The outcome that a fixture declares for its match.
#[derive(Debug, PartialEq, Eq)]
pub enum ExpectedResult {
    Pass,
    /// A failure; the reason is informative only.
    Fail { reason: String },
}

/// A declarative test case: an expression, a bag, a policy and the declared outcome.
#[derive(Debug)]
pub struct RbeTest {
    pub name: String,
    pub group: String,
    pub full_name: String,
    pub rbe: Rbe,
    pub bag: Bag,
    pub open: bool,
    pub match_result: ExpectedResult,
}

/// The fixture's declared outcome agrees with the verdict on pass or fail.
pub open spec fn agrees(t: RbeTest) -> bool {
    passes(t.rbe, t.bag@, t.open) == (t.match_result is Pass)
}

/// The result of running one fixture.
#[derive(Debug, PartialEq, Eq)]
pub enum RbeTestResult {
    Passed { name: String },
    /// The verdict `found` disagrees with the declared outcome.
    Failed { name: String, expected_pass: bool, found: MatchResult },
}

impl RbeTestResult {
    pub fn passed(name: String) -> (r: RbeTestResult)
        ensures
            r == (RbeTestResult::Passed { name }),
    {
        RbeTestResult::Passed { name }
    }

    pub fn failed(name: String, expected_pass: bool, found: MatchResult) -> (r: RbeTestResult)
        ensures
            r == (RbeTestResult::Failed { name, expected_pass, found }),
    {
        RbeTestResult::Failed { name, expected_pass, found }
    }

    pub open spec fn spec_name(self) -> String {
        match self {
            RbeTestResult::Passed { name } => name,
            RbeTestResult::Failed { name, .. } => name,
        }
    }

    pub fn name(&self) -> (r: &String)
        ensures
            *r == self.spec_name(),
    {
        match self {
            RbeTestResult::Passed { name } => name,
            RbeTestResult::Failed { name, .. } => name,
        }
    }

    pub fn is_passed(&self) -> (r: bool)
        ensures
            r == (*self is Passed),
    {
        match self {
            RbeTestResult::Passed { .. } => true,
            RbeTestResult::Failed { .. } => false,
        }
    }

    /// The verdict that disagreed with the declaration, for a failed fixture.
    pub fn err(&self) -> (r: Option<&MatchResult>)
        ensures
            self is Passed ==> r is None,
            self matches RbeTestResult::Failed { found, .. } ==> (r matches Some(f) && *f == found),
    {
        match self {
            RbeTestResult::Passed { .. } => None,
            RbeTestResult::Failed { found, .. } => Some(found),
        }
    }
}

impl Default for RbeTest {
    fn default() -> (r: RbeTest)
        ensures
            r.name@ == Seq::<char>::empty(),
            r.group@ == Seq::<char>::empty(),
            r.full_name@ == Seq::<char>::empty(),
            r.rbe == Rbe::Empty,
            r.bag.wf(),
            r.bag@ == Multiset::<Seq<char>>::empty(),
            !r.open,
            r.match_result == ExpectedResult::Pass,
    {
        RbeTest {
            name: String::new(),
            group: String::new(),
            full_name: String::new(),
            rbe: Rbe::Empty,
            bag: Bag::new(),
            open: false,
            match_result: ExpectedResult::Pass,
        }
    }
}

impl RbeTest {
    pub fn new(
        name: String,
        group: String,
        full_name: String,
        rbe: Rbe,
        bag: Bag,
        open: bool,
        match_result: ExpectedResult,
    ) -> (r: RbeTest)
        ensures
            r == (RbeTest { name, group, full_name, rbe, bag, open, match_result }),
    {
        RbeTest { name, group, full_name, rbe, bag, open, match_result }
    }

    pub fn name(&self) -> (r: &String)
        ensures
            *r == self.name,
    {
        &self.name
    }

    pub fn group(&self) -> (r: &String)
        ensures
            *r == self.group,
    {
        &self.group
    }

    pub fn set_name(&mut self, name: String)
        ensures
            *final(self) == (RbeTest { name, ..*old(self) }),
    {
        self.name = name;
    }

    pub fn set_group(&mut self, group: String)
        ensures
            *final(self) == (RbeTest { group, ..*old(self) }),
    {
        self.group = group;
    }

    pub fn set_full_name(&mut self, full_name: String)
        ensures
            *final(self) == (RbeTest { full_name, ..*old(self) }),
    {
        self.full_name = full_name;
    }

    pub fn set_rbe(&mut self, rbe: Rbe)
        ensures
            *final(self) == (RbeTest { rbe, ..*old(self) }),
    {
        self.rbe = rbe;
    }

    pub fn set_bag(&mut self, bag: Bag)
        ensures
            *final(self) == (RbeTest { bag, ..*old(self) }),
    {
        self.bag = bag;
    }

    pub fn set_open(&mut self, open: bool)
        ensures
            *final(self) == (RbeTest { open, ..*old(self) }),
    {
        self.open = open;
    }

    pub fn set_match_result(&mut self, match_result: ExpectedResult)
        ensures
            *final(self) == (RbeTest { match_result, ..*old(self) }),
    {
        self.match_result = match_result;
    }

    /// Runs the match and compares its verdict with the declared outcome.
    pub fn run(&self) -> (r: RbeTestResult)
        requires
            self.bag.wf(),
        ensures
            r.spec_name() == self.name,
            (r is Passed) == agrees(*self),
            r matches RbeTestResult::Failed { expected_pass, found, .. } ==> expected_pass == (
            self.match_result is Pass) && (found is Pass) == passes(self.rbe, self.bag@, self.open),
    {
        let found = crate::matcher::matches(&self.rbe, &self.bag, self.open);
        let expected_pass = match self.match_result {
            ExpectedResult::Pass => true,
            ExpectedResult::Fail { .. } => false,
        };
        if found.is_pass() == expected_pass {
            RbeTestResult::passed(self.name.clone())
        } else {
            RbeTestResult::failed(self.name.clone(), expected_pass, found)
        }
    }
}

} // verus!
