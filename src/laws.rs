use crate::bag::{copies, lemma_copies};
use crate::cardinality::{Cardinality, Max};
use crate::matcher::{match_outcome, only_known_keys, passes, restrict, MatchResult};
use crate::rbe::Rbe;
use vstd::multiset::*;
use vstd::prelude::*;

verus! {

broadcast use group_multiset_axioms, vstd::set::group_set_axioms;

/// A symbol that asks for exactly one occurrence of `k` accepts a bag of `n` occurrences of
/// `k` if and only if `n` is one, under either policy.
pub proof fn single_occurrence_law(k: String, n: nat, open: bool)
    ensures
        passes(
            Rbe::Symbol { value: k, card: Cardinality { min: 1, max: Max::IntMax(1) } },
            copies(k@, n),
            open,
        ) <==> n == 1,
{
    let e = Rbe::Symbol { value: k, card: Cardinality { min: 1, max: Max::IntMax(1) } };
    let b = copies(k@, n);
    lemma_copies(k@, n);
    assert(e.symbols() =~= set![k@]);
    assert(only_known_keys(e, b));
    assert(restrict(b, e.symbols()) =~= b);
}

/// Matching keeps no state between calls: two verdicts for the same expression, bag and
/// policy agree on whether the bag passes.
pub proof fn verdict_repeatable(
    e: Rbe,
    b: Multiset<Seq<char>>,
    open: bool,
    r1: MatchResult,
    r2: MatchResult,
)
    requires
        match_outcome(e, b, open, r1),
        match_outcome(e, b, open, r2),
    ensures
        (r1 is Pass) == (r2 is Pass),
{
}

} // verus!
