use crate::cardinality::{Cardinality, CardinalityError, Max};
use vstd::multiset::*;
use vstd::prelude::*;

verus! {

broadcast use group_multiset_axioms, vstd::std_specs::vec::group_vec_axioms, vstd::seq::group_seq_axioms, vstd::set::group_set_axioms;

/// A regular bag expression over string keys.
#[derive(Debug, PartialEq, Eq)]
pub enum Rbe {
    /// Matches only the empty bag.
    Empty,
    /// Matches a bag made only of occurrences of `value`, in a number that `card` admits.
    Symbol { value: String, card: Cardinality },
    /// Matches a bag that splits into one part per child, each matching its child.
    And { values: Vec<Rbe> },
    /// Matches a bag that some child matches.
    Or { values: Vec<Rbe> },
}

/// The keys that some symbol of the expressions mentions.
pub open spec fn symbols_all(cs: Seq<Rbe>) -> Set<Seq<char>>
    decreases cs,
{
    if cs.len() == 0 {
        Set::empty()
    } else {
        cs[0].symbols().union(symbols_all(cs.subrange(1, cs.len() as int)))
    }
}

/// The bag splits into consecutive parts, one per expression, each matching its expression.
pub open spec fn sat_and(cs: Seq<Rbe>, b: Multiset<Seq<char>>) -> bool
    decreases cs,
{
    if cs.len() == 0 {
        b.len() == 0
    } else {
        exists|b1: Multiset<Seq<char>>|
            #![trigger b.sub(b1)]
            b1.subset_of(b) && cs[0].sat(b1) && sat_and(cs.subrange(1, cs.len() as int), b.sub(b1))
    }
}

/// Some expression matches the whole bag.
pub open spec fn sat_or(cs: Seq<Rbe>, b: Multiset<Seq<char>>) -> bool
    decreases cs,
{
    if cs.len() == 0 {
        false
    } else {
        cs[0].sat(b) || sat_or(cs.subrange(1, cs.len() as int), b)
    }
}

impl Rbe {
    /// The keys mentioned by the symbols of the expression.
    pub open spec fn symbols(self) -> Set<Seq<char>>
        decreases self,
    {
        match self {
            Rbe::Empty => Set::empty(),
            Rbe::Symbol { value, .. } => set![value@],
            Rbe::And { values } => symbols_all(values@),
            Rbe::Or { values } => symbols_all(values@),
        }
    }

    /// The bag `b` conforms to the expression.
    pub open spec fn sat(self, b: Multiset<Seq<char>>) -> bool
        decreases self,
    {
        match self {
            Rbe::Empty => b.len() == 0,
            Rbe::Symbol { value, card } => card.admits(b.count(value@)) && forall|x: Seq<char>|
                x != value@ ==> #[trigger] b.count(x) == 0,
            Rbe::And { values } => sat_and(values@, b),
            Rbe::Or { values } => sat_or(values@, b),
        }
    }

    pub fn empty() -> (r: Rbe)
        ensures
            r == Rbe::Empty,
    {
        Rbe::Empty
    }

    /// A symbol for `key` whose count lies between `min` and `max`.
    pub fn symbol(key: String, min: usize, max: Max) -> (r: Result<Rbe, CardinalityError>)
        ensures
            max.allows(min as nat) ==> r == Ok::<Rbe, CardinalityError>(
                Rbe::Symbol { value: key, card: Cardinality { min, max } },
            ),
            !max.allows(min as nat) ==> r == Err::<Rbe, CardinalityError>(
                CardinalityError::MinGreaterThanMax { min, max },
            ),
    {
        match Cardinality::new(min, max) {
            Ok(card) => Ok(Rbe::Symbol { value: key, card }),
            Err(e) => Err(e),
        }
    }

    pub fn and(values: Vec<Rbe>) -> (r: Rbe)
        ensures
            r == (Rbe::And { values }),
    {
        Rbe::And { values }
    }

    pub fn or(values: Vec<Rbe>) -> (r: Rbe)
        ensures
            r == (Rbe::Or { values }),
    {
        Rbe::Or { values }
    }

    /// Whether some symbol of the expression mentions `key`.
    pub fn mentions(&self, key: &String) -> (r: bool)
        ensures
            r == self.symbols().contains(key@),
        decreases self,
    {
        match self {
            Rbe::Empty => false,
            Rbe::Symbol { value, .. } => *value == *key,
            Rbe::And { values } => {
                assert(values@.subrange(0, values.len() as int) =~= values@);
                mentions_any(values, 0, key)
            },
            Rbe::Or { values } => {
                assert(values@.subrange(0, values.len() as int) =~= values@);
                mentions_any(values, 0, key)
            },
        }
    }
}

/// Whether some expression of `cs` from position `i` on mentions `key`.
fn mentions_any(cs: &Vec<Rbe>, i: usize, key: &String) -> (r: bool)
    requires
        i <= cs.len(),
    ensures
        r == symbols_all(cs@.subrange(i as int, cs.len() as int)).contains(key@),
    decreases cs, cs.len() - i,
{
    let ghost rest = cs@.subrange(i as int, cs.len() as int);
    if i == cs.len() {
        false
    } else {
        assert(rest[0] == cs@[i as int]);
        assert(rest.subrange(1, rest.len() as int) =~= cs@.subrange(i + 1, cs.len() as int));
        if cs[i].mentions(key) {
            true
        } else {
            mentions_any(cs, i + 1, key)
        }
    }
}

} // verus!
