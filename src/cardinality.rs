use vstd::prelude::*;

verus! {

/// Upper bound of an occurrence range: a finite limit or no limit at all.
#[derive(Clone, Copy, Debug, PartialEq, Eq, Structural)]
pub enum Max {
    IntMax(usize),
    Unbounded,
}

impl Max {
    /// Whether `n` occurrences stay within this bound.
    pub open spec fn allows(self, n: nat) -> bool {
        match self {
            Max::IntMax(m) => n <= m,
            Max::Unbounded => true,
        }
    }

    /// The bound left once one occurrence has been consumed.
    pub open spec fn spec_decrement(self) -> Max {
        match self {
            Max::IntMax(m) => Max::IntMax((m - 1) as usize),
            Max::Unbounded => Max::Unbounded,
        }
    }

    /// Order on bounds: `Unbounded` is above every finite bound.
    pub open spec fn spec_le(self, other: Max) -> bool {
        match (self, other) {
            (_, Max::Unbounded) => true,
            (Max::Unbounded, Max::IntMax(_)) => false,
            (Max::IntMax(a), Max::IntMax(b)) => a <= b,
        }
    }

    pub fn contains(&self, n: usize) -> (r: bool)
        ensures
            r == self.allows(n as nat),
    {
        match self {
            Max::IntMax(m) => n <= *m,
            Max::Unbounded => true,
        }
    }

    /// Consumes one occurrence from the bound; an exhausted bound cannot be decremented.
    pub fn decrement(&self) -> (r: Max)
        requires
            *self != Max::IntMax(0),
        ensures
            r == self.spec_decrement(),
    {
        match self {
            Max::IntMax(m) => Max::IntMax(*m - 1),
            Max::Unbounded => Max::Unbounded,
        }
    }

    pub fn le(&self, other: &Max) -> (r: bool)
        ensures
            r == self.spec_le(*other),
    {
        match (self, other) {
            (_, Max::Unbounded) => true,
            (Max::Unbounded, Max::IntMax(_)) => false,
            (Max::IntMax(a), Max::IntMax(b)) => *a <= *b,
        }
    }
}

/// A range of admissible occurrence counts.
#[derive(Clone, Copy, Debug, PartialEq, Eq, Structural)]
pub struct Cardinality {
    pub min: usize,
    pub max: Max,
}

/// Rejection of a cardinality whose lower bound lies above its upper bound.
#[derive(Clone, Copy, Debug, PartialEq, Eq, Structural)]
pub enum CardinalityError {
    MinGreaterThanMax { min: usize, max: Max },
}

impl Cardinality {
    /// The lower bound does not exceed the upper bound.
    pub open spec fn wf(self) -> bool {
        self.max.allows(self.min as nat)
    }

    /// Whether a count of `n` occurrences lies in the range.
    pub open spec fn admits(self, n: nat) -> bool {
        self.min <= n && self.max.allows(n)
    }

    pub fn new(min: usize, max: Max) -> (r: Result<Cardinality, CardinalityError>)
        ensures
            max.allows(min as nat) ==> r == Ok::<Cardinality, CardinalityError>(
                Cardinality { min, max },
            ),
            !max.allows(min as nat) ==> r == Err::<Cardinality, CardinalityError>(
                CardinalityError::MinGreaterThanMax { min, max },
            ),
    {
        if max.contains(min) {
            Ok(Cardinality { min, max })
        } else {
            Err(CardinalityError::MinGreaterThanMax { min, max })
        }
    }

    /// Exactly one occurrence.
    pub fn one() -> (r: Cardinality)
        ensures
            r == (Cardinality { min: 1, max: Max::IntMax(1) }),
    {
        Cardinality { min: 1, max: Max::IntMax(1) }
    }

    /// Zero or one occurrence.
    pub fn optional() -> (r: Cardinality)
        ensures
            r == (Cardinality { min: 0, max: Max::IntMax(1) }),
    {
        Cardinality { min: 0, max: Max::IntMax(1) }
    }

    /// Any number of occurrences.
    pub fn zero_or_more() -> (r: Cardinality)
        ensures
            r == (Cardinality { min: 0, max: Max::Unbounded }),
    {
        Cardinality { min: 0, max: Max::Unbounded }
    }

    /// At least one occurrence.
    pub fn one_or_more() -> (r: Cardinality)
        ensures
            r == (Cardinality { min: 1, max: Max::Unbounded }),
    {
        Cardinality { min: 1, max: Max::Unbounded }
    }

    pub fn contains(&self, n: usize) -> (r: bool)
        ensures
            r == self.admits(n as nat),
    {
        n >= self.min && self.max.contains(n)
    }
}

} // verus!
