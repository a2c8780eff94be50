use vstd::multiset::*;
use vstd::prelude::*;

verus! {

broadcast use group_multiset_axioms, group_multiset_properties;

/// `n` occurrences of `k` and nothing else.
pub open spec fn copies(k: Seq<char>, n: nat) -> Multiset<Seq<char>> {
    Multiset::empty().update(k, n)
}

/// The multiset described by a list of (key, count) entries.
pub open spec fn ms_of(s: Seq<(String, usize)>) -> Multiset<Seq<char>>
    decreases s.len(),
{
    if s.len() == 0 {
        Multiset::empty()
    } else {
        ms_of(s.drop_last()).add(copies(s.last().0@, s.last().1 as nat))
    }
}

/// No key appears in two entries.
pub open spec fn keys_unique(s: Seq<(String, usize)>) -> bool {
    forall|i: int, j: int| 0 <= i < j < s.len() ==> s[i].0@ != s[j].0@
}

pub open spec fn has_key(s: Seq<(String, usize)>, k: Seq<char>) -> bool {
    exists|i: int| 0 <= i < s.len() && s[i].0@ == k
}

/// The multiset of a list of keys, one occurrence per element.
pub open spec fn keys_ms(keys: Seq<String>) -> Multiset<Seq<char>> {
    keys.map_values(|k: String| k@).to_multiset()
}

pub proof fn lemma_copies(k: Seq<char>, n: nat)
    ensures
        copies(k, n).count(k) == n,
        forall|x: Seq<char>| x != k ==> #[trigger] copies(k, n).count(x) == 0,
        n == 0 ==> copies(k, n) == Multiset::<Seq<char>>::empty(),
{
    assert forall|x: Seq<char>| x != k implies #[trigger] copies(k, n).count(x) == 0 by {
        lemma_update_different(Multiset::<Seq<char>>::empty(), k, n, x);
    }
    lemma_update_same(Multiset::<Seq<char>>::empty(), k, n);
    if n == 0 {
        assert(copies(k, n) =~= Multiset::<Seq<char>>::empty());
    }
}

/// Appending an entry adds its occurrences.
pub proof fn lemma_ms_push(s: Seq<(String, usize)>, e: (String, usize))
    ensures
        ms_of(s.push(e)) == ms_of(s).add(copies(e.0@, e.1 as nat)),
{
    assert(s.push(e).drop_last() =~= s);
}

/// The multiset of a prefix grows by one entry at a time.
pub proof fn lemma_ms_prefix(s: Seq<(String, usize)>, i: int)
    requires
        0 <= i < s.len(),
    ensures
        ms_of(s.subrange(0, i + 1)) == ms_of(s.subrange(0, i)).add(
            copies(s[i].0@, s[i].1 as nat),
        ),
{
    assert(s.subrange(0, i + 1).drop_last() =~= s.subrange(0, i));
}

pub proof fn lemma_ms_absent(s: Seq<(String, usize)>, k: Seq<char>)
    requires
        !has_key(s, k),
    ensures
        ms_of(s).count(k) == 0,
    decreases s.len(),
{
    if s.len() > 0 {
        assert(!has_key(s.drop_last(), k)) by {
            if has_key(s.drop_last(), k) {
                let i = choose|i: int| 0 <= i < s.drop_last().len() && s.drop_last()[i].0@ == k;
                assert(s[i].0@ == k);
            }
        }
        lemma_ms_absent(s.drop_last(), k);
        assert(s[s.len() - 1].0@ != k);
        lemma_copies(s.last().0@, s.last().1 as nat);
    }
}

/// With unique keys, the count of a key is the count of its entry.
pub proof fn lemma_ms_at(s: Seq<(String, usize)>, i: int)
    requires
        keys_unique(s),
        0 <= i < s.len(),
    ensures
        ms_of(s).count(s[i].0@) == s[i].1,
    decreases s.len(),
{
    let k = s[i].0@;
    let d = s.drop_last();
    lemma_copies(s.last().0@, s.last().1 as nat);
    if i == s.len() - 1 {
        assert(!has_key(d, k)) by {
            if has_key(d, k) {
                let j = choose|j: int| 0 <= j < d.len() && d[j].0@ == k;
                assert(s[j].0@ == s[i].0@);
            }
        }
        lemma_ms_absent(d, k);
    } else {
        assert(keys_unique(d));
        assert(d[i] == s[i]);
        lemma_ms_at(d, i);
        assert(s[s.len() - 1].0@ != k);
    }
}

/// The count of any key in a list of entries with unique keys.
pub proof fn lemma_ms_count(s: Seq<(String, usize)>, k: Seq<char>)
    requires
        keys_unique(s),
    ensures
        has_key(s, k) ==> exists|i: int|
            0 <= i < s.len() && s[i].0@ == k && ms_of(s).count(k) == s[i].1,
        !has_key(s, k) ==> ms_of(s).count(k) == 0,
{
    if has_key(s, k) {
        let i = choose|i: int| 0 <= i < s.len() && s[i].0@ == k;
        lemma_ms_at(s, i);
    } else {
        lemma_ms_absent(s, k);
    }
}

/// Error of a bag operation.
#[derive(Clone, Debug, PartialEq, Eq)]
pub enum BagError {
    NotInBag { key: String },
}

/// A multiset of keys: each key is mapped to its number of occurrences.
#[derive(Clone, Debug)]
pub struct Bag {
    entries: Vec<(String, usize)>,
}

impl View for Bag {
    type V = Multiset<Seq<char>>;

    closed spec fn view(&self) -> Multiset<Seq<char>> {
        ms_of(self.entries@)
    }
}

impl Bag {
    /// Each key has at most one entry.
    pub closed spec fn wf(self) -> bool {
        keys_unique(self.entries@)
    }

    /// The entries, one per key, whose counts make up the bag.
    pub(crate) fn entries(&self) -> (r: &Vec<(String, usize)>)
        requires
            self.wf(),
        ensures
            keys_unique(r@),
            ms_of(r@) == self@,
    {
        &self.entries
    }

    pub fn new() -> (r: Bag)
        ensures
            r.wf(),
            r@ == Multiset::<Seq<char>>::empty(),
    {
        Bag { entries: Vec::new() }
    }

    /// Position of the entry for `k`, if there is one.
    fn find(&self, k: &String) -> (r: Option<usize>)
        ensures
            r matches Some(i) ==> i < self.entries.len() && self.entries@[i as int].0@ == k@,
            r is None ==> !has_key(self.entries@, k@),
    {
        let mut i: usize = 0;
        while i < self.entries.len()
            invariant
                i <= self.entries.len(),
                forall|j: int| 0 <= j < i ==> self.entries@[j].0@ != k@,
            decreases self.entries.len() - i,
        {
            if self.entries[i].0 == *k {
                return Some(i);
            }
            i = i + 1;
        }
        None
    }

    /// Number of occurrences of `k`.
    pub fn count(&self, k: &String) -> (r: usize)
        requires
            self.wf(),
        ensures
            r == self@.count(k@),
    {
        match self.find(k) {
            Some(i) => {
                proof {
                    lemma_ms_at(self.entries@, i as int);
                }
                self.entries[i].1
            },
            None => {
                proof {
                    lemma_ms_absent(self.entries@, k@);
                }
                0
            },
        }
    }

    /// Adds `n` occurrences of `k`.
    pub fn insert_n(&mut self, k: String, n: usize)
        requires
            old(self).wf(),
            old(self)@.count(k@) + n <= usize::MAX,
        ensures
            final(self).wf(),
            final(self)@ == old(self)@.add(copies(k@, n as nat)),
    {
        proof {
            lemma_copies(k@, n as nat);
        }
        let ghost s = self.entries@;
        match self.find(&k) {
            Some(i) => {
                let c = self.entries[i].1;
                proof {
                    lemma_ms_at(s, i as int);
                }
                let key = self.entries[i].0.clone();
                self.entries.set(i, (key, c + n));
                proof {
                    let t = self.entries@;
                    assert(keys_unique(t));
                    assert forall|x: Seq<char>|
                        #[trigger] ms_of(t).count(x) == ms_of(s).add(copies(k@, n as nat)).count(
                            x,
                        ) by {
                        lemma_ms_count(s, x);
                        lemma_ms_count(t, x);
                        if has_key(s, x) {
                            let j = choose|j: int| 0 <= j < s.len() && s[j].0@ == x;
                            assert(t[j].0@ == x);
                            lemma_ms_at(t, j);
                            lemma_ms_at(s, j);
                        } else {
                            assert(!has_key(t, x)) by {
                                if has_key(t, x) {
                                    let j = choose|j: int| 0 <= j < t.len() && t[j].0@ == x;
                                    assert(s[j].0@ == x);
                                }
                            }
                        }
                    }
                    assert(ms_of(t) =~= ms_of(s).add(copies(k@, n as nat)));
                }
            },
            None => {
                self.entries.push((k, n));
                proof {
                    lemma_ms_push(s, (k, n));
                    assert(self.entries@ == s.push((k, n)));
                    assert(keys_unique(self.entries@)) by {
                        assert forall|a: int, b: int|
                            0 <= a < b < self.entries@.len() implies self.entries@[a].0@
                            != self.entries@[b].0@ by {
                            if b == s.len() {
                                assert(s[a].0@ != k@);
                            }
                        }
                    }
                }
            },
        }
    }

    /// Adds one occurrence of `k`.
    pub fn insert(&mut self, k: String)
        requires
            old(self).wf(),
            old(self)@.count(k@) < usize::MAX,
        ensures
            final(self).wf(),
            final(self)@ == old(self)@.insert(k@),
    {
        self.insert_n(k, 1);
        proof {
            lemma_copies(k@, 1);
            assert(copies(k@, 1) =~= Multiset::singleton(k@));
        }
    }

    /// Removes one occurrence of `k`; fails when the bag holds none.
    pub fn remove(&mut self, k: &String) -> (r: Result<(), BagError>)
        requires
            old(self).wf(),
        ensures
            final(self).wf(),
            old(self)@.count(k@) == 0 ==> r == Err::<(), BagError>(BagError::NotInBag { key: *k })
                && final(self)@ == old(self)@,
            old(self)@.count(k@) > 0 ==> r is Ok && final(self)@ == old(self)@.remove(k@),
    {
        let ghost s = self.entries@;
        match self.find(k) {
            Some(i) => {
                let c = self.entries[i].1;
                proof {
                    lemma_ms_at(s, i as int);
                }
                if c == 0 {
                    return Err(BagError::NotInBag { key: k.clone() });
                }
                let key = self.entries[i].0.clone();
                self.entries.set(i, (key, c - 1));
                proof {
                    let t = self.entries@;
                    assert(keys_unique(t));
                    assert forall|x: Seq<char>| #[trigger]
                        ms_of(t).count(x) == ms_of(s).remove(k@).count(x) by {
                        lemma_ms_count(s, x);
                        lemma_ms_count(t, x);
                        if has_key(s, x) {
                            let j = choose|j: int| 0 <= j < s.len() && s[j].0@ == x;
                            assert(t[j].0@ == x);
                            lemma_ms_at(t, j);
                            lemma_ms_at(s, j);
                        } else {
                            assert(!has_key(t, x)) by {
                                if has_key(t, x) {
                                    let j = choose|j: int| 0 <= j < t.len() && t[j].0@ == x;
                                    assert(s[j].0@ == x);
                                }
                            }
                        }
                    }
                    assert(ms_of(t) =~= ms_of(s).remove(k@));
                }
                Ok(())
            },
            None => {
                proof {
                    lemma_ms_absent(s, k@);
                }
                Err(BagError::NotInBag { key: k.clone() })
            },
        }
    }

    /// Whether the bag holds no occurrence at all.
    pub fn is_empty(&self) -> (r: bool)
        requires
            self.wf(),
        ensures
            r == (self@.len() == 0),
    {
        let mut i: usize = 0;
        while i < self.entries.len()
            invariant
                i <= self.entries.len(),
                keys_unique(self.entries@),
                ms_of(self.entries@.subrange(0, i as int)) =~= Multiset::<Seq<char>>::empty(),
            decreases self.entries.len() - i,
        {
            proof {
                lemma_ms_prefix(self.entries@, i as int);
                lemma_copies(self.entries@[i as int].0@, self.entries@[i as int].1 as nat);
            }
            if self.entries[i].1 > 0 {
                proof {
                    lemma_ms_at(self.entries@, i as int);
                }
                return false;
            }
            i = i + 1;
        }
        assert(self.entries@.subrange(0, self.entries.len() as int) =~= self.entries@);
        true
    }

    /// Adds every occurrence of `other` to this bag.
    pub fn union(&mut self, other: &Bag)
        requires
            old(self).wf(),
            other.wf(),
            forall|x: Seq<char>| #[trigger] old(self)@.count(x) + other@.count(x) <= usize::MAX,
        ensures
            final(self).wf(),
            final(self)@ == old(self)@.add(other@),
    {
        let ghost start = self@;
        let mut i: usize = 0;
        while i < other.entries.len()
            invariant
                i <= other.entries.len(),
                self.wf(),
                other.wf(),
                forall|x: Seq<char>| #[trigger] start.count(x) + other@.count(x) <= usize::MAX,
                self@ == start.add(ms_of(other.entries@.subrange(0, i as int))),
            decreases other.entries.len() - i,
        {
            let k = other.entries[i].0.clone();
            let n = other.entries[i].1;
            proof {
                let o = other.entries@;
                lemma_ms_prefix(o, i as int);
                lemma_ms_at(o, i as int);
                let p = o.subrange(0, i as int);
                assert(!has_key(p, k@)) by {
                    if has_key(p, k@) {
                        let q = choose|q: int| 0 <= q < p.len() && p[q].0@ == k@;
                        assert(o[q].0@ == o[i as int].0@);
                    }
                }
                lemma_ms_absent(p, k@);
                assert(start.count(k@) + other@.count(k@) <= usize::MAX);
            }
            self.insert_n(k, n);
            proof {
                assert(self@ =~= start.add(ms_of(other.entries@.subrange(0, i + 1))));
            }
            i = i + 1;
        }
        assert(other.entries@.subrange(0, other.entries.len() as int) =~= other.entries@);
    }

    /// The bag with one occurrence per element of `keys`.
    pub fn from_keys(keys: Vec<String>) -> (r: Bag)
        ensures
            r.wf(),
            r@ == keys_ms(keys@),
    {
        let mut bag = Bag::new();
        let mut i: usize = 0;
        proof {
            let z = keys@.subrange(0, 0).map_values(|k: String| k@);
            assert(z =~= Seq::<Seq<char>>::empty());
            z.to_multiset_ensures();
            assert(z.to_multiset() =~= Multiset::<Seq<char>>::empty());
        }
        while i < keys.len()
            invariant
                i <= keys.len(),
                bag.wf(),
                bag@ == keys_ms(keys@.subrange(0, i as int)),
            decreases keys.len() - i,
        {
            let ghost p = keys@.subrange(0, i as int);
            proof {
                assert(keys@.subrange(0, i + 1) =~= p.push(keys@[i as int]));
                assert(p.push(keys@[i as int]).map_values(|k: String| k@) =~= p.map_values(
                    |k: String| k@,
                ).push(keys@[i as int]@));
                p.map_values(|k: String| k@).to_multiset_ensures();
                assert(bag@.count(keys@[i as int]@) <= bag@.len());
            }
            bag.insert(keys[i].clone());
            i = i + 1;
        }
        assert(keys@.subrange(0, keys.len() as int) =~= keys@);
        bag
    }

    /// The bag as (key, count) entries, one per key.
    pub fn counts(&self) -> (r: Vec<(String, usize)>)
        requires
            self.wf(),
        ensures
            keys_unique(r@),
            ms_of(r@) == self@,
    {
        let mut out: Vec<(String, usize)> = Vec::new();
        let mut i: usize = 0;
        while i < self.entries.len()
            invariant
                i <= self.entries.len(),
                keys_unique(self.entries@),
                out@ == self.entries@.subrange(0, i as int),
            decreases self.entries.len() - i,
        {
            out.push((self.entries[i].0.clone(), self.entries[i].1));
            proof {
                assert(out@ =~= self.entries@.subrange(0, i + 1));
            }
            i = i + 1;
        }
        proof {
            assert(out@ =~= self.entries@);
        }
        out
    }

    /// Whether every entry of `self` has the same count in `other`.
    fn covered_by(&self, other: &Bag) -> (r: bool)
        requires
            self.wf(),
            other.wf(),
        ensures
            r == forall|x: Seq<char>| #[trigger] has_key(self.entries@, x) ==> self@.count(x)
                == other@.count(x),
    {
        let mut i: usize = 0;
        while i < self.entries.len()
            invariant
                i <= self.entries.len(),
                self.wf(),
                other.wf(),
                forall|t: int|
                    0 <= t < i ==> self@.count((#[trigger] self.entries@[t]).0@) == other@.count(
                        self.entries@[t].0@,
                    ),
            decreases self.entries.len() - i,
        {
            proof {
                lemma_ms_at(self.entries@, i as int);
            }
            if other.count(&self.entries[i].0) != self.entries[i].1 {
                proof {
                    assert(has_key(self.entries@, self.entries@[i as int].0@));
                }
                return false;
            }
            i = i + 1;
        }
        proof {
            assert forall|x: Seq<char>| #[trigger] has_key(self.entries@, x) implies self@.count(x)
                == other@.count(x) by {
                let t = choose|t: int| 0 <= t < self.entries@.len() && self.entries@[t].0@ == x;
                assert(self@.count(self.entries@[t].0@) == other@.count(self.entries@[t].0@));
            }
        }
        true
    }

    /// Whether the two bags hold the same occurrences.
    pub fn equals(&self, other: &Bag) -> (r: bool)
        requires
            self.wf(),
            other.wf(),
        ensures
            r == (self@ == other@),
    {
        let r = self.covered_by(other) && other.covered_by(self);
        proof {
            if r {
                assert forall|x: Seq<char>| #[trigger] self@.count(x) == other@.count(x) by {
                    if !has_key(self.entries@, x) && !has_key(other.entries@, x) {
                        lemma_ms_absent(self.entries@, x);
                        lemma_ms_absent(other.entries@, x);
                    }
                }
                assert(self@ =~= other@);
            }
        }
        r
    }
}

} // verus!
