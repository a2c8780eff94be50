use crate::candidate::{Candidate, Component, MatchCond};
use crate::cardinality::{Cardinality, CardinalityError, Max};
use crate::matcher::FailureReason;
use vstd::multiset::*;
use vstd::prelude::*;

verus! {

broadcast use group_multiset_axioms, group_multiset_properties, vstd::std_specs::vec::group_vec_axioms, vstd::seq::group_seq_axioms, vstd::set::group_set_axioms;

/// An occurrence seen as a (key, value) pair of character sequences.
pub type Occ = (Seq<char>, Seq<char>);

/// One attribution of a candidate: key, value, component and condition.
pub type Attribution = (String, String, Component, MatchCond);

/// The multiset of a list of (key, value) occurrences.
pub open spec fn occ_ms(s: Seq<(String, String)>) -> Multiset<Occ>
    decreases s.len(),
{
    if s.len() == 0 {
        Multiset::empty()
    } else {
        occ_ms(s.drop_last()).insert((s.last().0@, s.last().1@))
    }
}

/// The occurrences that a list of attributions accounts for.
pub open spec fn attributed(w: Seq<Attribution>) -> Multiset<Occ>
    decreases w.len(),
{
    if w.len() == 0 {
        Multiset::empty()
    } else {
        attributed(w.drop_last()).insert((w.last().0@, w.last().1@))
    }
}

/// Whether `v` meets condition `c`, where a shape reference is met by the (value, shape)
/// pairs listed in `conf`.
pub open spec fn cond_holds(c: MatchCond, v: Seq<char>, conf: Seq<(String, String)>) -> bool {
    match c {
        MatchCond::Any => true,
        MatchCond::Value(x) => v == x@,
        MatchCond::Ref(r) => exists|i: int|
            0 <= i < conf.len() && (#[trigger] conf[i]).0@ == v && conf[i].1@ == r@,
    }
}

/// A regular bag expression whose symbols also constrain the values of the occurrences
/// they take.
#[derive(Debug)]
pub enum Rbe1 {
    Empty,
    Symbol { key: String, cond: MatchCond, card: Cardinality },
    And { values: Vec<Rbe1> },
    Or { values: Vec<Rbe1> },
}

pub open spec fn keys_all(cs: Seq<Rbe1>) -> Set<Seq<char>>
    decreases cs,
{
    if cs.len() == 0 {
        Set::empty()
    } else {
        cs[0].keys().union(keys_all(cs.subrange(1, cs.len() as int)))
    }
}

pub open spec fn conds_all(cs: Seq<Rbe1>) -> Set<(Seq<char>, MatchCond)>
    decreases cs,
{
    if cs.len() == 0 {
        Set::empty()
    } else {
        cs[0].conds().union(conds_all(cs.subrange(1, cs.len() as int)))
    }
}

pub open spec fn sat1_and(cs: Seq<Rbe1>, b: Multiset<Occ>, conf: Seq<(String, String)>) -> bool
    decreases cs,
{
    if cs.len() == 0 {
        b.len() == 0
    } else {
        exists|b1: Multiset<Occ>|
            #![trigger b.sub(b1)]
            b1.subset_of(b) && cs[0].sat(b1, conf) && sat1_and(
                cs.subrange(1, cs.len() as int),
                b.sub(b1),
                conf,
            )
    }
}

pub open spec fn sat1_or(cs: Seq<Rbe1>, b: Multiset<Occ>, conf: Seq<(String, String)>) -> bool
    decreases cs,
{
    if cs.len() == 0 {
        false
    } else {
        cs[0].sat(b, conf) || sat1_or(cs.subrange(1, cs.len() as int), b, conf)
    }
}

impl Rbe1 {
    /// The keys mentioned by the symbols of the expression.
    pub open spec fn keys(self) -> Set<Seq<char>>
        decreases self,
    {
        match self {
            Rbe1::Empty => Set::empty(),
            Rbe1::Symbol { key, .. } => set![key@],
            Rbe1::And { values } => keys_all(values@),
            Rbe1::Or { values } => keys_all(values@),
        }
    }

    /// The (key, condition) pairs of the symbols of the expression.
    pub open spec fn conds(self) -> Set<(Seq<char>, MatchCond)>
        decreases self,
    {
        match self {
            Rbe1::Empty => Set::empty(),
            Rbe1::Symbol { key, cond, .. } => set![(key@, cond)],
            Rbe1::And { values } => conds_all(values@),
            Rbe1::Or { values } => conds_all(values@),
        }
    }

    /// The occurrences `b` conform to the expression, with shape conformance given by `conf`.
    pub open spec fn sat(self, b: Multiset<Occ>, conf: Seq<(String, String)>) -> bool
        decreases self,
    {
        match self {
            Rbe1::Empty => b.len() == 0,
            Rbe1::Symbol { key, cond, card } => card.admits(b.len()) && forall|a: Occ|
                #[trigger] b.count(a) > 0 ==> a.0 == key@ && cond_holds(cond, a.1, conf),
            Rbe1::And { values } => sat1_and(values@, b, conf),
            Rbe1::Or { values } => sat1_or(values@, b, conf),
        }
    }

    pub fn empty() -> (r: Rbe1)
        ensures
            r == Rbe1::Empty,
    {
        Rbe1::Empty
    }

    pub fn and(values: Vec<Rbe1>) -> (r: Rbe1)
        ensures
            r == (Rbe1::And { values }),
    {
        Rbe1::And { values }
    }

    pub fn or(values: Vec<Rbe1>) -> (r: Rbe1)
        ensures
            r == (Rbe1::Or { values }),
    {
        Rbe1::Or { values }
    }

    pub fn symbol(key: String, cond: MatchCond, min: usize, max: Max) -> (r: Result<
        Rbe1,
        CardinalityError,
    >)
        ensures
            max.allows(min as nat) ==> r == Ok::<Rbe1, CardinalityError>(
                Rbe1::Symbol { key, cond, card: Cardinality { min, max } },
            ),
            !max.allows(min as nat) ==> r == Err::<Rbe1, CardinalityError>(
                CardinalityError::MinGreaterThanMax { min, max },
            ),
    {
        match Cardinality::new(min, max) {
            Ok(card) => Ok(Rbe1::Symbol { key, cond, card }),
            Err(e) => Err(e),
        }
    }

    /// Whether some symbol of the expression mentions `key`.
    pub fn mentions(&self, key: &String) -> (r: bool)
        ensures
            r == self.keys().contains(key@),
        decreases self,
    {
        match self {
            Rbe1::Empty => false,
            Rbe1::Symbol { key: k, .. } => *k == *key,
            Rbe1::And { values } => {
                assert(values@.subrange(0, values.len() as int) =~= values@);
                mentions_any1(values, 0, key)
            },
            Rbe1::Or { values } => {
                assert(values@.subrange(0, values.len() as int) =~= values@);
                mentions_any1(values, 0, key)
            },
        }
    }
}

fn mentions_any1(cs: &Vec<Rbe1>, i: usize, key: &String) -> (r: bool)
    requires
        i <= cs.len(),
    ensures
        r == keys_all(cs@.subrange(i as int, cs.len() as int)).contains(key@),
    decreases cs, cs.len() - i,
{
    let ghost rest = cs@.subrange(i as int, cs.len() as int);
    if i == cs.len() {
        false
    } else {
        assert(rest[0] == cs@[i as int]);
        assert(rest.subrange(1, rest.len() as int) =~= cs@.subrange(i + 1, cs.len() as int));
        if cs[i].mentions(key) {
            true
        } else {
            mentions_any1(cs, i + 1, key)
        }
    }
}

/// The conditions of each expression of `cs` are among those of the sequence.
proof fn lemma_conds_all(cs: Seq<Rbe1>, i: int)
    requires
        0 <= i < cs.len(),
    ensures
        cs[i].conds().subset_of(conds_all(cs)),
    decreases cs.len(),
{
    if i > 0 {
        let t = cs.subrange(1, cs.len() as int);
        assert(t[i - 1] == cs[i]);
        lemma_conds_all(t, i - 1);
    }
}

pub proof fn lemma_occ_push(s: Seq<(String, String)>, e: (String, String))
    ensures
        occ_ms(s.push(e)) == occ_ms(s).insert((e.0@, e.1@)),
{
    assert(s.push(e).drop_last() =~= s);
}

pub proof fn lemma_occ_prefix(s: Seq<(String, String)>, i: int)
    requires
        0 <= i < s.len(),
    ensures
        occ_ms(s.subrange(0, i + 1)) == occ_ms(s.subrange(0, i)).insert((s[i].0@, s[i].1@)),
{
    assert(s.subrange(0, i + 1).drop_last() =~= s.subrange(0, i));
}

/// An occurrence listed in `s` is in its multiset.
proof fn lemma_occ_member(s: Seq<(String, String)>, i: int)
    requires
        0 <= i < s.len(),
    ensures
        occ_ms(s).count((s[i].0@, s[i].1@)) > 0,
    decreases s.len(),
{
    if i < s.len() - 1 {
        assert(s.drop_last()[i] == s[i]);
        lemma_occ_member(s.drop_last(), i);
    }
}

/// Attributions of two lists together account for both.
proof fn lemma_attributed_concat(w1: Seq<Attribution>, w2: Seq<Attribution>)
    ensures
        attributed(w1 + w2) == attributed(w1).add(attributed(w2)),
    decreases w2.len(),
{
    if w2.len() == 0 {
        assert(w1 + w2 =~= w1);
        assert(attributed(w1).add(attributed(w2)) =~= attributed(w1));
    } else {
        assert((w1 + w2).drop_last() =~= w1 + w2.drop_last());
        lemma_attributed_concat(w1, w2.drop_last());
        assert(attributed(w1 + w2) =~= attributed(w1).add(attributed(w2)));
    }
}

/// Some part `b1` of `r` lets `child` match `a1` plus `b1` while `rest` matches `a2` plus the
/// remainder of `r`.
pub open spec fn can_split1(
    child: Rbe1,
    rest: Seq<Rbe1>,
    a1: Multiset<Occ>,
    a2: Multiset<Occ>,
    r: Multiset<Occ>,
    conf: Seq<(String, String)>,
) -> bool {
    exists|b1: Multiset<Occ>|
        #![trigger r.sub(b1)]
        b1.subset_of(r) && child.sat(a1.add(b1), conf) && sat1_and(rest, a2.add(r.sub(b1)), conf)
}

/// `w` accounts for exactly the occurrences `b`, each taken by a symbol whose (key, condition)
/// pair is in `conds` and whose condition accepts its value.
pub open spec fn witness_ok(
    conds: Set<(Seq<char>, MatchCond)>,
    w: Seq<Attribution>,
    b: Multiset<Occ>,
    conf: Seq<(String, String)>,
) -> bool {
    &&& attributed(w) == b
    &&& forall|i: int|
        0 <= i < w.len() ==> conds.contains((#[trigger] w[i].0@, w[i].3)) && cond_holds(
            w[i].3,
            w[i].1@,
            conf,
        )
}

proof fn lemma_witness_concat(
    c: Set<(Seq<char>, MatchCond)>,
    w1: Seq<Attribution>,
    b1: Multiset<Occ>,
    w2: Seq<Attribution>,
    b2: Multiset<Occ>,
    conf: Seq<(String, String)>,
)
    requires
        witness_ok(c, w1, b1, conf),
        witness_ok(c, w2, b2, conf),
    ensures
        witness_ok(c, w1 + w2, b1.add(b2), conf),
{
    lemma_attributed_concat(w1, w2);
    let w = w1 + w2;
    assert forall|i: int| 0 <= i < w.len() implies c.contains((#[trigger] w[i].0@, w[i].3))
        && cond_holds(w[i].3, w[i].1@, conf) by {
        if i < w1.len() {
            assert(w[i] == w1[i]);
        } else {
            assert(w[i] == w2[i - w1.len()]);
        }
    }
}

proof fn lemma_witness_widen(
    c1: Set<(Seq<char>, MatchCond)>,
    c2: Set<(Seq<char>, MatchCond)>,
    w: Seq<Attribution>,
    b: Multiset<Occ>,
    conf: Seq<(String, String)>,
)
    requires
        witness_ok(c1, w, b, conf),
        c1.subset_of(c2),
    ensures
        witness_ok(c2, w, b, conf),
{
    assert forall|i: int| 0 <= i < w.len() implies c2.contains((#[trigger] w[i].0@, w[i].3)) by {
        assert(c1.contains((w[i].0@, w[i].3)));
    }
}

proof fn lemma_occ_len(s: Seq<(String, String)>)
    ensures
        occ_ms(s).len() == s.len(),
    decreases s.len(),
{
    if s.len() > 0 {
        lemma_occ_len(s.drop_last());
    }
}

proof fn lemma_sat1_or(cs: Seq<Rbe1>, b: Multiset<Occ>, conf: Seq<(String, String)>)
    ensures
        sat1_or(cs, b, conf) <==> exists|i: int| 0 <= i < cs.len() && #[trigger] cs[i].sat(b, conf),
    decreases cs.len(),
{
    if cs.len() > 0 {
        let tail = cs.subrange(1, cs.len() as int);
        lemma_sat1_or(tail, b, conf);
        assert(sat1_or(cs, b, conf) == (cs[0].sat(b, conf) || sat1_or(tail, b, conf)));
        if exists|i: int| 0 <= i < cs.len() && #[trigger] cs[i].sat(b, conf) {
            let i = choose|i: int| 0 <= i < cs.len() && #[trigger] cs[i].sat(b, conf);
            if i > 0 {
                assert(tail[i - 1] == cs[i]);
                assert(tail[i - 1].sat(b, conf));
            }
        }
        if sat1_or(tail, b, conf) {
            let i = choose|i: int| 0 <= i < tail.len() && #[trigger] tail[i].sat(b, conf);
            assert(cs[i + 1] == tail[i]);
            assert(cs[i + 1].sat(b, conf));
        }
        if cs[0].sat(b, conf) {
            assert(0 <= 0 < cs.len() && cs[0].sat(b, conf));
        }
    }
}

proof fn lemma_split1_base(
    child: Rbe1,
    rest: Seq<Rbe1>,
    a1: Multiset<Occ>,
    a2: Multiset<Occ>,
    conf: Seq<(String, String)>,
)
    ensures
        can_split1(child, rest, a1, a2, Multiset::empty(), conf) <==> child.sat(a1, conf)
            && sat1_and(rest, a2, conf),
{
    let e = Multiset::<Occ>::empty();
    assert(a1.add(e) =~= a1);
    assert(a2.add(e.sub(e)) =~= a2);
    if can_split1(child, rest, a1, a2, e, conf) {
        let b1 = choose|b1: Multiset<Occ>|
            #![trigger e.sub(b1)]
            b1.subset_of(e) && child.sat(a1.add(b1), conf) && sat1_and(
                rest,
                a2.add(e.sub(b1)),
                conf,
            );
        assert(b1 =~= e);
    }
    if child.sat(a1, conf) && sat1_and(rest, a2, conf) {
        assert(e.subset_of(e) && child.sat(a1.add(e), conf) && sat1_and(
            rest,
            a2.add(e.sub(e)),
            conf,
        ));
    }
}

/// One more occurrence `x` goes either to the child or to the rest.
proof fn lemma_split1_step(
    child: Rbe1,
    rest: Seq<Rbe1>,
    a1: Multiset<Occ>,
    a2: Multiset<Occ>,
    r0: Multiset<Occ>,
    x: Occ,
    conf: Seq<(String, String)>,
)
    ensures
        can_split1(child, rest, a1, a2, r0.insert(x), conf) <==> (can_split1(
            child,
            rest,
            a1.insert(x),
            a2,
            r0,
            conf,
        ) || can_split1(child, rest, a1, a2.insert(x), r0, conf)),
{
    let r = r0.insert(x);
    if can_split1(child, rest, a1.insert(x), a2, r0, conf) {
        let b1p = choose|b1: Multiset<Occ>|
            #![trigger r0.sub(b1)]
            b1.subset_of(r0) && child.sat(a1.insert(x).add(b1), conf) && sat1_and(
                rest,
                a2.add(r0.sub(b1)),
                conf,
            );
        let b1 = b1p.insert(x);
        assert(a1.add(b1) =~= a1.insert(x).add(b1p));
        assert(r.sub(b1) =~= r0.sub(b1p)) by {
            assert forall|y: Occ| #[trigger] r.sub(b1).count(y) == r0.sub(b1p).count(y) by {
                assert(b1p.count(y) <= r0.count(y));
            }
        }
        assert(b1.subset_of(r)) by {
            assert forall|y: Occ| #[trigger] b1.count(y) <= r.count(y) by {
                assert(b1p.count(y) <= r0.count(y));
            }
        }
        assert(b1.subset_of(r) && child.sat(a1.add(b1), conf) && sat1_and(
            rest,
            a2.add(r.sub(b1)),
            conf,
        ));
    }
    if can_split1(child, rest, a1, a2.insert(x), r0, conf) {
        let b1 = choose|b1: Multiset<Occ>|
            #![trigger r0.sub(b1)]
            b1.subset_of(r0) && child.sat(a1.add(b1), conf) && sat1_and(
                rest,
                a2.insert(x).add(r0.sub(b1)),
                conf,
            );
        assert(a2.add(r.sub(b1)) =~= a2.insert(x).add(r0.sub(b1))) by {
            assert forall|y: Occ| #[trigger]
                a2.add(r.sub(b1)).count(y) == a2.insert(x).add(r0.sub(b1)).count(y) by {
                assert(b1.count(y) <= r0.count(y));
            }
        }
        assert(b1.subset_of(r)) by {
            assert forall|y: Occ| #[trigger] b1.count(y) <= r.count(y) by {
                assert(b1.count(y) <= r0.count(y));
            }
        }
        assert(b1.subset_of(r) && child.sat(a1.add(b1), conf) && sat1_and(
            rest,
            a2.add(r.sub(b1)),
            conf,
        ));
    }
    if can_split1(child, rest, a1, a2, r, conf) {
        let b1 = choose|b1: Multiset<Occ>|
            #![trigger r.sub(b1)]
            b1.subset_of(r) && child.sat(a1.add(b1), conf) && sat1_and(
                rest,
                a2.add(r.sub(b1)),
                conf,
            );
        if b1.count(x) > 0 {
            let b1p = b1.remove(x);
            assert(a1.insert(x).add(b1p) =~= a1.add(b1));
            assert(r0.sub(b1p) =~= r.sub(b1)) by {
                assert forall|y: Occ| #[trigger] r0.sub(b1p).count(y) == r.sub(b1).count(y) by {
                    assert(b1.count(y) <= r.count(y));
                }
            }
            assert(b1p.subset_of(r0)) by {
                assert forall|y: Occ| #[trigger] b1p.count(y) <= r0.count(y) by {
                    assert(b1.count(y) <= r.count(y));
                }
            }
            assert(b1p.subset_of(r0) && child.sat(a1.insert(x).add(b1p), conf) && sat1_and(
                rest,
                a2.add(r0.sub(b1p)),
                conf,
            ));
        } else {
            assert(a2.insert(x).add(r0.sub(b1)) =~= a2.add(r.sub(b1))) by {
                assert forall|y: Occ| #[trigger]
                    a2.insert(x).add(r0.sub(b1)).count(y) == a2.add(r.sub(b1)).count(y) by {
                    assert(b1.count(y) <= r.count(y));
                }
            }
            assert(b1.subset_of(r0)) by {
                assert forall|y: Occ| #[trigger] b1.count(y) <= r0.count(y) by {
                    assert(b1.count(y) <= r.count(y));
                }
            }
            assert(b1.subset_of(r0) && child.sat(a1.add(b1), conf) && sat1_and(
                rest,
                a2.insert(x).add(r0.sub(b1)),
                conf,
            ));
        }
    }
}

proof fn lemma_and1_unfold(cs: Seq<Rbe1>, b: Multiset<Occ>, conf: Seq<(String, String)>)
    requires
        cs.len() > 0,
    ensures
        sat1_and(cs, b, conf) <==> can_split1(
            cs[0],
            cs.subrange(1, cs.len() as int),
            Multiset::empty(),
            Multiset::empty(),
            b,
            conf,
        ),
{
    let e = Multiset::<Occ>::empty();
    let rest = cs.subrange(1, cs.len() as int);
    if sat1_and(cs, b, conf) {
        let b1 = choose|b1: Multiset<Occ>|
            #![trigger b.sub(b1)]
            b1.subset_of(b) && cs[0].sat(b1, conf) && sat1_and(rest, b.sub(b1), conf);
        assert(e.add(b1) =~= b1);
        assert(e.add(b.sub(b1)) =~= b.sub(b1));
        assert(b1.subset_of(b) && cs[0].sat(e.add(b1), conf) && sat1_and(
            rest,
            e.add(b.sub(b1)),
            conf,
        ));
    }
    if can_split1(cs[0], rest, e, e, b, conf) {
        let b1 = choose|b1: Multiset<Occ>|
            #![trigger b.sub(b1)]
            b1.subset_of(b) && cs[0].sat(e.add(b1), conf) && sat1_and(
                rest,
                e.add(b.sub(b1)),
                conf,
            );
        assert(e.add(b1) =~= b1);
        assert(e.add(b.sub(b1)) =~= b.sub(b1));
        assert(b1.subset_of(b) && cs[0].sat(b1, conf) && sat1_and(rest, b.sub(b1), conf));
    }
}

/// Whether `v` meets `c`, given the (value, shape) pairs that conform.
pub fn cond_check(c: &MatchCond, v: &String, conf: &Vec<(String, String)>) -> (r: bool)
    ensures
        r == cond_holds(*c, v@, conf@),
{
    match c {
        MatchCond::Any => true,
        MatchCond::Value(x) => *v == *x,
        MatchCond::Ref(shape) => {
            let mut i: usize = 0;
            while i < conf.len()
                invariant
                    i <= conf.len(),
                    *c == MatchCond::Ref(*shape),
                    forall|j: int|
                        0 <= j < i ==> !((#[trigger] conf@[j]).0@ == v@ && conf@[j].1@ == shape@),
                decreases conf.len() - i,
            {
                if conf[i].0 == *v && conf[i].1 == *shape {
                    assert(conf@[i as int].0@ == v@ && conf@[i as int].1@ == shape@);
                    return true;
                }
                i = i + 1;
            }
            false
        },
    }
}

/// Matches occurrences against one symbol, attributing them to component `comp`.
fn symbol_match1(
    key: &String,
    cond: &MatchCond,
    card: &Cardinality,
    occ: &Vec<(String, String)>,
    conf: &Vec<(String, String)>,
    comp: Component,
) -> (r: Option<Vec<Attribution>>)
    ensures
        r is Some == (Rbe1::Symbol { key: *key, cond: *cond, card: *card }).sat(
            occ_ms(occ@),
            conf@,
        ),
        r matches Some(w) ==> witness_ok(set![(key@, *cond)], w@, occ_ms(occ@), conf@),
{
    let mut w: Vec<Attribution> = Vec::new();
    let mut i: usize = 0;
    while i < occ.len()
        invariant
            i <= occ.len(),
            w.len() == i,
            forall|a: Occ|
                #[trigger] occ_ms(occ@.subrange(0, i as int)).count(a) > 0 ==> a.0 == key@
                    && cond_holds(*cond, a.1, conf@),
            witness_ok(set![(key@, *cond)], w@, occ_ms(occ@.subrange(0, i as int)), conf@),
        decreases occ.len() - i,
    {
        proof {
            lemma_occ_prefix(occ@, i as int);
        }
        if !(occ[i].0 == *key) || !cond_check(cond, &occ[i].1, conf) {
            proof {
                lemma_occ_member(occ@, i as int);
            }
            return None;
        }
        let ghost before = w@;
        w.push((occ[i].0.clone(), occ[i].1.clone(), comp, cond.duplicate()));
        proof {
            assert(w@.drop_last() =~= before);
            assert(attributed(w@) =~= occ_ms(occ@.subrange(0, i + 1)));
        }
        i = i + 1;
    }
    proof {
        assert(occ@.subrange(0, occ.len() as int) =~= occ@);
        lemma_occ_len(occ@);
    }
    if card.contains(occ.len()) {
        Some(w)
    } else {
        None
    }
}

/// Matches occurrences against `e`; symbols outside a conjunction report component `comp`.
fn match1(
    e: &Rbe1,
    occ: &Vec<(String, String)>,
    conf: &Vec<(String, String)>,
    comp: Component,
) -> (r: Option<Vec<Attribution>>)
    ensures
        r is Some == e.sat(occ_ms(occ@), conf@),
        r matches Some(w) ==> witness_ok(e.conds(), w@, occ_ms(occ@), conf@),
    decreases e, 2nat, 0nat, 0nat,
{
    match e {
        Rbe1::Empty => {
            proof {
                lemma_occ_len(occ@);
            }
            if occ.len() == 0 {
                proof {
                    assert(occ@ =~= Seq::<(String, String)>::empty());
                    assert(attributed(Seq::<Attribution>::empty()) == occ_ms(occ@));
                }
                Some(Vec::new())
            } else {
                None
            }
        },
        Rbe1::Symbol { key, cond, card } => symbol_match1(key, cond, card, occ, conf, comp),
        Rbe1::And { values } => {
            assert(values@.subrange(0, values.len() as int) =~= values@);
            let mut memo: Vec<(usize, Vec<(String, String)>)> = Vec::new();
            match_and1(e, values, 0, occ, conf, &mut memo)
        },
        Rbe1::Or { values } => {
            let mut i: usize = 0;
            while i < values.len()
                invariant
                    i <= values.len(),
                    *e == (Rbe1::Or { values: *values }),
                    forall|j: int| 0 <= j < i ==> !(#[trigger] values@[j].sat(occ_ms(occ@), conf@)),
                decreases values.len() - i,
            {
                proof {
                    assert(decreases_to!(*e => e->Or_values));
                    assert(decreases_to!(*values => values@));
                    assert(decreases_to!(values@ => values@[i as int]));
                }
                let r = match1(&values[i], occ, conf, comp);
                if r.is_some() {
                    proof {
                        lemma_sat1_or(values@, occ_ms(occ@), conf@);
                        lemma_conds_all(values@, i as int);
                        lemma_witness_widen(
                            values@[i as int].conds(),
                            e.conds(),
                            r->0@,
                            occ_ms(occ@),
                            conf@,
                        );
                    }
                    return r;
                }
                i = i + 1;
            }
            proof {
                lemma_sat1_or(values@, occ_ms(occ@), conf@);
            }
            None
        },
    }
}

/// Each remembered (position, occurrences) pair is known not to split among the parts of
/// `values` from that position on.
pub open spec fn memo1_ok(
    values: Seq<Rbe1>,
    memo: Seq<(usize, Vec<(String, String)>)>,
    conf: Seq<(String, String)>,
) -> bool {
    forall|k: int|
        0 <= k < memo.len() ==> (#[trigger] memo[k]).0 <= values.len() && !sat1_and(
            values.subrange(memo[k].0 as int, values.len() as int),
            occ_ms(memo[k].1@),
            conf,
        )
}

proof fn lemma_occ_same(x: Seq<(String, String)>, y: Seq<(String, String)>)
    requires
        x.len() == y.len(),
        forall|t: int| 0 <= t < x.len() ==> (#[trigger] x[t]).0@ == y[t].0@ && x[t].1@ == y[t].1@,
    ensures
        occ_ms(x) == occ_ms(y),
    decreases x.len(),
{
    if x.len() > 0 {
        let (dx, dy) = (x.drop_last(), y.drop_last());
        assert forall|t: int| 0 <= t < dx.len() implies (#[trigger] dx[t]).0@ == dy[t].0@
            && dx[t].1@ == dy[t].1@ by {
            assert(dx[t] == x[t] && dy[t] == y[t]);
        }
        lemma_occ_same(dx, dy);
        assert(x.last().0@ == y.last().0@ && x.last().1@ == y.last().1@);
    }
}

/// Whether `x` and `y` list the same occurrences in the same order.
fn same_occurrences(x: &Vec<(String, String)>, y: &Vec<(String, String)>) -> (r: bool)
    ensures
        r ==> occ_ms(x@) == occ_ms(y@),
{
    if x.len() != y.len() {
        return false;
    }
    let mut t: usize = 0;
    while t < x.len()
        invariant
            t <= x.len(),
            x.len() == y.len(),
            forall|u: int|
                0 <= u < t ==> (#[trigger] x@[u]).0@ == y@[u].0@ && x@[u].1@ == y@[u].1@,
        decreases x.len() - t,
    {
        if !(x[t].0 == y[t].0) || !(x[t].1 == y[t].1) {
            return false;
        }
        t = t + 1;
    }
    proof {
        lemma_occ_same(x@, y@);
    }
    true
}

fn copy_occurrences(b: &Vec<(String, String)>) -> (r: Vec<(String, String)>)
    ensures
        r@ == b@,
{
    let mut out: Vec<(String, String)> = Vec::new();
    let mut t: usize = 0;
    while t < b.len()
        invariant
            t <= b.len(),
            out@ == b@.subrange(0, t as int),
        decreases b.len() - t,
    {
        out.push((b[t].0.clone(), b[t].1.clone()));
        proof {
            assert(out@ =~= b@.subrange(0, t + 1));
        }
        t = t + 1;
    }
    proof {
        assert(out@ =~= b@);
    }
    out
}

fn memo1_rejects(
    memo: &Vec<(usize, Vec<(String, String)>)>,
    i: usize,
    b: &Vec<(String, String)>,
) -> (r: bool)
    ensures
        r ==> exists|k: int|
            0 <= k < memo.len() && (#[trigger] memo@[k]).0 == i && occ_ms(memo@[k].1@) == occ_ms(
                b@,
            ),
{
    let mut k: usize = 0;
    while k < memo.len()
        invariant
            k <= memo.len(),
        decreases memo.len() - k,
    {
        if memo[k].0 == i && same_occurrences(&memo[k].1, b) {
            assert(memo@[k as int].0 == i && occ_ms(memo@[k as int].1@) == occ_ms(b@));
            return true;
        }
        k = k + 1;
    }
    false
}

/// Matches occurrences against the parts of `values` from position `i` on.
fn match_and1(
    e: &Rbe1,
    values: &Vec<Rbe1>,
    i: usize,
    occ: &Vec<(String, String)>,
    conf: &Vec<(String, String)>,
    memo: &mut Vec<(usize, Vec<(String, String)>)>,
) -> (r: Option<Vec<Attribution>>)
    requires
        *e == (Rbe1::And { values: *values }),
        i <= values.len(),
        memo1_ok(values@, old(memo)@, conf@),
    ensures
        memo1_ok(values@, final(memo)@, conf@),
        r is Some == sat1_and(values@.subrange(i as int, values.len() as int), occ_ms(occ@), conf@),
        r matches Some(w) ==> witness_ok(
            conds_all(values@.subrange(i as int, values.len() as int)),
            w@,
            occ_ms(occ@),
            conf@,
        ),
    decreases e, 1nat, values.len() - i, occ.len() + 1,
{
    let ghost cs = values@.subrange(i as int, values.len() as int);
    if i == values.len() {
        proof {
            lemma_occ_len(occ@);
        }
        if occ.len() == 0 {
            proof {
                assert(occ@ =~= Seq::<(String, String)>::empty());
                assert(attributed(Seq::<Attribution>::empty()) == occ_ms(occ@));
            }
            Some(Vec::new())
        } else {
            None
        }
    } else if memo1_rejects(memo, i, occ) {
        None
    } else {
        let mut acc1: Vec<(String, String)> = Vec::new();
        let mut acc2: Vec<(String, String)> = Vec::new();
        proof {
            assert(cs[0] == values@[i as int]);
            assert(cs.subrange(1, cs.len() as int) =~= values@.subrange(
                i + 1,
                values.len() as int,
            ));
            assert(occ@.subrange(0, occ.len() as int) =~= occ@);
            lemma_and1_unfold(cs, occ_ms(occ@), conf@);
            let z = Multiset::<Occ>::empty();
            assert(z.add(z).add(occ_ms(occ@)) =~= occ_ms(occ@));
        }
        let r = split1(e, values, i, occ, occ.len(), &mut acc1, &mut acc2, conf, memo);
        if r.is_none() {
            let ghost before = memo@;
            memo.push((i, copy_occurrences(occ)));
            proof {
                assert forall|k: int| 0 <= k < memo@.len() implies (#[trigger] memo@[k]).0
                    <= values.len() && !sat1_and(
                    values@.subrange(memo@[k].0 as int, values.len() as int),
                    occ_ms(memo@[k].1@),
                    conf@,
                ) by {
                    if k < before.len() {
                        assert(memo@[k] == before[k]);
                    }
                }
            }
        }
        r
    }
}

/// Tries every way of handing the first `j` occurrences either to part `i` (on top of
/// `acc1`) or to the parts after it (on top of `acc2`).
fn split1(
    e: &Rbe1,
    values: &Vec<Rbe1>,
    i: usize,
    occ: &Vec<(String, String)>,
    j: usize,
    acc1: &mut Vec<(String, String)>,
    acc2: &mut Vec<(String, String)>,
    conf: &Vec<(String, String)>,
    memo: &mut Vec<(usize, Vec<(String, String)>)>,
) -> (r: Option<Vec<Attribution>>)
    requires
        *e == (Rbe1::And { values: *values }),
        i < values.len(),
        j <= occ.len(),
        memo1_ok(values@, old(memo)@, conf@),
    ensures
        final(acc1)@ == old(acc1)@,
        final(acc2)@ == old(acc2)@,
        memo1_ok(values@, final(memo)@, conf@),
        r is Some == can_split1(
            values@[i as int],
            values@.subrange(i + 1, values.len() as int),
            occ_ms(old(acc1)@),
            occ_ms(old(acc2)@),
            occ_ms(occ@.subrange(0, j as int)),
            conf@,
        ),
        r matches Some(w) ==> witness_ok(
            conds_all(values@.subrange(i as int, values.len() as int)),
            w@,
            occ_ms(old(acc1)@).add(occ_ms(old(acc2)@)).add(occ_ms(occ@.subrange(0, j as int))),
            conf@,
        ),
    decreases e, 1nat, values.len() - i, j,
{
    let ghost child = values@[i as int];
    let ghost rest = values@.subrange(i + 1, values.len() as int);
    let ghost a1 = occ_ms(acc1@);
    let ghost a2 = occ_ms(acc2@);
    let ghost all = values@.subrange(i as int, values.len() as int);
    if j == 0 {
        proof {
            assert(occ@.subrange(0, 0) =~= Seq::<(String, String)>::empty());
            lemma_split1_base(child, rest, a1, a2, conf@);
            assert(decreases_to!(*e => e->And_values));
            assert(decreases_to!(*values => values@));
            assert(decreases_to!(values@ => values@[i as int]));
        }
        let w1 = match1(&values[i], acc1, conf, i);
        match w1 {
            None => None,
            Some(w1) => {
                let w2 = match_and1(e, values, i + 1, acc2, conf, memo);
                match w2 {
                    None => None,
                    Some(w2) => {
                        let ghost v1 = w1@;
                        let ghost v2 = w2@;
                        let mut w = w1;
                        let mut w2 = w2;
                        w.append(&mut w2);
                        proof {
                            assert(all[0] == child);
                            assert(all.subrange(1, all.len() as int) =~= rest);
                            assert(conds_all(all) == child.conds().union(conds_all(rest)));
                            lemma_witness_widen(child.conds(), conds_all(all), v1, a1, conf@);
                            lemma_witness_widen(conds_all(rest), conds_all(all), v2, a2, conf@);
                            lemma_witness_concat(conds_all(all), v1, a1, v2, a2, conf@);
                            assert(a1.add(a2).add(Multiset::<Occ>::empty()) =~= a1.add(a2));
                        }
                        Some(w)
                    },
                }
            },
        }
    } else {
        let ghost x = (occ@[j - 1].0@, occ@[j - 1].1@);
        let ghost r0 = occ_ms(occ@.subrange(0, j - 1));
        proof {
            lemma_occ_prefix(occ@, j - 1);
            lemma_split1_step(child, rest, a1, a2, r0, x, conf@);
        }
        acc1.push((occ[j - 1].0.clone(), occ[j - 1].1.clone()));
        proof {
            lemma_occ_push(old(acc1)@, occ@[j - 1]);
        }
        let r1 = split1(e, values, i, occ, j - 1, acc1, acc2, conf, memo);
        acc1.pop();
        proof {
            assert(acc1@ =~= old(acc1)@);
        }
        if r1.is_some() {
            proof {
                assert(a1.insert(x).add(a2).add(r0) =~= a1.add(a2).add(r0.insert(x)));
            }
            return r1;
        }
        acc2.push((occ[j - 1].0.clone(), occ[j - 1].1.clone()));
        proof {
            lemma_occ_push(old(acc2)@, occ@[j - 1]);
        }
        let r2 = split1(e, values, i, occ, j - 1, acc1, acc2, conf, memo);
        acc2.pop();
        proof {
            assert(acc2@ =~= old(acc2)@);
        }
        proof {
            assert(a1.add(a2.insert(x)).add(r0) =~= a1.add(a2).add(r0.insert(x)));
        }
        r2
    }
}

/// An occurrence in the multiset of a list is listed in it.
proof fn lemma_occ_index(s: Seq<(String, String)>, a: Occ)
    requires
        occ_ms(s).count(a) > 0,
    ensures
        exists|i: int| 0 <= i < s.len() && (#[trigger] s[i]).0@ == a.0 && s[i].1@ == a.1,
    decreases s.len(),
{
    let d = s.drop_last();
    if occ_ms(d).count(a) > 0 {
        lemma_occ_index(d, a);
        let i = choose|i: int| 0 <= i < d.len() && (#[trigger] d[i]).0@ == a.0 && d[i].1@ == a.1;
        assert(s[i] == d[i]);
    } else {
        assert(s[s.len() - 1].0@ == a.0 && s[s.len() - 1].1@ == a.1);
    }
}

/// The verdict of a match that also checks values: on success, which symbol took each
/// occurrence.
#[derive(Debug)]
pub enum ValuedResult {
    Pass(Candidate),
    Fail(FailureReason),
}

impl ValuedResult {
    pub fn is_pass(&self) -> (r: bool)
        ensures
            r == (*self is Pass),
    {
        match self {
            ValuedResult::Pass(_) => true,
            ValuedResult::Fail(_) => false,
        }
    }
}

/// The occurrences of `b` whose keys lie in `keys`.
pub open spec fn restrict1(b: Multiset<Occ>, keys: Set<Seq<char>>) -> Multiset<Occ> {
    b.filter(|a: Occ| keys.contains(a.0))
}

/// Every occurrence in `b` has a key that some symbol of `e` mentions.
pub open spec fn known_keys1(e: Rbe1, b: Multiset<Occ>) -> bool {
    forall|a: Occ| #[trigger] b.count(a) > 0 ==> e.keys().contains(a.0)
}

/// The occurrences `b` conform to `e` under the policy `open`, with shape conformance given
/// by `conf`.
pub open spec fn passes1(e: Rbe1, b: Multiset<Occ>, open: bool, conf: Seq<(String, String)>) -> bool {
    (open || known_keys1(e, b)) && e.sat(restrict1(b, e.keys()), conf)
}

/// Some occurrence of `key` in `b` carries a value that `cond` rejects.
pub open spec fn has_rejected(
    b: Multiset<Occ>,
    key: Seq<char>,
    cond: MatchCond,
    conf: Seq<(String, String)>,
) -> bool {
    exists|a: Occ| #[trigger] b.count(a) > 0 && a.0 == key && !cond_holds(cond, a.1, conf)
}

/// The reason reported when occurrences with admissible keys fail `e`.
pub open spec fn failure1(
    e: Rbe1,
    b: Multiset<Occ>,
    conf: Seq<(String, String)>,
    r: ValuedResult,
) -> bool {
    match e {
        Rbe1::Symbol { key, cond, card } => if has_rejected(b, key@, cond, conf) {
            r matches ValuedResult::Fail(FailureReason::ValueConditionFailed { key: k, value: v })
                && k@ == key@ && b.count((k@, v@)) > 0 && !cond_holds(cond, v@, conf)
        } else {
            r == ValuedResult::Fail(
                FailureReason::CardinalityMismatch {
                    key,
                    expected: card,
                    actual: restrict1(b, e.keys()).len() as usize,
                },
            )
        },
        Rbe1::Or { .. } => r == ValuedResult::Fail(FailureReason::AlternativesExhausted),
        _ => r == ValuedResult::Fail(FailureReason::NoValidPartition),
    }
}

/// Matches (key, value) occurrences against `rbe`. A symbol takes an occurrence of its key
/// only when its condition accepts the value; `conforms` lists the (value, shape) pairs for
/// which a shape reference holds. Under the closed policy an occurrence whose key no symbol
/// mentions makes the match fail; under the open policy such occurrences are ignored.
pub fn matches_values(
    rbe: &Rbe1,
    occurrences: &Vec<(String, String)>,
    open: bool,
    conforms: &Vec<(String, String)>,
) -> (r: ValuedResult)
    ensures
        (r is Pass) == passes1(*rbe, occ_ms(occurrences@), open, conforms@),
        r matches ValuedResult::Pass(c) ==> witness_ok(
            rbe.conds(),
            c@,
            restrict1(occ_ms(occurrences@), rbe.keys()),
            conforms@,
        ),
        !open && !known_keys1(*rbe, occ_ms(occurrences@)) ==> (r matches ValuedResult::Fail(
            FailureReason::UnexpectedKey { key },
        ) && !rbe.keys().contains(key@) && exists|i: int|
            0 <= i < occurrences.len() && (#[trigger] occurrences@[i]).0@ == key@),
        (open || known_keys1(*rbe, occ_ms(occurrences@))) && !passes1(
            *rbe,
            occ_ms(occurrences@),
            open,
            conforms@,
        ) ==> failure1(*rbe, occ_ms(occurrences@), conforms@, r),
{
    let ghost keys = rbe.keys();
    let ghost b = occ_ms(occurrences@);
    let mut kept: Vec<(String, String)> = Vec::new();
    let mut i: usize = 0;
    while i < occurrences.len()
        invariant
            i <= occurrences.len(),
            keys == rbe.keys(),
            b == occ_ms(occurrences@),
            occ_ms(kept@) =~= restrict1(occ_ms(occurrences@.subrange(0, i as int)), keys),
            !open ==> forall|a: Occ|
                #[trigger] occ_ms(occurrences@.subrange(0, i as int)).count(a) > 0
                    ==> keys.contains(a.0),
        decreases occurrences.len() - i,
    {
        proof {
            lemma_occ_prefix(occurrences@, i as int);
        }
        let ghost before = kept@;
        if rbe.mentions(&occurrences[i].0) {
            kept.push((occurrences[i].0.clone(), occurrences[i].1.clone()));
            proof {
                lemma_occ_push(before, occurrences@[i as int]);
            }
        } else if !open {
            proof {
                lemma_occ_member(occurrences@, i as int);
            }
            return ValuedResult::Fail(
                FailureReason::UnexpectedKey { key: occurrences[i].0.clone() },
            );
        }
        i = i + 1;
    }
    proof {
        assert(occurrences@.subrange(0, occurrences.len() as int) =~= occurrences@);
    }
    match match1(rbe, &kept, conforms, 0) {
        Some(w) => ValuedResult::Pass(Candidate::new(w)),
        None => match rbe {
            Rbe1::Symbol { key, cond, card } => {
                let mut j: usize = 0;
                while j < kept.len()
                    invariant
                        j <= kept.len(),
                        *rbe == (Rbe1::Symbol { key: *key, cond: *cond, card: *card }),
                        b == occ_ms(occurrences@),
                        occ_ms(kept@) == restrict1(b, rbe.keys()),
                        !rbe.sat(restrict1(b, rbe.keys()), conforms@),
                        !open ==> known_keys1(*rbe, b),
                        forall|t: int|
                            0 <= t < j ==> cond_holds(*cond, (#[trigger] kept@[t]).1@, conforms@),
                    decreases kept.len() - j,
                {
                    if !cond_check(cond, &kept[j].1, conforms) {
                        proof {
                            lemma_occ_member(kept@, j as int);
                            assert(occ_ms(kept@).count((kept@[j as int].0@, kept@[j as int].1@))
                                > 0);
                            assert(kept@[j as int].0@ == key@);
                        }
                        return ValuedResult::Fail(
                            FailureReason::ValueConditionFailed {
                                key: kept[j].0.clone(),
                                value: kept[j].1.clone(),
                            },
                        );
                    }
                    j = j + 1;
                }
                proof {
                    if has_rejected(b, key@, *cond, conforms@) {
                        let a = choose|a: Occ|
                            #[trigger] b.count(a) > 0 && a.0 == key@ && !cond_holds(
                                *cond,
                                a.1,
                                conforms@,
                            );
                        assert(occ_ms(kept@).count(a) > 0);
                        lemma_occ_index(kept@, a);
                    }
                    lemma_occ_len(kept@);
                }
                ValuedResult::Fail(
                    FailureReason::CardinalityMismatch {
                        key: key.clone(),
                        expected: *card,
                        actual: kept.len(),
                    },
                )
            },
            Rbe1::Or { .. } => ValuedResult::Fail(FailureReason::AlternativesExhausted),
            _ => ValuedResult::Fail(FailureReason::NoValidPartition),
        },
    }
}

} // verus!
