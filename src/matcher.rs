use crate::bag::{copies, has_key, keys_unique, lemma_copies, lemma_ms_absent, lemma_ms_at, lemma_ms_count, lemma_ms_prefix, lemma_ms_push, ms_of, Bag};
use crate::cardinality::Cardinality;
use crate::rbe::{sat_and, sat_or, Rbe};
use vstd::multiset::*;
use vstd::prelude::*;

verus! {

broadcast use group_multiset_axioms, group_multiset_properties, vstd::std_specs::vec::group_vec_axioms, vstd::seq::group_seq_axioms, vstd::set::group_set_axioms;

/// Why a bag does not match an expression.
#[derive(Clone, Debug, PartialEq, Eq)]
pub enum FailureReason {
    /// The bag holds `actual` occurrences of `key`, outside the range `expected`.
    CardinalityMismatch { key: String, expected: Cardinality, actual: usize },
    /// Under the closed policy, the bag holds a key that no symbol mentions.
    UnexpectedKey { key: String },
    /// An occurrence of `key` carries a `value` that the symbol's condition rejects.
    ValueConditionFailed { key: String, value: String },
    /// No split of the bag among the parts of a conjunction matches them all.
    NoValidPartition,
    /// No alternative of a disjunction matches the bag.
    AlternativesExhausted,
}

/// The verdict of a match.
#[derive(Clone, Debug, PartialEq, Eq)]
pub enum MatchResult {
    Pass,
    Fail(FailureReason),
}

impl MatchResult {
    pub fn is_pass(&self) -> (r: bool)
        ensures
            r == (*self is Pass),
    {
        match self {
            MatchResult::Pass => true,
            MatchResult::Fail(_) => false,
        }
    }
}

/// The part of `b` whose keys lie in `keys`.
pub open spec fn restrict(b: Multiset<Seq<char>>, keys: Set<Seq<char>>) -> Multiset<Seq<char>> {
    b.filter(|x: Seq<char>| keys.contains(x))
}

/// Every key present in `b` is mentioned by some symbol of `e`.
pub open spec fn only_known_keys(e: Rbe, b: Multiset<Seq<char>>) -> bool {
    forall|x: Seq<char>| #[trigger] b.count(x) > 0 ==> e.symbols().contains(x)
}

/// The bag `b` conforms to `e`: under the closed policy it holds no key that `e` does not
/// mention, and what it holds of the keys that `e` mentions matches `e`.
pub open spec fn passes(e: Rbe, b: Multiset<Seq<char>>, open: bool) -> bool {
    (open || only_known_keys(e, b)) && e.sat(restrict(b, e.symbols()))
}

/// The reason reported when a bag that holds only admissible keys fails `e`.
pub open spec fn failure_of(e: Rbe, b: Multiset<Seq<char>>) -> FailureReason {
    match e {
        Rbe::Symbol { value, card } => FailureReason::CardinalityMismatch {
            key: value,
            expected: card,
            actual: b.count(value@) as usize,
        },
        Rbe::Or { .. } => FailureReason::AlternativesExhausted,
        _ => FailureReason::NoValidPartition,
    }
}

/// What `matches` returns: whether it passes, and which reason it gives when it does not.
pub open spec fn match_outcome(e: Rbe, b: Multiset<Seq<char>>, open: bool, r: MatchResult) -> bool {
    &&& (r is Pass) == passes(e, b, open)
    &&& !open && !only_known_keys(e, b) ==> (r matches MatchResult::Fail(
        FailureReason::UnexpectedKey { key },
    ) && b.count(key@) > 0 && !e.symbols().contains(key@))
    &&& (open || only_known_keys(e, b)) && !passes(e, b, open) ==> r == MatchResult::Fail(
        failure_of(e, b),
    )
}

/// Some part `b1` of `r` lets `child` match `a1` plus `b1` while `rest` matches `a2` plus the
/// remainder of `r`.
pub open spec fn can_split(
    child: Rbe,
    rest: Seq<Rbe>,
    a1: Multiset<Seq<char>>,
    a2: Multiset<Seq<char>>,
    r: Multiset<Seq<char>>,
) -> bool {
    exists|b1: Multiset<Seq<char>>|
        #![trigger child.sat(a1.add(b1))]
        b1.subset_of(r) && child.sat(a1.add(b1)) && sat_and(rest, a2.add(r.sub(b1)))
}

proof fn lemma_sat_or(cs: Seq<Rbe>, b: Multiset<Seq<char>>)
    ensures
        sat_or(cs, b) <==> exists|i: int| 0 <= i < cs.len() && #[trigger] cs[i].sat(b),
    decreases cs.len(),
{
    if cs.len() > 0 {
        let tail = cs.subrange(1, cs.len() as int);
        lemma_sat_or(tail, b);
        assert(sat_or(cs, b) == (cs[0].sat(b) || sat_or(tail, b)));
        if exists|i: int| 0 <= i < cs.len() && #[trigger] cs[i].sat(b) {
            let i = choose|i: int| 0 <= i < cs.len() && #[trigger] cs[i].sat(b);
            if i > 0 {
                assert(tail[i - 1] == cs[i]);
                assert(tail[i - 1].sat(b));
            }
        }
        if sat_or(tail, b) {
            let i = choose|i: int| 0 <= i < tail.len() && #[trigger] tail[i].sat(b);
            assert(cs[i + 1] == tail[i]);
            assert(cs[i + 1].sat(b));
        }
        if cs[0].sat(b) {
            assert(0 <= 0 < cs.len() && cs[0].sat(b));
        }
    }
}

/// With nothing left to hand out, a split succeeds exactly when both sides match as they are.
proof fn lemma_split_base(
    child: Rbe,
    rest: Seq<Rbe>,
    a1: Multiset<Seq<char>>,
    a2: Multiset<Seq<char>>,
)
    ensures
        can_split(child, rest, a1, a2, Multiset::empty()) <==> child.sat(a1) && sat_and(rest, a2),
{
    let e = Multiset::<Seq<char>>::empty();
    assert(a1.add(e) =~= a1);
    assert(a2.add(e.sub(e)) =~= a2);
    if can_split(child, rest, a1, a2, e) {
        let b1 = choose|b1: Multiset<Seq<char>>|
            #![trigger child.sat(a1.add(b1))]
            b1.subset_of(e) && child.sat(a1.add(b1)) && sat_and(rest, a2.add(e.sub(b1)));
        assert(b1 =~= e);
    }
    if child.sat(a1) && sat_and(rest, a2) {
        assert(child.sat(a1.add(e)));
    }
}

/// Handing `n` of the `c` occurrences of `k` to the child and the others to the rest.
proof fn lemma_split_sound(
    child: Rbe,
    rest: Seq<Rbe>,
    a1: Multiset<Seq<char>>,
    a2: Multiset<Seq<char>>,
    r0: Multiset<Seq<char>>,
    k: Seq<char>,
    c: nat,
    n: nat,
)
    requires
        r0.count(k) == 0,
        n <= c,
        can_split(child, rest, a1.add(copies(k, n)), a2.add(copies(k, (c - n) as nat)), r0),
    ensures
        can_split(child, rest, a1, a2, r0.add(copies(k, c))),
{
    lemma_copies(k, n);
    lemma_copies(k, c);
    lemma_copies(k, (c - n) as nat);
    let a1n = a1.add(copies(k, n));
    let a2n = a2.add(copies(k, (c - n) as nat));
    let b1p = choose|b1: Multiset<Seq<char>>|
        #![trigger child.sat(a1n.add(b1))]
        b1.subset_of(r0) && child.sat(a1n.add(b1)) && sat_and(rest, a2n.add(r0.sub(b1)));
    let r = r0.add(copies(k, c));
    let b1 = copies(k, n).add(b1p);
    assert(a1.add(b1) =~= a1n.add(b1p));
    assert(a2.add(r.sub(b1)) =~= a2n.add(r0.sub(b1p))) by {
        assert forall|x: Seq<char>| #[trigger]
            a2.add(r.sub(b1)).count(x) == a2n.add(r0.sub(b1p)).count(x) by {
            if x == k {
                assert(b1p.count(k) <= r0.count(k));
            } else {
                assert(b1p.count(x) <= r0.count(x));
            }
        }
    }
    assert(b1.subset_of(r)) by {
        assert forall|x: Seq<char>| #[trigger] b1.count(x) <= r.count(x) by {
            assert(b1p.count(x) <= r0.count(x));
        }
    }
    assert(child.sat(a1.add(b1)));
}

/// Any successful split hands some number `n` of the `c` occurrences of `k` to the child.
proof fn lemma_split_complete(
    child: Rbe,
    rest: Seq<Rbe>,
    a1: Multiset<Seq<char>>,
    a2: Multiset<Seq<char>>,
    r0: Multiset<Seq<char>>,
    k: Seq<char>,
    c: nat,
)
    requires
        r0.count(k) == 0,
        can_split(child, rest, a1, a2, r0.add(copies(k, c))),
    ensures
        exists|n: nat|
            n <= c && #[trigger] can_split(
                child,
                rest,
                a1.add(copies(k, n)),
                a2.add(copies(k, (c - n) as nat)),
                r0,
            ),
{
    lemma_copies(k, c);
    let r = r0.add(copies(k, c));
    let b1 = choose|b1: Multiset<Seq<char>>|
        #![trigger child.sat(a1.add(b1))]
        b1.subset_of(r) && child.sat(a1.add(b1)) && sat_and(rest, a2.add(r.sub(b1)));
    let n = b1.count(k);
    assert(n <= c);
    lemma_copies(k, n);
    lemma_copies(k, (c - n) as nat);
    let b1p = b1.sub(copies(k, n));
    let a1n = a1.add(copies(k, n));
    let a2n = a2.add(copies(k, (c - n) as nat));
    assert(a1n.add(b1p) =~= a1.add(b1));
    assert(a2n.add(r0.sub(b1p)) =~= a2.add(r.sub(b1))) by {
        assert forall|x: Seq<char>| #[trigger]
            a2n.add(r0.sub(b1p)).count(x) == a2.add(r.sub(b1)).count(x) by {
            assert(b1.count(x) <= r.count(x));
        }
    }
    assert(b1p.subset_of(r0)) by {
        assert forall|x: Seq<char>| #[trigger] b1p.count(x) <= r0.count(x) by {
            assert(b1.count(x) <= r.count(x));
        }
    }
    assert(child.sat(a1n.add(b1p)));
    assert(can_split(child, rest, a1n, a2n, r0));
}

/// The first part of a conjunction takes some part of the bag, the others the remainder.
proof fn lemma_and_unfold(cs: Seq<Rbe>, b: Multiset<Seq<char>>)
    requires
        cs.len() > 0,
    ensures
        sat_and(cs, b) <==> can_split(
            cs[0],
            cs.subrange(1, cs.len() as int),
            Multiset::empty(),
            Multiset::empty(),
            b,
        ),
{
    let e = Multiset::<Seq<char>>::empty();
    let rest = cs.subrange(1, cs.len() as int);
    if sat_and(cs, b) {
        let b1 = choose|b1: Multiset<Seq<char>>|
            #![trigger b.sub(b1)]
            b1.subset_of(b) && cs[0].sat(b1) && sat_and(rest, b.sub(b1));
        assert(e.add(b1) =~= b1);
        assert(e.add(b.sub(b1)) =~= b.sub(b1));
        assert(cs[0].sat(e.add(b1)));
    }
    if can_split(cs[0], rest, e, e, b) {
        let b1 = choose|b1: Multiset<Seq<char>>|
            #![trigger cs[0].sat(e.add(b1))]
            b1.subset_of(b) && cs[0].sat(e.add(b1)) && sat_and(rest, e.add(b.sub(b1)));
        assert(e.add(b1) =~= b1);
        assert(e.add(b.sub(b1)) =~= b.sub(b1));
        assert(cs[0].sat(b1));
        assert(b1.subset_of(b) && cs[0].sat(b1) && sat_and(rest, b.sub(b1)));
    }
}

/// Each remembered (position, bag) pair is known not to split among the parts of `values`
/// from that position on.
pub open spec fn memo_ok(values: Seq<Rbe>, memo: Seq<(usize, Vec<(String, usize)>)>) -> bool {
    forall|k: int|
        0 <= k < memo.len() ==> (#[trigger] memo[k]).0 <= values.len() && !sat_and(
            values.subrange(memo[k].0 as int, values.len() as int),
            ms_of(memo[k].1@),
        )
}

/// Entries that agree key by key and count by count describe the same bag.
proof fn lemma_ms_same_entries(x: Seq<(String, usize)>, y: Seq<(String, usize)>)
    requires
        x.len() == y.len(),
        forall|t: int| 0 <= t < x.len() ==> (#[trigger] x[t]).0@ == y[t].0@ && x[t].1 == y[t].1,
    ensures
        ms_of(x) == ms_of(y),
    decreases x.len(),
{
    if x.len() > 0 {
        let (dx, dy) = (x.drop_last(), y.drop_last());
        assert forall|t: int| 0 <= t < dx.len() implies (#[trigger] dx[t]).0@ == dy[t].0@
            && dx[t].1 == dy[t].1 by {
            assert(dx[t] == x[t] && dy[t] == y[t]);
        }
        lemma_ms_same_entries(dx, dy);
        assert(x.last().0@ == y.last().0@ && x.last().1 == y.last().1);
    }
}

/// Whether `x` and `y` list the same entries in the same order.
fn same_entries(x: &Vec<(String, usize)>, y: &Vec<(String, usize)>) -> (r: bool)
    ensures
        r ==> ms_of(x@) == ms_of(y@),
{
    if x.len() != y.len() {
        return false;
    }
    let mut t: usize = 0;
    while t < x.len()
        invariant
            t <= x.len(),
            x.len() == y.len(),
            forall|u: int| 0 <= u < t ==> (#[trigger] x@[u]).0@ == y@[u].0@ && x@[u].1 == y@[u].1,
        decreases x.len() - t,
    {
        if !(x[t].0 == y[t].0) || x[t].1 != y[t].1 {
            return false;
        }
        t = t + 1;
    }
    proof {
        lemma_ms_same_entries(x@, y@);
    }
    true
}

/// A copy of the entries.
fn copy_entries(b: &Vec<(String, usize)>) -> (r: Vec<(String, usize)>)
    ensures
        r@ == b@,
{
    let mut out: Vec<(String, usize)> = Vec::new();
    let mut t: usize = 0;
    while t < b.len()
        invariant
            t <= b.len(),
            out@ == b@.subrange(0, t as int),
        decreases b.len() - t,
    {
        out.push((b[t].0.clone(), b[t].1));
        proof {
            assert(out@ =~= b@.subrange(0, t + 1));
        }
        t = t + 1;
    }
    proof {
        assert(out@ =~= b@);
    }
    out
}

/// Whether the bag `b` is remembered as not splitting among the parts from position `i` on.
fn memo_rejects(memo: &Vec<(usize, Vec<(String, usize)>)>, i: usize, b: &Vec<(String, usize)>) -> (r: bool)
    ensures
        r ==> exists|k: int|
            0 <= k < memo.len() && (#[trigger] memo@[k]).0 == i && ms_of(memo@[k].1@) == ms_of(b@),
{
    let mut k: usize = 0;
    while k < memo.len()
        invariant
            k <= memo.len(),
        decreases memo.len() - k,
    {
        if memo[k].0 == i && same_entries(&memo[k].1, b) {
            assert(memo@[k as int].0 == i && ms_of(memo@[k as int].1@) == ms_of(b@));
            return true;
        }
        k = k + 1;
    }
    false
}

/// Whether the bag described by `b` is empty.
fn all_zero(b: &Vec<(String, usize)>) -> (r: bool)
    requires
        keys_unique(b@),
    ensures
        r == (ms_of(b@).len() == 0),
{
    let mut i: usize = 0;
    while i < b.len()
        invariant
            i <= b.len(),
            keys_unique(b@),
            ms_of(b@.subrange(0, i as int)) =~= Multiset::<Seq<char>>::empty(),
        decreases b.len() - i,
    {
        proof {
            lemma_ms_prefix(b@, i as int);
            lemma_copies(b@[i as int].0@, b@[i as int].1 as nat);
        }
        if b[i].1 > 0 {
            proof {
                lemma_ms_at(b@, i as int);
            }
            return false;
        }
        i = i + 1;
    }
    assert(b@.subrange(0, b.len() as int) =~= b@);
    true
}

/// Whether the bag described by `b` consists only of occurrences of `key`, in a number that
/// `card` admits.
fn symbol_match(key: &String, card: &Cardinality, b: &Vec<(String, usize)>) -> (r: bool)
    requires
        keys_unique(b@),
    ensures
        r == (card.admits(ms_of(b@).count(key@)) && forall|x: Seq<char>|
            x != key@ ==> #[trigger] ms_of(b@).count(x) == 0),
{
    let mut cnt: usize = 0;
    let mut i: usize = 0;
    while i < b.len()
        invariant
            i <= b.len(),
            keys_unique(b@),
            cnt == ms_of(b@.subrange(0, i as int)).count(key@),
            forall|x: Seq<char>|
                x != key@ ==> #[trigger] ms_of(b@.subrange(0, i as int)).count(x) == 0,
        decreases b.len() - i,
    {
        proof {
            lemma_ms_prefix(b@, i as int);
            lemma_copies(b@[i as int].0@, b@[i as int].1 as nat);
        }
        if b[i].0 == *key {
            proof {
                let p = b@.subrange(0, i as int);
                assert(!has_key(p, key@)) by {
                    if has_key(p, key@) {
                        let j = choose|j: int| 0 <= j < p.len() && p[j].0@ == key@;
                        assert(b@[j].0@ == b@[i as int].0@);
                    }
                }
                lemma_ms_absent(p, key@);
            }
            cnt = b[i].1;
        } else if b[i].1 > 0 {
            proof {
                lemma_ms_at(b@, i as int);
            }
            return false;
        }
        i = i + 1;
    }
    assert(b@.subrange(0, b.len() as int) =~= b@);
    card.contains(cnt)
}

/// Whether the bag described by `b` conforms to `e`.
fn match_bag(e: &Rbe, b: &Vec<(String, usize)>) -> (r: bool)
    requires
        keys_unique(b@),
    ensures
        r == e.sat(ms_of(b@)),
    decreases e, 2nat, 0nat, 0nat,
{
    match e {
        Rbe::Empty => all_zero(b),
        Rbe::Symbol { value, card } => symbol_match(value, card, b),
        Rbe::And { values } => {
            assert(values@.subrange(0, values.len() as int) =~= values@);
            let mut memo: Vec<(usize, Vec<(String, usize)>)> = Vec::new();
            match_and(e, values, 0, b, &mut memo)
        },
        Rbe::Or { values } => {
            let mut i: usize = 0;
            while i < values.len()
                invariant
                    i <= values.len(),
                    keys_unique(b@),
                    *e == (Rbe::Or { values: *values }),
                    forall|j: int| 0 <= j < i ==> !(#[trigger] values@[j].sat(ms_of(b@))),
                decreases values.len() - i,
            {
                proof {
                    assert(decreases_to!(*e => e->Or_values));
                    assert(decreases_to!(*values => values@));
                    assert(decreases_to!(values@ => values@[i as int]));
                }
                if match_bag(&values[i], b) {
                    proof {
                        lemma_sat_or(values@, ms_of(b@));
                    }
                    return true;
                }
                i = i + 1;
            }
            proof {
                lemma_sat_or(values@, ms_of(b@));
            }
            false
        },
    }
}

/// Whether the bag described by `b` splits among the parts of `values` from position `i` on.
/// Bags found not to split are remembered in `memo`, so that a remainder reached along
/// several ways is searched once.
fn match_and(
    e: &Rbe,
    values: &Vec<Rbe>,
    i: usize,
    b: &Vec<(String, usize)>,
    memo: &mut Vec<(usize, Vec<(String, usize)>)>,
) -> (r: bool)
    requires
        *e == (Rbe::And { values: *values }),
        i <= values.len(),
        keys_unique(b@),
        memo_ok(values@, old(memo)@),
    ensures
        r == sat_and(values@.subrange(i as int, values.len() as int), ms_of(b@)),
        memo_ok(values@, final(memo)@),
    decreases e, 1nat, values.len() - i, b.len() + 1,
{
    let ghost cs = values@.subrange(i as int, values.len() as int);
    if i == values.len() {
        all_zero(b)
    } else if memo_rejects(memo, i, b) {
        false
    } else {
        let mut acc1: Vec<(String, usize)> = Vec::new();
        let mut acc2: Vec<(String, usize)> = Vec::new();
        proof {
            assert(cs[0] == values@[i as int]);
            assert(cs.subrange(1, cs.len() as int) =~= values@.subrange(
                i + 1,
                values.len() as int,
            ));
            assert(b@.subrange(0, b.len() as int) =~= b@);
            lemma_and_unfold(cs, ms_of(b@));
        }
        let r = split(e, values, i, b, b.len(), &mut acc1, &mut acc2, memo);
        if !r {
            let ghost before = memo@;
            memo.push((i, copy_entries(b)));
            proof {
                assert forall|k: int| 0 <= k < memo@.len() implies (#[trigger] memo@[k]).0
                    <= values.len() && !sat_and(
                    values@.subrange(memo@[k].0 as int, values.len() as int),
                    ms_of(memo@[k].1@),
                ) by {
                    if k < before.len() {
                        assert(memo@[k] == before[k]);
                    }
                }
            }
        }
        r
    }
}

/// Tries every way of handing the first `j` entries of `b` to part `i` (on top of `acc1`) and
/// to the parts after it (on top of `acc2`).
fn split(
    e: &Rbe,
    values: &Vec<Rbe>,
    i: usize,
    b: &Vec<(String, usize)>,
    j: usize,
    acc1: &mut Vec<(String, usize)>,
    acc2: &mut Vec<(String, usize)>,
    memo: &mut Vec<(usize, Vec<(String, usize)>)>,
) -> (r: bool)
    requires
        *e == (Rbe::And { values: *values }),
        i < values.len(),
        j <= b.len(),
        keys_unique(b@),
        memo_ok(values@, old(memo)@),
        old(acc1).len() == b.len() - j,
        old(acc2).len() == b.len() - j,
        forall|t: int|
            0 <= t < old(acc1).len() ==> #[trigger] old(acc1)@[t].0@ == b@[b.len() - 1 - t].0@,
        forall|t: int|
            0 <= t < old(acc2).len() ==> #[trigger] old(acc2)@[t].0@ == b@[b.len() - 1 - t].0@,
    ensures
        final(acc1)@ == old(acc1)@,
        final(acc2)@ == old(acc2)@,
        memo_ok(values@, final(memo)@),
        r == can_split(
            values@[i as int],
            values@.subrange(i + 1, values.len() as int),
            ms_of(old(acc1)@),
            ms_of(old(acc2)@),
            ms_of(b@.subrange(0, j as int)),
        ),
    decreases e, 1nat, values.len() - i, j,
{
    let ghost child = values@[i as int];
    let ghost rest = values@.subrange(i + 1, values.len() as int);
    let ghost a1 = ms_of(acc1@);
    let ghost a2 = ms_of(acc2@);
    proof {
        assert(keys_unique(acc1@)) by {
            assert forall|p: int, q: int| 0 <= p < q < acc1@.len() implies acc1@[p].0@
                != acc1@[q].0@ by {
                assert(acc1@[p].0@ == b@[b.len() - 1 - p].0@);
                assert(acc1@[q].0@ == b@[b.len() - 1 - q].0@);
            }
        }
        assert(keys_unique(acc2@)) by {
            assert forall|p: int, q: int| 0 <= p < q < acc2@.len() implies acc2@[p].0@
                != acc2@[q].0@ by {
                assert(acc2@[p].0@ == b@[b.len() - 1 - p].0@);
                assert(acc2@[q].0@ == b@[b.len() - 1 - q].0@);
            }
        }
    }
    if j == 0 {
        proof {
            assert(b@.subrange(0, 0) =~= Seq::<(String, usize)>::empty());
            lemma_split_base(child, rest, a1, a2);
        }
        proof {
            assert(decreases_to!(*e => e->And_values));
            assert(decreases_to!(*values => values@));
            assert(decreases_to!(values@ => values@[i as int]));
        }
        let r1 = match_bag(&values[i], acc1);
        if !r1 {
            return false;
        }
        match_and(e, values, i + 1, acc2, memo)
    } else {
        let k = &b[j - 1].0;
        let c = b[j - 1].1;
        let ghost r0 = ms_of(b@.subrange(0, j - 1));
        proof {
            lemma_ms_prefix(b@, j - 1);
            let p = b@.subrange(0, j - 1);
            assert(!has_key(p, k@)) by {
                if has_key(p, k@) {
                    let q = choose|q: int| 0 <= q < p.len() && p[q].0@ == k@;
                    assert(b@[q].0@ == b@[j - 1].0@);
                }
            }
            lemma_ms_absent(p, k@);
        }
        let mut n: usize = 0;
        loop
            invariant
                n <= c,
                c == b@[j - 1].1,
                *k == b@[j - 1].0,
                r0 == ms_of(b@.subrange(0, j - 1)),
                r0.count(k@) == 0,
                ms_of(b@.subrange(0, j as int)) == r0.add(copies(k@, c as nat)),
                child == values@[i as int],
                rest == values@.subrange(i + 1, values.len() as int),
                a1 == ms_of(old(acc1)@),
                a2 == ms_of(old(acc2)@),
                j <= b.len(),
                j > 0,
                acc1@ == old(acc1)@,
                acc2@ == old(acc2)@,
                memo_ok(values@, memo@),
                *e == (Rbe::And { values: *values }),
                i < values.len(),
                keys_unique(b@),
                old(acc1).len() == b.len() - j,
                old(acc2).len() == b.len() - j,
                forall|t: int|
                    0 <= t < old(acc1).len() ==> #[trigger] old(acc1)@[t].0@ == b@[b.len() - 1
                        - t].0@,
                forall|t: int|
                    0 <= t < old(acc2).len() ==> #[trigger] old(acc2)@[t].0@ == b@[b.len() - 1
                        - t].0@,
                forall|m: nat|
                    m < n ==> !#[trigger] can_split(
                        child,
                        rest,
                        a1.add(copies(k@, m)),
                        a2.add(copies(k@, (c - m) as nat)),
                        r0,
                    ),
            decreases c - n,
        {
            acc1.push((k.clone(), n));
            acc2.push((k.clone(), c - n));
            proof {
                lemma_ms_push(old(acc1)@, (*k, n));
                lemma_ms_push(old(acc2)@, (*k, (c - n) as usize));
            }
            let ok = split(e, values, i, b, j - 1, acc1, acc2, memo);
            acc1.pop();
            acc2.pop();
            if ok {
                proof {
                    lemma_split_sound(child, rest, a1, a2, r0, k@, c as nat, n as nat);
                }
                return true;
            }
            if n == c {
                proof {
                    if can_split(child, rest, a1, a2, r0.add(copies(k@, c as nat))) {
                        lemma_split_complete(child, rest, a1, a2, r0, k@, c as nat);
                    }
                }
                return false;
            }
            n = n + 1;
        }
    }
}

/// Matches `bag` against `rbe`. Under the closed policy (`open == false`) a key that no symbol
/// of `rbe` mentions makes the match fail; under the open policy such keys are ignored.
pub fn matches(rbe: &Rbe, bag: &Bag, open: bool) -> (r: MatchResult)
    requires
        bag.wf(),
    ensures
        match_outcome(*rbe, bag@, open, r),
{
    let entries = bag.entries();
    let ghost syms = rbe.symbols();
    let mut kept: Vec<(String, usize)> = Vec::new();
    let mut i: usize = 0;
    while i < entries.len()
        invariant
            i <= entries.len(),
            keys_unique(entries@),
            ms_of(entries@) == bag@,
            syms == rbe.symbols(),
            kept.len() == i,
            forall|t: int| 0 <= t < i ==> #[trigger] kept@[t].0@ == entries@[t].0@,
            ms_of(kept@) =~= restrict(ms_of(entries@.subrange(0, i as int)), syms),
            !open ==> forall|t: int|
                0 <= t < i && #[trigger] entries@[t].1 > 0 ==> syms.contains(entries@[t].0@),
        decreases entries.len() - i,
    {
        let k = &entries[i].0;
        let c = entries[i].1;
        proof {
            lemma_ms_prefix(entries@, i as int);
            lemma_copies(k@, c as nat);
            lemma_copies(k@, 0);
        }
        let ghost before = kept@;
        let ghost prefix = entries@.subrange(0, i as int);
        if rbe.mentions(k) {
            kept.push((k.clone(), c));
            proof {
                lemma_ms_push(before, (*k, c));
            }
        } else {
            if !open && c > 0 {
                proof {
                    lemma_ms_at(entries@, i as int);
                }
                return MatchResult::Fail(FailureReason::UnexpectedKey { key: k.clone() });
            }
            kept.push((k.clone(), 0));
            proof {
                lemma_ms_push(before, (*k, 0));
            }
        }
        proof {
            assert forall|x: Seq<char>| #[trigger]
                ms_of(kept@).count(x) == restrict(
                    ms_of(entries@.subrange(0, i + 1)),
                    syms,
                ).count(x) by {
                assert(ms_of(before).count(x) == restrict(ms_of(prefix), syms).count(x));
            }
        }
        i = i + 1;
    }
    proof {
        assert(entries@.subrange(0, entries.len() as int) =~= entries@);
        assert(keys_unique(kept@)) by {
            assert forall|p: int, q: int| 0 <= p < q < kept@.len() implies kept@[p].0@
                != kept@[q].0@ by {
                assert(kept@[p].0@ == entries@[p].0@);
                assert(kept@[q].0@ == entries@[q].0@);
            }
        }
        if !open {
            assert forall|x: Seq<char>| #[trigger] bag@.count(x) > 0 implies syms.contains(x) by {
                lemma_ms_count(entries@, x);
                if has_key(entries@, x) {
                    let t = choose|t: int|
                        0 <= t < entries@.len() && entries@[t].0@ == x && ms_of(entries@).count(x)
                            == entries@[t].1;
                    assert(entries@[t].1 > 0);
                }
            }
        }
    }
    if match_bag(rbe, &kept) {
        MatchResult::Pass
    } else {
        match rbe {
            Rbe::Symbol { value, card } => {
                let actual = bag.count(value);
                MatchResult::Fail(
                    FailureReason::CardinalityMismatch {
                        key: value.clone(),
                        expected: *card,
                        actual,
                    },
                )
            },
            Rbe::Or { .. } => MatchResult::Fail(FailureReason::AlternativesExhausted),
            _ => MatchResult::Fail(FailureReason::NoValidPartition),
        }
    }
}

} // verus!
