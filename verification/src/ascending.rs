//! Ascending enumeration of finite sets of identifiers.
//!
//! The engines walk their sets and maps in ascending order of identifier.
//! This module names that order in specifications and provides the
//! executable snapshots the engines iterate over.
use std::collections::BTreeMap;
use std::collections::BTreeSet;
use vstd::prelude::*;
use vstd::std_specs::btree::axiom_increasing_seq_meaning;
use vstd::std_specs::btree::increasing_seq;
use vstd::std_specs::cmp::OrdSpec;
use vstd::std_specs::iter::IteratorSpec;

verus! {

/// `q` is strictly increasing.
pub open spec fn increasing(q: Seq<u64>) -> bool {
    forall|i: int, j: int| 0 <= i < j < q.len() ==> q[i] < q[j]
}

/// `q` enumerates exactly the members of `s`, smallest first.
pub open spec fn enumerates(q: Seq<u64>, s: Set<u64>) -> bool {
    increasing(q) && q.to_set() == s
}

/// The members of a finite set, smallest first. Of a set that is not finite
/// nothing is said.
pub open spec fn ascending(s: Set<u64>) -> Seq<u64> {
    choose|q: Seq<u64>| enumerates(q, s)
}

/// A strictly increasing sequence is determined by the set of its members.
pub proof fn lemma_increasing_unique(a: Seq<u64>, b: Seq<u64>)
    requires
        increasing(a),
        increasing(b),
        a.to_set() == b.to_set(),
    ensures
        a == b,
    decreases a.len(),
{
    if a.len() == 0 {
        if b.len() > 0 {
            assert(b.to_set().contains(b[0]));
            assert(a.to_set().contains(b[0]));
        }
        assert(a =~= b);
    } else {
        let top = a.last();
        assert(a.to_set().contains(top));
        assert(b.to_set().contains(top));
        assert(b.len() > 0);
        let k = choose|k: int| 0 <= k < b.len() && b[k] == top;
        assert(b.to_set().contains(b.last()));
        assert(a.to_set().contains(b.last()));
        let m = choose|m: int| 0 <= m < a.len() && a[m] == b.last();
        assert(b.last() == top);
        let a0 = a.drop_last();
        let b0 = b.drop_last();
        assert forall|x: u64| a0.to_set().contains(x) <==> b0.to_set().contains(x) by {
            if a0.to_set().contains(x) {
                let i = choose|i: int| 0 <= i < a0.len() && a0[i] == x;
                assert(a[i] == x);
                assert(a.to_set().contains(x));
                assert(b.to_set().contains(x));
                let j = choose|j: int| 0 <= j < b.len() && b[j] == x;
                assert(j < b.len() - 1);
                assert(b0[j] == x);
            }
            if b0.to_set().contains(x) {
                let i = choose|i: int| 0 <= i < b0.len() && b0[i] == x;
                assert(b[i] == x);
                assert(b.to_set().contains(x));
                assert(a.to_set().contains(x));
                let j = choose|j: int| 0 <= j < a.len() && a[j] == x;
                assert(j < a.len() - 1);
                assert(a0[j] == x);
            }
        }
        assert(a0.to_set() =~= b0.to_set());
        lemma_increasing_unique(a0, b0);
        assert(a =~= a0.push(top));
        assert(b =~= b0.push(top));
    }
}

/// Any ascending enumeration of `s` is the ascending enumeration of `s`.
pub proof fn lemma_ascending_is(q: Seq<u64>, s: Set<u64>)
    requires
        enumerates(q, s),
    ensures
        ascending(s) == q,
{
    lemma_increasing_unique(ascending(s), q);
}

/// A finite non-empty set of identifiers has a greatest member.
pub proof fn lemma_has_greatest(s: Set<u64>) -> (top: u64)
    requires
        s.finite(),
        !s.is_empty(),
    ensures
        s.contains(top),
        forall|x: u64| s.contains(x) ==> x <= top,
    decreases s.len(),
{
    let a = s.choose();
    let rest = s.remove(a);
    if rest.is_empty() {
        assert forall|x: u64| s.contains(x) implies x <= a by {
            if x != a {
                assert(rest.contains(x));
            }
        }
        a
    } else {
        let m = lemma_has_greatest(rest);
        let top = if a > m { a } else { m };
        assert forall|x: u64| s.contains(x) implies x <= top by {
            if x != a {
                assert(rest.contains(x));
            }
        }
        top
    }
}

/// Every finite set of identifiers has an ascending enumeration, and
/// `ascending` is it.
pub proof fn lemma_ascending_enumerates(s: Set<u64>)
    requires
        s.finite(),
    ensures
        enumerates(ascending(s), s),
        ascending(s).len() == s.len(),
        ascending(s).no_duplicates(),
    decreases s.len(),
{
    if s.is_empty() {
        let q = Seq::<u64>::empty();
        assert(q.to_set() =~= s);
        assert(enumerates(q, s));
    } else {
        let top = lemma_has_greatest(s);
        let rest = s.remove(top);
        lemma_ascending_enumerates(rest);
        let q0 = ascending(rest);
        let q = q0.push(top);
        assert forall|i: int, j: int| 0 <= i < j < q.len() implies q[i] < q[j] by {
            assert(q0.to_set().contains(q0[i]));
            if j < q0.len() {
                assert(q0[i] < q0[j]);
            } else {
                assert(rest.contains(q0[i]));
            }
        }
        assert forall|x: u64| q.to_set().contains(x) <==> s.contains(x) by {
            if q.to_set().contains(x) {
                let i = choose|i: int| 0 <= i < q.len() && q[i] == x;
                if i < q0.len() {
                    assert(q0.to_set().contains(q0[i]));
                }
            }
            if s.contains(x) {
                if x == top {
                    assert(q[q.len() - 1] == x);
                } else {
                    assert(rest.contains(x));
                    assert(q0.to_set().contains(x));
                    let i = choose|i: int| 0 <= i < q0.len() && q0[i] == x;
                    assert(q[i] == x);
                }
            }
        }
        assert(q.to_set() =~= s);
        assert(enumerates(q, s));
    }
    let q = ascending(s);
    assert(q.no_duplicates());
    q.unique_seq_to_set();
}

/// Taking one more element of a sequence adds that element to the set of
/// those taken.
pub proof fn lemma_take_next<T>(q: Seq<T>, i: int)
    requires
        0 <= i < q.len(),
    ensures
        q.take(i + 1) == q.take(i).push(q[i]),
        q.take(i + 1).drop_last() == q.take(i),
        q.take(i + 1).last() == q[i],
        q.take(i + 1).to_set() == q.take(i).to_set().insert(q[i]),
        q.take(0) == Seq::<T>::empty(),
        q.take(q.len() as int) == q,
{
    let a = q.take(i + 1);
    let b = q.take(i).push(q[i]);
    assert(a =~= b);
    assert(a.drop_last() =~= q.take(i));
    assert forall|x: T| a.to_set().contains(x) <==> q.take(i).to_set().insert(q[i]).contains(
        x,
    ) by {
        if a.to_set().contains(x) {
            let k = choose|k: int| 0 <= k < a.len() && a[k] == x;
            if k < i {
                assert(q.take(i)[k] == x);
            }
        }
        if q.take(i).to_set().contains(x) {
            let k = choose|k: int| 0 <= k < q.take(i).len() && q.take(i)[k] == x;
            assert(a[k] == x);
        }
        if x == q[i] {
            assert(a[i] == x);
        }
    }
    assert(a.to_set() =~= q.take(i).to_set().insert(q[i]));
    assert(q.take(0) =~= Seq::<T>::empty());
    assert(q.take(q.len() as int) =~= q);
}

/// What the ordered std collections promise of the order of a walk, stated
/// over the identifiers themselves.
proof fn lemma_walk_increasing(r: Seq<&u64>)
    requires
        increasing_seq(r),
    ensures
        increasing(r.unref()),
{
    assert(vstd::laws_cmp::obeys_cmp::<&u64>());
    axiom_increasing_seq_meaning(r);
    let q = r.unref();
    assert forall|i: int, j: int| 0 <= i < j < q.len() implies q[i] < q[j] by {
        assert(OrdSpec::cmp_spec(&r[i], &r[j]) is Less);
    }
}

/// The members of `s`, smallest first.
pub fn ids_in_order(s: &BTreeSet<u64>) -> (out: Vec<u64>)
    ensures
        out@ == ascending(s@),
        enumerates(out@, s@),
{
    let mut out: Vec<u64> = Vec::new();
    for x in it: s.iter()
        invariant
            out@.len() == it.index(),
            forall|i: int| 0 <= i < out@.len() ==> out@[i] == *it.seq()[i],
            it.seq() == s.iter().remaining(),
    {
        out.push(*x);
    }
    proof {
        let r = s.iter().remaining();
        assert(out@ =~= r.unref());
        lemma_walk_increasing(r);
        lemma_ascending_is(out@, s@);
    }
    out
}

/// The keys of `m`, smallest first.
pub fn keys_in_order<V>(m: &BTreeMap<u64, V>) -> (out: Vec<u64>)
    ensures
        out@ == ascending(m@.dom()),
        enumerates(out@, m@.dom()),
{
    let mut out: Vec<u64> = Vec::new();
    for x in it: m.keys()
        invariant
            out@.len() == it.index(),
            forall|i: int| 0 <= i < out@.len() ==> out@[i] == *it.seq()[i],
            it.seq() == m.keys().remaining(),
    {
        out.push(*x);
    }
    proof {
        let r = m.keys().remaining();
        assert(out@ =~= r.unref());
        lemma_walk_increasing(r);
        lemma_ascending_is(out@, m@.dom());
    }
    out
}

} // verus!
