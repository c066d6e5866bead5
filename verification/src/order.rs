//! Finite sets of keys listed in ascending order.
use std::collections::BTreeMap;
use vstd::prelude::*;
use vstd::std_specs::cmp::OrdSpec;
use vstd::std_specs::iter::IteratorSpec;

verus! {

/// `s` lists the elements of `d` in strictly ascending order of `rank`.
pub open spec fn lists<T>(s: Seq<T>, d: Set<T>, rank: spec_fn(T) -> int) -> bool {
    &&& forall|i: int, j: int| 0 <= i < j < s.len() ==> rank(#[trigger] s[i]) < rank(#[trigger] s[j])
    &&& forall|t: T| #[trigger] d.contains(t) <==> s.contains(t)
}

pub open spec fn injective<T>(rank: spec_fn(T) -> int) -> bool {
    forall|a: T, b: T| #[trigger] rank(a) == #[trigger] rank(b) ==> a == b
}

pub open spec fn token_rank() -> spec_fn(usize) -> int {
    |t: usize| t as int
}

pub open spec fn pid_rank() -> spec_fn(u16) -> int {
    |p: u16| p as int
}

/// The elements of `d` in ascending order.
pub open spec fn sorted_tokens(d: Set<usize>) -> Seq<usize> {
    choose|s: Seq<usize>| lists(s, d, token_rank())
}

/// The elements of `d` in ascending order.
pub open spec fn sorted_pids(d: Set<u16>) -> Seq<u16> {
    choose|s: Seq<u16>| lists(s, d, pid_rank())
}

/// There is only one way to list a set in ascending order.
pub proof fn lemma_lists_unique<T>(a: Seq<T>, b: Seq<T>, d: Set<T>, rank: spec_fn(T) -> int)
    requires
        lists(a, d, rank),
        lists(b, d, rank),
        injective(rank),
    ensures
        a == b,
    decreases a.len(),
{
    if a.len() == 0 {
        if b.len() > 0 {
            assert(b.contains(b[0]));
            assert(d.contains(b[0]));
        }
        assert(a =~= b);
    } else {
        assert(a.contains(a.last()));
        assert(d.contains(a.last()));
        assert(b.contains(a.last()));
        assert(b.contains(b.last()));
        assert(d.contains(b.last()));
        assert(a.contains(b.last()));
        let i = choose|i: int| 0 <= i < b.len() && b[i] == a.last();
        let j = choose|j: int| 0 <= j < a.len() && a[j] == b.last();
        assert(rank(a.last()) <= rank(b.last()));
        assert(rank(b.last()) <= rank(a.last()));
        assert(a.last() == b.last());
        let d2 = d.remove(a.last());
        lemma_lists_drop_last(a, d, rank);
        lemma_lists_drop_last(b, d, rank);
        lemma_lists_unique(a.drop_last(), b.drop_last(), d2, rank);
        assert(a =~= a.drop_last().push(a.last()));
        assert(b =~= b.drop_last().push(b.last()));
    }
}

proof fn lemma_lists_drop_last<T>(a: Seq<T>, d: Set<T>, rank: spec_fn(T) -> int)
    requires
        a.len() > 0,
        lists(a, d, rank),
    ensures
        lists(a.drop_last(), d.remove(a.last()), rank),
{
    let b = a.drop_last();
    assert forall|t: T| #[trigger] d.remove(a.last()).contains(t) <==> b.contains(t) by {
        if d.contains(t) && t != a.last() {
            let i = choose|i: int| 0 <= i < a.len() && a[i] == t;
            assert(b[i] == t);
        }
        if b.contains(t) {
            let i = choose|i: int| 0 <= i < b.len() && b[i] == t;
            assert(a[i] == t);
            assert(a.contains(t));
            assert(rank(a[i]) < rank(a[a.len() - 1]));
        }
    }
}

/// Every finite set can be listed in ascending order.
pub proof fn lemma_lists_exists<T>(d: Set<T>, rank: spec_fn(T) -> int) -> (s: Seq<T>)
    requires
        d.finite(),
        injective(rank),
    ensures
        lists(s, d, rank),
    decreases d.len(),
{
    if d.is_empty() {
        assert(lists(Seq::<T>::empty(), d, rank));
        Seq::empty()
    } else {
        let top = lemma_greatest(d, rank);
        let before = lemma_lists_exists(d.remove(top), rank);
        let s = before.push(top);
        assert forall|i: int, j: int| 0 <= i < j < s.len() implies rank(#[trigger] s[i]) < rank(
            #[trigger] s[j],
        ) by {
            assert(before.contains(before[i]));
            assert(d.remove(top).contains(before[i]));
        }
        assert forall|t: T| #[trigger] d.contains(t) <==> s.contains(t) by {
            if d.contains(t) && t != top {
                assert(d.remove(top).contains(t));
                let i = choose|i: int| 0 <= i < before.len() && before[i] == t;
                assert(s[i] == t);
            }
            assert(s[before.len() as int] == top);
            if s.contains(t) && t != top {
                let i = choose|i: int| 0 <= i < s.len() && s[i] == t;
                assert(before.contains(t));
                assert(d.remove(top).contains(t));
            }
        }
        s
    }
}

proof fn lemma_greatest<T>(d: Set<T>, rank: spec_fn(T) -> int) -> (top: T)
    requires
        d.finite(),
        !d.is_empty(),
        injective(rank),
    ensures
        d.contains(top),
        forall|t: T| #[trigger] d.contains(t) && t != top ==> rank(t) < rank(top),
    decreases d.len(),
{
    let a = d.choose();
    if d.remove(a).is_empty() {
        assert forall|t: T| #[trigger] d.contains(t) && t != a implies rank(t) < rank(a) by {
            assert(d.remove(a).contains(t));
        }
        a
    } else {
        let b = lemma_greatest(d.remove(a), rank);
        if rank(a) > rank(b) {
            assert forall|t: T| #[trigger] d.contains(t) && t != a implies rank(t) < rank(a) by {
                assert(d.remove(a).contains(t));
            }
            a
        } else {
            assert forall|t: T| #[trigger] d.contains(t) && t != b implies rank(t) < rank(b) by {
                if t != a {
                    assert(d.remove(a).contains(t));
                }
            }
            b
        }
    }
}

pub proof fn lemma_sorted_tokens(d: Set<usize>)
    requires
        d.finite(),
    ensures
        lists(sorted_tokens(d), d, token_rank()),
{
    let s = lemma_lists_exists(d, token_rank());
}

pub proof fn lemma_sorted_pids(d: Set<u16>)
    requires
        d.finite(),
    ensures
        lists(sorted_pids(d), d, pid_rank()),
{
    let s = lemma_lists_exists(d, pid_rank());
}

/// The keys of `m` in ascending order.
pub fn token_list<V>(m: &BTreeMap<usize, V>) -> (r: Vec<usize>)
    ensures
        r@ == sorted_tokens(m@.dom()),
{
    let mut r: Vec<usize> = Vec::new();
    let iter = m.iter();
    let ghost pairs = iter.remaining();
    let ghost keys = pairs.map_values(|kv: (&usize, &V)| *kv.0);
    assert(vstd::std_specs::btree::increasing_seq(keys));
    assert forall|i: int, j: int| 0 <= i < j < keys.len() implies keys[i] < keys[j] by {
        assert(keys[i].cmp_spec(&keys[j]) is Less);
    }
    for kv in it: iter
        invariant
            it.seq() == pairs,
            keys == pairs.map_values(|kv: (&usize, &V)| *kv.0),
            r@ == keys.take(it.index()),
    {
        assert(keys.take(it.index() + 1) =~= keys.take(it.index()).push(keys[it.index()]));
        r.push(*kv.0);
    }
    assert(r@ =~= keys);
    proof {
        assert forall|k: usize| #[trigger] m@.dom().contains(k) <==> r@.contains(k) by {
            if m@.contains_key(k) {
                let i = choose|i: int| 0 <= i < pairs.len() && pairs[i] == (&k, &m@[k]);
                assert(keys[i] == k);
            }
            if r@.contains(k) {
                let i = choose|i: int| 0 <= i < r@.len() && r@[i] == k;
                assert(m@.contains_key(*pairs[i].0));
            }
        }
        assert(lists(r@, m@.dom(), token_rank()));
        lemma_sorted_tokens(m@.dom());
        lemma_lists_unique(r@, sorted_tokens(m@.dom()), m@.dom(), token_rank());
    }
    r
}

/// The keys of `m` in ascending order.
pub fn pid_list<V>(m: &BTreeMap<u16, V>) -> (r: Vec<u16>)
    ensures
        r@ == sorted_pids(m@.dom()),
{
    let mut r: Vec<u16> = Vec::new();
    let iter = m.iter();
    let ghost pairs = iter.remaining();
    let ghost keys = pairs.map_values(|kv: (&u16, &V)| *kv.0);
    assert(vstd::std_specs::btree::increasing_seq(keys));
    assert forall|i: int, j: int| 0 <= i < j < keys.len() implies keys[i] < keys[j] by {
        assert(keys[i].cmp_spec(&keys[j]) is Less);
    }
    for kv in it: iter
        invariant
            it.seq() == pairs,
            keys == pairs.map_values(|kv: (&u16, &V)| *kv.0),
            r@ == keys.take(it.index()),
    {
        assert(keys.take(it.index() + 1) =~= keys.take(it.index()).push(keys[it.index()]));
        r.push(*kv.0);
    }
    assert(r@ =~= keys);
    proof {
        assert forall|k: u16| #[trigger] m@.dom().contains(k) <==> r@.contains(k) by {
            if m@.contains_key(k) {
                let i = choose|i: int| 0 <= i < pairs.len() && pairs[i] == (&k, &m@[k]);
                assert(keys[i] == k);
            }
            if r@.contains(k) {
                let i = choose|i: int| 0 <= i < r@.len() && r@[i] == k;
                assert(m@.contains_key(*pairs[i].0));
            }
        }
        assert(lists(r@, m@.dom(), pid_rank()));
        lemma_sorted_pids(m@.dom());
        lemma_lists_unique(r@, sorted_pids(m@.dom()), m@.dom(), pid_rank());
    }
    r
}

} // verus!
