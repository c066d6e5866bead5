//! Element-wise views of sequences and maps.
use vstd::prelude::*;

verus! {

/// The sequence of the views of the elements of `s`.
pub open spec fn views<T: View>(s: Seq<T>) -> Seq<T::V> {
    s.map_values(|t: T| t@)
}

/// The map that takes each key to the view of its value.
pub open spec fn map_views<K, T: View>(m: Map<K, T>) -> Map<K, T::V> {
    m.map_values(|t: T| t@)
}

pub broadcast proof fn lemma_views_index<T: View>(s: Seq<T>, i: int)
    requires
        0 <= i < s.len(),
    ensures
        #[trigger] views(s)[i] == s[i]@,
{
}

pub broadcast proof fn lemma_views_len<T: View>(s: Seq<T>)
    ensures
        #[trigger] views(s).len() == s.len(),
{
}

pub broadcast proof fn lemma_views_push<T: View>(s: Seq<T>, t: T)
    ensures
        #[trigger] views(s.push(t)) == views(s).push(t@),
{
    assert(views(s.push(t)) =~= views(s).push(t@));
}

pub broadcast proof fn lemma_views_remove<T: View>(s: Seq<T>, i: int)
    requires
        0 <= i < s.len(),
    ensures
        #[trigger] views(s.remove(i)) == views(s).remove(i),
{
    assert(views(s.remove(i)) =~= views(s).remove(i));
}

pub broadcast proof fn lemma_views_update<T: View>(s: Seq<T>, i: int, t: T)
    requires
        0 <= i < s.len(),
    ensures
        #[trigger] views(s.update(i, t)) == views(s).update(i, t@),
{
    assert(views(s.update(i, t)) =~= views(s).update(i, t@));
}

pub broadcast proof fn lemma_views_drop_last<T: View>(s: Seq<T>)
    requires
        s.len() > 0,
    ensures
        #[trigger] views(s.drop_last()) == views(s).drop_last(),
{
    assert(views(s.drop_last()) =~= views(s).drop_last());
}

pub broadcast proof fn lemma_views_subrange<T: View>(s: Seq<T>, i: int, j: int)
    requires
        0 <= i <= j <= s.len(),
    ensures
        #[trigger] views(s.subrange(i, j)) == views(s).subrange(i, j),
{
    assert(views(s.subrange(i, j)) =~= views(s).subrange(i, j));
}

pub broadcast proof fn lemma_views_empty<T: View>()
    ensures
        #[trigger] views(Seq::<T>::empty()) == Seq::<T::V>::empty(),
{
    assert(views(Seq::<T>::empty()) =~= Seq::<T::V>::empty());
}

pub broadcast proof fn lemma_map_views_insert<K, T: View>(m: Map<K, T>, k: K, t: T)
    ensures
        #[trigger] map_views(m.insert(k, t)) == map_views(m).insert(k, t@),
{
    assert(map_views(m.insert(k, t)) =~= map_views(m).insert(k, t@));
}

pub broadcast proof fn lemma_map_views_remove<K, T: View>(m: Map<K, T>, k: K)
    ensures
        #[trigger] map_views(m.remove(k)) == map_views(m).remove(k),
{
    assert(map_views(m.remove(k)) =~= map_views(m).remove(k));
}

pub broadcast proof fn lemma_map_views_empty<K, T: View>()
    ensures
        #[trigger] map_views(Map::<K, T>::empty()) == Map::<K, T::V>::empty(),
{
    assert(map_views(Map::<K, T>::empty()) =~= Map::<K, T::V>::empty());
}

pub proof fn lemma_take_next<T>(s: Seq<T>, i: int)
    requires
        0 <= i < s.len(),
    ensures
        s.take(i + 1).drop_last() == s.take(i),
        s.take(i + 1).last() == s[i],
        s.take(i + 1) == s.take(i).push(s[i]),
{
    assert(s.take(i + 1).drop_last() =~= s.take(i));
    assert(s.take(i + 1) =~= s.take(i).push(s[i]));
}

pub proof fn lemma_filter_next<T>(s: Seq<T>, i: int, keep: spec_fn(T) -> bool)
    requires
        0 <= i < s.len(),
    ensures
        s.take(i + 1).filter(keep) == (if keep(s[i]) {
            s.take(i).filter(keep).push(s[i])
        } else {
            s.take(i).filter(keep)
        }),
{
    lemma_take_next(s, i);
    reveal(Seq::filter);
}

/// A filtered sequence holds exactly those elements that pass.
pub proof fn lemma_filter_has<T>(s: Seq<T>, keep: spec_fn(T) -> bool, t: T)
    ensures
        s.filter(keep).contains(t) <==> s.contains(t) && keep(t),
    decreases s.len(),
{
    reveal(Seq::filter);
    if s.len() > 0 {
        let rest = s.drop_last();
        let before = rest.filter(keep);
        lemma_filter_has(rest, keep, t);
        assert(s.contains(t) <==> rest.contains(t) || s.last() == t) by {
            if s.contains(t) && s.last() != t {
                let i = choose|i: int| 0 <= i < s.len() && s[i] == t;
                assert(rest[i] == t);
            }
            if rest.contains(t) {
                let i = choose|i: int| 0 <= i < rest.len() && rest[i] == t;
                assert(s[i] == t);
            }
            assert(s[s.len() - 1] == s.last());
        }
        let pushed = before.push(s.last());
        assert(pushed.contains(t) <==> before.contains(t) || s.last() == t) by {
            if before.contains(t) {
                let i = choose|i: int| 0 <= i < before.len() && before[i] == t;
                assert(pushed[i] == t);
            }
            assert(pushed[before.len() as int] == s.last());
            if pushed.contains(t) && s.last() != t {
                let i = choose|i: int| 0 <= i < pushed.len() && pushed[i] == t;
                assert(before[i] == t);
            }
        }
    }
}

pub broadcast group group_views {
    lemma_views_index,
    lemma_views_len,
    lemma_views_push,
    lemma_views_remove,
    lemma_views_update,
    lemma_views_drop_last,
    lemma_views_subrange,
    lemma_views_empty,
    lemma_map_views_insert,
    lemma_map_views_remove,
    lemma_map_views_empty,
}

} // verus!
