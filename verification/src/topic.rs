//! Topic filters and the topics they match.
use crate::views::views;
use vstd::prelude::*;

verus! {

broadcast use crate::views::group_views;

/// The levels of a topic or filter: what stands between its slashes.
pub open spec fn levels(s: Seq<char>) -> Seq<Seq<char>>
    decreases s.len(),
{
    if s.len() == 0 {
        seq![Seq::empty()]
    } else {
        let before = levels(s.drop_last());
        if s.last() == '/' {
            before.push(Seq::empty())
        } else {
            before.drop_last().push(before.last().push(s.last()))
        }
    }
}

/// A filter level fits a topic level: it is `+`, or it is the same.
pub open spec fn level_fits(f: Seq<char>, t: Seq<char>) -> bool {
    f == seq!['+'] || f == t
}

/// The first `n` levels of the filter fit those of the topic.
pub open spec fn levels_fit(f: Seq<Seq<char>>, t: Seq<Seq<char>>, n: int) -> bool {
    forall|j: int| #![trigger f[j]] 0 <= j < n ==> level_fits(f[j], t[j])
}

/// A filter matches a topic if their levels fit one by one, or if they do up
/// to a level `#` of the filter, which stands for any number of levels.
pub open spec fn levels_match(f: Seq<Seq<char>>, t: Seq<Seq<char>>) -> bool {
    ||| f.len() == t.len() && levels_fit(f, t, f.len() as int)
    ||| exists|h: int|
        #![trigger f[h]]
        0 <= h < f.len() && h <= t.len() && f[h] == seq!['#'] && levels_fit(f, t, h)
}

/// `filter` matches `topic`.
pub open spec fn filter_matches(filter: Seq<char>, topic: Seq<char>) -> bool {
    levels_match(levels(filter), levels(topic))
}

pub proof fn lemma_levels_nonempty(s: Seq<char>)
    ensures
        levels(s).len() >= 1,
    decreases s.len(),
{
    if s.len() > 0 {
        lemma_levels_nonempty(s.drop_last());
    }
}

fn split_levels(s: &str) -> (r: Vec<Vec<char>>)
    ensures
        views(r@) == levels(s@),
{
    let mut done: Vec<Vec<char>> = Vec::new();
    let mut current: Vec<char> = Vec::new();
    assert(views(done@).push(current@) =~= levels(s@.take(0)));
    for c in it: s.chars()
        invariant
            it.seq() == s@,
            views(done@).push(current@) == levels(s@.take(it.index() as int)),
    {
        let ghost k = it.index() as int;
        let ghost seen = s@.take(k + 1);
        assert(seen.drop_last() =~= s@.take(k));
        assert(seen.last() == c);
        let ghost before = views(done@).push(current@);
        assert(before.drop_last() =~= views(done@));
        if c == '/' {
            done.push(current);
            current = Vec::new();
            assert(views(done@).push(current@) =~= before.push(Seq::empty()));
        } else {
            current.push(c);
        }
    }
    assert(s@.take(s@.len() as int) =~= s@);
    done.push(current);
    done
}

fn same_level(a: &Vec<char>, b: &Vec<char>) -> (r: bool)
    ensures
        r == (a@ == b@),
{
    if a.len() != b.len() {
        return false;
    }
    let mut i: usize = 0;
    while i < a.len()
        invariant
            a@.len() == b@.len(),
            i <= a@.len(),
            forall|j: int| 0 <= j < i ==> a@[j] == b@[j],
        decreases a@.len() - i,
    {
        if a[i] != b[i] {
            return false;
        }
        i += 1;
    }
    assert(a@ =~= b@);
    true
}

fn is_char(a: &Vec<char>, c: char) -> (r: bool)
    ensures
        r == (a@ == seq![c]),
{
    if a.len() == 1 && a[0] == c {
        assert(a@ =~= seq![c]);
        true
    } else {
        assert(seq![c][0] == c);
        false
    }
}

/// Whether `filter`, with its wildcards `+` and `#`, matches `topic`.
pub fn topic_matches(filter: &str, topic: &str) -> (r: bool)
    ensures
        r == filter_matches(filter@, topic@),
{
    let f: Vec<Vec<char>> = split_levels(filter);
    let t: Vec<Vec<char>> = split_levels(topic);
    let ghost fl = levels(filter@);
    let ghost tl = levels(topic@);
    let mut i: usize = 0;
    while i < f.len()
        invariant
            views(f@) == fl,
            views(t@) == tl,
            fl == levels(filter@),
            tl == levels(topic@),
            i <= f@.len(),
            i <= t@.len(),
            levels_fit(fl, tl, i as int),
            forall|h: int| #![trigger fl[h]] 0 <= h < i ==> fl[h] != seq!['#'],
        decreases f@.len() - i,
    {
        assert(fl[i as int] == f@[i as int]@);
        if is_char(&f[i], '#') {
            return true;
        }
        if i >= t.len() {
            return false;
        }
        assert(tl[i as int] == t@[i as int]@);
        if !is_char(&f[i], '+') && !same_level(&f[i], &t[i]) {
            assert(!level_fits(fl[i as int], tl[i as int]));
            return false;
        }
        i += 1;
    }
    i == t.len()
}

} // verus!
