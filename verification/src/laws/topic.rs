//! Laws of topic filters: what `#`, `+` and plain levels match.
use crate::topic::{
    filter_matches, lemma_levels_nonempty, level_fits, levels, levels_fit, levels_match,
};
use vstd::prelude::*;

verus! {

/// A text that holds no wildcard.
pub open spec fn is_plain(s: Seq<char>) -> bool {
    !s.contains('+') && !s.contains('#')
}

/// `below` written as a further level (or levels) under `parent`.
pub open spec fn under(parent: Seq<char>, below: Seq<char>) -> Seq<char> {
    parent + seq!['/'] + below
}

proof fn lemma_levels_under(a: Seq<char>, b: Seq<char>)
    ensures
        levels(under(a, b)) == levels(a) + levels(b),
    decreases b.len(),
{
    let s = under(a, b);
    if b.len() == 0 {
        assert(s.drop_last() =~= a);
        assert(levels(s) =~= levels(a) + levels(b));
    } else {
        let rest = b.drop_last();
        lemma_levels_under(a, rest);
        lemma_levels_nonempty(rest);
        assert(s.drop_last() =~= under(a, rest));
        let l = levels(rest);
        assert((levels(a) + l).drop_last() =~= levels(a) + l.drop_last());
        assert(levels(s) =~= levels(a) + levels(b));
    }
}

proof fn lemma_levels_plain(s: Seq<char>)
    requires
        !s.contains('/'),
    ensures
        levels(s) == seq![s],
    decreases s.len(),
{
    if s.len() == 0 {
        assert(s =~= Seq::empty());
        assert(levels(s) =~= seq![s]);
    } else {
        let rest = s.drop_last();
        assert forall|i: int| 0 <= i < rest.len() implies rest[i] != '/' by {
            assert(s[i] == rest[i]);
        }
        lemma_levels_plain(rest);
        assert(s[s.len() - 1] == s.last());
        assert(rest.push(s.last()) =~= s);
        assert(levels(s) =~= seq![s]);
    }
}

proof fn lemma_levels_split(s: Seq<char>)
    requires
        s.contains('/'),
    ensures
        levels(s).len() >= 2,
    decreases s.len(),
{
    let rest = s.drop_last();
    lemma_levels_nonempty(rest);
    if s.last() != '/' {
        let i = choose|i: int| 0 <= i < s.len() && s[i] == '/';
        assert(rest[i] == '/');
        lemma_levels_split(rest);
    }
}

proof fn lemma_levels_injective(a: Seq<char>, b: Seq<char>)
    requires
        levels(a) == levels(b),
    ensures
        a == b,
    decreases a.len(),
{
    if a.len() == 0 {
        if b.len() > 0 {
            lemma_levels_nonempty(b.drop_last());
            assert(levels(b).last().len() == 0);
            assert(levels(b).len() == 1);
        }
        assert(a =~= b);
    } else if b.len() == 0 {
        lemma_levels_nonempty(a.drop_last());
        assert(levels(a).last().len() == 0);
        assert(levels(a).len() == 1);
    } else {
        let (ra, rb) = (a.drop_last(), b.drop_last());
        lemma_levels_nonempty(ra);
        lemma_levels_nonempty(rb);
        let (la, lb) = (levels(a), levels(b));
        assert(la.last() == lb.last());
        assert(la.drop_last() == lb.drop_last());
        if a.last() == '/' {
            assert(la.drop_last() =~= levels(ra));
            assert(b.last() == '/') by {
                if b.last() != '/' {
                    assert(lb.last().len() > 0);
                }
            }
            assert(lb.drop_last() =~= levels(rb));
        } else {
            assert(la.last().len() > 0);
            assert(b.last() != '/');
            assert(la.last() == levels(ra).last().push(a.last()));
            assert(lb.last() == levels(rb).last().push(b.last()));
            assert(la.last().last() == a.last());
            assert(lb.last().last() == b.last());
            assert(la.last().drop_last() =~= levels(ra).last());
            assert(lb.last().drop_last() =~= levels(rb).last());
            assert(la.drop_last() =~= levels(ra).drop_last());
            assert(lb.drop_last() =~= levels(rb).drop_last());
            assert(levels(ra) =~= levels(rb)) by {
                assert(levels(ra) =~= levels(ra).drop_last().push(levels(ra).last()));
                assert(levels(rb) =~= levels(rb).drop_last().push(levels(rb).last()));
            }
        }
        lemma_levels_injective(ra, rb);
        assert(a =~= ra.push(a.last()));
        assert(b =~= rb.push(b.last()));
    }
}

proof fn lemma_level_chars(s: Seq<char>, i: int, c: char)
    requires
        0 <= i < levels(s).len(),
        levels(s)[i].contains(c),
    ensures
        s.contains(c),
    decreases s.len(),
{
    if s.len() > 0 {
        let rest = s.drop_last();
        let before = levels(rest);
        lemma_levels_nonempty(rest);
        if c == s.last() {
            assert(s[s.len() - 1] == c);
        } else {
            if s.last() == '/' {
                assert(i < before.len());
                assert(levels(s)[i] == before[i]);
            } else if i == before.len() - 1 {
                let level = levels(s)[i];
                let k = choose|k: int| 0 <= k < level.len() && level[k] == c;
                assert(level == before.last().push(s.last()));
                assert(before[i][k] == c);
            } else {
                assert(levels(s)[i] == before[i]);
            }
            lemma_level_chars(rest, i, c);
            let k = choose|k: int| 0 <= k < rest.len() && rest[k] == c;
            assert(s[k] == c);
        }
    }
}

proof fn lemma_plain_levels(s: Seq<char>)
    requires
        is_plain(s),
    ensures
        forall|i: int|
            #![trigger levels(s)[i]]
            0 <= i < levels(s).len() ==> levels(s)[i] != seq!['+'] && levels(s)[i] != seq!['#'],
{
    assert forall|i: int| #![trigger levels(s)[i]] 0 <= i < levels(s).len() implies levels(s)[i]
        != seq!['+'] && levels(s)[i] != seq!['#'] by {
        if levels(s)[i] == seq!['+'] {
            assert(seq!['+'][0] == '+');
            lemma_level_chars(s, i, '+');
        }
        if levels(s)[i] == seq!['#'] {
            assert(seq!['#'][0] == '#');
            lemma_level_chars(s, i, '#');
        }
    }
}

proof fn lemma_prefix_levels(p: Seq<char>, t: Seq<char>)
    requires
        levels(p).len() < levels(t).len(),
        levels(t).take(levels(p).len() as int) == levels(p),
    ensures
        exists|below: Seq<char>| t == #[trigger] under(p, below),
    decreases t.len(),
{
    lemma_levels_nonempty(p);
    let n = levels(p).len() as int;
    assert(t.len() > 0);
    let u = t.drop_last();
    assert(t =~= u.push(t.last()));
    lemma_levels_nonempty(u);
    let (lt, lu) = (levels(t), levels(u));
    if t.last() == '/' {
        assert(lt.drop_last() =~= lu);
        if lu.len() == n {
            assert(lu =~= lt.take(n));
            lemma_levels_injective(u, p);
            assert(t =~= under(p, Seq::empty()));
        } else {
            assert(lu.take(n) =~= lt.take(n));
            lemma_prefix_levels(p, u);
            let r = choose|r: Seq<char>| u == #[trigger] under(p, r);
            assert(under(p, r).push('/') =~= under(p, r.push('/')));
        }
    } else {
        assert(lu.take(n) =~= lt.take(n));
        lemma_prefix_levels(p, u);
        let r = choose|r: Seq<char>| u == #[trigger] under(p, r);
        assert(under(p, r).push(t.last()) =~= under(p, r.push(t.last())));
    }
}

/// The filter `#` matches every topic.
pub proof fn law_hash_matches_all(topic: Seq<char>)
    ensures
        filter_matches(seq!['#'], topic),
{
    lemma_levels_plain(seq!['#']);
    assert(levels(seq!['#'])[0] == seq!['#']);
}

/// A filter that ends in `/#` matches its parent level and everything below.
pub proof fn law_hash_matches_parent_and_below(parent: Seq<char>, below: Seq<char>)
    ensures
        filter_matches(under(parent, seq!['#']), parent),
        filter_matches(under(parent, seq!['#']), under(parent, below)),
{
    lemma_levels_plain(seq!['#']);
    lemma_levels_under(parent, seq!['#']);
    lemma_levels_under(parent, below);
    let f = levels(under(parent, seq!['#']));
    let n = levels(parent).len() as int;
    assert(f[n] == seq!['#']);
    assert(levels_fit(f, levels(parent), n));
    assert(levels_fit(f, levels(under(parent, below)), n));
}

/// A plain parent followed by `/#` matches nothing but its parent and what is
/// below.
pub proof fn law_hash_matches_only_below(parent: Seq<char>, topic: Seq<char>)
    requires
        is_plain(parent),
        filter_matches(under(parent, seq!['#']), topic),
    ensures
        topic == parent || exists|below: Seq<char>| topic == #[trigger] under(parent, below),
{
    lemma_levels_plain(seq!['#']);
    lemma_levels_under(parent, seq!['#']);
    lemma_plain_levels(parent);
    let f = levels(under(parent, seq!['#']));
    let t = levels(topic);
    let p = levels(parent);
    let n = p.len() as int;
    assert(forall|j: int| #![trigger f[j]] 0 <= j < n ==> f[j] == p[j]);
    assert(n <= t.len() && levels_fit(f, t, n)) by {
        if !(f.len() == t.len() && levels_fit(f, t, f.len() as int)) {
            let h = choose|h: int|
                #![trigger f[h]]
                0 <= h < f.len() && h <= t.len() && f[h] == seq!['#'] && levels_fit(f, t, h);
            assert(h == n);
        }
    }
    assert(t.take(n) =~= p) by {
        assert forall|j: int| 0 <= j < n implies t[j] == p[j] by {
            assert(level_fits(f[j], t[j]));
        }
    }
    if t.len() == n {
        assert(t.take(n) =~= t);
        lemma_levels_injective(topic, parent);
    } else {
        lemma_prefix_levels(parent, topic);
    }
}

/// A `+` stands for one level: it matches whatever has no slash, and nothing
/// else.
pub proof fn law_plus_is_one_level(parent: Seq<char>, below: Seq<char>)
    requires
        is_plain(parent),
    ensures
        filter_matches(under(parent, seq!['+']), under(parent, below)) <==> !below.contains('/'),
        !filter_matches(under(parent, seq!['+']), parent),
{
    lemma_levels_plain(seq!['+']);
    lemma_levels_under(parent, seq!['+']);
    lemma_levels_under(parent, below);
    lemma_plain_levels(parent);
    lemma_levels_nonempty(below);
    let f = levels(under(parent, seq!['+']));
    let t = levels(under(parent, below));
    let p = levels(parent);
    let n = p.len() as int;
    assert(f.len() == n + 1);
    assert(f[n] == seq!['+']);
    assert(seq!['+'][0] != seq!['#'][0]);
    assert(forall|j: int| #![trigger f[j]] 0 <= j < n ==> f[j] == p[j]);
    assert(forall|j: int| #![trigger f[j]] 0 <= j < f.len() ==> f[j] != seq!['#']);
    assert(levels_fit(f, t, n)) by {
        assert forall|j: int| #![trigger f[j]] 0 <= j < n implies level_fits(f[j], t[j]) by {
            assert(t[j] == p[j]);
        }
    }
    if below.contains('/') {
        lemma_levels_split(below);
    } else {
        lemma_levels_plain(below);
        assert(levels_fit(f, t, n + 1));
    }
}

/// Between plain levels, too, a `+` matches any one level.
pub proof fn law_plus_between(before: Seq<char>, level: Seq<char>, after: Seq<char>)
    requires
        !level.contains('/'),
    ensures
        filter_matches(under(before, under(seq!['+'], after)), under(before, under(level, after))),
{
    lemma_levels_plain(seq!['+']);
    lemma_levels_plain(level);
    lemma_levels_under(seq!['+'], after);
    lemma_levels_under(level, after);
    lemma_levels_under(before, under(seq!['+'], after));
    lemma_levels_under(before, under(level, after));
    let f = levels(under(before, under(seq!['+'], after)));
    let t = levels(under(before, under(level, after)));
    assert(f.len() == t.len());
    assert forall|j: int| #![trigger f[j]] 0 <= j < f.len() implies level_fits(f[j], t[j]) by {
        if j == levels(before).len() {
            assert(f[j] == seq!['+']);
        } else {
            assert(f[j] == t[j]);
        }
    }
}

/// A filter without wildcards matches the topic that is spelled the same, and
/// no other.
pub proof fn law_plain_filter_is_exact(filter: Seq<char>, topic: Seq<char>)
    requires
        is_plain(filter),
    ensures
        filter_matches(filter, topic) <==> filter == topic,
{
    lemma_plain_levels(filter);
    let f = levels(filter);
    let t = levels(topic);
    if filter_matches(filter, topic) {
        assert(f.len() == t.len() && levels_fit(f, t, f.len() as int));
        assert(f =~= t) by {
            assert forall|j: int| 0 <= j < f.len() implies f[j] == t[j] by {
                assert(level_fits(f[j], t[j]));
            }
        }
        lemma_levels_injective(filter, topic);
    }
    if filter == topic {
        assert(levels_fit(f, t, f.len() as int));
    }
}

// ---- level by level ----

proof fn lemma_match_first(x: Seq<char>, f: Seq<Seq<char>>, y: Seq<char>, t: Seq<Seq<char>>)
    ensures
        levels_match(seq![x] + f, seq![y] + t) <==> x == seq!['#'] || (x == seq!['+'] || x == y)
            && levels_match(f, t),
{
    let ff = seq![x] + f;
    let tt = seq![y] + t;
    assert(ff[0] == x && tt[0] == y);
    assert(forall|j: int| #![trigger f[j]] 0 <= j < f.len() ==> f[j] == ff[j + 1]);
    assert(forall|j: int| #![trigger t[j]] 0 <= j < t.len() ==> t[j] == tt[j + 1]);
    if x == seq!['#'] {
        assert(levels_fit(ff, tt, 0));
        assert(ff[0] == seq!['#']);
    } else {
        if (x == seq!['+'] || x == y) && levels_match(f, t) {
            if f.len() == t.len() && levels_fit(f, t, f.len() as int) {
                assert forall|j: int| #![trigger ff[j]] 0 <= j < ff.len() implies level_fits(
                    ff[j],
                    tt[j],
                ) by {
                    if j > 0 {
                        assert(level_fits(f[j - 1], t[j - 1]));
                    }
                }
                assert(levels_fit(ff, tt, ff.len() as int));
            } else {
                let h = choose|h: int|
                    #![trigger f[h]]
                    0 <= h < f.len() && h <= t.len() && f[h] == seq!['#'] && levels_fit(f, t, h);
                assert forall|j: int| #![trigger ff[j]] 0 <= j < h + 1 implies level_fits(
                    ff[j],
                    tt[j],
                ) by {
                    if j > 0 {
                        assert(level_fits(f[j - 1], t[j - 1]));
                    }
                }
                assert(ff[h + 1] == seq!['#']);
            }
        }
        if levels_match(ff, tt) {
            if ff.len() == tt.len() && levels_fit(ff, tt, ff.len() as int) {
                assert(level_fits(ff[0], tt[0]));
                assert forall|j: int| #![trigger f[j]] 0 <= j < f.len() implies level_fits(
                    f[j],
                    t[j],
                ) by {
                    assert(level_fits(ff[j + 1], tt[j + 1]));
                }
            } else {
                let h = choose|h: int|
                    #![trigger ff[h]]
                    0 <= h < ff.len() && h <= tt.len() && ff[h] == seq!['#'] && levels_fit(
                        ff,
                        tt,
                        h,
                    );
                assert(h > 0);
                assert(level_fits(ff[0], tt[0]));
                assert forall|j: int| #![trigger f[j]] 0 <= j < h - 1 implies level_fits(
                    f[j],
                    t[j],
                ) by {
                    assert(level_fits(ff[j + 1], tt[j + 1]));
                }
                assert(f[h - 1] == seq!['#']);
            }
        }
    }
}

/// Filters and topics are compared level by level. Where both go on: behind a
/// `#` nothing matters; a `+` leaves it to what follows; and any other level
/// must be the same, and then it is up to what follows.
pub proof fn law_first_level(x: Seq<char>, rest: Seq<char>, y: Seq<char>, below: Seq<char>)
    requires
        !x.contains('/'),
        !y.contains('/'),
    ensures
        x == seq!['#'] ==> filter_matches(under(x, rest), under(y, below)),
        x == seq!['+'] ==> (filter_matches(under(x, rest), under(y, below)) <==> filter_matches(
            rest,
            below,
        )),
        x != seq!['#'] && x != seq!['+'] ==> (filter_matches(under(x, rest), under(y, below))
            <==> x == y && filter_matches(rest, below)),
{
    lemma_levels_plain(x);
    lemma_levels_plain(y);
    lemma_levels_under(x, rest);
    lemma_levels_under(y, below);
    lemma_match_first(x, levels(rest), y, levels(below));
    assert(seq!['+'][0] != seq!['#'][0]);
}

/// A filter of one level matches a topic of one level if it is a wildcard or
/// the same; of several levels, only if it is `#`.
pub proof fn law_last_level(x: Seq<char>, y: Seq<char>, below: Seq<char>)
    requires
        !x.contains('/'),
        !y.contains('/'),
    ensures
        filter_matches(x, y) <==> x == seq!['#'] || x == seq!['+'] || x == y,
        filter_matches(x, under(y, below)) <==> x == seq!['#'],
{
    lemma_levels_plain(x);
    lemma_levels_plain(y);
    lemma_levels_under(y, below);
    lemma_levels_nonempty(below);
    let none = Seq::<Seq<char>>::empty();
    assert(seq![x] + none =~= seq![x]);
    assert(seq![y] + none =~= seq![y]);
    lemma_match_first(x, none, y, none);
    assert(levels_fit(none, none, 0));
    assert(levels_match(none, none));
    lemma_match_first(x, none, y, levels(below));
    assert(!levels_match(none, levels(below)));
}

/// A filter that goes on where the topic ends matches only if what follows is
/// `#` or begins with `#/`: a `#` also stands for no level at all.
pub proof fn law_topic_ends(x: Seq<char>, rest: Seq<char>, y: Seq<char>)
    requires
        !x.contains('/'),
        !y.contains('/'),
    ensures
        filter_matches(under(x, rest), y) <==> x == seq!['#'] || (x == seq!['+'] || x == y) && (rest
            == seq!['#'] || exists|more: Seq<char>| rest == #[trigger] under(seq!['#'], more)),
{
    lemma_levels_plain(x);
    lemma_levels_plain(y);
    lemma_levels_plain(seq!['#']);
    lemma_levels_under(x, rest);
    lemma_levels_nonempty(rest);
    let none = Seq::<Seq<char>>::empty();
    let r = levels(rest);
    assert(seq![y] + none =~= seq![y]);
    lemma_match_first(x, r, y, none);
    assert(levels_match(r, none) <==> r[0] == seq!['#']) by {
        if r[0] == seq!['#'] {
            assert(levels_fit(r, none, 0));
        }
    }
    if r[0] == seq!['#'] {
        if r.len() == 1 {
            assert(r =~= levels(seq!['#']));
            lemma_levels_injective(rest, seq!['#']);
        } else {
            assert(r.take(1) =~= levels(seq!['#']));
            lemma_prefix_levels(seq!['#'], rest);
        }
    }
    if exists|more: Seq<char>| rest == #[trigger] under(seq!['#'], more) {
        let more = choose|more: Seq<char>| rest == #[trigger] under(seq!['#'], more);
        lemma_levels_under(seq!['#'], more);
    }
}

} // verus!
