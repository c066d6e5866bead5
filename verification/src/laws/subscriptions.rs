//! Laws of publishing, subscription by subscription: which of them are served,
//! and which are taken out.
use crate::laws::bounds::{lemma_deliver, lemma_fan_out};
use crate::laws::delivery::{carries, has_room, law_message_queued};
use crate::model;
use crate::model::{BrokerModel, Delivery, SubModel};
use crate::topic::filter_matches;
use vstd::prelude::*;

verus! {

/// `subs` are those of `all` at the positions `idx`, none of them twice.
pub open spec fn tracks(all: Seq<SubModel>, subs: Seq<SubModel>, idx: Seq<int>) -> bool {
    &&& idx.len() == subs.len()
    &&& forall|j: int|
        0 <= j < idx.len() ==> 0 <= (#[trigger] idx[j]) < all.len() && subs[j] == all[idx[j]]
    &&& forall|j: int, k: int| 0 <= j < k < idx.len() ==> #[trigger] idx[j] != #[trigger] idx[k]
}

proof fn lemma_swap_tracks(all: Seq<SubModel>, subs: Seq<SubModel>, idx: Seq<int>, i: int)
    requires
        tracks(all, subs, idx),
        0 <= i < subs.len(),
    ensures
        ({
            let idx2 = model::swap_out(idx, i);
            &&& tracks(all, model::swap_out(subs, i), idx2)
            &&& !idx2.contains(idx[i])
            &&& forall|j: int| 0 <= j < idx.len() && j != i ==> idx2.contains(#[trigger] idx[j])
            &&& forall|j: int| 0 <= j < idx2.len() ==> idx.contains(#[trigger] idx2[j])
        }),
{
    let n = idx.len() as int;
    let idx2 = model::swap_out(idx, i);
    let subs2 = model::swap_out(subs, i);
    assert forall|j: int| 0 <= j < idx2.len() implies 0 <= (#[trigger] idx2[j]) < all.len()
        && subs2[j] == all[idx2[j]] && idx2[j] != idx[i] && idx.contains(idx2[j]) by {
        if j == i {
            assert(idx2[j] == idx[n - 1]);
            assert(subs2[j] == subs[n - 1]);
        } else {
            assert(idx2[j] == idx[j]);
            assert(subs2[j] == subs[j]);
        }
    }
    assert forall|j: int, k: int| 0 <= j < k < idx2.len() implies #[trigger] idx2[j]
        != #[trigger] idx2[k] by {
        let a = if j == i {
            n - 1
        } else {
            j
        };
        let b = if k == i {
            n - 1
        } else {
            k
        };
        assert(idx2[j] == idx[a] && idx2[k] == idx[b]);
    }
    assert forall|j: int| 0 <= j < n && j != i implies idx2.contains(#[trigger] idx[j]) by {
        if j == n - 1 {
            assert(idx2[i] == idx[j]);
        } else {
            assert(idx2[j] == idx[j]);
        }
    }
}

/// The positions 0, 1, ... of a sequence of that length.
pub open spec fn all_positions(n: nat) -> Seq<int> {
    Seq::new(n, |j: int| j)
}

// ---- copies ----

/// A subscription of `token` that matches `topic`.
pub open spec fn concerns(s: SubModel, token: usize, topic: Seq<char>) -> bool {
    s.token == token && filter_matches(s.filter, topic)
}

/// The number of subscriptions from `i` on that `p` holds of.
pub open spec fn count_from(subs: Seq<SubModel>, i: int, p: spec_fn(SubModel) -> bool) -> nat
    decreases subs.len() - i,
{
    if i < 0 || i >= subs.len() {
        0
    } else {
        count_from(subs, i + 1, p) + (if p(subs[i]) {
            1nat
        } else {
            0
        })
    }
}

/// The number of subscriptions of client `token` from `i` on that match
/// `topic`.
pub open spec fn matching_of(
    subs: Seq<SubModel>,
    i: int,
    topic: Seq<char>,
    token: usize,
) -> nat {
    count_from(subs, i, |s: SubModel| concerns(s, token, topic))
}

/// The number of those among them through which a message of QoS `qos` is
/// forwarded at QoS 1 or 2.
pub open spec fn reliable_of(
    subs: Seq<SubModel>,
    i: int,
    topic: Seq<char>,
    token: usize,
    qos: u8,
) -> nat {
    count_from(
        subs,
        i,
        |s: SubModel| concerns(s, token, topic) && model::min_qos(qos, s.qos) > 0,
    )
}

proof fn lemma_count_last(subs: Seq<SubModel>, i: int, p: spec_fn(SubModel) -> bool)
    requires
        0 <= i < subs.len(),
    ensures
        count_from(subs, i, p) == count_from(subs.drop_last(), i, p) + (if p(subs.last()) {
            1nat
        } else {
            0
        }),
    decreases subs.len() - i,
{
    if i < subs.len() - 1 {
        lemma_count_last(subs, i + 1, p);
        assert(subs.drop_last()[i] == subs[i]);
    } else {
        assert(count_from(subs, i + 1, p) == 0);
    }
}

proof fn lemma_count_same(
    a: Seq<SubModel>,
    b: Seq<SubModel>,
    i: int,
    p: spec_fn(SubModel) -> bool,
)
    requires
        0 <= i,
        a.len() == b.len(),
        forall|j: int| i <= j < a.len() ==> a[j] == b[j],
    ensures
        count_from(a, i, p) == count_from(b, i, p),
    decreases a.len() - i,
{
    if i < a.len() {
        lemma_count_same(a, b, i + 1, p);
    }
}

proof fn lemma_count_swap(subs: Seq<SubModel>, i: int, p: spec_fn(SubModel) -> bool)
    requires
        0 <= i < subs.len(),
        !p(subs[i]),
    ensures
        count_from(subs, i, p) == count_from(model::swap_out(subs, i), i, p),
{
    let s2 = model::swap_out(subs, i);
    if i == subs.len() - 1 {
        assert(count_from(subs, i + 1, p) == 0);
        assert(s2.len() == i);
    } else {
        lemma_count_last(subs, i + 1, p);
        assert(s2[i] == subs.last());
        lemma_count_same(subs.drop_last(), s2, i + 1, p);
    }
}

/// `order` lists, each once, the positions among `idx` from `i` on whose
/// subscriptions of `token` match.
pub open spec fn lists_matching(
    all: Seq<SubModel>,
    idx: Seq<int>,
    i: int,
    order: Seq<int>,
    token: usize,
    topic: Seq<char>,
) -> bool {
    &&& order.no_duplicates()
    &&& forall|k: int|
        0 <= k < order.len() ==> concerns(all[#[trigger] order[k]], token, topic) && exists|j: int|
            i <= j < idx.len() && #[trigger] idx[j] == order[k]
    &&& forall|j: int|
        i <= j < idx.len() && concerns(all[#[trigger] idx[j]], token, topic) ==> order.contains(
            idx[j],
        )
}

/// The entries of `after` behind `before` are copies of the message for the
/// subscriptions at `order`, one for each and at its QoS or the message's,
/// whichever is lower.
pub open spec fn copies_sent(
    before: Seq<(bool, Seq<u8>)>,
    after: Seq<(bool, Seq<u8>)>,
    all: Seq<SubModel>,
    order: Seq<int>,
    topic: Seq<char>,
    payload: Seq<u8>,
    qos: u8,
) -> bool {
    &&& after.len() == before.len() + order.len()
    &&& after.take(before.len() as int) == before
    &&& forall|k: int|
        #![trigger order[k]]
        0 <= k < order.len() ==> carries(
            after[before.len() + k],
            topic,
            payload,
            model::min_qos(qos, all[order[k]].qos),
            false,
        )
}

proof fn lemma_fan_out_copies(
    m: BrokerModel,
    i: int,
    topic: Seq<char>,
    payload: Seq<u8>,
    qos: u8,
    now: u64,
    token: usize,
    all: Seq<SubModel>,
    idx: Seq<int>,
) -> (order: Seq<int>)
    requires
        0 <= i,
        tracks(all, m.subs, idx),
        m.clients.contains_key(token),
        has_room(
            m.clients[token],
            matching_of(m.subs, i, topic, token),
            reliable_of(m.subs, i, topic, token, qos),
        ),
    ensures
        ({
            let m2 = model::fan_out(m, i, topic, payload, qos, now).0;
            &&& m2.clients.contains_key(token)
            &&& lists_matching(all, idx, i, order, token, topic)
            &&& copies_sent(
                m.clients[token].write_queue,
                m2.clients[token].write_queue,
                all,
                order,
                topic,
                payload,
                qos,
            )
        }),
    decreases m.subs.len() - i,
{
    let q = m.clients[token].write_queue;
    if i >= m.subs.len() {
        assert(q.take(q.len() as int) =~= q);
        Seq::empty()
    } else if !filter_matches(m.subs[i].filter, topic) {
        let order = lemma_fan_out_copies(m, i + 1, topic, payload, qos, now, token, all, idx);
        assert(!concerns(all[idx[i]], token, topic));
        lemma_skip_unconcerned(all, idx, i, order, token, topic);
        order
    } else {
        let sub = m.subs[i];
        let fwd = model::min_qos(qos, sub.qos);
        let (m2, d) = model::deliver(m, sub.token, topic, payload, fwd, false, now);
        lemma_deliver(m, sub.token, topic, payload, fwd, false, now);
        assert(all[idx[i]] == sub);
        if sub.token == token {
            let n = matching_of(m.subs, i + 1, topic, token);
            let r = reliable_of(m.subs, i + 1, topic, token, qos);
            law_message_queued(m.clients[token], topic, payload, fwd, false, now, n, r);
            assert(d is Sent);
            let rest = lemma_fan_out_copies(
                m2,
                i + 1,
                topic,
                payload,
                qos,
                now,
                token,
                all,
                idx,
            );
            let order = seq![idx[i]] + rest;
            lemma_add_concerned(all, idx, i, rest, token, topic);
            let q1 = m2.clients[token].write_queue;
            let q2 = model::fan_out(m2, i + 1, topic, payload, qos, now).0.clients[token].write_queue;
            assert(q2.take(q.len() as int) =~= q) by {
                assert forall|k: int| 0 <= k < q.len() implies q2[k] == q[k] by {
                    assert(q2.take(q1.len() as int)[k] == q1[k]);
                    assert(q1.drop_last()[k] == q1[k]);
                }
            }
            assert forall|k: int| #![trigger order[k]] 0 <= k < order.len() implies carries(
                q2[q.len() + k],
                topic,
                payload,
                model::min_qos(qos, all[order[k]].qos),
                false,
            ) by {
                if k == 0 {
                    assert(q2.take(q1.len() as int)[q.len() as int] == q1[q.len() as int]);
                } else {
                    assert(order[k] == rest[k - 1]);
                }
            }
            order
        } else {
            assert(!concerns(all[idx[i]], token, topic));
            match d {
                Delivery::Gone => {
                    let m3 = BrokerModel { subs: model::swap_out(m2.subs, i), ..m2 };
                    let idx2 = model::swap_out(idx, i);
                    lemma_swap_tracks(all, m.subs, idx, i);
                    lemma_count_swap(m.subs, i, |s: SubModel| concerns(s, token, topic));
                    lemma_count_swap(
                        m.subs,
                        i,
                        |s: SubModel| concerns(s, token, topic) && model::min_qos(qos, s.qos) > 0,
                    );
                    let order = lemma_fan_out_copies(
                        m3,
                        i,
                        topic,
                        payload,
                        qos,
                        now,
                        token,
                        all,
                        idx2,
                    );
                    lemma_unswap_unconcerned(all, idx, i, order, token, topic);
                    order
                },
                _ => {
                    let order = lemma_fan_out_copies(
                        m2,
                        i + 1,
                        topic,
                        payload,
                        qos,
                        now,
                        token,
                        all,
                        idx,
                    );
                    lemma_skip_unconcerned(all, idx, i, order, token, topic);
                    order
                },
            }
        }
    }
}

proof fn lemma_skip_unconcerned(
    all: Seq<SubModel>,
    idx: Seq<int>,
    i: int,
    order: Seq<int>,
    token: usize,
    topic: Seq<char>,
)
    requires
        0 <= i < idx.len(),
        !concerns(all[idx[i]], token, topic),
        lists_matching(all, idx, i + 1, order, token, topic),
    ensures
        lists_matching(all, idx, i, order, token, topic),
{
    assert forall|k: int| 0 <= k < order.len() implies concerns(
        all[#[trigger] order[k]],
        token,
        topic,
    ) && exists|j: int| i <= j < idx.len() && #[trigger] idx[j] == order[k] by {
        let j = choose|j: int| i + 1 <= j < idx.len() && #[trigger] idx[j] == order[k];
        assert(idx[j] == order[k]);
    }
}

proof fn lemma_add_concerned(
    all: Seq<SubModel>,
    idx: Seq<int>,
    i: int,
    rest: Seq<int>,
    token: usize,
    topic: Seq<char>,
)
    requires
        0 <= i < idx.len(),
        forall|j: int, k: int| 0 <= j < k < idx.len() ==> #[trigger] idx[j] != #[trigger] idx[k],
        concerns(all[idx[i]], token, topic),
        lists_matching(all, idx, i + 1, rest, token, topic),
    ensures
        lists_matching(all, idx, i, seq![idx[i]] + rest, token, topic),
{
    let order = seq![idx[i]] + rest;
    assert forall|k: int| 0 <= k < rest.len() implies #[trigger] rest[k] != idx[i] by {
        let j = choose|j: int| i + 1 <= j < idx.len() && #[trigger] idx[j] == rest[k];
        assert(idx[i] != idx[j]);
    }
    assert forall|k: int, l: int| 0 <= k < order.len() && 0 <= l < order.len() && k != l implies
        order[k] != order[l] by {
        if k > 0 {
            assert(order[k] == rest[k - 1]);
        }
        if l > 0 {
            assert(order[l] == rest[l - 1]);
        }
    }
    assert forall|k: int| 0 <= k < order.len() implies concerns(
        all[#[trigger] order[k]],
        token,
        topic,
    ) && exists|j: int| i <= j < idx.len() && #[trigger] idx[j] == order[k] by {
        if k == 0 {
            assert(idx[i] == order[k]);
        } else {
            assert(order[k] == rest[k - 1]);
            let j = choose|j: int| i + 1 <= j < idx.len() && #[trigger] idx[j] == rest[k - 1];
            assert(idx[j] == order[k]);
        }
    }
    assert forall|j: int|
        i <= j < idx.len() && concerns(all[#[trigger] idx[j]], token, topic) implies order.contains(
        idx[j],
    ) by {
        if j == i {
            assert(order[0] == idx[j]);
        } else {
            let k = choose|k: int| 0 <= k < rest.len() && rest[k] == idx[j];
            assert(order[k + 1] == idx[j]);
        }
    }
}

proof fn lemma_unswap_unconcerned(
    all: Seq<SubModel>,
    idx: Seq<int>,
    i: int,
    order: Seq<int>,
    token: usize,
    topic: Seq<char>,
)
    requires
        0 <= i < idx.len(),
        !concerns(all[idx[i]], token, topic),
        lists_matching(all, model::swap_out(idx, i), i, order, token, topic),
    ensures
        lists_matching(all, idx, i, order, token, topic),
{
    let idx2 = model::swap_out(idx, i);
    let n = idx.len() as int;
    assert forall|k: int| 0 <= k < order.len() implies concerns(
        all[#[trigger] order[k]],
        token,
        topic,
    ) && exists|j: int| i <= j < idx.len() && #[trigger] idx[j] == order[k] by {
        let j = choose|j: int| i <= j < idx2.len() && #[trigger] idx2[j] == order[k];
        if j == i {
            assert(idx[n - 1] == order[k]);
        } else {
            assert(idx[j] == order[k]);
        }
    }
    assert forall|j: int|
        i <= j < idx.len() && concerns(all[#[trigger] idx[j]], token, topic) implies order.contains(
        idx[j],
    ) by {
        if j == n - 1 {
            assert(idx2[i] == idx[j]);
        } else {
            assert(idx2[j] == idx[j]);
        }
    }
}

/// A client with room for them is sent one copy of a message for each of its
/// matching subscriptions, at the lower of the publisher's QoS and that
/// subscription's, behind what was queued before. `order` lists the
/// subscriptions as they are served.
pub proof fn law_copy_per_subscription(
    m: BrokerModel,
    topic: Seq<char>,
    payload: Seq<u8>,
    qos: u8,
    retain: bool,
    now: u64,
    token: usize,
) -> (order: Seq<int>)
    requires
        m.clients.contains_key(token),
        has_room(
            m.clients[token],
            matching_of(m.subs, 0, topic, token),
            reliable_of(m.subs, 0, topic, token, qos),
        ),
    ensures
        ({
            let m2 = model::publish(m, topic, payload, qos, retain, now).0;
            &&& m2.clients.contains_key(token)
            &&& order.no_duplicates()
            &&& forall|i: int|
                order.contains(i) <==> 0 <= i < m.subs.len() && concerns(
                    #[trigger] m.subs[i],
                    token,
                    topic,
                )
            &&& copies_sent(
                m.clients[token].write_queue,
                m2.clients[token].write_queue,
                m.subs,
                order,
                topic,
                payload,
                qos,
            )
        }),
{
    let m1 = if retain {
        BrokerModel { retained: model::retain_message(m.retained, topic, payload, qos), ..m }
    } else {
        m
    };
    let idx = all_positions(m.subs.len());
    let order = lemma_fan_out_copies(m1, 0, topic, payload, qos, now, token, m.subs, idx);
    assert forall|i: int|
        order.contains(i) <==> 0 <= i < m.subs.len() && concerns(
            #[trigger] m.subs[i],
            token,
            topic,
        ) by {
        if order.contains(i) {
            let k = choose|k: int| 0 <= k < order.len() && order[k] == i;
            let j = choose|j: int| 0 <= j < idx.len() && #[trigger] idx[j] == order[k];
            assert(j == i);
        }
        if 0 <= i < m.subs.len() && concerns(m.subs[i], token, topic) {
            assert(idx[i] == i);
        }
    }
    order
}

// ---- what is left ----

proof fn lemma_fan_out_left(
    m: BrokerModel,
    i: int,
    topic: Seq<char>,
    payload: Seq<u8>,
    qos: u8,
    now: u64,
    all: Seq<SubModel>,
    idx: Seq<int>,
) -> (left: Seq<int>)
    requires
        0 <= i,
        tracks(all, m.subs, idx),
    ensures
        ({
            let m2 = model::fan_out(m, i, topic, payload, qos, now).0;
            &&& tracks(all, m2.subs, left)
            &&& forall|k: int| 0 <= k < left.len() ==> idx.contains(#[trigger] left[k])
            &&& forall|j: int|
                0 <= j < idx.len() && !left.contains(#[trigger] idx[j]) ==> filter_matches(
                    all[idx[j]].filter,
                    topic,
                ) && !m2.clients.contains_key(all[idx[j]].token)
            &&& forall|j: int|
                i <= j < idx.len() && left.contains(#[trigger] idx[j]) && filter_matches(
                    all[idx[j]].filter,
                    topic,
                ) ==> m.clients.contains_key(all[idx[j]].token)
            &&& forall|t: usize|
                m.clients.contains_key(t) && !(#[trigger] m2.clients.contains_key(t))
                    ==> exists|j: int|
                    0 <= j < idx.len() && !left.contains(#[trigger] idx[j]) && all[idx[j]].token
                        == t
        }),
    decreases m.subs.len() - i,
{
    let mf = model::fan_out(m, i, topic, payload, qos, now).0;
    if i >= m.subs.len() {
        assert forall|j: int| 0 <= j < idx.len() implies idx.contains(#[trigger] idx[j]) by {}
        idx
    } else if !filter_matches(m.subs[i].filter, topic) {
        lemma_fan_out_left(m, i + 1, topic, payload, qos, now, all, idx)
    } else {
        let sub = m.subs[i];
        let fwd = model::min_qos(qos, sub.qos);
        let (m2, d) = model::deliver(m, sub.token, topic, payload, fwd, false, now);
        lemma_deliver(m, sub.token, topic, payload, fwd, false, now);
        assert(all[idx[i]] == sub);
        match d {
            Delivery::Gone => {
                let m3 = BrokerModel { subs: model::swap_out(m2.subs, i), ..m2 };
                let idx2 = model::swap_out(idx, i);
                lemma_swap_tracks(all, m.subs, idx, i);
                let left = lemma_fan_out_left(m3, i, topic, payload, qos, now, all, idx2);
                lemma_fan_out(m3, i, topic, payload, qos, now);
                assert(!m3.clients.contains_key(sub.token));
                assert(!mf.clients.contains_key(sub.token));
                assert(!left.contains(idx[i])) by {
                    if left.contains(idx[i]) {
                        let k = choose|k: int| 0 <= k < left.len() && left[k] == idx[i];
                        assert(idx2.contains(left[k]));
                    }
                }
                assert forall|k: int| 0 <= k < left.len() implies idx.contains(
                    #[trigger] left[k],
                ) by {
                    let j = choose|j: int| 0 <= j < idx2.len() && idx2[j] == left[k];
                    assert(idx.contains(idx2[j]));
                }
                assert forall|j: int|
                    0 <= j < idx.len() && !left.contains(#[trigger] idx[j]) implies filter_matches(
                    all[idx[j]].filter,
                    topic,
                ) && !mf.clients.contains_key(all[idx[j]].token) by {
                    if j != i {
                        let k = choose|k: int| 0 <= k < idx2.len() && idx2[k] == idx[j];
                        assert(idx2[k] == idx[j]);
                    }
                }
                assert forall|j: int|
                    i <= j < idx.len() && left.contains(#[trigger] idx[j]) && filter_matches(
                        all[idx[j]].filter,
                        topic,
                    ) implies m.clients.contains_key(all[idx[j]].token) by {
                    let k = if j == idx.len() - 1 {
                        i
                    } else {
                        j
                    };
                    assert(idx2[k] == idx[j]);
                    assert(m3.clients.contains_key(all[idx2[k]].token));
                }
                assert forall|t: usize|
                    m.clients.contains_key(t) && !(#[trigger] mf.clients.contains_key(
                        t,
                    )) implies exists|j: int|
                    0 <= j < idx.len() && !left.contains(#[trigger] idx[j]) && all[idx[j]].token
                        == t by {
                    if t == sub.token {
                        assert(!left.contains(idx[i]) && all[idx[i]].token == t);
                    } else {
                        assert(m3.clients.contains_key(t));
                        let k = choose|k: int|
                            0 <= k < idx2.len() && !left.contains(#[trigger] idx2[k])
                                && all[idx2[k]].token == t;
                        assert(idx.contains(idx2[k]));
                        let j = choose|j: int| 0 <= j < idx.len() && idx[j] == idx2[k];
                        assert(!left.contains(idx[j]));
                    }
                }
                left
            },
            _ => {
                let left = lemma_fan_out_left(m2, i + 1, topic, payload, qos, now, all, idx);
                assert(m.clients.contains_key(sub.token));
                assert forall|j: int|
                    i <= j < idx.len() && left.contains(#[trigger] idx[j]) && filter_matches(
                        all[idx[j]].filter,
                        topic,
                    ) implies m.clients.contains_key(all[idx[j]].token) by {
                    if j > i {
                        assert(m2.clients.contains_key(all[idx[j]].token));
                    }
                }
                assert forall|t: usize|
                    m.clients.contains_key(t) && !(#[trigger] mf.clients.contains_key(
                        t,
                    )) implies exists|j: int|
                    0 <= j < idx.len() && !left.contains(#[trigger] idx[j]) && all[idx[j]].token
                        == t by {
                    assert(m2.clients.contains_key(t));
                }
                left
            },
        }
    }
}

/// The subscriptions left after a message are the old ones, each once (in an
/// order that `left` gives), without matching ones whose client is gone: none
/// other is taken out. A matching one that is left had its client when the
/// message came, and a client that was lost to the message has lost the
/// subscription it was lost at. So where a client has one matching subscription,
/// that is taken out exactly if the client is gone.
pub proof fn law_subscriptions_left(
    m: BrokerModel,
    topic: Seq<char>,
    payload: Seq<u8>,
    qos: u8,
    retain: bool,
    now: u64,
) -> (left: Seq<int>)
    ensures
        ({
            let m2 = model::publish(m, topic, payload, qos, retain, now).0;
            &&& tracks(m.subs, m2.subs, left)
            &&& forall|i: int|
                0 <= i < m.subs.len() && !left.contains(i) ==> filter_matches(
                    (#[trigger] m.subs[i]).filter,
                    topic,
                ) && !m2.clients.contains_key(m.subs[i].token)
            &&& forall|i: int|
                0 <= i < m.subs.len() && left.contains(i) && filter_matches(
                    (#[trigger] m.subs[i]).filter,
                    topic,
                ) ==> m.clients.contains_key(m.subs[i].token)
            &&& forall|t: usize|
                m.clients.contains_key(t) && !(#[trigger] m2.clients.contains_key(t))
                    ==> exists|i: int|
                    0 <= i < m.subs.len() && !left.contains(i) && (#[trigger] m.subs[i]).token == t
            &&& forall|i: int|
                0 <= i < m.subs.len() && only_match(m.subs, i, topic) ==> (left.contains(i)
                    <==> m2.clients.contains_key((#[trigger] m.subs[i]).token))
        }),
{
    let m1 = if retain {
        BrokerModel { retained: model::retain_message(m.retained, topic, payload, qos), ..m }
    } else {
        m
    };
    let idx = all_positions(m.subs.len());
    let left = lemma_fan_out_left(m1, 0, topic, payload, qos, now, m.subs, idx);
    let m2 = model::publish(m, topic, payload, qos, retain, now).0;
    assert forall|i: int| 0 <= i < m.subs.len() && !left.contains(i) implies filter_matches(
        (#[trigger] m.subs[i]).filter,
        topic,
    ) && !m2.clients.contains_key(m.subs[i].token) by {
        assert(idx[i] == i);
    }
    assert forall|i: int|
        0 <= i < m.subs.len() && left.contains(i) && filter_matches(
            (#[trigger] m.subs[i]).filter,
            topic,
        ) implies m.clients.contains_key(m.subs[i].token) by {
        assert(idx[i] == i);
    }
    assert forall|t: usize|
        m.clients.contains_key(t) && !(#[trigger] m2.clients.contains_key(
            t,
        )) implies exists|i: int|
        0 <= i < m.subs.len() && !left.contains(i) && (#[trigger] m.subs[i]).token == t by {
        let j = choose|j: int|
            0 <= j < idx.len() && !left.contains(#[trigger] idx[j]) && m.subs[idx[j]].token == t;
        assert(m.subs[j].token == t);
    }
    assert forall|i: int| 0 <= i < m.subs.len() && only_match(m.subs, i, topic) implies (
    left.contains(i) <==> m2.clients.contains_key((#[trigger] m.subs[i]).token)) by {
        let t = m.subs[i].token;
        if left.contains(i) && !m2.clients.contains_key(t) {
            assert(m.clients.contains_key(t));
            let g = choose|g: int|
                0 <= g < m.subs.len() && !left.contains(g) && (#[trigger] m.subs[g]).token == t;
            assert(filter_matches(m.subs[g].filter, topic));
        }
    }
    left
}

/// The subscription at `i` matches, and is the only one of its client that
/// does.
pub open spec fn only_match(subs: Seq<SubModel>, i: int, topic: Seq<char>) -> bool {
    &&& filter_matches(subs[i].filter, topic)
    &&& forall|j: int|
        0 <= j < subs.len() && j != i && (#[trigger] subs[j]).token == subs[i].token
            ==> !filter_matches(subs[j].filter, topic)
}

} // verus!
