//! The broker with two threads per connection: a shared table of
//! subscriptions, QoS 0 delivery through bounded channels, and the decisions
//! of the thread that reads a connection.
use crate::bytes::{be16, be16_at, join_be16};
use crate::client::Subscription;
use crate::model::{count, SubModel};
use crate::packet;
use crate::packet::{
    build_connack, build_pingresp, build_puback, build_suback, build_unsuback, field_at, framed,
    id_packet, parse_subscribe, parse_unsubscribe, publish_of, publish_packet, subscribe_of,
    unsubscribe_of, CONNECT, PINGREQ, PUBLISH, SUBSCRIBE, UNSUBSCRIBE,
};
use crate::text::{decode_text, text_of};
use crate::topic::{filter_matches, topic_matches};
use crate::views::{lemma_filter_has, lemma_filter_next, lemma_take_next, views};
use vstd::prelude::*;

verus! {

broadcast use crate::views::group_views;

/// The capacity of a subscriber's channel, in packets.
pub const SUB_QUEUE_CAP: usize = 8192;

// ---- reading a packet byte by byte ----

/// How far the remaining length of a packet has been read.
pub enum RemStep {
    /// The value so far, and the weight of the next byte.
    More { rem: usize, mult: usize },
    Done(usize),
}

/// `x` reduced to a machine word.
pub open spec fn word(x: int) -> usize {
    (x % (usize::MAX + 1)) as usize
}

/// One more byte of the remaining length.
pub open spec fn rem_step(rem: usize, mult: usize, b: u8) -> RemStep {
    let sum = word(rem + word((b % 128) * mult));
    if b < 128 {
        RemStep::Done(sum)
    } else {
        RemStep::More { rem: sum, mult: word(mult * 128) }
    }
}

/// Takes in one more byte of the remaining length; at the start the value is
/// zero and the weight one.
pub fn decode_rem(rem: usize, mult: usize, b: u8) -> (r: RemStep)
    ensures
        r == rem_step(rem, mult, b),
{
    let low: usize = (b % 128) as usize;
    assert(word(low * mult) == low.wrapping_mul(mult));
    let sum: usize = rem.wrapping_add(low.wrapping_mul(mult));
    assert(sum == word(rem + word(low * mult)));
    if b < 128 {
        RemStep::Done(sum)
    } else {
        RemStep::More { rem: sum, mult: mult.wrapping_mul(128) }
    }
}

/// The type and the flags in the first byte of a packet.
pub fn split_head(b: u8) -> (r: (u8, u8))
    ensures
        r == (b >> 4u8, b & 0x0f),
        b == 16 * r.0 + r.1,
        r.1 < 16,
{
    assert(b == 16 * (b >> 4u8) + (b & 0x0f) && b & 0x0f < 16) by (bit_vector);
    (b >> 4, b & 0x0f)
}

// ---- packets ----

/// Writes a PUBLISH for a subscriber, always at QoS 0.
pub fn build_forward(topic: &[u8], payload: &[u8]) -> (pkt: Vec<u8>)
    ensures
        pkt@ == publish_packet(topic@, payload@, 0, None, false, false),
{
    packet::build_forward(topic, payload, 0, None, false, false)
}

/// What a CONNECT body says: client id and keepalive; `None` if it ends before
/// these do.
pub open spec fn connect_of(body: Seq<u8>) -> Option<(Seq<char>, u16)> {
    let plen = be16_at(body, 0);
    if body.len() < 10 {
        None
    } else {
        match field_at(body, 6 + plen) {
            None => None,
            Some((cid, _)) => Some((text_of(cid), be16_at(body, 4 + plen))),
        }
    }
}

/// Reads the client id and the keepalive of a CONNECT body.
pub fn parse_connect(body: &[u8]) -> (r: Option<(String, u16)>)
    ensures
        match r {
            Some((cid, keepalive)) => connect_of(body@) == Some((cid@, keepalive)),
            None => connect_of(body@) is None,
        },
{
    if body.len() < 10 {
        return None;
    }
    let plen: usize = join_be16(body[0], body[1]) as usize;
    if body.len() < 6 + plen {
        return None;
    }
    let keepalive: u16 = join_be16(body[4 + plen], body[5 + plen]);
    match packet::read_field(body, 6 + plen) {
        None => None,
        Some((cid, _)) => Some((decode_text(cid.as_slice()), keepalive)),
    }
}

/// Reads a PUBLISH: topic, QoS, packet id, payload.
pub fn parse_publish(flags: u8, body: &[u8]) -> (r: Option<(String, u8, Option<u16>, Vec<u8>)>)
    ensures
        match r {
            Some((topic, qos, pid, payload)) => publish_of(flags, body@) matches Some(f) && f.0
                == topic@ && f.1 == qos && f.2 == pid && f.3 == payload@,
            None => publish_of(flags, body@) is None,
        },
{
    match packet::parse_publish(flags, body) {
        None => None,
        Some((topic, qos, pid, payload, _)) => Some((topic, qos, pid, payload)),
    }
}

/// For how many seconds a read may wait, for a client with this keepalive: one
/// and a half times as long; `None` if it asked for no limit.
pub fn read_timeout(keepalive: u16) -> (r: Option<u64>)
    ensures
        r == (if keepalive > 0 {
            Some((keepalive * 3 / 2) as u64)
        } else {
            None
        }),
        r is None <==> keepalive == 0,
        r matches Some(t) ==> 2 * t <= 3 * keepalive < 2 * t + 2,
{
    if keepalive > 0 {
        Some(keepalive as u64 * 3 / 2)
    } else {
        None
    }
}

// ---- the shared table ----

#[verifier::ext_equal]
pub struct TableModel {
    pub subs: Seq<SubModel>,
    pub client_ids: Seq<Seq<char>>,
    pub drops: u64,
    pub dead_subs: u64,
}

/// The subscriptions and names shared by all connections.
pub struct Broker {
    pub subs: Vec<Subscription>,
    pub client_ids: Vec<String>,
    /// Messages dropped because a channel was full.
    pub drops: u64,
    /// Subscriptions taken out because their client was gone.
    pub dead_subs: u64,
}

impl View for Broker {
    type V = TableModel;

    open spec fn view(&self) -> TableModel {
        TableModel {
            subs: views(self.subs@),
            client_ids: views(self.client_ids@),
            drops: self.drops,
            dead_subs: self.dead_subs,
        }
    }
}

/// What became of one message put into one channel.
pub enum SendOutcome {
    Sent,
    /// The channel was full: the message is lost.
    Full,
    /// The other end is gone.
    Disconnected,
}

/// The tokens of the subscriptions that match `topic`, in order.
pub open spec fn targets_of(subs: Seq<SubModel>, topic: Seq<char>) -> Seq<usize>
    decreases subs.len(),
{
    if subs.len() == 0 {
        Seq::empty()
    } else {
        let before = targets_of(subs.drop_last(), topic);
        if filter_matches(subs.last().filter, topic) {
            before.push(subs.last().token)
        } else {
            before
        }
    }
}

/// The subscriptions that are left after a message on `topic` was put into the
/// channels of those that match, with the numbers sent, lost, and found dead.
pub open spec fn settled(
    subs: Seq<SubModel>,
    topic: Seq<char>,
    outcomes: Seq<SendOutcome>,
) -> (Seq<SubModel>, nat, nat, nat)
    decreases subs.len(),
{
    if subs.len() == 0 {
        (Seq::empty(), 0, 0, 0)
    } else if !filter_matches(subs.last().filter, topic) {
        let r = settled(subs.drop_last(), topic, outcomes);
        (r.0.push(subs.last()), r.1, r.2, r.3)
    } else {
        let r = settled(subs.drop_last(), topic, outcomes.drop_last());
        match outcomes.last() {
            SendOutcome::Sent => (r.0.push(subs.last()), r.1 + 1, r.2, r.3),
            SendOutcome::Full => (r.0.push(subs.last()), r.1, r.2 + 1, r.3),
            SendOutcome::Disconnected => (r.0, r.1, r.2, r.3 + 1),
        }
    }
}

impl Broker {
    /// An empty table.
    pub fn new() -> (b: Broker)
        ensures
            b@ == (TableModel {
                subs: Seq::empty(),
                client_ids: Seq::empty(),
                drops: 0,
                dead_subs: 0,
            }),
    {
        Broker { subs: Vec::new(), client_ids: Vec::new(), drops: 0, dead_subs: 0 }
    }

    /// Adds a subscription.
    pub fn subscribe(&mut self, filter: String, qos: u8, token: usize)
        ensures
            final(self)@ == (TableModel {
                subs: old(self)@.subs.push(SubModel { filter: filter@, token, qos }),
                ..old(self)@
            }),
    {
        self.subs.push(Subscription { filter, token, qos });
    }

    /// Drops the subscriptions of `token` to `filter`.
    pub fn unsubscribe(&mut self, filter: &String, token: usize)
        ensures
            final(self)@ == (TableModel {
                subs: old(self)@.subs.filter(
                    |s: SubModel| !(s.filter == filter@ && s.token == token),
                ),
                ..old(self)@
            }),
            forall|s: SubModel| #[trigger]
                final(self)@.subs.contains(s) <==> old(self)@.subs.contains(s) && (s.token != token
                    || s.filter != filter@),
    {
        let ghost all = self@.subs;
        let ghost keep = |s: SubModel| !(s.filter == filter@ && s.token == token);
        let mut old_subs: Vec<Subscription> = Vec::new();
        std::mem::swap(&mut old_subs, &mut self.subs);
        let mut kept: Vec<Subscription> = Vec::new();
        proof {
            reveal(Seq::filter);
        }
        for s in it: old_subs
            invariant
                all == views(it.seq()),
                views(kept@) == all.take(it.index() as int).filter(keep),
                keep == (|s: SubModel| !(s.filter == filter@ && s.token == token)),
        {
            proof {
                lemma_filter_next(all, it.index() as int, keep);
                assert(all[it.index() as int] == s@);
            }
            if s.token != token || s.filter != *filter {
                kept.push(s);
            }
        }
        assert(all.take(all.len() as int) =~= all);
        self.subs = kept;
        assert forall|s: SubModel| #[trigger] self@.subs.contains(s) <==> all.contains(s) && (
        s.token != token || s.filter != filter@) by {
            lemma_filter_has(all, keep, s);
        }
    }

    /// Drops the subscriptions of `token`.
    pub fn disconnect_client(&mut self, token: usize)
        ensures
            final(self)@ == (TableModel {
                subs: old(self)@.subs.filter(|s: SubModel| s.token != token),
                ..old(self)@
            }),
            forall|s: SubModel| #[trigger]
                final(self)@.subs.contains(s) <==> old(self)@.subs.contains(s) && s.token != token,
    {
        let ghost all = self@.subs;
        let ghost keep = |s: SubModel| s.token != token;
        let mut old_subs: Vec<Subscription> = Vec::new();
        std::mem::swap(&mut old_subs, &mut self.subs);
        let mut kept: Vec<Subscription> = Vec::new();
        proof {
            reveal(Seq::filter);
        }
        for s in it: old_subs
            invariant
                all == views(it.seq()),
                views(kept@) == all.take(it.index() as int).filter(keep),
                keep == (|s: SubModel| s.token != token),
        {
            proof {
                lemma_filter_next(all, it.index() as int, keep);
                assert(all[it.index() as int] == s@);
            }
            if s.token != token {
                kept.push(s);
            }
        }
        assert(all.take(all.len() as int) =~= all);
        self.subs = kept;
        assert forall|s: SubModel| #[trigger] self@.subs.contains(s) <==> all.contains(s)
            && s.token != token by {
            lemma_filter_has(all, keep, s);
        }
    }

    /// The tokens of the subscriptions that match `topic`, in order: a message
    /// is put into the channel of each.
    pub fn targets(&self, topic: &str) -> (r: Vec<usize>)
        ensures
            r@ == targets_of(self@.subs, topic@),
    {
        let ghost all = self@.subs;
        let mut out: Vec<usize> = Vec::new();
        let mut i: usize = 0;
        while i < self.subs.len()
            invariant
                i <= self.subs@.len(),
                all == views(self.subs@),
                out@ == targets_of(all.take(i as int), topic@),
            decreases self.subs@.len() - i,
        {
            proof {
                lemma_take_next(all, i as int);
                assert(all[i as int] == self.subs@[i as int]@);
            }
            if topic_matches(self.subs[i].filter.as_str(), topic) {
                out.push(self.subs[i].token);
            }
            i += 1;
        }
        assert(all.take(i as int) =~= all);
        out
    }

    /// Ends the publication of a message on `topic`, given what became of it
    /// in the channel of each target. Subscribers whose channel was full stay;
    /// those that are gone are taken out. Returns the numbers sent and lost.
    pub fn publish(&mut self, topic: &str, outcomes: &Vec<SendOutcome>) -> (r: (usize, usize))
        requires
            outcomes@.len() == targets_of(old(self)@.subs, topic@).len(),
        ensures
            ({
                let s = settled(old(self)@.subs, topic@, outcomes@);
                &&& final(self)@ == (TableModel {
                    subs: s.0,
                    drops: count(old(self)@.drops, s.2),
                    dead_subs: count(old(self)@.dead_subs, s.3),
                    ..old(self)@
                })
                &&& r.0 == s.1
                &&& r.1 == s.2
            }),
    {
        let ghost all = self@.subs;
        let mut old_subs: Vec<Subscription> = Vec::new();
        std::mem::swap(&mut old_subs, &mut self.subs);
        let n: usize = old_subs.len();
        let mut kept: Vec<Subscription> = Vec::new();
        let mut delivered: usize = 0;
        let mut dropped: usize = 0;
        let mut dead: usize = 0;
        let mut k: usize = 0;
        for s in it: old_subs
            invariant
                all == views(it.seq()),
                n == all.len(),
                outcomes@.len() == targets_of(all, topic@).len(),
                k == targets_of(all.take(it.index() as int), topic@).len(),
                k <= it.index(),
                delivered + dropped + dead <= k,
                settled(all.take(it.index() as int), topic@, outcomes@.take(k as int)) == (
                    views(kept@),
                    delivered as nat,
                    dropped as nat,
                    dead as nat,
                ),
        {
            let ghost i = it.index() as int;
            proof {
                lemma_take_next(all, i);
                assert(all[i] == s@);
                lemma_targets_prefix(all, topic@, i + 1);
            }
            if topic_matches(s.filter.as_str(), topic) {
                proof {
                    lemma_take_next(outcomes@, k as int);
                }
                match &outcomes[k] {
                    SendOutcome::Sent => {
                        delivered += 1;
                        kept.push(s);
                    },
                    SendOutcome::Full => {
                        dropped += 1;
                        kept.push(s);
                    },
                    SendOutcome::Disconnected => {
                        dead += 1;
                    },
                }
                k += 1;
            } else {
                kept.push(s);
            }
        }
        assert(all.take(all.len() as int) =~= all);
        assert(outcomes@.take(k as int) =~= outcomes@);
        self.subs = kept;
        self.drops = self.drops.wrapping_add(dropped as u64);
        self.dead_subs = self.dead_subs.wrapping_add(dead as u64);
        (delivered, dropped)
    }
}

proof fn lemma_targets_prefix(subs: Seq<SubModel>, topic: Seq<char>, i: int)
    requires
        0 <= i <= subs.len(),
    ensures
        targets_of(subs.take(i), topic).len() <= targets_of(subs, topic).len(),
    decreases subs.len() - i,
{
    if i < subs.len() {
        lemma_take_next(subs, i);
        lemma_targets_prefix(subs, topic, i + 1);
    } else {
        assert(subs.take(i) =~= subs);
    }
}

// ---- one connection ----

#[verifier::ext_equal]
pub struct ConnModel {
    pub token: usize,
    pub client_id: Seq<char>,
    pub keepalive: u16,
}

/// What the reading thread knows of its connection.
pub struct Conn {
    pub token: usize,
    pub client_id: String,
    pub keepalive: u16,
}

impl View for Conn {
    type V = ConnModel;

    open spec fn view(&self) -> ConnModel {
        ConnModel { token: self.token, client_id: self.client_id@, keepalive: self.keepalive }
    }
}

#[verifier::ext_equal]
pub enum ActionModel {
    Reply(Seq<u8>),
    Publish { ack: Option<Seq<u8>>, topic: Seq<char>, payload: Seq<u8> },
    Close,
}

/// What the reading thread does about a packet.
pub enum Action {
    /// Send this packet to the client.
    Reply(Vec<u8>),
    /// Send the acknowledgement, if there is one, and publish the message.
    Publish { ack: Option<Vec<u8>>, topic: String, payload: Vec<u8> },
    /// Close the connection.
    Close,
}

impl View for Action {
    type V = ActionModel;

    open spec fn view(&self) -> ActionModel {
        match self {
            Action::Reply(pkt) => ActionModel::Reply(pkt@),
            Action::Publish { ack, topic, payload } => ActionModel::Publish {
                ack: match ack {
                    Some(pkt) => Some(pkt@),
                    None => None,
                },
                topic: topic@,
                payload: payload@,
            },
            Action::Close => ActionModel::Close,
        }
    }
}

/// The subscriptions asked for in one SUBSCRIBE.
pub open spec fn asked(topics: Seq<(Seq<char>, u8)>, token: usize) -> Seq<SubModel> {
    topics.map_values(|e: (Seq<char>, u8)| SubModel { filter: e.0, token, qos: e.1 })
}

/// The subscriptions without those of `token` to any of `filters`.
pub open spec fn without(subs: Seq<SubModel>, filters: Seq<Seq<char>>, token: usize) -> Seq<SubModel>
    decreases filters.len(),
{
    if filters.len() == 0 {
        subs
    } else {
        without(subs, filters.drop_last(), token).filter(
            |s: SubModel| !(s.filter == filters.last() && s.token == token),
        )
    }
}

/// What a packet does to the table and the connection, and what is to be done
/// about it.
pub open spec fn on_packet(
    t: TableModel,
    conn: ConnModel,
    ptype: u8,
    flags: u8,
    body: Seq<u8>,
) -> (TableModel, ConnModel, ActionModel) {
    if ptype == CONNECT {
        match connect_of(body) {
            None => (t, conn, ActionModel::Close),
            Some((cid, keepalive)) => (
                TableModel { client_ids: t.client_ids.push(cid), ..t },
                ConnModel { client_id: cid, keepalive, ..conn },
                ActionModel::Reply(seq![0x20u8, 0x02, 0x00, 0x00]),
            ),
        }
    } else if ptype == SUBSCRIBE {
        match subscribe_of(body) {
            None => (t, conn, ActionModel::Close),
            Some((pid, topics)) => (
                TableModel { subs: t.subs + asked(topics, conn.token), ..t },
                conn,
                ActionModel::Reply(framed(0x90, be16(pid) + crate::model::grants(topics))),
            ),
        }
    } else if ptype == UNSUBSCRIBE {
        match unsubscribe_of(body) {
            None => (t, conn, ActionModel::Close),
            Some((pid, filters)) => (
                TableModel { subs: without(t.subs, filters, conn.token), ..t },
                conn,
                ActionModel::Reply(id_packet(0xB0, pid)),
            ),
        }
    } else if ptype == PUBLISH {
        match publish_of(flags, body) {
            None => (t, conn, ActionModel::Close),
            Some((topic, qos, pid, payload, _)) => (
                t,
                conn,
                ActionModel::Publish {
                    ack: match pid {
                        Some(p) if qos == 1 => Some(id_packet(0x40, p)),
                        _ => None,
                    },
                    topic,
                    payload,
                },
            ),
        }
    } else if ptype == PINGREQ {
        (t, conn, ActionModel::Reply(seq![0xD0u8, 0x00]))
    } else {
        (t, conn, ActionModel::Close)
    }
}

impl Broker {
    fn subscribe_all(&mut self, topics: &Vec<(String, u8)>, token: usize) -> (grants: Vec<u8>)
        ensures
            final(self)@ == (TableModel {
                subs: old(self)@.subs + asked(views(topics@), token),
                ..old(self)@
            }),
            grants@ == crate::model::grants(views(topics@)),
    {
        let ghost all = asked(views(topics@), token);
        let mut grants: Vec<u8> = Vec::new();
        let mut i: usize = 0;
        assert(old(self)@.subs + all.take(0) =~= old(self)@.subs);
        while i < topics.len()
            invariant
                i <= topics@.len(),
                all == asked(views(topics@), token),
                self@ == (TableModel { subs: old(self)@.subs + all.take(i as int), ..old(self)@ }),
                grants@ =~= crate::model::grants(views(topics@)).take(i as int),
            decreases topics@.len() - i,
        {
            proof {
                lemma_take_next(all, i as int);
                assert(views(topics@)[i as int] == topics@[i as int]@);
            }
            let ghost before = self@.subs;
            self.subscribe(topics[i].0.clone(), topics[i].1, token);
            assert(self@.subs =~= old(self)@.subs + all.take(i + 1));
            grants.push(topics[i].1);
            i += 1;
        }
        assert(all.take(i as int) =~= all);
        assert(grants@ =~= crate::model::grants(views(topics@)));
        grants
    }

    fn unsubscribe_all(&mut self, filters: &Vec<String>, token: usize)
        ensures
            final(self)@ == (TableModel {
                subs: without(old(self)@.subs, views(filters@), token),
                ..old(self)@
            }),
    {
        let ghost all = views(filters@);
        let mut i: usize = 0;
        while i < filters.len()
            invariant
                i <= filters@.len(),
                all == views(filters@),
                self@ == (TableModel {
                    subs: without(old(self)@.subs, all.take(i as int), token),
                    ..old(self)@
                }),
            decreases filters@.len() - i,
        {
            proof {
                lemma_take_next(all, i as int);
                assert(all[i as int] == filters@[i as int]@);
            }
            self.unsubscribe(&filters[i], token);
            i += 1;
        }
        assert(all.take(i as int) =~= all);
    }

    /// Handles one packet of a connection.
    pub fn handle_packet(&mut self, conn: &mut Conn, ptype: u8, flags: u8, body: &[u8]) -> (r:
        Action)
        ensures
            (final(self)@, final(conn)@, r@) == on_packet(
                old(self)@,
                old(conn)@,
                ptype,
                flags,
                body@,
            ),
    {
        if ptype == CONNECT {
            match parse_connect(body) {
                None => Action::Close,
                Some((cid, keepalive)) => {
                    self.client_ids.push(cid.clone());
                    conn.client_id = cid;
                    conn.keepalive = keepalive;
                    Action::Reply(build_connack())
                },
            }
        } else if ptype == SUBSCRIBE {
            match parse_subscribe(body) {
                None => Action::Close,
                Some((pid, topics)) => {
                    let grants: Vec<u8> = self.subscribe_all(&topics, conn.token);
                    Action::Reply(build_suback(pid, grants.as_slice()))
                },
            }
        } else if ptype == UNSUBSCRIBE {
            match parse_unsubscribe(body) {
                None => Action::Close,
                Some((pid, filters)) => {
                    self.unsubscribe_all(&filters, conn.token);
                    Action::Reply(build_unsuback(pid))
                },
            }
        } else if ptype == PUBLISH {
            match parse_publish(flags, body) {
                None => Action::Close,
                Some((topic, qos, pid, payload)) => {
                    let ack: Option<Vec<u8>> = match pid {
                        Some(p) => {
                            if qos == 1 {
                                Some(build_puback(p))
                            } else {
                                None
                            }
                        },
                        None => None,
                    };
                    Action::Publish { ack, topic, payload }
                },
            }
        } else if ptype == PINGREQ {
            Action::Reply(build_pingresp())
        } else {
            Action::Close
        }
    }

    /// Forgets a connection that has ended: its subscriptions, and every name
    /// equal to its own.
    pub fn leave(&mut self, conn: &Conn)
        ensures
            final(self)@ == (TableModel {
                subs: old(self)@.subs.filter(|s: SubModel| s.token != conn@.token),
                client_ids: old(self)@.client_ids.filter(|c: Seq<char>| c != conn@.client_id),
                ..old(self)@
            }),
            forall|s: SubModel| #[trigger]
                final(self)@.subs.contains(s) <==> old(self)@.subs.contains(s) && s.token
                    != conn@.token,
            forall|c: Seq<char>| #[trigger]
                final(self)@.client_ids.contains(c) <==> old(self)@.client_ids.contains(c) && c
                    != conn@.client_id,
    {
        self.disconnect_client(conn.token);
        let ghost left = self@.subs;
        let ghost all = self@.client_ids;
        let ghost keep = |c: Seq<char>| c != conn@.client_id;
        let mut old_ids: Vec<String> = Vec::new();
        std::mem::swap(&mut old_ids, &mut self.client_ids);
        let mut kept: Vec<String> = Vec::new();
        proof {
            reveal(Seq::filter);
        }
        for c in it: old_ids
            invariant
                all == views(it.seq()),
                views(kept@) == all.take(it.index() as int).filter(keep),
                keep == (|c: Seq<char>| c != conn@.client_id),
        {
            proof {
                lemma_filter_next(all, it.index() as int, keep);
                assert(all[it.index() as int] == c@);
            }
            if c != conn.client_id {
                kept.push(c);
            }
        }
        assert(all.take(all.len() as int) =~= all);
        self.client_ids = kept;
        assert(self@.subs == left);
        assert forall|c: Seq<char>| #[trigger] self@.client_ids.contains(c) <==> all.contains(c)
            && c != conn@.client_id by {
            lemma_filter_has(all, keep, c);
        }
    }
}

} // verus!
