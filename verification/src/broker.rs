//! The broker: clients, subscriptions, retained messages and stored sessions,
//! and what it does with each packet.
use crate::bytes::{append_bytes, copy_bytes, copy_range, join_be16};
use crate::client::{Client, InFlight, Subscription};
use crate::frame::{decode_rem_at, split_packets, FrameError};
use crate::model;
use crate::model::{
    BrokerModel, ClientModel, Delivery, DepartureModel, PacketError, ReadOutcome, SessionModel,
    SubModel, LATEST, OFFLINE_CAP, READ_CAP, SECOND,
};
use crate::packet::{
    build_connack, build_forward, build_pingresp, build_puback, build_pubcomp, build_pubrec,
    build_pubrel, build_suback, build_unsuback, parse_connect, parse_publish, parse_subscribe,
    parse_unsubscribe, CONNECT, DISCONNECT, PINGREQ, PUBACK, PUBCOMP, PUBLISH, PUBREC, PUBREL,
    SUBSCRIBE, UNSUBSCRIBE,
};
use crate::topic::topic_matches;
use crate::views::{lemma_filter_next, lemma_take_next, map_views, views};
use std::collections::{BTreeMap, VecDeque};
use vstd::prelude::*;

verus! {

broadcast use crate::views::group_views;

/// What is kept for a client while it is away: its subscriptions and the
/// messages (topic, payload, QoS) that arrived for it.
pub struct SessionState {
    pub subs: Vec<(String, u8)>,
    pub offline: VecDeque<(String, Vec<u8>, u8)>,
}

impl View for SessionState {
    type V = SessionModel;

    open spec fn view(&self) -> SessionModel {
        SessionModel { subs: views(self.subs@), offline: views(self.offline@) }
    }
}

/// What is still to be done for a client that was removed for being too slow:
/// its session is to be stored if `keep` says so, its last will (topic, message,
/// QoS, retain) to be published if `will_flag` does.
pub struct Departure {
    pub token: usize,
    pub client_id: String,
    pub keep: bool,
    pub session: SessionState,
    pub will_flag: bool,
    pub will: (String, Vec<u8>, u8, bool),
}

impl View for Departure {
    type V = DepartureModel;

    open spec fn view(&self) -> DepartureModel {
        DepartureModel {
            token: self.token,
            client_id: self.client_id@,
            keep: self.keep,
            session: self.session@,
            will_flag: self.will_flag,
            will: self.will@,
        }
    }
}

/// The broker's state.
pub struct Broker {
    pub clients: BTreeMap<usize, Client>,
    pub subs: Vec<Subscription>,
    pub next_token: usize,
    /// QoS 0 messages dropped because a queue was full.
    pub drops: u64,
    /// Subscriptions taken out because their client was gone.
    pub dead_pruned: u64,
    /// The retained messages: topic, payload, QoS.
    pub retained: Vec<(String, Vec<u8>, u8)>,
    /// The stored sessions, by client id.
    pub sessions: Vec<(String, SessionState)>,
    /// The departures that are still to be seen to.
    pub leaving: Vec<Departure>,
    pub sys_clients_total: u64,
    pub sys_msgs_received: u64,
    pub sys_msgs_sent: u64,
    pub sys_pub_received: u64,
    pub sys_pub_sent: u64,
    pub sys_start: u64,
    pub sys_last_publish: u64,
}

impl View for Broker {
    type V = BrokerModel;

    open spec fn view(&self) -> BrokerModel {
        BrokerModel {
            clients: map_views(self.clients@),
            subs: views(self.subs@),
            next_token: self.next_token,
            drops: self.drops,
            dead_pruned: self.dead_pruned,
            retained: views(self.retained@),
            sessions: views(self.sessions@),
            leaving: views(self.leaving@),
            sys_clients_total: self.sys_clients_total,
            sys_msgs_received: self.sys_msgs_received,
            sys_msgs_sent: self.sys_msgs_sent,
            sys_pub_received: self.sys_pub_received,
            sys_pub_sent: self.sys_pub_sent,
            sys_start: self.sys_start,
            sys_last_publish: self.sys_last_publish,
        }
    }
}

/// The QoS of the first of `subs` that matches `topic`.
fn first_match(subs: &Vec<(String, u8)>, topic: &str) -> (r: Option<u8>)
    ensures
        r == model::first_match(views(subs@), topic@),
{
    let ghost all = views(subs@);
    let mut i: usize = 0;
    assert(all.skip(0) =~= all);
    while i < subs.len()
        invariant
            all == views(subs@),
            i <= subs@.len(),
            model::first_match(all, topic@) == model::first_match(all.skip(i as int), topic@),
        decreases subs@.len() - i,
    {
        assert(all.skip(i as int)[0] == subs@[i as int]@);
        if topic_matches(subs[i].0.as_str(), topic) {
            return Some(subs[i].1);
        }
        assert(all.skip(i as int).skip(1) =~= all.skip(i + 1));
        i += 1;
    }
    None
}

impl SessionState {
    /// Keeps a message for the absent client if one of its subscriptions
    /// matches and there is room.
    pub fn queue_offline(&mut self, topic: &str, payload: &[u8], qos: u8)
        ensures
            final(self)@ == model::offline_session(old(self)@, topic@, payload@, qos),
    {
        match first_match(&self.subs, topic) {
            Some(sqos) => {
                if self.offline.len() < OFFLINE_CAP {
                    let entry: (String, Vec<u8>, u8) = (
                        topic.to_owned(),
                        copy_bytes(payload),
                        lower_qos(qos, sqos),
                    );
                    assert(entry@ == (topic@, payload@, model::min_qos(qos, sqos)));
                    self.offline.push_back(entry);
                }
            },
            None => {},
        }
    }
}

/// The message that a queued PUBLISH carries; `None` for any other packet.
fn queued_message(pkt: &[u8]) -> (r: Option<(String, Vec<u8>, u8)>)
    ensures
        match r {
            Some(msg) => model::message_in(pkt@) == Some(msg@),
            None => model::message_in(pkt@) is None,
        },
{
    if pkt.len() == 0 || pkt[0] >> 4 != PUBLISH {
        return None;
    }
    match decode_rem_at(pkt, 1) {
        None => None,
        Some((_, n)) => {
            proof {
                crate::frame::lemma_rem_at_range(pkt@.skip(1), 4);
            }
            let body: Vec<u8> = copy_range(pkt, 1 + n, pkt.len());
            assert(body@ =~= pkt@.skip(1 + n as int));
            match parse_publish(pkt[0] & 0x0f, body.as_slice()) {
                None => None,
                Some((topic, qos, _, payload, _)) => Some((topic, payload, qos)),
            }
        },
    }
}

/// The messages among the reliable packets of a queue.
fn queued_messages(q: &VecDeque<(bool, Vec<u8>)>) -> (r: VecDeque<(String, Vec<u8>, u8)>)
    ensures
        views(r@) == model::queued_messages(views(q@)),
{
    let ghost all = views(q@);
    let mut out: VecDeque<(String, Vec<u8>, u8)> = VecDeque::new();
    let mut i: usize = 0;
    while i < q.len()
        invariant
            all == views(q@),
            i <= q@.len(),
            views(out@) == model::queued_messages(all.take(i as int)),
        decreases q@.len() - i,
    {
        proof {
            lemma_take_next(all, i as int);
            assert(all[i as int] == q@[i as int]@);
        }
        if q[i].0 {
            match queued_message(q[i].1.as_slice()) {
                Some(msg) => {
                    out.push_back(msg);
                },
                None => {},
            }
        }
        i += 1;
    }
    assert(all.take(i as int) =~= all);
    out
}

/// The (filter, QoS) pairs of the subscriptions of `token`.
fn subs_of(subs: &Vec<Subscription>, token: usize) -> (r: Vec<(String, u8)>)
    ensures
        views(r@) == model::subs_of(views(subs@), token),
{
    let ghost all = views(subs@);
    let mut out: Vec<(String, u8)> = Vec::new();
    let mut i: usize = 0;
    while i < subs.len()
        invariant
            all == views(subs@),
            i <= subs@.len(),
            views(out@) == model::subs_of(all.take(i as int), token),
        decreases subs@.len() - i,
    {
        proof {
            lemma_take_next(all, i as int);
            assert(all[i as int] == subs@[i as int]@);
        }
        if subs[i].token == token {
            let entry: (String, u8) = (subs[i].filter.clone(), subs[i].qos);
            assert(entry@ == (all[i as int].filter, all[i as int].qos));
            out.push(entry);
        }
        i += 1;
    }
    assert(all.take(i as int) =~= all);
    out
}

fn holds_sub(subs: &Vec<(String, u8)>, sub: &(String, u8)) -> (r: bool)
    ensures
        r == views(subs@).contains(sub@),
{
    let mut i: usize = 0;
    while i < subs.len()
        invariant
            i <= subs@.len(),
            forall|j: int| 0 <= j < i ==> #[trigger] views(subs@)[j] != sub@,
        decreases subs@.len() - i,
    {
        assert(views(subs@)[i as int] == subs@[i as int]@);
        if subs[i].0 == sub.0 && subs[i].1 == sub.1 {
            return true;
        }
        i += 1;
    }
    false
}

impl SessionState {
    /// Adds subscriptions that are not there yet.
    fn merge_subs(&mut self, new: Vec<(String, u8)>)
        ensures
            final(self)@ == (SessionModel {
                subs: model::merge_subs(old(self)@.subs, views(new@)),
                ..old(self)@
            }),
    {
        let ghost all = views(new@);
        let ghost base = self@.subs;
        let mut i: usize = 0;
        while i < new.len()
            invariant
                all == views(new@),
                i <= new@.len(),
                self@ == (SessionModel {
                    subs: model::merge_subs(base, all.take(i as int)),
                    ..old(self)@
                }),
            decreases new@.len() - i,
        {
            proof {
                lemma_take_next(all, i as int);
                assert(all[i as int] == new@[i as int]@);
            }
            if !holds_sub(&self.subs, &new[i]) {
                let entry: (String, u8) = (new[i].0.clone(), new[i].1);
                assert(entry@ == all[i as int]);
                self.subs.push(entry);
            }
            i += 1;
        }
        assert(all.take(i as int) =~= all);
    }

    /// Adds messages as far as there is room.
    fn append_offline(&mut self, new: VecDeque<(String, Vec<u8>, u8)>)
        ensures
            final(self)@ == (SessionModel {
                offline: model::append_capped(old(self)@.offline, views(new@)),
                ..old(self)@
            }),
    {
        let ghost all = views(new@);
        let ghost base = self@.offline;
        let mut i: usize = 0;
        assert(model::append_capped(base, all.take(0)) =~= base);
        while i < new.len()
            invariant
                all == views(new@),
                i <= new@.len(),
                self@ == (SessionModel {
                    offline: model::append_capped(base, all.take(i as int)),
                    ..old(self)@
                }),
            decreases new@.len() - i,
        {
            proof {
                lemma_take_next(all, i as int);
                assert(all[i as int] == new@[i as int]@);
            }
            let ghost before = self@.offline;
            if self.offline.len() < OFFLINE_CAP {
                let entry: (String, Vec<u8>, u8) = (
                    new[i].0.clone(),
                    copy_bytes(new[i].1.as_slice()),
                    new[i].2,
                );
                assert(entry@ == all[i as int]);
                self.offline.push_back(entry);
                assert(self@.offline =~= before.push(all[i as int]));
            }
            assert(self@.offline =~= model::append_capped(base, all.take(i + 1)));
            i += 1;
        }
        assert(all.take(i as int) =~= all);
    }
}

fn copy_subs(subs: &Vec<(String, u8)>) -> (r: Vec<(String, u8)>)
    ensures
        views(r@) == views(subs@),
{
    let mut out: Vec<(String, u8)> = Vec::new();
    let mut i: usize = 0;
    while i < subs.len()
        invariant
            i <= subs@.len(),
            views(out@) == views(subs@).take(i as int),
        decreases subs@.len() - i,
    {
        let entry: (String, u8) = (subs[i].0.clone(), subs[i].1);
        proof {
            lemma_take_next(views(subs@), i as int);
            assert(entry@ == views(subs@)[i as int]);
        }
        out.push(entry);
        i += 1;
    }
    assert(views(subs@).take(i as int) =~= views(subs@));
    out
}

fn copy_messages(q: &VecDeque<(String, Vec<u8>, u8)>) -> (r: Vec<(String, Vec<u8>, u8)>)
    ensures
        views(r@) == views(q@),
{
    let mut out: Vec<(String, Vec<u8>, u8)> = Vec::new();
    let mut i: usize = 0;
    while i < q.len()
        invariant
            i <= q@.len(),
            views(out@) == views(q@).take(i as int),
        decreases q@.len() - i,
    {
        let entry: (String, Vec<u8>, u8) = (
            q[i].0.clone(),
            copy_bytes(q[i].1.as_slice()),
            q[i].2,
        );
        proof {
            lemma_take_next(views(q@), i as int);
            assert(entry@ == views(q@)[i as int]);
        }
        out.push(entry);
        i += 1;
    }
    assert(views(q@).take(i as int) =~= views(q@));
    out
}

proof fn lemma_flush_keeps_sessions(
    m: BrokerModel,
    token: usize,
    subs: Seq<(Seq<char>, u8)>,
    queued: Seq<(Seq<char>, Seq<u8>, u8)>,
    now: u64,
)
    ensures
        model::flush_offline(m, token, subs, queued, now).0.sessions == m.sessions,
    decreases queued.len(),
{
    if queued.len() > 0 {
        let (topic, payload, q) = queued[0];
        let qos = match model::first_match(subs, topic) {
            Some(s) => model::min_qos(q, s),
            None => q,
        };
        let m2 = model::deliver(m, token, topic, payload, qos, false, now).0;
        lemma_flush_keeps_sessions(m2, token, subs, queued.skip(1), now);
    }
}

proof fn lemma_queued_remove(q: Seq<(bool, Seq<u8>)>, i: int)
    requires
        0 <= i < q.len(),
        !q[i].0,
    ensures
        model::queued_messages(q.remove(i)) == model::queued_messages(q),
    decreases q.len(),
{
    if i == q.len() - 1 {
        assert(q.remove(i) =~= q.drop_last());
    } else {
        assert(q.remove(i).drop_last() =~= q.drop_last().remove(i));
        assert(q.remove(i).last() == q.last());
        lemma_queued_remove(q.drop_last(), i);
    }
}

/// Making room costs a queue none of its reliable messages.
proof fn lemma_queued_make_room(q: Seq<(bool, Seq<u8>)>)
    ensures
        model::queued_messages(model::make_room(q)) == model::queued_messages(q),
    decreases q.len(),
{
    let i = model::first_droppable(q) as int;
    if !(q.len() < model::WRITE_QUEUE_CAP || i >= q.len()) {
        lemma_droppable(q);
        lemma_queued_remove(q, i);
        lemma_queued_make_room(q.remove(i));
    }
}

proof fn lemma_droppable(q: Seq<(bool, Seq<u8>)>)
    ensures
        model::first_droppable(q) < q.len() ==> !q[model::first_droppable(q) as int].0,
    decreases q.len(),
{
    if q.len() > 0 && q[0].0 {
        lemma_droppable(q.skip(1));
    }
}

fn holds_string(list: &Vec<String>, s: &String) -> (r: bool)
    ensures
        r == views(list@).contains(s@),
{
    let mut i: usize = 0;
    while i < list.len()
        invariant
            i <= list@.len(),
            forall|j: int| 0 <= j < i ==> #[trigger] views(list@)[j] != s@,
        decreases list@.len() - i,
    {
        assert(views(list@)[i as int] == list@[i as int]@);
        if list[i] == *s {
            return true;
        }
        i += 1;
    }
    false
}

/// The deadline of a client with the given keepalive.
fn deadline(keepalive: u16, now: u64) -> (r: Option<u64>)
    requires
        now <= LATEST,
    ensures
        r == model::deadline(keepalive, now),
{
    if keepalive > 0 {
        Some(now + (keepalive as u64 * 3 / 2) * SECOND)
    } else {
        None
    }
}

fn bump(counter: u64, n: u64) -> (r: u64)
    ensures
        r == model::count(counter, n as nat),
{
    counter.wrapping_add(n)
}

fn lower_qos(a: u8, b: u8) -> (r: u8)
    ensures
        r == model::min_qos(a, b),
{
    if a <= b {
        a
    } else {
        b
    }
}

impl Broker {
    /// An empty broker, started at `now`.
    pub fn new(now: u64) -> (b: Broker)
        ensures
            b@ == (BrokerModel {
                clients: Map::empty(),
                subs: Seq::empty(),
                next_token: 1,
                drops: 0,
                dead_pruned: 0,
                retained: Seq::empty(),
                sessions: Seq::empty(),
                leaving: Seq::empty(),
                sys_clients_total: 0,
                sys_msgs_received: 0,
                sys_msgs_sent: 0,
                sys_pub_received: 0,
                sys_pub_sent: 0,
                sys_start: now,
                sys_last_publish: now,
            }),
    {
        Broker {
            clients: BTreeMap::new(),
            subs: Vec::new(),
            next_token: 1,
            drops: 0,
            dead_pruned: 0,
            retained: Vec::new(),
            sessions: Vec::new(),
            leaving: Vec::new(),
            sys_clients_total: 0,
            sys_msgs_received: 0,
            sys_msgs_sent: 0,
            sys_pub_received: 0,
            sys_pub_sent: 0,
            sys_start: now,
            sys_last_publish: now,
        }
    }

    /// Whether client `token` is connected.
    pub fn has_client(&self, token: usize) -> (r: bool)
        ensures
            r == self@.clients.contains_key(token),
    {
        self.clients.contains_key(&token)
    }

    /// Takes in a connection that was just accepted, under a new token.
    pub fn add_client(&mut self) -> (token: usize)
        requires
            old(self)@.next_token < usize::MAX,
        ensures
            token == old(self)@.next_token,
            final(self)@ == (BrokerModel {
                next_token: (token + 1) as usize,
                ..model::put_client(old(self)@, token, model::fresh_client(token))
            }),
    {
        let token: usize = self.next_token;
        self.next_token = token + 1;
        self.clients.insert(token, Client::new(token));
        token
    }

    fn note_departure(&mut self, token: usize, c: Client)
        ensures
            final(self)@ == (BrokerModel {
                leaving: old(self)@.leaving.push(
                    model::departure(model::put_client(old(self)@, token, c@), token),
                ),
                ..old(self)@
            }),
    {
        let keep: bool = !c.clean_session && !c.client_id.as_str().is_empty();
        assert(keep == model::persistent(c@));
        let session: SessionState = if keep {
            SessionState {
                subs: subs_of(&self.subs, token),
                offline: queued_messages(&c.write_queue),
            }
        } else {
            SessionState { subs: Vec::new(), offline: VecDeque::new() }
        };
        let d: Departure = Departure {
            token,
            client_id: c.client_id,
            keep,
            session,
            will_flag: c.will_flag && !c.clean_disconnect,
            will: (c.will_topic, c.will_message, c.will_qos, c.will_retain),
        };
        assert(d@ =~= model::departure(model::put_client(old(self)@, token, c@), token));
        self.leaving.push(d);
    }

    /// Delivers one message to one client at the given QoS. A QoS 0 message
    /// is dropped when the client's queue is full. A client that cannot take a
    /// QoS 1 or 2 message is removed on the spot, and its departure is noted:
    /// `settle` then stores its session, takes out its subscriptions and
    /// publishes its will.
    pub fn deliver_to(
        &mut self,
        token: usize,
        topic: &str,
        payload: &[u8],
        fwd_qos: u8,
        retain: bool,
        now: u64,
    ) -> (r: Delivery)
        ensures
            (final(self)@, r) == model::deliver(
                old(self)@,
                token,
                topic@,
                payload@,
                fwd_qos,
                retain,
                now,
            ),
    {
        match self.clients.remove(&token) {
            None => {
                assert(self.clients@ =~= old(self).clients@);
                Delivery::Gone
            },
            Some(c) => {
                let mut c: Client = c;
                let ghost before = c@;
                assert(before == old(self)@.clients[token]);
                if fwd_qos == 0 {
                    let pkt: Vec<u8> = build_forward(
                        topic.as_bytes(),
                        payload,
                        0,
                        None,
                        false,
                        retain,
                    );
                    let sent: bool = c.queue_qos0(pkt);
                    self.clients.insert(token, c);
                    assert(old(self).clients@.remove(token).insert(token, c)
                        =~= old(self).clients@.insert(token, c));
                    if sent {
                        self.sys_pub_sent = bump(self.sys_pub_sent, 1);
                        Delivery::Sent
                    } else {
                        assert(map_views(self.clients@) =~= map_views(old(self).clients@));
                        self.drops = bump(self.drops, 1);
                        Delivery::Dropped
                    }
                } else {
                    match c.alloc_pid() {
                        None => {
                            self.note_departure(token, c);
                            Delivery::Gone
                        },
                        Some(pid) => {
                            let pkt: Vec<u8> = build_forward(
                                topic.as_bytes(),
                                payload,
                                fwd_qos,
                                Some(pid),
                                false,
                                retain,
                            );
                            let keep: Vec<u8> = copy_bytes(pkt.as_slice());
                            match c.queue_qos1(pkt) {
                                Err(()) => {
                                    proof {
                                        lemma_queued_make_room(before.write_queue);
                                    }
                                    self.note_departure(token, c);
                                    Delivery::Gone
                                },
                                Ok(()) => {
                                    self.sys_pub_sent = bump(self.sys_pub_sent, 1);
                                    c.in_flight.insert(
                                        pid,
                                        InFlight {
                                            pkt: keep,
                                            sent_at: now,
                                            retries: 0,
                                            qos2: fwd_qos == 2,
                                            await_pubcomp: false,
                                        },
                                    );
                                    assert(model::accept(
                                        before,
                                        topic@,
                                        payload@,
                                        fwd_qos,
                                        retain,
                                        now,
                                    ) == model::Accept::Queued(c@));
                                    self.clients.insert(token, c);
                                    assert(old(self).clients@.remove(token).insert(token, c)
                                        =~= old(self).clients@.insert(token, c));
                                    Delivery::Sent
                                },
                            }
                        },
                    }
                }
            },
        }
    }

    fn retained_index(&self, topic: &String) -> (r: usize)
        ensures
            r == model::retained_at(self@.retained, topic@),
            r <= self@.retained.len(),
    {
        let mut i: usize = 0;
        assert(self@.retained.skip(0) =~= self@.retained);
        while i < self.retained.len()
            invariant
                i <= self.retained@.len(),
                model::retained_at(self@.retained, topic@) == i + model::retained_at(
                    self@.retained.skip(i as int),
                    topic@,
                ),
            decreases self.retained@.len() - i,
        {
            assert(self@.retained.skip(i as int)[0].0 == self.retained@[i as int].0@);
            if self.retained[i].0 == *topic {
                return i;
            }
            assert(self@.retained.skip(i as int).skip(1) =~= self@.retained.skip(i + 1));
            i += 1;
        }
        i
    }

    fn store_retained(&mut self, topic: &str, payload: &[u8], qos: u8)
        ensures
            final(self)@ == (BrokerModel {
                retained: model::retain_message(old(self)@.retained, topic@, payload@, qos),
                ..old(self)@
            }),
    {
        let name: String = topic.to_owned();
        let i: usize = self.retained_index(&name);
        if payload.len() == 0 {
            if i < self.retained.len() {
                self.retained.remove(i);
            }
        } else {
            let entry: (String, Vec<u8>, u8) = (name, copy_bytes(payload), qos);
            assert(entry@ == (topic@, payload@, qos));
            if i < self.retained.len() {
                self.retained[i] = entry;
            } else {
                self.retained.push(entry);
            }
        }
        assert(self@.retained =~= model::retain_message(
            old(self)@.retained,
            topic@,
            payload@,
            qos,
        ));
    }

    /// Publishes a message: stores it if it is to be retained (an empty
    /// payload clears what is stored), forwards it to every matching
    /// subscription at the lower of the two QoS, and keeps QoS 1 and 2
    /// messages for the absent clients they match. Returns the numbers of
    /// deliveries and of messages dropped.
    pub fn publish(
        &mut self,
        topic: &str,
        payload: &[u8],
        src_qos: u8,
        retain: bool,
        now: u64,
    ) -> (r: (usize, usize))
        ensures
            (final(self)@, r.0 as nat, r.1 as nat) == model::publish(
                old(self)@,
                topic@,
                payload@,
                src_qos,
                retain,
                now,
            ),
    {
        if retain {
            self.store_retained(topic, payload, src_qos);
        }
        let ghost m1 = self@;
        let ghost whole = model::fan_out(m1, 0, topic@, payload@, src_qos, now);
        assert(self.subs.len() == m1.subs.len());
        let mut delivered: usize = 0;
        let mut dropped: usize = 0;
        let mut dead: usize = 0;
        let mut i: usize = 0;
        while i < self.subs.len()
            invariant
                i <= self.subs@.len(),
                delivered + dropped <= i,
                dead + self.subs@.len() <= m1.subs.len(),
                m1.subs.len() <= usize::MAX,
                ({
                    let rest = model::fan_out(self@, i as int, topic@, payload@, src_qos, now);
                    &&& whole.0 == rest.0
                    &&& whole.1 == delivered + rest.1
                    &&& whole.2 == dropped + rest.2
                    &&& whole.3 == dead + rest.3
                }),
            decreases self.subs@.len() - i,
        {
            assert(self@.subs[i as int] == self.subs@[i as int]@);
            if !topic_matches(self.subs[i].filter.as_str(), topic) {
                i += 1;
            } else {
                let token: usize = self.subs[i].token;
                let fwd_qos: u8 = lower_qos(src_qos, self.subs[i].qos);
                match self.deliver_to(token, topic, payload, fwd_qos, false, now) {
                    Delivery::Sent => {
                        delivered += 1;
                        i += 1;
                    },
                    Delivery::Dropped => {
                        dropped += 1;
                        i += 1;
                    },
                    Delivery::Gone => {
                        let ghost before = self@;
                        self.subs.swap_remove(i);
                        assert(self@ =~= (BrokerModel {
                            subs: model::swap_out(before.subs, i as int),
                            ..before
                        }));
                        dead += 1;
                    },
                }
            }
        }
        self.dead_pruned = bump(self.dead_pruned, dead as u64);
        if src_qos > 0 {
            self.queue_offline(topic, payload, src_qos);
            self.queue_leaving(topic, payload, src_qos);
        }
        (delivered, dropped)
    }

    fn queue_leaving(&mut self, topic: &str, payload: &[u8], qos: u8)
        ensures
            final(self)@ == (BrokerModel {
                leaving: model::offline_leaving(old(self)@.leaving, topic@, payload@, qos),
                ..old(self)@
            }),
    {
        let ghost before = self@.leaving;
        let ghost after = model::offline_leaving(before, topic@, payload@, qos);
        let mut i: usize = 0;
        while i < self.leaving.len()
            invariant
                i <= self.leaving@.len(),
                self@ == (BrokerModel { leaving: self@.leaving, ..old(self)@ }),
                before.len() == self.leaving@.len(),
                after == model::offline_leaving(before, topic@, payload@, qos),
                forall|j: int| 0 <= j < i ==> #[trigger] self@.leaving[j] == after[j],
                forall|j: int| i <= j < before.len() ==> #[trigger] self@.leaving[j] == before[j],
            decreases self.leaving@.len() - i,
        {
            let ghost was = self@;
            let ghost entry = self.leaving@[i as int];
            assert(self@.leaving[i as int] == entry@);
            if self.leaving[i].keep {
                let session = &mut self.leaving[i].session;
                session.queue_offline(topic, payload, qos);
            }
            assert(self.leaving@[i as int]@ == after[i as int]);
            assert(self@.leaving =~= was.leaving.update(i as int, after[i as int]));
            i += 1;
        }
        assert(self@.leaving =~= after);
    }

    /// The wills of departed `token` are no longer to be published.
    fn will_done(&mut self, token: usize)
        ensures
            final(self)@ == (BrokerModel {
                leaving: model::will_done(old(self)@.leaving, token),
                ..old(self)@
            }),
    {
        let ghost before = self@.leaving;
        let ghost after = model::will_done(before, token);
        let mut i: usize = 0;
        while i < self.leaving.len()
            invariant
                i <= self.leaving@.len(),
                self@ == (BrokerModel { leaving: self@.leaving, ..old(self)@ }),
                before.len() == self.leaving@.len(),
                after == model::will_done(before, token),
                forall|j: int| 0 <= j < i ==> #[trigger] self@.leaving[j] == after[j],
                forall|j: int| i <= j < before.len() ==> #[trigger] self@.leaving[j] == before[j],
            decreases self.leaving@.len() - i,
        {
            let ghost was = self@;
            let ghost entry = self.leaving@[i as int];
            assert(self@.leaving[i as int] == entry@);
            if self.leaving[i].token == token {
                self.leaving[i].will_flag = false;
            }
            assert(self.leaving@[i as int]@ == after[i as int]);
            assert(self@.leaving =~= was.leaving.update(i as int, after[i as int]));
            i += 1;
        }
        assert(self@.leaving =~= after);
    }

    /// The session of departed `token` is no longer to be stored.
    fn session_done(&mut self, token: usize)
        ensures
            final(self)@ == (BrokerModel {
                leaving: model::session_done(old(self)@.leaving, token),
                ..old(self)@
            }),
    {
        let ghost before = self@.leaving;
        let ghost after = model::session_done(before, token);
        let mut i: usize = 0;
        while i < self.leaving.len()
            invariant
                i <= self.leaving@.len(),
                self@ == (BrokerModel { leaving: self@.leaving, ..old(self)@ }),
                before.len() == self.leaving@.len(),
                after == model::session_done(before, token),
                forall|j: int| 0 <= j < i ==> #[trigger] self@.leaving[j] == after[j],
                forall|j: int| i <= j < before.len() ==> #[trigger] self@.leaving[j] == before[j],
            decreases self.leaving@.len() - i,
        {
            let ghost was = self@;
            let ghost entry = self.leaving@[i as int];
            assert(self@.leaving[i as int] == entry@);
            if self.leaving[i].token == token {
                self.leaving[i].keep = false;
            }
            assert(self.leaving@[i as int]@ == after[i as int]);
            assert(self@.leaving =~= was.leaving.update(i as int, after[i as int]));
            i += 1;
        }
        assert(self@.leaving =~= after);
    }

    fn queue_offline(&mut self, topic: &str, payload: &[u8], qos: u8)
        ensures
            final(self)@ == (BrokerModel {
                sessions: model::offline_sessions(old(self)@.sessions, topic@, payload@, qos),
                ..old(self)@
            }),
    {
        let ghost before = self@.sessions;
        let ghost after = model::offline_sessions(before, topic@, payload@, qos);
        let mut i: usize = 0;
        while i < self.sessions.len()
            invariant
                i <= self.sessions@.len(),
                self@ == (BrokerModel { sessions: self@.sessions, ..old(self)@ }),
                before.len() == self.sessions@.len(),
                after == model::offline_sessions(before, topic@, payload@, qos),
                forall|j: int| 0 <= j < i ==> #[trigger] self@.sessions[j] == after[j],
                forall|j: int| i <= j < before.len() ==> #[trigger] self@.sessions[j] == before[j],
            decreases self.sessions@.len() - i,
        {
            let ghost was = self@;
            let ghost entry = self.sessions@[i as int];
            assert(self@.sessions[i as int] == entry@);
            let session = &mut self.sessions[i].1;
            session.queue_offline(topic, payload, qos);
            assert(self.sessions@[i as int]@ == after[i as int]);
            assert(self@.sessions =~= was.sessions.update(i as int, after[i as int]));
            i += 1;
        }
        assert(self@.sessions =~= after);
    }

    /// Publishes the last will of a client that has one. The client is still
    /// there, and keeps it.
    pub fn publish_lwt(&mut self, token: usize, now: u64)
        ensures
            final(self)@ == model::publish_will(old(self)@, token, now),
    {
        let will: Option<(String, Vec<u8>, u8, bool)> = match self.clients.get(&token) {
            Some(c) => {
                assert(c@ == self@.clients[token]);
                if c.will_flag {
                    Some(
                        (
                            c.will_topic.clone(),
                            copy_bytes(c.will_message.as_slice()),
                            c.will_qos,
                            c.will_retain,
                        ),
                    )
                } else {
                    None
                }
            },
            None => None,
        };
        if let Some((topic, msg, qos, retain)) = will {
            self.publish(topic.as_str(), msg.as_slice(), qos, retain, now);
        }
    }

    fn session_index(&self, cid: &String) -> (r: usize)
        ensures
            r == model::position(self@.sessions, cid@),
            r <= self@.sessions.len(),
            r < self@.sessions.len() ==> self@.sessions[r as int].0 == cid@,
    {
        let mut i: usize = 0;
        assert(self@.sessions.skip(0) =~= self@.sessions);
        while i < self.sessions.len()
            invariant
                i <= self.sessions@.len(),
                model::position(self@.sessions, cid@) == i + model::position(
                    self@.sessions.skip(i as int),
                    cid@,
                ),
            decreases self.sessions@.len() - i,
        {
            assert(self@.sessions.skip(i as int)[0].0 == self.sessions@[i as int].0@);
            if self.sessions[i].0 == *cid {
                return i;
            }
            assert(self@.sessions.skip(i as int).skip(1) =~= self@.sessions.skip(i + 1));
            i += 1;
        }
        i
    }

    /// Adds a session to what is stored under `cid`.
    fn store_session(&mut self, cid: String, taken: SessionState)
        ensures
            final(self)@ == (BrokerModel {
                sessions: model::with_session(
                    old(self)@.sessions,
                    cid@,
                    model::merged_session(old(self)@.sessions, cid@, taken@),
                ),
                ..old(self)@
            }),
    {
        let ghost merged = model::merged_session(self@.sessions, cid@, taken@);
        let SessionState { subs, offline } = taken;
        let i: usize = self.session_index(&cid);
        if i < self.sessions.len() {
            let ghost entry = self.sessions@[i as int];
            assert(self@.sessions[i as int] == entry@);
            let session = &mut self.sessions[i].1;
            session.merge_subs(subs);
            session.append_offline(offline);
            assert(self.sessions@[i as int]@ == (cid@, merged));
        } else {
            let mut session: SessionState = SessionState {
                subs: Vec::new(),
                offline: VecDeque::new(),
            };
            session.merge_subs(subs);
            session.append_offline(offline);
            self.sessions.push((cid, session));
        }
        assert(self@.sessions =~= model::with_session(old(self)@.sessions, cid@, merged));
    }

    fn save_session(&mut self, token: usize)
        requires
            old(self)@.clients.contains_key(token),
        ensures
            final(self)@ == (BrokerModel {
                sessions: model::with_session(
                    old(self)@.sessions,
                    old(self)@.clients[token].client_id,
                    model::saved_session(old(self)@, token),
                ),
                ..old(self)@
            }),
    {
        let mut cid: String = String::new();
        let mut taken: SessionState = SessionState {
            subs: subs_of(&self.subs, token),
            offline: VecDeque::new(),
        };
        match self.clients.get(&token) {
            Some(c) => {
                assert(c@ == self@.clients[token]);
                cid = c.client_id.clone();
                taken.offline = queued_messages(&c.write_queue);
            },
            None => {},
        }
        assert(taken@ =~= model::taken_along(self@, token));
        self.store_session(cid, taken);
    }

    fn drop_subs_of(&mut self, token: usize)
        ensures
            final(self)@ == (BrokerModel {
                subs: model::other_subs(old(self)@.subs, token),
                ..old(self)@
            }),
    {
        let ghost all = self@.subs;
        let ghost keep = |s: SubModel| s.token != token;
        let mut subs: Vec<Subscription> = Vec::new();
        std::mem::swap(&mut subs, &mut self.subs);
        let ghost given = subs@;
        let mut kept: Vec<Subscription> = Vec::new();
        for s in it: subs
            invariant
                it.seq() == given,
                all == views(given),
                views(kept@) == all.take(it.index() as int).filter(keep),
                keep == (|s: SubModel| s.token != token),
        {
            proof {
                lemma_filter_next(all, it.index() as int, keep);
                assert(all[it.index() as int] == s@);
            }
            if s.token != token {
                kept.push(s);
            }
        }
        assert(all.take(all.len() as int) =~= all);
        self.subs = kept;
    }

    /// Removes a client: publishes its last will unless it sent DISCONNECT,
    /// stores its session unless that is clean, and forgets it together with
    /// its subscriptions.
    pub fn remove_client(&mut self, token: usize, now: u64)
        ensures
            final(self)@ == model::remove(old(self)@, token, now),
    {
        let clean: bool = match self.clients.get(&token) {
            Some(c) => {
                assert(c@ == self@.clients[token]);
                c.clean_disconnect
            },
            None => true,
        };
        if !clean {
            self.publish_lwt(token, now);
            self.will_done(token);
        }
        let ghost m1 = self@;
        let persist: bool = match self.clients.get(&token) {
            Some(c) => {
                assert(c@ == self@.clients[token]);
                !c.clean_session && !c.client_id.as_str().is_empty()
            },
            None => false,
        };
        assert(persist == (m1.clients.contains_key(token) && model::persistent(m1.clients[token])));
        if persist {
            self.save_session(token);
        }
        self.drop_subs_of(token);
        self.clients.remove(&token);
    }

    fn settle_one(&mut self, now: u64)
        requires
            old(self)@.leaving.len() > 0,
        ensures
            final(self)@ == model::settle_one(old(self)@, now),
    {
        let d: Departure = self.leaving.remove(0);
        assert(d@ == old(self)@.leaving[0]);
        assert(self@.leaving =~= old(self)@.leaving.skip(1));
        let ghost before = d@;
        let Departure { token, client_id, keep, session, will_flag, will } = d;
        self.drop_subs_of(token);
        if keep {
            self.store_session(client_id, session);
        }
        if will_flag {
            self.publish(will.0.as_str(), will.1.as_slice(), will.2, will.3, now);
        }
    }

    /// Sees to every client that was removed for being too slow, as when a
    /// client leaves in any other way: its session is stored unless that is
    /// clean, its subscriptions are taken out, and its last will is published.
    /// A will may make further clients leave; they are seen to as well.
    pub fn settle(&mut self, now: u64)
        ensures
            final(self)@ == model::settle(old(self)@, now),
    {
        let ghost whole = model::settle(self@, now);
        let ghost mut n: nat = model::departures(self@);
        while self.leaving.len() > 0
            invariant
                n == model::departures(self@),
                whole == model::settle_some(self@, n, now),
            decreases n,
        {
            let ghost before = self@;
            assert(before.clients.dom() =~= self.clients@.dom());
            self.settle_one(now);
            proof {
                crate::laws::leaving::lemma_settle_one(before, now);
                n = (n - 1) as nat;
            }
        }
    }

    fn reply(&mut self, token: usize, pkt: Vec<u8>)
        requires
            old(self)@.clients.contains_key(token),
        ensures
            final(self)@ == model::reply(old(self)@, token, pkt@),
    {
        if let Some(c) = self.clients.remove(&token) {
            let mut c: Client = c;
            assert(c@ == old(self)@.clients[token]);
            c.queue_qos0(pkt);
            self.clients.insert(token, c);
            assert(self@.clients =~= model::reply(old(self)@, token, pkt@).clients);
        }
    }

    fn restore_subs(&mut self, token: usize, subs: &Vec<(String, u8)>)
        ensures
            final(self)@ == (BrokerModel {
                subs: old(self)@.subs + model::restored(views(subs@), token),
                ..old(self)@
            }),
    {
        let ghost before = self@.subs;
        let ghost all = model::restored(views(subs@), token);
        let mut i: usize = 0;
        assert(before + all.take(0) =~= before);
        while i < subs.len()
            invariant
                i <= subs@.len(),
                all == model::restored(views(subs@), token),
                self@ == (BrokerModel { subs: before + all.take(i as int), ..old(self)@ }),
            decreases subs@.len() - i,
        {
            let ghost was = self@.subs;
            let sub: Subscription = Subscription {
                filter: subs[i].0.clone(),
                token,
                qos: subs[i].1,
            };
            assert(all[i as int] == sub@) by {
                assert(views(subs@)[i as int] == subs@[i as int]@);
            }
            self.subs.push(sub);
            assert(self@.subs =~= before + all.take(i + 1));
            i += 1;
        }
        assert(all.take(i as int) =~= all);
    }

    fn flush_offline(
        &mut self,
        token: usize,
        subs: &Vec<(String, u8)>,
        queued: &Vec<(String, Vec<u8>, u8)>,
        now: u64,
    ) -> (done: bool)
        ensures
            (final(self)@, done) == model::flush_offline(
                old(self)@,
                token,
                views(subs@),
                views(queued@),
                now,
            ),
    {
        let ghost all = views(queued@);
        let ghost held = views(subs@);
        let mut i: usize = 0;
        assert(all.skip(0) =~= all);
        while i < queued.len()
            invariant
                i <= queued@.len(),
                all == views(queued@),
                held == views(subs@),
                model::flush_offline(old(self)@, token, held, all, now) == model::flush_offline(
                    self@,
                    token,
                    held,
                    all.skip(i as int),
                    now,
                ),
            decreases queued@.len() - i,
        {
            assert(all.skip(i as int)[0] == queued@[i as int]@);
            assert(all.skip(i as int).skip(1) =~= all.skip(i + 1));
            let qos: u8 = match first_match(subs, queued[i].0.as_str()) {
                Some(s) => lower_qos(queued[i].2, s),
                None => queued[i].2,
            };
            match self.deliver_to(
                token,
                queued[i].0.as_str(),
                queued[i].1.as_slice(),
                qos,
                false,
                now,
            ) {
                Delivery::Gone => {
                    return false;
                },
                _ => {},
            }
            i += 1;
        }
        true
    }

    /// CONNECT with the given client id, keepalive, will flag, will QoS, will
    /// retain, will topic, will message and clean-session flag.
    pub fn on_connect(
        &mut self,
        token: usize,
        fields: (String, u16, bool, u8, bool, String, Vec<u8>, bool),
        now: u64,
    ) -> (r: Result<(), PacketError>)
        requires
            now <= LATEST,
        ensures
            (final(self)@, r) == model::on_connect(old(self)@, token, fields@, now),
    {
        let (
            cid,
            keepalive,
            will_flag,
            will_qos,
            will_retain,
            will_topic,
            will_message,
            clean_session,
        ) = fields;
        let ghost f = fields@;
        match self.clients.remove(&token) {
            None => {
                assert(self.clients@ =~= old(self).clients@);
                return Err(PacketError::ClientGone);
            },
            Some(c) => {
                let mut c: Client = c;
                assert(c@ == old(self)@.clients[token]);
                c.client_id = cid.clone();
                c.clean_session = clean_session;
                c.keepalive = keepalive;
                c.keepalive_deadline = deadline(keepalive, now);
                c.will_flag = will_flag;
                c.will_qos = will_qos;
                c.will_retain = will_retain;
                c.will_topic = will_topic;
                c.will_message = will_message;
                c.queue_qos0(build_connack());
                assert(c@ =~= model::connected_client(old(self)@.clients[token], f, now));
                self.clients.insert(token, c);
                assert(old(self).clients@.remove(token).insert(token, c)
                    =~= old(self).clients@.insert(token, c));
            },
        }
        let i: usize = self.session_index(&cid);
        if i < self.sessions.len() {
            if !clean_session {
                let mut subs: Vec<(String, u8)> = Vec::new();
                let mut queued: Vec<(String, Vec<u8>, u8)> = Vec::new();
                {
                    let stored = &self.sessions[i].1;
                    assert(self@.sessions[i as int].1 == stored@);
                    subs = copy_subs(&stored.subs);
                    queued = copy_messages(&stored.offline);
                }
                self.restore_subs(token, &subs);
                let ghost m1 = self@;
                let done: bool = self.flush_offline(token, &subs, &queued, now);
                proof {
                    lemma_flush_keeps_sessions(m1, token, views(subs@), views(queued@), now);
                }
                if !done {
                    self.session_done(token);
                    return Err(PacketError::DroppedInFlush);
                }
            }
            assert(self@.sessions == old(self)@.sessions);
            self.sessions.remove(i);
        }
        self.sys_clients_total = bump(self.sys_clients_total, 1);
        Ok(())
    }

    fn deliver_retained(&mut self, token: usize, filter: &str, qos: u8, now: u64) -> (done: bool)
        ensures
            (final(self)@, done) == model::deliver_retained(
                old(self)@,
                token,
                filter@,
                qos,
                old(self)@.retained,
                now,
            ),
            final(self)@.retained == old(self)@.retained,
    {
        let ghost all = self@.retained;
        let mut i: usize = 0;
        assert(all.skip(0) =~= all);
        while i < self.retained.len()
            invariant
                i <= self.retained@.len(),
                all == self@.retained,
                all == old(self)@.retained,
                model::deliver_retained(old(self)@, token, filter@, qos, all, now)
                    == model::deliver_retained(
                    self@,
                    token,
                    filter@,
                    qos,
                    all.skip(i as int),
                    now,
                ),
            decreases all.len() - i,
        {
            assert(all.skip(i as int)[0] == self.retained@[i as int]@);
            assert(all.skip(i as int).skip(1) =~= all.skip(i + 1));
            if topic_matches(filter, self.retained[i].0.as_str()) {
                let topic: String = self.retained[i].0.clone();
                let payload: Vec<u8> = copy_bytes(self.retained[i].1.as_slice());
                let fwd_qos: u8 = lower_qos(self.retained[i].2, qos);
                match self.deliver_to(
                    token,
                    topic.as_str(),
                    payload.as_slice(),
                    fwd_qos,
                    true,
                    now,
                ) {
                    Delivery::Gone => {
                        return false;
                    },
                    _ => {},
                }
            }
            i += 1;
        }
        true
    }

    /// SUBSCRIBE with the given packet id and (filter, QoS) pairs.
    pub fn on_subscribe(
        &mut self,
        token: usize,
        pid: u16,
        topics: &Vec<(String, u8)>,
        now: u64,
    ) -> (r: Result<(), PacketError>)
        ensures
            (final(self)@, r) == model::on_subscribe(old(self)@, token, pid, views(topics@), now),
    {
        let ghost all = views(topics@);
        let mut granted: Vec<u8> = Vec::new();
        let mut i: usize = 0;
        assert(all.skip(0) =~= all);
        while i < topics.len()
            invariant
                i <= topics@.len(),
                all == views(topics@),
                granted@ == model::grants(all).take(i as int),
                model::subscribe_all(old(self)@, token, all, now) == model::subscribe_all(
                    self@,
                    token,
                    all.skip(i as int),
                    now,
                ),
            decreases topics@.len() - i,
        {
            assert(all.skip(i as int)[0] == topics@[i as int]@);
            assert(all.skip(i as int).skip(1) =~= all.skip(i + 1));
            proof {
                lemma_take_next(model::grants(all), i as int);
            }
            let qos: u8 = topics[i].1;
            let ghost before = self@;
            self.subs.push(Subscription { filter: topics[i].0.clone(), token, qos });
            assert(self@ =~= (BrokerModel {
                subs: before.subs.push(SubModel { filter: all[i as int].0, token, qos }),
                ..before
            }));
            granted.push(qos);
            if !self.deliver_retained(token, topics[i].0.as_str(), qos, now) {
                return Err(PacketError::DroppedInRetained);
            }
            i += 1;
        }
        assert(model::grants(all).take(i as int) =~= model::grants(all));
        if !self.clients.contains_key(&token) {
            return Err(PacketError::ClientGone);
        }
        self.reply(token, build_suback(pid, granted.as_slice()));
        Ok(())
    }

    fn drop_filters(&mut self, token: usize, filters: &Vec<String>)
        ensures
            final(self)@ == (BrokerModel {
                subs: model::subs_without(old(self)@.subs, token, views(filters@)),
                ..old(self)@
            }),
    {
        let ghost all = self@.subs;
        let ghost given_up = views(filters@);
        let ghost keep = |s: SubModel| !(s.token == token && given_up.contains(s.filter));
        let mut subs: Vec<Subscription> = Vec::new();
        std::mem::swap(&mut subs, &mut self.subs);
        let ghost given = subs@;
        let mut kept: Vec<Subscription> = Vec::new();
        for s in it: subs
            invariant
                it.seq() == given,
                all == views(given),
                given_up == views(filters@),
                views(kept@) == all.take(it.index() as int).filter(keep),
                keep == (|s: SubModel| !(s.token == token && given_up.contains(s.filter))),
        {
            proof {
                lemma_filter_next(all, it.index() as int, keep);
                assert(all[it.index() as int] == s@);
            }
            if s.token != token || !holds_string(filters, &s.filter) {
                kept.push(s);
            }
        }
        assert(all.take(all.len() as int) =~= all);
        self.subs = kept;
    }

    /// UNSUBSCRIBE with the given packet id and filters.
    pub fn on_unsubscribe(&mut self, token: usize, pid: u16, filters: &Vec<String>) -> (r: Result<
        (),
        PacketError,
    >)
        ensures
            (final(self)@, r) == model::on_unsubscribe(old(self)@, token, pid, views(filters@)),
    {
        self.drop_filters(token, filters);
        if !self.clients.contains_key(&token) {
            return Err(PacketError::ClientGone);
        }
        self.reply(token, build_unsuback(pid));
        Ok(())
    }

    fn publish_received(
        &mut self,
        topic: &str,
        payload: &[u8],
        qos: u8,
        retain: bool,
        now: u64,
    )
        ensures
            final(self)@ == model::publish_received(
                old(self)@,
                topic@,
                payload@,
                qos,
                retain,
                now,
            ),
    {
        self.publish(topic, payload, qos, retain, now);
        self.sys_pub_received = bump(self.sys_pub_received, 1);
        self.dead_pruned = 0;
    }

    /// PUBLISH with the given topic, QoS, packet id, payload and retain flag.
    pub fn on_publish(
        &mut self,
        token: usize,
        topic: &str,
        qos: u8,
        pid: Option<u16>,
        payload: &[u8],
        retain: bool,
        now: u64,
    ) -> (r: Result<(), PacketError>)
        ensures
            (final(self)@, r) == model::on_publish(
                old(self)@,
                token,
                (topic@, qos, pid, payload@, retain),
                now,
            ),
    {
        if let Some(p) = pid {
            if qos == 1 {
                if !self.clients.contains_key(&token) {
                    return Err(PacketError::ClientGone);
                }
                self.reply(token, build_puback(p));
            } else if qos == 2 {
                match self.clients.remove(&token) {
                    None => {
                        assert(self.clients@ =~= old(self).clients@);
                        return Err(PacketError::ClientGone);
                    },
                    Some(c) => {
                        let mut c: Client = c;
                        assert(c@ == old(self)@.clients[token]);
                        let fresh: bool = c.received_qos2.insert(p);
                        c.queue_qos0(build_pubrec(p));
                        self.clients.insert(token, c);
                        assert(old(self).clients@.remove(token).insert(token, c)
                            =~= old(self).clients@.insert(token, c));
                        if !fresh {
                            return Ok(());
                        }
                    },
                }
            }
        }
        self.publish_received(topic, payload, qos, retain, now);
        Ok(())
    }

    /// PUBACK or PUBCOMP for packet id `pid`.
    pub fn on_ack(&mut self, token: usize, pid: u16) -> (r: Result<(), PacketError>)
        ensures
            (final(self)@, r) == model::on_ack(old(self)@, token, pid),
    {
        match self.clients.remove(&token) {
            None => {
                assert(self.clients@ =~= old(self).clients@);
                Err(PacketError::ClientGone)
            },
            Some(c) => {
                let mut c: Client = c;
                assert(c@ == old(self)@.clients[token]);
                c.in_flight.remove(&pid);
                self.clients.insert(token, c);
                assert(old(self).clients@.remove(token).insert(token, c)
                    =~= old(self).clients@.insert(token, c));
                Ok(())
            },
        }
    }

    /// PUBREC for packet id `pid`.
    pub fn on_pubrec(&mut self, token: usize, pid: u16, now: u64) -> (r: Result<(), PacketError>)
        ensures
            (final(self)@, r) == model::on_pubrec(old(self)@, token, pid, now),
    {
        match self.clients.remove(&token) {
            None => {
                assert(self.clients@ =~= old(self).clients@);
                Err(PacketError::ClientGone)
            },
            Some(c) => {
                let mut c: Client = c;
                let ghost before = c@;
                assert(before == old(self)@.clients[token]);
                if let Some(entry) = c.in_flight.remove(&pid) {
                    let mut entry: InFlight = entry;
                    assert(entry@ == before.in_flight[pid]);
                    let release: bool = entry.qos2 && !entry.await_pubcomp;
                    if release {
                        entry.await_pubcomp = true;
                        entry.sent_at = now;
                        entry.retries = 0;
                    }
                    c.in_flight.insert(pid, entry);
                    assert(c@.in_flight =~= before.in_flight.insert(pid, entry@));
                    if release {
                        c.queue_qos0(build_pubrel(pid));
                    } else {
                        assert(c@.in_flight =~= before.in_flight);
                    }
                } else {
                    assert(c@.in_flight =~= before.in_flight);
                }
                self.clients.insert(token, c);
                assert(self@.clients =~= model::on_pubrec(old(self)@, token, pid, now).0.clients);
                Ok(())
            },
        }
    }

    /// PUBREL for packet id `pid`.
    pub fn on_pubrel(&mut self, token: usize, pid: u16) -> (r: Result<(), PacketError>)
        ensures
            (final(self)@, r) == model::on_pubrel(old(self)@, token, pid),
    {
        match self.clients.remove(&token) {
            None => {
                assert(self.clients@ =~= old(self).clients@);
                Err(PacketError::ClientGone)
            },
            Some(c) => {
                let mut c: Client = c;
                let ghost before = c@;
                assert(before == old(self)@.clients[token]);
                c.received_qos2.remove(&pid);
                assert(c@ =~= (ClientModel {
                    received_qos2: before.received_qos2.remove(pid),
                    ..before
                }));
                c.queue_qos0(build_pubcomp(pid));
                self.clients.insert(token, c);
                assert(old(self).clients@.remove(token).insert(token, c)
                    =~= old(self).clients@.insert(token, c));
                Ok(())
            },
        }
    }

    /// PINGREQ.
    pub fn on_pingreq(&mut self, token: usize) -> (r: Result<(), PacketError>)
        ensures
            (final(self)@, r) == model::on_pingreq(old(self)@, token),
    {
        if !self.clients.contains_key(&token) {
            return Err(PacketError::ClientGone);
        }
        self.reply(token, build_pingresp());
        Ok(())
    }

    /// DISCONNECT.
    pub fn on_disconnect(&mut self, token: usize) -> (r: Result<(), PacketError>)
        ensures
            (final(self)@, r) == model::on_disconnect(old(self)@, token),
    {
        match self.clients.remove(&token) {
            None => {
                assert(self.clients@ =~= old(self).clients@);
                Err(PacketError::ClientGone)
            },
            Some(c) => {
                let mut c: Client = c;
                assert(c@ == old(self)@.clients[token]);
                c.clean_disconnect = true;
                self.clients.insert(token, c);
                assert(old(self).clients@.remove(token).insert(token, c)
                    =~= old(self).clients@.insert(token, c));
                Err(PacketError::Disconnect)
            },
        }
    }

    /// Notes that client `token` was heard of: its keepalive starts anew.
    pub fn heard(&mut self, token: usize, now: u64)
        requires
            now <= LATEST,
        ensures
            final(self)@ == model::heard(old(self)@, token, now),
    {
        match self.clients.remove(&token) {
            None => {
                assert(self.clients@ =~= old(self).clients@);
            },
            Some(c) => {
                let mut c: Client = c;
                assert(c@ == old(self)@.clients[token]);
                c.keepalive_deadline = deadline(c.keepalive, now);
                self.clients.insert(token, c);
                assert(old(self).clients@.remove(token).insert(token, c)
                    =~= old(self).clients@.insert(token, c));
            },
        }
    }

    /// Handles one packet of client `token`, which is thereby heard of. `Err`
    /// means that the connection is to be closed.
    pub fn handle_packet(
        &mut self,
        token: usize,
        ptype: u8,
        flags: u8,
        body: &[u8],
        now: u64,
    ) -> (r: Result<(), PacketError>)
        requires
            now <= LATEST,
        ensures
            (final(self)@, r) == model::on_packet(old(self)@, token, (ptype, flags, body@), now),
    {
        self.heard(token, now);
        self.handle_content(token, ptype, flags, body, now)
    }

    /// Does what a packet of client `token` asks for.
    fn handle_content(
        &mut self,
        token: usize,
        ptype: u8,
        flags: u8,
        body: &[u8],
        now: u64,
    ) -> (r: Result<(), PacketError>)
        requires
            now <= LATEST,
        ensures
            (final(self)@, r) == model::on_content(old(self)@, token, (ptype, flags, body@), now),
    {
        if ptype == CONNECT {
            match parse_connect(body) {
                Some(fields) => self.on_connect(token, fields, now),
                None => Err(PacketError::BadConnect),
            }
        } else if ptype == SUBSCRIBE {
            match parse_subscribe(body) {
                Some((pid, topics)) => self.on_subscribe(token, pid, &topics, now),
                None => Err(PacketError::BadSubscribe),
            }
        } else if ptype == UNSUBSCRIBE {
            match parse_unsubscribe(body) {
                Some((pid, filters)) => self.on_unsubscribe(token, pid, &filters),
                None => Err(PacketError::BadUnsubscribe),
            }
        } else if ptype == PUBLISH {
            match parse_publish(flags, body) {
                Some((topic, qos, pid, payload, retain)) => self.on_publish(
                    token,
                    topic.as_str(),
                    qos,
                    pid,
                    payload.as_slice(),
                    retain,
                    now,
                ),
                None => Err(PacketError::BadPublish),
            }
        } else if ptype == PUBACK {
            if body.len() < 2 {
                return Err(PacketError::BadPuback);
            }
            self.on_ack(token, join_be16(body[0], body[1]))
        } else if ptype == PUBREC {
            if body.len() < 2 {
                return Err(PacketError::BadPubrec);
            }
            self.on_pubrec(token, join_be16(body[0], body[1]), now)
        } else if ptype == PUBREL {
            if body.len() < 2 {
                return Err(PacketError::BadPubrel);
            }
            self.on_pubrel(token, join_be16(body[0], body[1]))
        } else if ptype == PUBCOMP {
            if body.len() < 2 {
                return Err(PacketError::BadPubcomp);
            }
            self.on_ack(token, join_be16(body[0], body[1]))
        } else if ptype == PINGREQ {
            self.on_pingreq(token)
        } else if ptype == DISCONNECT {
            self.on_disconnect(token)
        } else {
            Err(PacketError::Unknown(ptype))
        }
    }

    /// Takes all whole packets out of the read buffer of client `token` and
    /// handles them, up to the first that asks for the connection to be closed.
    pub fn handle_packets(&mut self, token: usize, now: u64) -> (r: Result<(), PacketError>)
        requires
            old(self)@.clients.contains_key(token),
            now <= LATEST,
        ensures
            (final(self)@, r) == model::on_buffer(old(self)@, token, now),
    {
        let mut pkts: Vec<(u8, u8, Vec<u8>)> = Vec::new();
        if let Some(c) = self.clients.remove(&token) {
            let mut c: Client = c;
            let ghost before = c@;
            assert(before == old(self)@.clients[token]);
            match split_packets(c.read_buf.as_slice()) {
                Err(e) => {
                    self.clients.insert(token, c);
                    assert(self.clients@ =~= old(self).clients@);
                    return Err(
                        match e {
                            FrameError::TooLarge(rem) => PacketError::TooLarge(rem),
                            FrameError::BadLength => PacketError::BadLength,
                        },
                    );
                },
                Ok((list, used)) => {
                    c.read_buf = copy_range(c.read_buf.as_slice(), used, c.read_buf.len());
                    assert(c@ =~= (ClientModel {
                        read_buf: before.read_buf.skip(used as int),
                        ..before
                    }));
                    self.clients.insert(token, c);
                    assert(old(self).clients@.remove(token).insert(token, c)
                        =~= old(self).clients@.insert(token, c));
                    pkts = list;
                },
            }
        }
        let ghost all = views(pkts@);
        let ghost start = self@;
        let mut i: usize = 0;
        assert(all.skip(0) =~= all);
        while i < pkts.len()
            invariant
                now <= LATEST,
                i <= pkts@.len(),
                all == views(pkts@),
                model::on_buffer(old(self)@, token, now) == (match model::on_packets(
                    start,
                    token,
                    all,
                    now,
                ) {
                    (m2, Ok(())) => (
                        BrokerModel {
                            sys_msgs_received: model::count(m2.sys_msgs_received, all.len()),
                            ..m2
                        },
                        Ok::<(), PacketError>(()),
                    ),
                    (m2, Err(e)) => (m2, Err(e)),
                }),
                model::on_packets(start, token, all, now) == model::on_packets(
                    self@,
                    token,
                    all.skip(i as int),
                    now,
                ),
            decreases pkts@.len() - i,
        {
            assert(all.skip(i as int)[0] == pkts@[i as int]@);
            assert(all.skip(i as int).skip(1) =~= all.skip(i + 1));
            match self.handle_packet(token, pkts[i].0, pkts[i].1, pkts[i].2.as_slice(), now) {
                Ok(()) => {},
                Err(e) => {
                    return Err(e);
                },
            }
            i += 1;
        }
        self.sys_msgs_received = bump(self.sys_msgs_received, pkts.len() as u64);
        Ok(())
    }

    /// What a read from the connection of client `token` gave. `Err` means
    /// that the connection is to be closed: it ended, it failed, the client
    /// sent more than it may have unparsed, or one of its packets asks for it.
    pub fn drain_client(&mut self, token: usize, read: ReadOutcome, now: u64) -> (r: Result<
        (),
        (),
    >)
        requires
            old(self)@.clients.contains_key(token),
            now <= LATEST,
        ensures
            match read {
                ReadOutcome::Data(data) => {
                    (final(self)@, r is Ok) == model::on_bytes(old(self)@, token, data@, now)
                },
                ReadOutcome::WouldBlock => final(self)@ == old(self)@ && r is Ok,
                _ => final(self)@ == old(self)@ && r is Err,
            },
    {
        match read {
            ReadOutcome::Eof => Err(()),
            ReadOutcome::Failed => Err(()),
            ReadOutcome::WouldBlock => Ok(()),
            ReadOutcome::Data(data) => {
                let mut total: usize = 0;
                if let Some(c) = self.clients.remove(&token) {
                    let mut c: Client = c;
                    assert(c@ == old(self)@.clients[token]);
                    append_bytes(&mut c.read_buf, data.as_slice());
                    total = c.read_buf.len();
                    self.clients.insert(token, c);
                    assert(old(self).clients@.remove(token).insert(token, c)
                        =~= old(self).clients@.insert(token, c));
                }
                if total > READ_CAP {
                    return Err(());
                }
                match self.handle_packets(token, now) {
                    Ok(()) => Ok(()),
                    Err(_) => Err(()),
                }
            },
        }
    }

    /// Takes in what a read from the connection of client `token` gave, and
    /// removes the client if the connection is to be closed: `false` if so.
    pub fn serve_read(&mut self, token: usize, read: ReadOutcome, now: u64) -> (open: bool)
        requires
            old(self)@.clients.contains_key(token),
            now <= LATEST,
        ensures
            (final(self)@, open) == model::on_read(old(self)@, token, read, now),
    {
        let open: bool = match self.drain_client(token, read, now) {
            Ok(()) => true,
            Err(()) => {
                self.remove_client(token, now);
                false
            },
        };
        self.settle(now);
        open
    }
}

} // verus!
