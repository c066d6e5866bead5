//! Clients talking to each other through the broker.
use mqtt_broker::broker::Broker;
use mqtt_broker::frame::split_packets;
use mqtt_broker::model::{
    Delivery, FlushAction, PacketError, ReadOutcome, WriteOutcome, IN_FLIGHT_CAP, OFFLINE_CAP,
    SECOND, WRITE_QUEUE_CAP,
};
use mqtt_broker::packet::build_forward;
use mqtt_broker::requests::{
    ack_pkt, enc, parse_fwd, parse_pub, pkt, pkt_connect, pkt_connect_session, pkt_connect_will,
    pkt_disconnect, pkt_ping, pkt_pingreq, pkt_puback, pkt_publish, pkt_publish_qos0,
    pkt_publish_qos1, pkt_publish_with_id, pkt_subscribe, pkt_unsubscribe, ptype, pub_pkt,
};

const MS: u64 = 1_000_000;

struct Net {
    broker: Broker,
    now: u64,
}

impl Net {
    fn new() -> Net {
        Net { broker: Broker::new(0), now: 0 }
    }

    /// A connection on which nothing has been sent.
    fn open(&mut self) -> usize {
        self.broker.add_client()
    }

    fn send(&mut self, token: usize, bytes: &[u8]) -> bool {
        self.broker.serve_read(token, ReadOutcome::Data(bytes.to_vec()), self.now)
    }

    fn drop_client(&mut self, token: usize) {
        assert!(!self.broker.serve_read(token, ReadOutcome::Eof, self.now));
    }

    /// Everything the broker has for a client: first bytes and bodies.
    fn recv(&mut self, token: usize) -> Vec<(u8, Vec<u8>)> {
        let mut bytes = Vec::new();
        let mut last = WriteOutcome::Start;
        loop {
            match self.broker.flush_writes(token, last, self.now) {
                FlushAction::Write => {
                    let chunk = self.broker.unwritten(token).to_vec();
                    bytes.extend_from_slice(&chunk);
                    last = WriteOutcome::Wrote(chunk.len());
                }
                FlushAction::Wait { writable } => {
                    assert!(!writable);
                    break;
                }
                FlushAction::Closed => panic!("closed"),
            }
        }
        let (list, used) = split_packets(&bytes).unwrap();
        assert_eq!(used, bytes.len());
        list.into_iter().map(|(t, flags, body)| ((t << 4) | flags, body)).collect()
    }

    fn connect_with(&mut self, packet: &[u8]) -> usize {
        let token = self.open();
        assert!(self.send(token, packet));
        assert_eq!(self.recv(token), vec![(0x20, vec![0, 0])]);
        token
    }

    fn connect(&mut self, cid: &str) -> usize {
        self.connect_with(&pkt_connect(cid))
    }

    fn subscribe(&mut self, token: usize, pid: u16, filter: &str, qos: u8) {
        assert!(self.send(token, &pkt_subscribe(pid, filter, qos)));
        let got = self.recv(token);
        assert_eq!(got, vec![(0x90, vec![(pid >> 8) as u8, pid as u8, qos])]);
    }

    /// The publishes a client receives: first byte, topic, id, payload.
    fn publishes(&mut self, token: usize) -> Vec<(u8, String, Option<u16>, Vec<u8>)> {
        let mut out = Vec::new();
        for (b0, body) in self.recv(token) {
            assert_eq!(ptype(b0), 3);
            let (topic, pid, payload) = parse_pub(&body, (b0 >> 1) & 3);
            out.push((b0, topic, pid, payload));
        }
        out
    }

    fn pass(&mut self, ms: u64, retry_ms: u64) {
        self.now += ms * MS;
        self.broker.tick("0.1.0", self.now, retry_ms);
    }
}

// ---- the protocol ----

#[test]
fn three_clients_connect() {
    let mut net = Net::new();
    let a = net.connect("client-A");
    let b = net.connect("client-B");
    let c = net.connect("client-C");
    assert_eq!((a, b, c), (1, 2, 3));
    assert_eq!(net.broker.sys_clients_total, 3);
    assert_eq!(net.broker.clients[&b].client_id, "client-B");
}

#[test]
fn fan_out_and_isolation() {
    let mut net = Net::new();
    let a = net.connect("client-A");
    let b = net.connect("client-B");
    let c = net.connect("client-C");
    net.subscribe(a, 1, "test/#", 1);
    net.subscribe(b, 1, "test/+/foo", 1);

    assert!(net.send(c, &pkt_publish("test/hello/foo", b"msg1", 0)));
    let want = vec![(0x30, "test/hello/foo".to_string(), None, b"msg1".to_vec())];
    assert_eq!(net.publishes(a), want);
    assert_eq!(net.publishes(b), want);

    assert!(net.send(c, &pkt_publish("test/other", b"msg2", 0)));
    assert_eq!(
        net.publishes(a),
        vec![(0x30, "test/other".to_string(), None, b"msg2".to_vec())]
    );
    assert!(net.recv(b).is_empty());
}

#[test]
fn qos1_publish_is_acknowledged() {
    let mut net = Net::new();
    let a = net.connect("client-A");
    let c = net.connect("client-C");
    net.subscribe(a, 1, "test/#", 1);
    assert!(net.send(c, &pkt_publish("test/hello/foo", b"qos1msg", 1)));
    assert_eq!(net.recv(c), vec![(0x40, vec![0, 1])]);
    assert_eq!(
        net.publishes(a),
        vec![(0x32, "test/hello/foo".to_string(), Some(1), b"qos1msg".to_vec())]
    );
}

#[test]
fn ping_is_answered() {
    let mut net = Net::new();
    let a = net.connect("ping-client");
    assert!(net.send(a, &pkt_ping()));
    assert_eq!(net.recv(a), vec![(0xd0, vec![])]);
    assert!(net.send(a, &pkt_pingreq()));
    assert_eq!(net.recv(a), vec![(0xd0, vec![])]);
}

#[test]
fn unsubscribed_client_is_silent() {
    let mut net = Net::new();
    let a = net.connect("client-A");
    let c = net.connect("client-C");
    net.subscribe(a, 1, "test/#", 1);
    assert!(net.send(a, &pkt_unsubscribe(9, "test/#")));
    assert_eq!(net.recv(a), vec![(0xb0, vec![0, 9])]);
    assert!(net.send(c, &pkt_publish("test/any", b"msg3", 0)));
    assert!(net.recv(a).is_empty());
}

#[test]
fn disconnect_removes_client_and_subscriptions() {
    let mut net = Net::new();
    let a = net.connect("client-A");
    let b = net.connect("client-B");
    net.subscribe(a, 1, "x", 0);
    net.subscribe(b, 1, "x", 0);
    assert!(!net.send(a, &pkt_disconnect()));
    assert!(!net.broker.has_client(a));
    assert!(net.broker.has_client(b));
    assert_eq!(net.broker.subs.len(), 1);
    assert_eq!(net.broker.subs[0].token, b);
}

#[test]
fn ten_messages_arrive() {
    let mut net = Net::new();
    let s = net.connect("only-sub");
    let p = net.connect("only-pub");
    net.subscribe(s, 1, "bench/#", 0);
    for i in 0..10 {
        let payload = format!("m{i}");
        assert!(net.send(p, &pkt_publish("bench/x", payload.as_bytes(), 0)));
        assert_eq!(
            net.publishes(s),
            vec![(0x30, "bench/x".to_string(), None, payload.into_bytes())]
        );
    }
}

#[test]
fn packets_arrive_in_pieces() {
    let mut net = Net::new();
    let t = net.open();
    let mut stream = pkt_connect("slow");
    stream.extend_from_slice(&pkt_subscribe(3, "a/b", 1));
    for b in &stream {
        assert!(net.send(t, &[*b]));
    }
    assert_eq!(net.recv(t), vec![(0x20, vec![0, 0]), (0x90, vec![0, 3, 1])]);
    assert_eq!(net.broker.sys_msgs_received, 2);
}

// ---- QoS 1 ----

/// What is left in every client of a broker, times apart.
fn contents(net: &Net) -> Vec<(usize, Vec<u8>, Vec<(bool, Vec<u8>)>, Vec<u16>)> {
    let mut all = Vec::new();
    for (token, c) in &net.broker.clients {
        let queue: Vec<(bool, Vec<u8>)> = c.write_queue.iter().cloned().collect();
        let pids: Vec<u16> = c.in_flight.keys().copied().collect();
        all.push((*token, c.read_buf.clone(), queue, pids));
    }
    all
}

#[test]
fn pieces_leave_the_same_state() {
    let mut stream = pkt_subscribe(7, "x/#", 1);
    stream.extend_from_slice(&pkt_publish_qos1(8, "x/y", b"one"));
    stream.extend_from_slice(&pub_pkt(9, "x/y", b"two", 2, true));
    stream.extend_from_slice(&pkt_ping());
    stream.extend_from_slice(&[0x30, 0x05, 0x00]);
    let mut whole = Net::new();
    let t = whole.connect("t");
    assert!(whole.send(t, &stream));
    assert_eq!(whole.broker.clients[&t].read_buf, vec![0x30, 0x05, 0x00]);
    for cut in 0..stream.len() {
        let mut net = Net::new();
        assert_eq!(net.connect("t"), t);
        assert!(net.send(t, &stream[..cut]));
        net.now += SECOND;
        assert!(net.send(t, &stream[cut..]));
        assert_eq!(contents(&net), contents(&whole));
        assert_eq!(net.broker.sys_msgs_received, whole.broker.sys_msgs_received);
        assert_eq!(net.broker.subs.len(), 1);
    }
}

#[test]
fn qos1_round_trip() {
    let mut net = Net::new();
    let s = net.connect("q1-sub");
    let p = net.connect("q1-pub");
    net.subscribe(s, 1, "q1/topic", 1);
    assert!(net.send(p, &pkt_publish_qos1(7, "q1/topic", b"hello-qos1")));
    assert_eq!(net.recv(p), vec![(0x40, vec![0, 7])]);
    let got = net.recv(s);
    assert_eq!(got.len(), 1);
    assert_eq!(got[0].0, 0x32);
    let (pid, payload) = parse_fwd(&got[0].1, 1);
    assert_eq!(payload, b"hello-qos1");
    assert!(net.send(s, &pkt_puback(pid.unwrap())));
    net.pass(300, 200);
    assert!(net.recv(s).is_empty());
    assert!(net.broker.clients[&s].in_flight.is_empty());
}

#[test]
fn qos_is_the_lower_of_the_two() {
    let mut net = Net::new();
    let s = net.connect("q0-sub");
    let p = net.connect("q0-pub");
    net.subscribe(s, 2, "q0/topic", 0);
    assert!(net.send(p, &pkt_publish_qos1(9, "q0/topic", b"downgraded")));
    assert_eq!(
        net.publishes(s),
        vec![(0x30, "q0/topic".to_string(), None, b"downgraded".to_vec())]
    );
}

#[test]
fn unanswered_message_is_sent_again() {
    let mut net = Net::new();
    let s = net.connect("dup-sub");
    let p = net.connect("dup-pub");
    net.subscribe(s, 3, "dup/topic", 1);
    assert!(net.send(p, &pkt_publish_qos1(11, "dup/topic", b"needs-retry")));
    let first = net.recv(s);
    assert_eq!(first[0].0, 0x32);
    net.pass(499, 500);
    assert!(net.recv(s).is_empty());
    net.pass(1, 500);
    let again = net.recv(s);
    assert_eq!(again.len(), 1);
    assert_eq!(again[0].0, 0x3a);
    assert_eq!(again[0].1, first[0].1);
}

#[test]
fn packet_ids_are_distinct_and_reused() {
    let mut net = Net::new();
    let s = net.connect("pid-sub");
    let p = net.connect("pid-pub");
    net.subscribe(s, 4, "pid/topic", 1);
    assert!(net.send(p, &pkt_publish_qos1(1, "pid/topic", b"m1")));
    assert!(net.send(p, &pkt_publish_qos1(2, "pid/topic", b"m2")));
    let got = net.publishes(s);
    assert_eq!(got.len(), 2);
    assert_ne!(got[0].2, got[1].2);
    assert!(net.send(s, &pkt_puback(got[0].2.unwrap())));
    net.broker.clients.get_mut(&s).unwrap().next_pid = 1;
    assert!(net.send(p, &pkt_publish_qos1(3, "pid/topic", b"m3")));
    assert_eq!(net.publishes(s)[0].2, Some(1));
}

#[test]
fn subscriber_that_never_answers_is_dropped() {
    let mut net = Net::new();
    let s = net.connect("slow-sub");
    let p = net.connect("slow-pub");
    net.subscribe(s, 7, "flood/topic", 1);
    for pid in 0..IN_FLIGHT_CAP as u16 {
        assert!(net.send(p, &pkt_publish_qos1(pid + 100, "flood/topic", b"x")));
    }
    assert!(net.broker.has_client(s));
    assert!(net.send(p, &pkt_publish_qos1(1, "flood/topic", b"x")));
    assert!(!net.broker.has_client(s));
    assert!(net.broker.has_client(p));
    assert_eq!(net.broker.subs.len(), 0);
    assert_eq!(net.broker.dead_pruned, 0);
}

#[test]
fn broker_gives_up_after_three_retries() {
    let mut net = Net::new();
    let s = net.connect("ghost-sub");
    let p = net.connect("ghost-pub");
    net.subscribe(s, 8, "ghost/topic", 1);
    assert!(net.send(p, &pkt_publish_qos1(200, "ghost/topic", b"haunt")));
    assert_eq!(net.recv(s).len(), 1);
    for _ in 0..3 {
        net.pass(600, 500);
        assert_eq!(net.recv(s).len(), 1);
    }
    assert!(net.broker.has_client(s));
    net.pass(600, 500);
    assert!(!net.broker.has_client(s));
    assert!(net.broker.has_client(p));
}

#[test]
fn plain_messages_still_work() {
    let mut net = Net::new();
    let s = net.connect("reg-sub");
    let p = net.connect("reg-pub");
    net.subscribe(s, 5, "reg/topic", 0);
    assert!(net.send(p, &pkt_publish_qos0("reg/topic", b"plain")));
    assert_eq!(net.publishes(s).len(), 1);
    assert!(net.recv(p).is_empty());
}

#[test]
fn full_queue_drops_plain_messages_only() {
    let mut net = Net::new();
    let s = net.connect("slow");
    let p = net.connect("pub");
    net.subscribe(s, 1, "x", 0);
    for _ in 0..WRITE_QUEUE_CAP {
        assert_eq!(net.broker.publish("x", b"m", 0, false, 0), (1, 0));
    }
    assert_eq!(net.broker.publish("x", b"m", 0, false, 0), (0, 1));
    assert_eq!(net.broker.drops, 1);
    assert!(net.broker.has_client(s));
    assert_eq!(net.broker.subs.len(), 1);
    assert_eq!(net.recv(s).len(), WRITE_QUEUE_CAP);
    assert!(net.send(p, &pkt_publish("x", b"after", 0)));
    assert_eq!(net.publishes(s).len(), 1);
}

// ---- QoS 2 ----

#[test]
fn qos2_handshake_both_ways() {
    let mut net = Net::new();
    let s = net.connect("q2-sub");
    let p = net.connect("q2-pub");
    net.subscribe(s, 1, "q2/t", 2);
    assert!(net.send(p, &pub_pkt(50, "q2/t", b"exactly-once", 2, false)));
    assert_eq!(net.recv(p), vec![(0x50, vec![0, 50])]);
    let got = net.publishes(s);
    assert_eq!(
        got,
        vec![(0x34, "q2/t".to_string(), Some(1), b"exactly-once".to_vec())]
    );
    assert!(net.send(s, &ack_pkt(5, 1)));
    assert_eq!(net.recv(s), vec![(0x62, vec![0, 1])]);
    assert!(net.send(s, &ack_pkt(7, 1)));
    assert!(net.broker.clients[&s].in_flight.is_empty());
    assert!(net.send(p, &ack_pkt(6, 50)));
    assert_eq!(net.recv(p), vec![(0x70, vec![0, 50])]);
}

#[test]
fn repeated_qos2_message_is_forwarded_once() {
    let mut net = Net::new();
    let s = net.connect("dd-sub");
    let p = net.connect("dd-pub");
    net.subscribe(s, 2, "dd/t", 0);
    for _ in 0..2 {
        assert!(net.send(p, &pub_pkt(70, "dd/t", b"once", 2, false)));
        assert_eq!(net.recv(p), vec![(0x50, vec![0, 70])]);
    }
    assert!(net.send(p, &ack_pkt(6, 70)));
    assert_eq!(net.recv(p), vec![(0x70, vec![0, 70])]);
    assert_eq!(net.publishes(s).len(), 1);
    assert_eq!(net.broker.sys_pub_received, 1);

    assert!(net.send(p, &pub_pkt(70, "dd/t", b"fresh", 2, false)));
    assert_eq!(
        net.publishes(s),
        vec![(0x30, "dd/t".to_string(), None, b"fresh".to_vec())]
    );
}

#[test]
fn qos2_retransmission_follows_the_handshake() {
    let mut net = Net::new();
    let s = net.connect("rt-sub");
    let p = net.connect("rt-pub");
    net.subscribe(s, 3, "rt/t", 2);
    assert!(net.send(p, &pub_pkt(80, "rt/t", b"retry", 2, false)));
    assert_eq!(net.recv(s)[0].0, 0x34);
    net.pass(500, 500);
    let dup = net.recv(s);
    assert_eq!(dup.len(), 1);
    assert_eq!(dup[0].0, 0x3c);
    let (_, pid, _) = parse_pub(&dup[0].1, 2);
    assert!(net.send(s, &ack_pkt(5, pid.unwrap())));
    assert_eq!(net.recv(s), vec![(0x62, vec![0, 1])]);
    assert_eq!(net.broker.clients[&s].in_flight[&1].retries, 0);
    net.pass(500, 500);
    assert_eq!(net.recv(s), vec![(0x6a, vec![0, 1])]);
    assert!(net.send(s, &ack_pkt(7, 1)));
    net.pass(5000, 500);
    assert!(net.recv(s).is_empty());
}

#[test]
fn repeated_pubrec_changes_nothing() {
    let mut net = Net::new();
    let s = net.connect("s");
    net.subscribe(s, 1, "x", 2);
    net.broker.publish("x", b"m", 2, false, 0);
    assert_eq!(net.recv(s).len(), 1);
    assert!(net.send(s, &ack_pkt(5, 1)));
    assert_eq!(net.recv(s).len(), 1);
    assert!(net.send(s, &ack_pkt(5, 1)));
    assert!(net.send(s, &ack_pkt(5, 99)));
    assert!(net.recv(s).is_empty());
}

// ---- retained messages ----

#[test]
fn retained_message_is_sent_on_subscribe() {
    let mut net = Net::new();
    let p = net.connect("r1-pub");
    assert!(net.send(p, &pub_pkt(0, "rtn/status", b"online", 1, true)));
    let s = net.connect("r1-sub");
    assert!(net.send(s, &pkt_subscribe(4, "rtn/status", 0)));
    let got = net.recv(s);
    assert_eq!(got.len(), 2);
    assert_eq!(got[0].0, 0x31);
    assert_eq!(parse_pub(&got[0].1, 0), ("rtn/status".to_string(), None, b"online".to_vec()));
    assert_eq!(got[1], (0x90, vec![0, 4, 0]));
}

#[test]
fn retained_message_is_overwritten_and_cleared() {
    let mut net = Net::new();
    let p = net.connect("r2-pub");
    assert!(net.send(p, &pub_pkt(0, "rtn/status", b"online", 1, true)));
    assert!(net.send(p, &pub_pkt(0, "other", b"kept", 1, true)));
    assert!(net.send(p, &pub_pkt(0, "rtn/status", b"offline", 1, true)));
    assert_eq!(net.broker.retained.len(), 2);
    let s = net.connect("r2-sub");
    assert!(net.send(s, &pkt_subscribe(5, "rtn/status", 0)));
    let got = net.recv(s);
    assert_eq!(parse_pub(&got[0].1, 0).2, b"offline");

    assert!(net.send(p, &pub_pkt(0, "rtn/status", b"", 1, true)));
    assert_eq!(net.broker.retained.len(), 1);
    assert_eq!(net.broker.retained[0].0, "other");
    let s2 = net.connect("r3-sub");
    assert!(net.send(s2, &pkt_subscribe(6, "rtn/status", 0)));
    assert_eq!(net.recv(s2), vec![(0x90, vec![0, 6, 0])]);
}

#[test]
fn wildcard_subscription_gets_retained() {
    let mut net = Net::new();
    let p = net.connect("r4-pub");
    assert!(net.send(p, &pub_pkt(0, "sensor/room1/temp", b"23.5", 1, true)));
    let s = net.connect("r4-sub");
    assert!(net.send(s, &pkt_subscribe(7, "sensor/+/temp", 0)));
    let got = net.recv(s);
    assert_eq!(
        parse_pub(&got[0].1, 0),
        ("sensor/room1/temp".to_string(), None, b"23.5".to_vec())
    );
}

#[test]
fn plain_subscriber_gets_any_number_of_retained() {
    let mut net = Net::new();
    for i in 0..300 {
        net.broker.publish(&format!("r/{i}"), b"m", 1, true, 0);
    }
    let t = net.connect("t");
    assert!(net.send(t, &pkt_subscribe(1, "r/#", 0)));
    let got = net.recv(t);
    assert_eq!(got.len(), 301);
    assert!(got[..300].iter().all(|(head, _)| *head == 0x31));
    assert_eq!(got[300], (0x90, vec![0, 1, 0]));
}

#[test]
fn retained_qos_is_lowered() {
    let mut net = Net::new();
    let p = net.connect("r5-pub");
    assert!(net.send(p, &pub_pkt(0, "rtn/q", b"q2stored", 2, true)));
    assert!(net.send(p, &ack_pkt(6, 0)));
    let s = net.connect("r5-sub");
    assert!(net.send(s, &pkt_subscribe(8, "rtn/q", 0)));
    let got = net.recv(s);
    assert_eq!(got[0].0, 0x31);
    assert_eq!(parse_pub(&got[0].1, 0).2, b"q2stored");
    let s1 = net.connect("r6-sub");
    assert!(net.send(s1, &pkt_subscribe(8, "rtn/q", 1)));
    assert_eq!(net.recv(s1)[0].0, 0x33);
}

#[test]
fn message_without_the_flag_is_not_retained() {
    let mut net = Net::new();
    let p = net.connect("p");
    assert!(net.send(p, &pkt_publish("x", b"m", 0)));
    assert!(net.broker.retained.is_empty());
}

#[test]
fn qos1_forward_has_an_id() {
    let mut net = Net::new();
    let s = net.connect("rg-sub");
    let p = net.connect("rg-pub");
    net.subscribe(s, 9, "rg/t", 1);
    assert!(net.send(p, &pub_pkt(1, "rg/t", b"q1", 1, false)));
    assert_eq!(
        net.publishes(s),
        vec![(0x32, "rg/t".to_string(), Some(1), b"q1".to_vec())]
    );
}

// ---- last will ----

#[test]
fn will_is_published_on_a_lost_connection() {
    let mut net = Net::new();
    let s = net.connect("tester");
    net.subscribe(s, 1, "will/topic", 0);
    let a = net.connect("tester");
    assert!(net.send(a, &pkt_connect_will("willA", true, "will/topic", b"gone fishin", false, 0)));
    net.drop_client(a);
    assert_eq!(
        net.publishes(s),
        vec![(0x30, "will/topic".to_string(), None, b"gone fishin".to_vec())]
    );
}

#[test]
fn will_is_suppressed_by_disconnect() {
    let mut net = Net::new();
    let s = net.connect("tester");
    net.subscribe(s, 2, "will/topic", 0);
    let a = net.connect_with(&pkt_connect_will(
        "willB",
        true,
        "will/topic",
        b"should not arrive",
        false,
        0,
    ));
    assert!(!net.send(a, &pkt_disconnect()));
    assert!(net.recv(s).is_empty());
}

#[test]
fn will_is_retained_if_so_asked() {
    let mut net = Net::new();
    let a = net.connect_with(&pkt_connect_will("willC", true, "will/retained", b"sticky", true, 0));
    net.drop_client(a);
    let s = net.connect("late");
    assert!(net.send(s, &pkt_subscribe(3, "will/retained", 0)));
    let got = net.recv(s);
    assert_eq!(
        parse_pub(&got[0].1, 0),
        ("will/retained".to_string(), None, b"sticky".to_vec())
    );
}

#[test]
fn will_is_published_when_the_keepalive_ends() {
    let mut net = Net::new();
    let s = net.open();
    // keepalive zero: no deadline
    assert!(net.send(s, &[0x10, 0x0d, 0, 4, b'M', b'Q', b'T', b'T', 4, 2, 0, 0, 0, 1, b's']));
    net.recv(s);
    net.subscribe(s, 1, "w", 0);
    let a = net.connect_with(&pkt_connect_will("a", true, "w", b"late", false, 0));
    assert_eq!(net.broker.clients[&a].keepalive_deadline, Some(90 * SECOND));
    net.pass(90_000, 10_000);
    assert!(net.broker.has_client(a));
    net.recv(s);
    net.pass(1, 10_000);
    assert!(!net.broker.has_client(a));
    assert!(net.broker.has_client(s));
    let got = net.publishes(s);
    assert_eq!(got, vec![(0x30, "w".to_string(), None, b"late".to_vec())]);
}

#[test]
fn keepalive_starts_anew_with_every_packet() {
    let mut net = Net::new();
    let a = net.connect("a");
    let quiet = net.connect("quiet");
    assert_eq!(net.broker.clients[&a].keepalive_deadline, Some(90 * SECOND));
    net.pass(89_000, 10_000);
    assert!(net.send(a, &pkt_ping()));
    assert_eq!(net.broker.clients[&a].keepalive_deadline, Some(179 * SECOND));
    assert_eq!(net.broker.clients[&quiet].keepalive_deadline, Some(90 * SECOND));
    net.pass(2_000, 10_000);
    assert!(net.broker.has_client(a));
    assert!(!net.broker.has_client(quiet));
    net.pass(80_000, 10_000);
    assert!(net.send(a, &pkt_publish_qos0("x", b"y")));
    net.pass(89_000, 10_000);
    assert!(net.broker.has_client(a));
    net.pass(2_000, 10_000);
    assert!(!net.broker.has_client(a));
}

#[test]
fn too_slow_client_leaves_will_and_session() {
    let mut net = Net::new();
    let s = net.connect("watcher");
    net.subscribe(s, 1, "w", 0);
    let a = net.connect_with(&pkt_connect_will("slow", false, "w", b"gone", false, 0));
    net.subscribe(a, 1, "x", 1);
    let p = net.connect("p");
    for i in 0..IN_FLIGHT_CAP {
        assert!(net.send(p, &pkt_publish_qos1(1, "x", format!("m{i}").as_bytes())));
    }
    assert!(net.broker.has_client(a));
    assert_eq!(net.publishes(s), vec![]);
    assert!(net.send(p, &pkt_publish_qos1(1, "x", b"too much")));
    assert!(!net.broker.has_client(a));
    assert!(net.broker.leaving.is_empty());
    assert!(net.broker.subs.iter().all(|sub| sub.token != a));
    assert_eq!(
        net.publishes(s),
        vec![(0x30, "w".to_string(), None, b"gone".to_vec())]
    );
    assert_eq!(net.broker.sessions.len(), 1);
    assert_eq!(net.broker.sessions[0].0, "slow");
    let stored = &net.broker.sessions[0].1;
    assert_eq!(stored.subs, vec![("x".to_string(), 1)]);
    assert_eq!(stored.offline.len(), IN_FLIGHT_CAP + 1);
    assert_eq!(stored.offline[0], ("x".to_string(), b"m0".to_vec(), 1));
    assert_eq!(stored.offline[IN_FLIGHT_CAP], ("x".to_string(), b"too much".to_vec(), 1));
}

#[test]
fn departure_is_noted_and_then_settled() {
    let mut net = Net::new();
    let a = net.connect_with(&pkt_connect_will("slow", true, "w", b"gone", true, 0));
    net.subscribe(a, 1, "x", 1);
    for _ in 0..IN_FLIGHT_CAP + 1 {
        net.broker.publish("x", b"m", 1, false, 0);
    }
    assert!(!net.broker.has_client(a));
    assert_eq!(net.broker.leaving.len(), 1);
    assert!(net.broker.retained.is_empty());
    net.broker.settle(0);
    assert!(net.broker.leaving.is_empty());
    assert_eq!(net.broker.retained.len(), 1);
    assert_eq!(net.broker.retained[0].1, b"gone");
    // a clean session is not stored
    assert!(net.broker.sessions.is_empty());
}

#[test]
fn will_of_one_slow_client_drops_another() {
    let mut net = Net::new();
    let s = net.connect("watcher");
    net.subscribe(s, 1, "w", 0);
    let a = net.connect_with(&pkt_connect_will("a", true, "y", b"a gone", false, 1));
    net.subscribe(a, 1, "x", 1);
    let b = net.connect_with(&pkt_connect_will("b", true, "w", b"b gone", false, 0));
    net.subscribe(b, 1, "y", 1);
    for _ in 0..IN_FLIGHT_CAP {
        net.broker.publish("x", b"m", 1, false, 0);
        net.broker.publish("y", b"m", 1, false, 0);
    }
    assert!(net.broker.has_client(a) && net.broker.has_client(b));
    net.broker.publish("x", b"m", 1, false, 0);
    net.pass(0, 10_000);
    assert!(!net.broker.has_client(a) && !net.broker.has_client(b));
    assert!(net.broker.leaving.is_empty());
    assert_eq!(
        net.publishes(s),
        vec![(0x30, "w".to_string(), None, b"b gone".to_vec())]
    );
}

#[test]
fn own_will_is_published_once() {
    let mut net = Net::new();
    let s = net.connect("watcher");
    let a = net.connect_with(&pkt_connect_will("a", false, "x", b"gone", false, 1));
    net.subscribe(a, 1, "x", 1);
    for _ in 0..IN_FLIGHT_CAP {
        net.broker.publish("x", b"m", 1, false, 0);
    }
    net.subscribe(s, 1, "x", 0);
    // too slow for its own will, which is kept for it
    net.drop_client(a);
    assert!(!net.broker.has_client(a));
    assert_eq!(
        net.publishes(s),
        vec![(0x30, "x".to_string(), None, b"gone".to_vec())]
    );
    assert_eq!(net.broker.sessions.len(), 1);
    let stored = &net.broker.sessions[0].1;
    assert_eq!(stored.offline.len(), IN_FLIGHT_CAP + 1);
    assert_eq!(stored.offline[IN_FLIGHT_CAP].1, b"gone");
}

// ---- sessions ----

#[test]
fn offline_message_is_delivered_on_return() {
    let mut net = Net::new();
    let a = net.connect_with(&pkt_connect_session("sess1", false));
    net.subscribe(a, 1, "off/topic", 1);
    net.drop_client(a);
    assert_eq!(net.broker.sessions.len(), 1);
    let p = net.connect("pub1");
    assert!(net.send(p, &pkt_publish_with_id(1, 10, "off/topic", b"queued-msg")));
    assert_eq!(net.recv(p), vec![(0x40, vec![0, 10])]);

    let a2 = net.open();
    assert!(net.send(a2, &pkt_connect_session("sess1", false)));
    let got = net.recv(a2);
    assert_eq!(got[0], (0x20, vec![0, 0]));
    assert_eq!(got.len(), 2);
    assert_eq!(got[1].0, 0x32);
    assert_eq!(
        parse_pub(&got[1].1, 1),
        ("off/topic".to_string(), Some(1), b"queued-msg".to_vec())
    );
    assert!(net.broker.sessions.is_empty());
}

#[test]
fn plain_messages_are_not_stored() {
    let mut net = Net::new();
    let a = net.connect_with(&pkt_connect_session("sess2", false));
    net.subscribe(a, 2, "q0/topic", 1);
    net.drop_client(a);
    let p = net.connect("pub2");
    assert!(net.send(p, &pkt_publish_with_id(0, 0, "q0/topic", b"fire-and-forget")));
    let a2 = net.open();
    assert!(net.send(a2, &pkt_connect_session("sess2", false)));
    assert_eq!(net.recv(a2), vec![(0x20, vec![0, 0])]);
}

#[test]
fn clean_connect_wipes_the_session() {
    let mut net = Net::new();
    let a = net.connect_with(&pkt_connect_session("sess3", false));
    net.subscribe(a, 3, "wipe/topic", 1);
    net.drop_client(a);
    let a2 = net.connect_with(&pkt_connect_session("sess3", true));
    net.drop_client(a2);
    let p = net.connect("pub3");
    assert!(net.send(p, &pkt_publish_with_id(1, 11, "wipe/topic", b"gone")));
    let a3 = net.open();
    assert!(net.send(a3, &pkt_connect_session("sess3", false)));
    assert_eq!(net.recv(a3), vec![(0x20, vec![0, 0])]);
    assert!(net.broker.subs.is_empty());
}

#[test]
fn subscriptions_are_restored_on_return() {
    let mut net = Net::new();
    let a = net.connect_with(&pkt_connect_session("sess4", false));
    net.subscribe(a, 4, "restore/topic", 1);
    net.drop_client(a);
    assert!(net.broker.subs.is_empty());
    let a2 = net.connect_with(&pkt_connect_session("sess4", false));
    let p = net.connect("pub4");
    assert!(net.send(p, &pkt_publish_with_id(1, 12, "restore/topic", b"restored-sub")));
    assert_eq!(
        net.publishes(a2),
        vec![(0x32, "restore/topic".to_string(), Some(1), b"restored-sub".to_vec())]
    );
}

#[test]
fn queued_reliable_messages_are_stored() {
    let mut net = Net::new();
    let a = net.connect_with(&pkt_connect_session("keep", false));
    net.subscribe(a, 1, "k/#", 1);
    let long = vec![9u8; 300];
    net.broker.publish("k/1", &long, 1, false, 0);
    net.broker.publish("k/2", b"plain", 0, false, 0);
    net.broker.publish("k/3", b"x", 2, false, 0);
    net.drop_client(a);
    let session = &net.broker.sessions[0];
    assert_eq!(session.0, "keep");
    assert_eq!(session.1.subs, vec![("k/#".to_string(), 1)]);
    let stored: Vec<_> = session.1.offline.iter().cloned().collect();
    assert_eq!(
        stored,
        vec![("k/1".to_string(), long, 1), ("k/3".to_string(), b"x".to_vec(), 1)]
    );
}

#[test]
fn repeated_release_is_not_stored() {
    let mut net = Net::new();
    let a = net.connect_with(&pkt_connect_session("keep", false));
    net.subscribe(a, 1, "k", 2);
    net.broker.publish("k", b"m", 2, false, 0);
    net.recv(a);
    assert!(net.send(a, &ack_pkt(5, 1)));
    net.recv(a);
    net.pass(600, 500);
    assert_eq!(net.broker.clients[&a].write_queue.len(), 1);
    net.drop_client(a);
    assert!(net.broker.sessions[0].1.offline.is_empty());
}

#[test]
fn stored_messages_stop_at_the_limit() {
    let mut net = Net::new();
    let a = net.connect_with(&pkt_connect_session("lim", false));
    net.subscribe(a, 1, "x", 1);
    net.drop_client(a);
    for _ in 0..OFFLINE_CAP + 5 {
        net.broker.publish("x", b"m", 1, false, 0);
    }
    assert_eq!(net.broker.sessions[0].1.offline.len(), 1024);
}

#[test]
fn too_many_stored_messages_drop_the_client() {
    let mut net = Net::new();
    let a = net.connect_with(&pkt_connect_session("big", false));
    net.subscribe(a, 1, "x", 1);
    net.drop_client(a);
    for _ in 0..IN_FLIGHT_CAP + 1 {
        net.broker.publish("x", b"m", 1, false, 0);
    }
    let a2 = net.open();
    assert!(!net.send(a2, &pkt_connect_session("big", false)));
    assert!(!net.broker.has_client(a2));
    assert_eq!(net.broker.sessions.len(), 1);
}

#[test]
fn nameless_client_leaves_no_session() {
    let mut net = Net::new();
    let a = net.connect_with(&pkt_connect_session("", false));
    net.subscribe(a, 1, "x", 1);
    net.drop_client(a);
    assert!(net.broker.sessions.is_empty());
}

// ---- subscriptions of many clients ----

#[test]
fn subscription_table_scenario() {
    let mut net = Net::new();
    let mut subs = Vec::new();
    for i in 0..5 {
        let s = net.connect(&format!("sx-sub{i}"));
        net.subscribe(s, 1, "sx/one", 0);
        subs.push(s);
    }
    let p = net.connect("sx-pub");
    let hello = |payload: &str| {
        let mut body = enc("sx/one");
        body.extend_from_slice(payload.as_bytes());
        pkt(3, 0, &body)
    };
    assert!(net.send(p, &hello("hello")));
    for s in &subs {
        assert_eq!(net.publishes(*s).len(), 1);
    }

    let w1 = net.connect("sx-w1");
    net.subscribe(w1, 1, "sx/#", 0);
    let w2 = net.connect("sx-w2");
    net.subscribe(w2, 1, "sx/#", 0);
    let w3 = net.connect("sx-w3");
    net.subscribe(w3, 1, "other/#", 0);
    assert!(net.send(p, &hello("again")));
    let mut got = 0;
    for s in subs.iter().chain([w1, w2].iter()) {
        got += net.publishes(*s).len();
    }
    assert_eq!(got, 7);
    assert!(net.recv(w3).is_empty());

    let mut body = vec![0x00, 0x01];
    body.extend_from_slice(&enc("sx/one"));
    assert!(net.send(subs[0], &pkt(10, 2, &body)));
    net.recv(subs[0]);
    assert!(net.send(p, &hello("after-unsub")));
    let mut got = 0;
    for s in subs.iter().chain([w1, w2].iter()) {
        got += net.publishes(*s).len();
    }
    assert_eq!(got, 6);

    net.drop_client(subs[1]);
    subs.remove(1);
    assert!(net.send(p, &hello("after-dead")));
    let mut got = 0;
    for s in subs.iter().chain([w1, w2].iter()) {
        got += net.publishes(*s).len();
    }
    assert_eq!(got, 5);

    net.pass(10_000, 100_000);
    let sys = net.connect("sx-sys");
    assert!(net.send(sys, &pkt_subscribe(1, "$SYS/#", 0)));
    let got = net.recv(sys);
    assert_eq!(got.len(), 10);
    let (topic, _, payload) = parse_pub(&got[0].1, 0);
    assert_eq!(topic, "$SYS/broker/version");
    assert_eq!(payload, b"mqtt-broker-rs 0.1.0");
}

#[test]
fn client_with_two_matching_subscriptions_gets_two_copies() {
    let mut net = Net::new();
    let s = net.connect("s");
    net.subscribe(s, 1, "x", 0);
    net.subscribe(s, 2, "#", 1);
    assert_eq!(net.broker.publish("x", b"m", 1, false, 0), (2, 0));
    let got = net.publishes(s);
    assert_eq!((got[0].0, got[1].0), (0x30, 0x32));
}

#[test]
fn subscription_of_a_missing_client_is_pruned() {
    let mut net = Net::new();
    let a = net.connect("a");
    let b = net.connect("b");
    let c = net.connect("c");
    net.subscribe(a, 1, "x", 0);
    net.subscribe(b, 1, "x", 0);
    net.subscribe(c, 1, "x", 0);
    net.broker.clients.remove(&a);
    assert_eq!(net.broker.publish("x", b"m", 0, false, 0), (2, 0));
    assert_eq!(net.broker.dead_pruned, 1);
    let left: Vec<usize> = net.broker.subs.iter().map(|s| s.token).collect();
    assert_eq!(left, vec![c, b]);
    assert!(matches!(net.broker.deliver_to(a, "x", b"m", 0, false, 0), Delivery::Gone));
}

// ---- errors ----

fn refused(packet: &[u8]) -> Result<(), PacketError> {
    let mut net = Net::new();
    let t = net.open();
    net.broker.clients.get_mut(&t).unwrap().read_buf = packet.to_vec();
    net.broker.handle_packets(t, 0)
}

#[test]
fn malformed_packets_are_refused() {
    assert!(matches!(refused(&[0x10, 0x00]), Err(PacketError::BadConnect)));
    assert!(matches!(refused(&[0x82, 0x01, 0x00]), Err(PacketError::BadSubscribe)));
    assert!(matches!(refused(&[0xa2, 0x01, 0x00]), Err(PacketError::BadUnsubscribe)));
    assert!(matches!(refused(&[0x30, 0x02, 0x00, 0x00]), Err(PacketError::BadPublish)));
    assert!(matches!(refused(&[0x40, 0x01, 0x00]), Err(PacketError::BadPuback)));
    assert!(matches!(refused(&[0x50, 0x00]), Err(PacketError::BadPubrec)));
    assert!(matches!(refused(&[0x62, 0x00]), Err(PacketError::BadPubrel)));
    assert!(matches!(refused(&[0x70, 0x00]), Err(PacketError::BadPubcomp)));
    assert!(matches!(refused(&[0xe0, 0x00]), Err(PacketError::Disconnect)));
    assert!(matches!(refused(&[0xf0, 0x00]), Err(PacketError::Unknown(15))));
    assert!(matches!(refused(&[0x20, 0x00]), Err(PacketError::Unknown(2))));
    assert!(matches!(
        refused(&[0xc0, 0x00, 0x30, 0xff, 0xff, 0xff, 0x7f]),
        Err(PacketError::TooLarge(268435455))
    ));
    assert!(matches!(
        refused(&[0xc0, 0x00, 0x30, 0xff, 0xff, 0xff, 0xff, 0x01]),
        Err(PacketError::BadLength)
    ));
    assert!(matches!(refused(&[0xc0, 0x00]), Ok(())));
    assert!(matches!(refused(&[0xc0, 0x00, 0x30, 0xff, 0xff, 0xff]), Ok(())));
}

#[test]
fn client_too_slow_for_stored_messages() {
    let mut net = Net::new();
    let a = net.connect_with(&pkt_connect_session("big", false));
    net.subscribe(a, 1, "x", 1);
    net.drop_client(a);
    for _ in 0..IN_FLIGHT_CAP + 1 {
        net.broker.publish("x", b"m", 1, false, 0);
    }
    let t = net.open();
    let f = ("big".to_string(), 0, false, 0, false, String::new(), vec![], false);
    assert!(matches!(net.broker.on_connect(t, f, 0), Err(PacketError::DroppedInFlush)));
    net.broker.settle(0);
    assert_eq!(net.broker.sessions.len(), 1);
    assert_eq!(net.broker.sessions[0].1.offline.len(), IN_FLIGHT_CAP + 1);
}

#[test]
fn client_too_slow_for_retained_messages() {
    let mut net = Net::new();
    for i in 0..IN_FLIGHT_CAP + 1 {
        net.broker.publish(&format!("r/{i}"), b"m", 1, true, 0);
    }
    let t = net.connect("t");
    let topics = vec![("r/#".to_string(), 1)];
    assert!(matches!(
        net.broker.on_subscribe(t, 1, &topics, 0),
        Err(PacketError::DroppedInRetained)
    ));
    assert!(!net.broker.has_client(t));
}

#[test]
fn packets_of_a_removed_client() {
    let mut net = Net::new();
    let t = net.connect("self");
    net.subscribe(t, 1, "x", 1);
    for i in 0..IN_FLIGHT_CAP as u16 {
        assert!(net.send(t, &pkt_publish_qos1(i, "x", b"m")));
    }
    let mut both = pkt_publish_qos1(1, "x", b"m");
    both.extend_from_slice(&pkt_ping());
    net.broker.clients.get_mut(&t).unwrap().read_buf = both;
    assert!(matches!(net.broker.handle_packets(t, 0), Err(PacketError::ClientGone)));
    assert!(!net.broker.has_client(t));
}

#[test]
fn flooding_client_is_removed() {
    let mut net = Net::new();
    let t = net.connect("flood");
    let mut start = vec![0x30];
    start.extend_from_slice(&[0x80, 0x80, 0x08]);
    assert!(net.send(t, &start));
    assert!(net.send(t, &vec![0u8; 65536 - 4]));
    assert_eq!(net.broker.clients[&t].read_buf.len(), 65536);
    assert!(!net.send(t, &[0]));
    assert!(!net.broker.has_client(t));
}

#[test]
fn reads_without_data() {
    let mut net = Net::new();
    let t = net.connect("t");
    assert!(net.broker.serve_read(t, ReadOutcome::WouldBlock, 0));
    assert!(net.broker.has_client(t));
    assert!(!net.broker.serve_read(t, ReadOutcome::Failed, 0));
    assert!(!net.broker.has_client(t));
}

// ---- writing ----

#[test]
fn interrupted_flush_goes_on_later() {
    let mut net = Net::new();
    let t = net.connect("t");
    net.subscribe(t, 1, "x", 0);
    net.broker.publish("x", b"abc", 0, false, 0);
    assert!(net.broker.has_queued(t));
    assert_eq!(net.broker.waiting(), vec![t]);
    let sent = net.broker.sys_msgs_sent;
    assert!(matches!(net.broker.flush_writes(t, WriteOutcome::Start, 0), FlushAction::Write));
    let whole = build_forward(b"x", b"abc", 0, None, false, false);
    assert_eq!(net.broker.unwritten(t), whole.as_slice());
    assert!(matches!(net.broker.flush_writes(t, WriteOutcome::Wrote(2), 0), FlushAction::Write));
    assert_eq!(net.broker.unwritten(t), &whole[2..]);
    assert!(matches!(
        net.broker.flush_writes(t, WriteOutcome::WouldBlock, 0),
        FlushAction::Wait { writable: true }
    ));
    // nothing is queued, but the rest of the batch is still to be written
    assert!(!net.broker.has_queued(t));
    assert!(net.broker.has_unsent(t));
    assert_eq!(net.broker.waiting(), vec![t]);
    assert!(matches!(net.broker.flush_writes(t, WriteOutcome::Start, 0), FlushAction::Write));
    assert!(matches!(
        net.broker.flush_writes(t, WriteOutcome::Zero, 0),
        FlushAction::Wait { writable: true }
    ));
    assert!(matches!(
        net.broker.flush_writes(t, WriteOutcome::Wrote(whole.len() - 2), 0),
        FlushAction::Wait { writable: false }
    ));
    assert_eq!(net.broker.sys_msgs_sent, sent + 1);
    assert!(!net.broker.has_unsent(t));
    assert_eq!(net.broker.waiting(), vec![]);
}

#[test]
fn sent_packets_are_counted_once() {
    let mut net = Net::new();
    let t = net.connect("t");
    net.subscribe(t, 1, "x", 0);
    let sent = net.broker.sys_msgs_sent;
    for _ in 0..3 {
        net.broker.publish("x", b"abc", 0, false, 0);
    }
    assert!(matches!(net.broker.flush_writes(t, WriteOutcome::Start, 0), FlushAction::Write));
    assert_eq!(net.broker.sys_msgs_sent, sent);
    let len = build_forward(b"x", b"abc", 0, None, false, false).len();
    assert_eq!(net.broker.unwritten(t).len(), 3 * len);
    let two_and_a_bit = WriteOutcome::Wrote(2 * len + 1);
    assert!(matches!(net.broker.flush_writes(t, two_and_a_bit, 0), FlushAction::Write));
    assert_eq!(net.broker.sys_msgs_sent, sent + 2);
    assert!(matches!(
        net.broker.flush_writes(t, WriteOutcome::Wrote(len - 1), 0),
        FlushAction::Wait { writable: false }
    ));
    assert_eq!(net.broker.sys_msgs_sent, sent + 3);
    // nothing is left: another flush counts nothing
    assert_eq!(net.recv(t), vec![]);
    assert_eq!(net.broker.sys_msgs_sent, sent + 3);
}

#[test]
fn failed_write_removes_the_client() {
    let mut net = Net::new();
    let t = net.connect("t");
    assert!(matches!(net.broker.flush_writes(t, WriteOutcome::Failed, 0), FlushAction::Closed));
    assert!(!net.broker.has_client(t));
    assert!(!net.broker.has_queued(t));
}
