//! What happens from time to time: timeouts, statistics, numbers.
use mqtt_broker::broker::Broker;
use mqtt_broker::model::{Delivery, SECOND};
use mqtt_broker::sweep::{elapsed, next_idle, poll_timeout};
use mqtt_broker::sys::{decimal, parse_number, qos1_retry_after};

#[test]
fn poll_waits_longer_when_idle() {
    assert_eq!(poll_timeout(0), 1);
    assert_eq!(poll_timeout(20), 1);
    assert_eq!(poll_timeout(21), 50);
    assert_eq!(next_idle(5, false), 6);
    assert_eq!(next_idle(5, true), 0);
    assert_eq!(next_idle(u32::MAX, false), 0);
}

#[test]
fn elapsed_time() {
    assert_eq!(elapsed(10, 3), 7);
    assert_eq!(elapsed(3, 10), 0);
}

#[test]
fn retry_time_setting() {
    assert_eq!(qos1_retry_after(None), 10000);
    assert_eq!(qos1_retry_after(Some("500")), 500);
    assert_eq!(qos1_retry_after(Some("+7")), 7);
    assert_eq!(qos1_retry_after(Some("")), 10000);
    assert_eq!(qos1_retry_after(Some("+")), 10000);
    assert_eq!(qos1_retry_after(Some("-1")), 10000);
    assert_eq!(qos1_retry_after(Some("5 ")), 10000);
    assert_eq!(qos1_retry_after(Some("1_000")), 10000);
    assert_eq!(qos1_retry_after(Some("18446744073709551615")), u64::MAX);
    assert_eq!(qos1_retry_after(Some("18446744073709551616")), 10000);
    assert_eq!(qos1_retry_after(Some("000000000000000000000000042")), 42);
}

#[test]
fn numbers_as_the_standard_library_reads_them() {
    for s in ["0", "00", "+0", "9", "++1", "1+", "a", "12345678901234567890", "99999999999999999999"] {
        assert_eq!(parse_number(s.as_bytes()), s.parse::<u64>().ok(), "{s}");
    }
}

#[test]
fn decimal_digits() {
    for n in [0u64, 9, 10, 99, 100, 12345, u64::MAX] {
        assert_eq!(decimal(n), n.to_string().into_bytes());
        assert_eq!(parse_number(&decimal(n)), Some(n));
    }
}

#[test]
fn keepalive_is_one_and_a_half_times() {
    for (keepalive, seconds) in [(1u16, 1u64), (2, 3), (3, 4), (60, 90), (65535, 98302)] {
        let mut b = Broker::new(0);
        let t = b.add_client();
        let f = ("c".to_string(), keepalive, false, 0, false, String::new(), vec![], true);
        assert!(b.on_connect(t, f, 5).is_ok());
        assert_eq!(b.clients[&t].keepalive_deadline, Some(5 + seconds * SECOND));
        assert!(b.expired(5 + seconds * SECOND).is_empty());
        assert_eq!(b.expired(6 + seconds * SECOND), vec![t]);
    }
}

#[test]
fn only_expired_clients_are_swept() {
    let mut b = Broker::new(0);
    let mut tokens = Vec::new();
    for i in 0..4u16 {
        let t = b.add_client();
        let f = (format!("c{i}"), i * 10, false, 0, false, String::new(), vec![], true);
        assert!(b.on_connect(t, f, 0).is_ok());
        tokens.push(t);
    }
    b.sweep_keepalive(31 * SECOND);
    assert_eq!(b.tokens(), vec![tokens[0], tokens[3]]);
    b.sweep_keepalive(46 * SECOND);
    assert_eq!(b.tokens(), vec![tokens[0]]);
}

#[test]
fn statistics_are_published_every_ten_seconds() {
    let mut b = Broker::new(0);
    let t = b.add_client();
    let f = ("c".to_string(), 0, false, 0, false, String::new(), vec![], true);
    assert!(b.on_connect(t, f, 0).is_ok());
    b.sys_tick("9.9", 10 * SECOND - 1);
    assert!(b.retained.is_empty());
    b.sys_tick("9.9", 12 * SECOND);
    assert_eq!(b.sys_last_publish, 12 * SECOND);
    let want = [
        ("$SYS/broker/version", "mqtt-broker-rs 9.9"),
        ("$SYS/broker/uptime", "12"),
        ("$SYS/broker/clients/connected", "1"),
        ("$SYS/broker/clients/total", "1"),
        ("$SYS/broker/messages/received", "0"),
        ("$SYS/broker/messages/sent", "0"),
        ("$SYS/broker/messages/publish/received", "0"),
        ("$SYS/broker/messages/publish/sent", "0"),
        ("$SYS/broker/subscriptions/count", "0"),
    ];
    assert_eq!(b.retained.len(), 9);
    for (entry, (topic, payload)) in b.retained.iter().zip(want.iter()) {
        assert_eq!(entry.0, *topic);
        assert_eq!(entry.1, payload.as_bytes());
        assert_eq!(entry.2, 0);
    }
    b.sys_tick("9.9", 21 * SECOND);
    assert_eq!(b.sys_last_publish, 12 * SECOND);
    b.sys_tick("9.9", 22 * SECOND);
    assert_eq!(b.retained.len(), 9);
    assert_eq!(b.retained[1].1, b"22");
}

#[test]
fn statistics_reach_subscribers() {
    let mut b = Broker::new(0);
    let t = b.add_client();
    assert!(b.on_subscribe(t, 1, &vec![("$SYS/#".to_string(), 0)], 0).is_ok());
    b.publish_sys_topics("1", 0);
    // the answer to SUBSCRIBE, then nine statistics
    assert_eq!(b.clients[&t].write_queue.len(), 10);
    assert_eq!(b.sys_pub_sent, 9);
}

#[test]
fn retransmission_covers_all_clients() {
    let mut b = Broker::new(0);
    let mut tokens = Vec::new();
    for _ in 0..3 {
        let t = b.add_client();
        assert!(matches!(b.deliver_to(t, "x", b"m", 1, false, 0), Delivery::Sent));
        tokens.push(t);
    }
    assert!(matches!(b.deliver_to(tokens[1], "y", b"n", 2, false, SECOND), Delivery::Sent));
    assert!(b.retries(SECOND / 2, 1000).is_empty());
    let due: Vec<(usize, u16)> = b.retries(SECOND, 1000).iter().map(|r| (r.0, r.1)).collect();
    assert_eq!(due, vec![(tokens[0], 1), (tokens[1], 1), (tokens[2], 1)]);
    assert!(b.on_ack(tokens[2], 1).is_ok());
    b.retransmit(2 * SECOND, 1000);
    let queued: Vec<usize> = tokens.iter().map(|t| b.clients[t].write_queue.len()).collect();
    assert_eq!(queued, vec![2, 4, 1]);
    assert!(b.given_up(10 * SECOND, 1000).is_empty());
    b.retransmit(4 * SECOND, 1000);
    b.retransmit(6 * SECOND, 1000);
    assert_eq!(b.given_up(8 * SECOND, 1000), vec![tokens[0], tokens[1]]);
    b.retransmit(8 * SECOND, 1000);
    assert_eq!(b.tokens(), vec![tokens[2]]);
}

#[test]
fn client_whose_queue_cannot_take_a_retry_is_removed() {
    let mut b = Broker::new(0);
    let t = b.add_client();
    assert!(matches!(b.deliver_to(t, "x", b"m", 1, false, 0), Delivery::Sent));
    for _ in 1..8192 {
        assert!(b.clients.get_mut(&t).unwrap().queue_qos1(vec![0x3a, 0]).is_ok());
    }
    b.retransmit(SECOND, 1000);
    assert!(!b.has_client(t));
}
