//! The wire format: framing, builders, parsers.
use mqtt_broker::bytes::encode_rem;
use mqtt_broker::frame::{decode_rem_at, split_packets, FrameError, MAX_PACKET};
use mqtt_broker::packet::{
    build_connack, build_forward, build_pingresp, build_puback, build_pubcomp, build_pubrec,
    build_pubrel, build_suback, build_unsuback, parse_connect, parse_publish, parse_subscribe,
    parse_unsubscribe, split_connect, split_publish, split_subscribe, split_unsubscribe,
};
use mqtt_broker::requests::{
    ack_pkt, can_read, count_pub, enc, parse_fwd, parse_pub, pkt, pkt_connect,
    pkt_connect_session, pkt_connect_will, pkt_disconnect, pkt_ping, pkt_pingreq, pkt_puback,
    pkt_publish, pkt_publish_qos0, pkt_publish_qos1, pkt_publish_with_id, pkt_subscribe,
    pkt_unsubscribe, ptype, pub_pkt, share_step, tally_step,
};
use mqtt_broker::text::decode_text;

fn rem(len: usize) -> Vec<u8> {
    let mut buf = Vec::new();
    encode_rem(len, &mut buf);
    buf
}

fn body(packet: &[u8]) -> Vec<u8> {
    let (mut list, used) = split_packets(packet).unwrap();
    assert_eq!(used, packet.len());
    assert_eq!(list.len(), 1);
    list.remove(0).2
}

#[test]
fn remaining_length_bytes() {
    assert_eq!(rem(0), vec![0x00]);
    assert_eq!(rem(127), vec![0x7f]);
    assert_eq!(rem(128), vec![0x80, 0x01]);
    assert_eq!(rem(16383), vec![0xff, 0x7f]);
    assert_eq!(rem(16384), vec![0x80, 0x80, 0x01]);
    assert_eq!(rem(2097151), vec![0xff, 0xff, 0x7f]);
    assert_eq!(rem(268435455), vec![0xff, 0xff, 0xff, 0x7f]);
}

#[test]
fn remaining_length_is_appended() {
    let mut buf = vec![0x30];
    encode_rem(321, &mut buf);
    assert_eq!(buf, vec![0x30, 0xc1, 0x02]);
}

#[test]
fn remaining_length_read_back() {
    for n in [0usize, 1, 127, 128, 300, 16383, 16384, 1048576, 268435455] {
        let bytes = rem(n);
        assert_eq!(decode_rem_at(&bytes, 0), Some((n, bytes.len())));
    }
    assert_eq!(decode_rem_at(&[], 0), None);
    assert_eq!(decode_rem_at(&[0x80], 0), None);
    assert_eq!(decode_rem_at(&[0x80, 0x80, 0x80, 0x80, 0x01], 0), None);
    assert_eq!(decode_rem_at(&[0xaa, 0x05], 1), Some((5, 1)));
}

#[test]
fn packets_split_in_order() {
    let mut stream = pkt_pingreq();
    stream.extend_from_slice(&pkt_publish_qos0("a/b", b"hi"));
    stream.extend_from_slice(&[0x40, 0x02, 0x00]);
    let (list, used) = split_packets(&stream).unwrap();
    assert_eq!(list.len(), 2);
    assert_eq!(list[0], (12, 0, vec![]));
    assert_eq!(list[1], (3, 0, vec![0, 3, b'a', b'/', b'b', b'h', b'i']));
    assert_eq!(used, stream.len() - 3);
}

#[test]
fn pieces_give_the_same_packets() {
    let mut stream = pkt_connect("c1");
    stream.extend_from_slice(&pkt_subscribe(7, "x/#", 1));
    stream.extend_from_slice(&pkt_disconnect());
    let (whole, used) = split_packets(&stream).unwrap();
    assert_eq!(used, stream.len());
    for cut in 0..stream.len() {
        let (mut first, n) = split_packets(&stream[..cut]).unwrap();
        let (rest, m) = split_packets(&stream[n..]).unwrap();
        first.extend(rest);
        assert_eq!(first, whole);
        assert_eq!(n + m, stream.len());
    }
}

#[test]
fn oversized_packet_refused() {
    let mut stream = pkt_pingreq();
    stream.push(0x30);
    encode_rem(MAX_PACKET + 1, &mut stream);
    assert_eq!(split_packets(&stream), Err(FrameError::TooLarge(1048577)));
    let mut largest = vec![0x30];
    encode_rem(MAX_PACKET, &mut largest);
    assert_eq!(split_packets(&largest), Ok((vec![], 0)));
}

#[test]
fn five_length_bytes_refused() {
    for stream in [
        vec![0x30, 0x80, 0x80, 0x80, 0x80, 0x01, 0x00],
        vec![0x30, 0xff, 0xff, 0xff, 0xff, 0x01],
        vec![0x30, 0xff, 0xff, 0xff, 0xff],
        vec![0xc0, 0x00, 0x10, 0x80, 0x80, 0x80, 0x80],
    ] {
        assert_eq!(split_packets(&stream), Err(FrameError::BadLength));
    }
}

#[test]
fn unfinished_length_waits() {
    for n in 0..4 {
        let mut stream = vec![0x30];
        stream.extend_from_slice(&vec![0xff; n]);
        assert_eq!(split_packets(&stream), Ok((vec![], 0)));
    }
}

#[test]
fn broker_packets() {
    assert_eq!(build_connack(), vec![0x20, 0x02, 0x00, 0x00]);
    assert_eq!(build_suback(0x0102, &[0, 1, 2]), vec![0x90, 0x05, 0x01, 0x02, 0, 1, 2]);
    assert_eq!(build_unsuback(9), vec![0xb0, 0x02, 0x00, 0x09]);
    assert_eq!(build_puback(300), vec![0x40, 0x02, 0x01, 0x2c]);
    assert_eq!(build_pubrec(1), vec![0x50, 0x02, 0x00, 0x01]);
    assert_eq!(build_pubrel(1), vec![0x62, 0x02, 0x00, 0x01]);
    assert_eq!(build_pubcomp(1), vec![0x70, 0x02, 0x00, 0x01]);
    assert_eq!(build_pingresp(), vec![0xd0, 0x00]);
}

#[test]
fn forward_bytes() {
    assert_eq!(
        build_forward(b"t", b"xy", 0, None, false, false),
        vec![0x30, 0x05, 0x00, 0x01, b't', b'x', b'y']
    );
    assert_eq!(
        build_forward(b"t", b"xy", 1, Some(258), true, true),
        vec![0x3b, 0x07, 0x00, 0x01, b't', 0x01, 0x02, b'x', b'y']
    );
    assert_eq!(build_forward(b"t", b"", 2, Some(1), false, false)[0], 0x34);
}

#[test]
fn forward_with_long_payload() {
    let packet = build_forward(b"t", &[7u8; 200], 1, Some(5), false, false);
    assert_eq!(&packet[..3], &[0x32, 0xcd, 0x01]);
    assert_eq!(packet.len(), 3 + 205);
}

#[test]
fn forward_prefix_keeps_sixteen_bits() {
    let topic = vec![b'a'; 65537];
    let packet = build_forward(&topic, b"", 0, None, false, false);
    assert_eq!(&packet[4..6], &[0x00, 0x01]);
    assert_eq!(packet.len(), 4 + 2 + 65537);
}

#[test]
fn publish_read_back() {
    for (qos, pid) in [(0u8, None), (1, Some(7u16)), (2, Some(65535))] {
        let packet = build_forward(b"a/b", b"payload", qos, pid, false, true);
        let r = parse_publish(packet[0] & 0x0f, &body(&packet)).unwrap();
        assert_eq!(r, ("a/b".to_string(), qos, pid, b"payload".to_vec(), true));
    }
}

#[test]
fn publish_refused() {
    assert_eq!(parse_publish(0, &[0, 0]), None);
    assert_eq!(parse_publish(0, &[0, 5, b'a']), None);
    assert_eq!(parse_publish(2, &[0, 1, b'a', 9]), None);
    assert_eq!(
        parse_publish(2, &[0, 1, b'a', 0, 9]),
        Some(("a".to_string(), 1, Some(9), vec![], false))
    );
    assert_eq!(
        split_publish(0x01, &[0, 1, b'a']),
        Some((vec![b'a'], 0, None, vec![], true))
    );
    // an empty topic with an empty payload is too short
    assert_eq!(parse_publish(0, &body(&build_forward(b"", b"", 0, None, false, false))), None);
}

#[test]
fn connect_read_back() {
    let r = parse_connect(&body(&pkt_connect("client-A"))).unwrap();
    assert_eq!(
        r,
        ("client-A".to_string(), 60, false, 0, false, String::new(), vec![], true)
    );
    let r = parse_connect(&body(&pkt_connect_session("sess1", false))).unwrap();
    assert_eq!(r.0, "sess1");
    assert!(!r.7);
}

#[test]
fn connect_bytes() {
    assert_eq!(
        pkt_connect("ab"),
        vec![0x10, 0x0e, 0, 4, b'M', b'Q', b'T', b'T', 4, 0x02, 0, 60, 0, 2, b'a', b'b']
    );
}

#[test]
fn connect_with_will_read_back() {
    let packet = pkt_connect_will("willC", true, "will/retained", b"sticky", true, 1);
    let r = parse_connect(&body(&packet)).unwrap();
    assert_eq!(
        r,
        (
            "willC".to_string(),
            60,
            true,
            1,
            true,
            "will/retained".to_string(),
            b"sticky".to_vec(),
            true
        )
    );
    let packet = pkt_connect_will("w", false, "t", b"", false, 2);
    let r = parse_connect(&body(&packet)).unwrap();
    assert_eq!((r.2, r.3, r.4, r.7), (true, 2, false, false));
}

#[test]
fn connect_refused() {
    assert_eq!(parse_connect(&[0; 11]), None);
    // the announced protocol name does not fit
    assert_eq!(parse_connect(&[0, 9, 1, 1, 1, 1, 1, 1, 1, 1, 1, 1]), None);
    // the client id does not fit
    assert_eq!(parse_connect(&[0, 4, b'M', b'Q', b'T', b'T', 4, 2, 0, 60, 0, 1]), None);
    // a will is announced and missing, then only half there
    assert_eq!(parse_connect(&[0, 4, b'M', b'Q', b'T', b'T', 4, 6, 0, 60, 0, 0]), None);
    assert_eq!(
        parse_connect(&[0, 4, b'M', b'Q', b'T', b'T', 4, 6, 0, 60, 0, 0, 0, 1, b't']),
        None
    );
    assert!(split_connect(&[0, 4, b'M', b'Q', b'T', b'T', 4, 2, 0, 60, 0, 0]).is_some());
}

#[test]
fn subscribe_read_back() {
    let r = parse_subscribe(&body(&pkt_subscribe(258, "test/+/foo", 1))).unwrap();
    assert_eq!(r, (258, vec![("test/+/foo".to_string(), 1)]));
    let two = [0, 1, 0, 1, b'a', 0, 0, 2, b'b', b'c', 0x82];
    assert_eq!(
        parse_subscribe(&two),
        Some((1, vec![("a".to_string(), 0), ("bc".to_string(), 2)]))
    );
    // a single byte at the end is passed over
    assert_eq!(
        parse_subscribe(&[0, 1, 0, 1, b'a', 3, 0]),
        Some((1, vec![("a".to_string(), 3)]))
    );
}

#[test]
fn filter_lists_read_back() {
    let mut list = vec![0x01, 0x02];
    for (filter, qos) in [("a/+", 0u8), ("#", 1), ("", 2), ("h\u{e9}", 0xff)] {
        list.extend_from_slice(&enc(filter));
        list.push(qos);
    }
    assert_eq!(
        parse_subscribe(&body(&pkt(8, 2, &list))),
        Some((
            258,
            vec![
                ("a/+".to_string(), 0),
                ("#".to_string(), 1),
                (String::new(), 2),
                ("h\u{e9}".to_string(), 3),
            ]
        ))
    );
    let mut list = vec![0x01, 0x02];
    for filter in ["a/+", "", "#"] {
        list.extend_from_slice(&enc(filter));
    }
    assert_eq!(
        parse_unsubscribe(&body(&pkt(10, 2, &list))),
        Some((258, vec!["a/+".to_string(), String::new(), "#".to_string()]))
    );
}

#[test]
fn subscribe_refused() {
    assert_eq!(parse_subscribe(&[0, 1]), None);
    assert_eq!(parse_subscribe(&[0, 1, 0, 2, b'a']), None);
    assert_eq!(parse_subscribe(&[0, 1, 0, 1, b'a']), None);
    assert_eq!(split_subscribe(&[0, 1, 0]), Some((1, vec![])));
}

#[test]
fn unsubscribe_read_back() {
    let r = parse_unsubscribe(&body(&pkt_unsubscribe(9, "test/#"))).unwrap();
    assert_eq!(r, (9, vec!["test/#".to_string()]));
    assert_eq!(parse_unsubscribe(&[0, 9]), None);
    assert_eq!(parse_unsubscribe(&[0, 9, 0, 3, b'a']), None);
    assert_eq!(
        split_unsubscribe(&[0, 9, 0, 1, b'a', 0, 0]),
        Some((9, vec![vec![b'a'], vec![]]))
    );
}

#[test]
fn invalid_text_is_replaced() {
    assert_eq!(decode_text(b"plain"), "plain");
    assert_eq!(decode_text(&[0xff, b'a']), "\u{fffd}a");
    let r = parse_publish(0, &[0, 2, 0xc3, 0x28, b'x']).unwrap();
    assert_eq!(r.0, "\u{fffd}(");
    assert_eq!(r.3, vec![b'x']);
}

#[test]
fn text_read_back() {
    for s in ["", "test/hello", "h\u{e9}llo/\u{4e16}\u{754c}", "\u{1f980}"] {
        assert_eq!(decode_text(s.as_bytes()), s);
    }
}

#[test]
fn client_packets() {
    assert_eq!(pkt_pingreq(), vec![0xc0, 0x00]);
    assert_eq!(pkt_ping(), vec![0xc0, 0x00]);
    assert_eq!(pkt_disconnect(), vec![0xe0, 0x00]);
    assert_eq!(pkt_puback(0x0203), vec![0x40, 0x02, 0x02, 0x03]);
    assert_eq!(ack_pkt(5, 1), vec![0x50, 0x02, 0x00, 0x01]);
    assert_eq!(ack_pkt(6, 50), vec![0x62, 0x02, 0x00, 0x32]);
    assert_eq!(ack_pkt(7, 1), vec![0x70, 0x02, 0x00, 0x01]);
    assert_eq!(pkt_subscribe(1, "a", 2), vec![0x82, 0x06, 0, 1, 0, 1, b'a', 2]);
    assert_eq!(pkt_unsubscribe(1, "a"), vec![0xa2, 0x05, 0, 1, 0, 1, b'a']);
    assert_eq!(enc("MQTT"), vec![0, 4, b'M', b'Q', b'T', b'T']);
    assert_eq!(pkt(8, 2, &[1, 2]), vec![0x82, 0x02, 1, 2]);
    assert_eq!(ptype(0x3b), 3);
}

#[test]
fn client_publishes() {
    assert_eq!(pkt_publish("t", b"p", 0), vec![0x30, 0x04, 0, 1, b't', b'p']);
    assert_eq!(pkt_publish("t", b"p", 1), vec![0x32, 0x06, 0, 1, b't', 0, 1, b'p']);
    assert_eq!(pkt_publish("t", b"p", 5)[0], 0x32);
    assert_eq!(pkt_publish_qos0("t", b"p"), vec![0x30, 0x04, 0, 1, b't', b'p']);
    assert_eq!(pkt_publish_qos1(7, "t", b"p"), vec![0x32, 0x06, 0, 1, b't', 0, 7, b'p']);
    assert_eq!(pkt_publish_with_id(2, 10, "t", b"p"), vec![0x34, 0x06, 0, 1, b't', 0, 10, b'p']);
    assert_eq!(pkt_publish_with_id(0, 10, "t", b"p"), vec![0x30, 0x04, 0, 1, b't', b'p']);
    assert_eq!(pub_pkt(50, "t", b"", 2, true), vec![0x35, 0x05, 0, 1, b't', 0, 50]);
}

#[test]
fn forwarded_publish_read_by_client() {
    let b = body(&pkt_publish_qos1(300, "q1/topic", b"hello-qos1"));
    assert!(can_read(&b, 1));
    assert_eq!(parse_fwd(&b, 1), (Some(300), b"hello-qos1".to_vec()));
    assert_eq!(parse_pub(&b, 1), ("q1/topic".to_string(), Some(300), b"hello-qos1".to_vec()));
    let b = body(&pkt_publish_qos0("q", b"x"));
    assert_eq!(parse_fwd(&b, 0), (None, b"x".to_vec()));
    assert!(!can_read(&[0], 0));
    assert!(!can_read(&[0, 2, b'a'], 0));
    assert!(!can_read(&[0, 1, b'a', 0], 1));
}

#[test]
fn publishes_counted() {
    let reads = vec![vec![0x30, 0], vec![], vec![0x90, 0], vec![0x3b], vec![0x20, 2, 0, 0]];
    assert_eq!(count_pub(&reads), 2);
    assert_eq!(count_pub(&[]), 0);
}

#[test]
fn subscriber_stops_after_its_share() {
    assert_eq!(share_step(0, 2, Some(3)), (1, true));
    assert_eq!(share_step(1, 2, Some(3)), (2, false));
    assert_eq!(share_step(2, 2, Some(3)), (2, false));
    assert_eq!(share_step(0, 2, Some(9)), (0, false));
    assert_eq!(share_step(1, 2, None), (1, false));
}

#[test]
fn counting_client_passes_over_other_packets() {
    assert_eq!(tally_step(0, 2, Some(3)), (1, true));
    assert_eq!(tally_step(1, 2, Some(9)), (1, true));
    assert_eq!(tally_step(1, 2, Some(3)), (2, false));
    assert_eq!(tally_step(2, 2, Some(3)), (2, false));
    assert_eq!(tally_step(1, 2, None), (1, false));
}
