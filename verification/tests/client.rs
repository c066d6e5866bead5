//! One client: its queue, its packet ids, its batches.
use mqtt_broker::client::{Client, InFlight};
use mqtt_broker::model::{BATCH_MAX, IN_FLIGHT_CAP, WRITE_QUEUE_CAP};

fn in_flight() -> InFlight {
    InFlight { pkt: vec![0x32, 0], sent_at: 0, retries: 0, qos2: false, await_pubcomp: false }
}

#[test]
fn droppable_packets_stop_at_the_limit() {
    let mut c = Client::new(3);
    for _ in 0..WRITE_QUEUE_CAP {
        assert!(c.queue_qos0(vec![1]));
    }
    assert!(!c.queue_qos0(vec![2]));
    assert_eq!(c.write_queue.len(), 8192);
}

#[test]
fn reliable_packet_evicts_oldest_droppable() {
    let mut c = Client::new(3);
    assert_eq!(c.queue_qos1(vec![100]), Ok(()));
    for i in 0..WRITE_QUEUE_CAP - 1 {
        assert!(c.queue_qos0(vec![(i % 250) as u8]));
    }
    assert_eq!(c.queue_qos1(vec![101]), Ok(()));
    assert_eq!(c.write_queue.len(), WRITE_QUEUE_CAP);
    assert_eq!(c.write_queue[0], (true, vec![100]));
    assert_eq!(c.write_queue[1], (false, vec![1]));
    assert_eq!(c.write_queue[WRITE_QUEUE_CAP - 1], (true, vec![101]));
}

#[test]
fn queue_full_of_reliable_packets_refuses() {
    let mut c = Client::new(3);
    for _ in 0..WRITE_QUEUE_CAP {
        assert_eq!(c.queue_qos1(vec![1]), Ok(()));
    }
    assert_eq!(c.queue_qos1(vec![2]), Err(()));
    assert_eq!(c.write_queue.len(), WRITE_QUEUE_CAP);
}

#[test]
fn packet_ids_count_up() {
    let mut c = Client::new(1);
    assert_eq!(c.alloc_pid(), Some(1));
    assert_eq!(c.alloc_pid(), Some(2));
    c.in_flight.insert(3, in_flight());
    c.in_flight.insert(4, in_flight());
    assert_eq!(c.alloc_pid(), Some(5));
}

#[test]
fn packet_ids_wrap_past_zero() {
    let mut c = Client::new(1);
    c.next_pid = 65535;
    c.in_flight.insert(1, in_flight());
    assert_eq!(c.alloc_pid(), Some(65535));
    assert_eq!(c.next_pid, 0);
    assert_eq!(c.alloc_pid(), Some(2));
}

#[test]
fn packet_ids_end_with_the_window() {
    let mut c = Client::new(1);
    for i in 0..IN_FLIGHT_CAP {
        c.in_flight.insert(i as u16 + 1, in_flight());
    }
    assert_eq!(c.alloc_pid(), None);
    c.in_flight.remove(&17);
    c.next_pid = 10;
    assert_eq!(c.alloc_pid(), Some(17));
}

#[test]
fn packets_are_joined_into_one_batch() {
    let mut c = Client::new(1);
    assert!(c.queue_qos0(vec![1, 2]));
    assert_eq!(c.queue_qos1(vec![3]), Ok(()));
    assert_eq!(c.after_write(0), (0, true));
    assert_eq!(c.unwritten(), &[1, 2, 3]);
    assert_eq!(c.after_write(1), (0, true));
    assert_eq!(c.after_write(1), (1, true));
    assert_eq!(c.unwritten(), &[3]);
    assert_eq!(c.after_write(1), (1, false));
    assert_eq!(c.unwritten().len(), 0);
    assert_eq!(c.after_write(0), (0, false));
}

#[test]
fn batches_stop_at_the_limit() {
    let mut c = Client::new(1);
    for i in 0..5u8 {
        assert!(c.queue_qos0(vec![i; 10000]));
    }
    assert_eq!(c.after_write(0), (0, true));
    assert_eq!(c.unwritten().len(), 40000);
    assert!(c.unwritten().len() >= BATCH_MAX);
    assert_eq!(c.write_queue.len(), 1);
    assert_eq!(c.after_write(25000), (2, true));
    assert_eq!(c.after_write(15000), (2, true));
    assert_eq!(c.unwritten(), vec![4u8; 10000].as_slice());
    assert_eq!(c.after_write(10000), (1, false));
}

#[test]
fn resending_renews_timer_and_count() {
    let mut c = Client::new(1);
    c.in_flight.insert(9, in_flight());
    assert_eq!(c.resend(9, vec![0x3a, 0], 77), Ok(()));
    assert_eq!(c.in_flight[&9].retries, 1);
    assert_eq!(c.in_flight[&9].sent_at, 77);
    assert_eq!(c.write_queue[0], (true, vec![0x3a, 0]));
    // a message that was answered meanwhile is queued without being counted
    assert_eq!(c.resend(10, vec![0x3a, 0], 78), Ok(()));
    assert!(!c.in_flight.contains_key(&10));
}

#[test]
fn what_is_sent_again() {
    let mut f = in_flight();
    assert_eq!(f.retry_packet(5), vec![0x3a, 0]);
    f.qos2 = true;
    assert_eq!(f.retry_packet(5), vec![0x3a, 0]);
    f.await_pubcomp = true;
    assert_eq!(f.retry_packet(5), vec![0x6a, 0x02, 0x00, 0x05]);
}

#[test]
fn due_after_the_retry_time() {
    let f = InFlight { sent_at: 1_000_000_000, ..in_flight() };
    assert!(!f.is_due(1_499_999_999, 500));
    assert!(f.is_due(1_500_000_000, 500));
    assert!(!f.is_due(0, 500));
    assert!(f.is_due(0, 0));
    assert!(!f.is_due(u64::MAX, u64::MAX));
}
