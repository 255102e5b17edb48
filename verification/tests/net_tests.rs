use std::collections::HashMap;

use cpu_game::ack::AckTracker;
use cpu_game::endpoint::{PacketEndpoint, PacketHeader};
use cpu_game::framing::{encode_frame, frame_payload_len};
use cpu_game::reliable::{ReliableChannel, RETRANSMIT_NS};
use cpu_game::runtime::{drop_acked_inputs, inputs_to_replay, MAX_PENDING};
use cpu_game::server::allocate_controller_id;

#[test]
fn ack_tracker_records_newest_and_history() {
    let mut t = AckTracker::default();
    assert_eq!((t.ack(), t.ack_bits()), (0, 0));
    t.record(1);
    t.record(2);
    t.record(5);
    assert_eq!(t.ack(), 5);
    // 4 missing, 3 missing, 2 and 1 received, 0 (the start) counts as received
    assert_eq!(t.ack_bits(), 0b11100);
    assert!(t.is_acked(5) && t.is_acked(2) && t.is_acked(1) && t.is_acked(0));
    assert!(!t.is_acked(4) && !t.is_acked(3));
    // an older packet arriving late fills its bit
    t.record(4);
    assert_eq!(t.ack(), 5);
    assert!(t.is_acked(4));
    // a repeat changes nothing
    t.record(5);
    assert_eq!((t.ack(), t.ack_bits()), (5, 0b11101));
}

#[test]
fn ack_tracker_wraps_and_forgets_old_history() {
    let mut t = AckTracker::default();
    // 65535 is one behind 0 on the sequence circle: an old packet
    t.record(65535);
    assert_eq!((t.ack(), t.ack_bits()), (0, 1));
    assert!(t.is_acked(65535));
    t.record(2);
    assert_eq!((t.ack(), t.ack_bits()), (2, 0b110));
    assert!(t.is_acked(65535));
    assert!(t.is_acked(0));
    assert!(!t.is_acked(1));
    t.record(40);
    assert_eq!((t.ack(), t.ack_bits()), (40, 0));
    assert!(t.is_acked(40));
    assert!(!t.is_acked(2));
    assert!(AckTracker::acked_by_remote(100, 0, 100));
    assert!(AckTracker::acked_by_remote(100, 1 << 31, 68));
    assert!(!AckTracker::acked_by_remote(100, u32::MAX, 67));
}

#[test]
fn reliable_messages_resend_until_acknowledged() {
    let mut ch: ReliableChannel<&str> = ReliableChannel::new();
    ch.enqueue("a");
    ch.enqueue("b");
    let first = ch.collect_for_send_at(10, 0);
    assert_eq!(first.iter().map(|p| (p.sequence, p.message)).collect::<Vec<_>>(), vec![(0, "a"), (1, "b")]);
    // not due again before the retransmit delay
    assert!(ch.collect_for_send_at(11, RETRANSMIT_NS - 1).is_empty());
    ch.enqueue("c");
    let second = ch.collect_for_send_at(12, RETRANSMIT_NS);
    assert_eq!(second.iter().map(|p| p.message).collect::<Vec<_>>(), vec!["a", "b", "c"]);
    // packet 12 acknowledged: all three were last sent in it
    ch.on_ack(12, 0);
    assert!(ch.collect_for_send_at(13, 10 * RETRANSMIT_NS).is_empty());
}

#[test]
fn reliable_ack_of_older_packet_keeps_resent_messages() {
    let mut ch: ReliableChannel<u32> = ReliableChannel::default();
    ch.enqueue(7);
    ch.collect_for_send_at(1, 0);
    ch.collect_for_send_at(2, RETRANSMIT_NS);
    // the message was last carried by packet 2; acking packet 1 alone keeps it
    ch.on_ack(1, 0);
    assert_eq!(ch.collect_for_send_at(3, 2 * RETRANSMIT_NS).len(), 1);
    let now_sent = ch.collect_for_send(4);
    assert!(now_sent.len() <= 1);
}

#[test]
fn endpoint_round_trip_releases_reliable_messages() {
    let mut client: PacketEndpoint<u8> = PacketEndpoint::new();
    let mut server: PacketEndpoint<u8> = PacketEndpoint::new();
    client.reliable.enqueue(42);

    let (h0, payloads) = client.next_packet_at(0);
    assert_eq!(h0, PacketHeader { sequence: 0, ack: 0, ack_bits: 0 });
    assert_eq!(payloads.len(), 1);
    assert_eq!(client.send_sequence, 1);

    let (h1, _) = client.next_packet_at(1);
    assert_eq!(h1.sequence, 1);
    server.on_packet(h1);
    let (reply, _) = server.next_packet_at(0);
    assert_eq!(reply, PacketHeader { sequence: 0, ack: 1, ack_bits: 1 });

    // recording packet 1 marks the server's previous newest sequence, 0, as
    // received, so its reply acknowledges packet 0, which carried the message
    client.on_packet(reply);
    assert!(client.next_packet_at(RETRANSMIT_NS * 5).1.is_empty());
    assert_eq!(client.recv_ack_tracker.ack(), 0);
}

#[test]
fn endpoint_sequence_wraps() {
    let mut e: PacketEndpoint<u8> = PacketEndpoint::new();
    e.send_sequence = u16::MAX;
    let (h, _) = e.next_packet();
    assert_eq!(h.sequence, u16::MAX);
    assert_eq!(e.send_sequence, 0);
}

#[test]
fn frames_carry_length_then_payload() {
    let framed = encode_frame(&[9, 8, 7]).unwrap();
    assert_eq!(framed, vec![3, 0, 0, 0, 9, 8, 7]);
    assert_eq!(frame_payload_len([3, 0, 0, 0]), 3);
    assert_eq!(frame_payload_len([0x01, 0x02, 0x03, 0x04]), 0x0403_0201);
    let big = vec![0u8; 300];
    let framed = encode_frame(&big).unwrap();
    assert_eq!(frame_payload_len([framed[0], framed[1], framed[2], framed[3]]), 300);
    assert_eq!(&framed[4..], &big[..]);
    assert_eq!(encode_frame(&[]).unwrap(), vec![0, 0, 0, 0]);
}

#[test]
fn replay_keeps_newest_unacked_local_inputs() {
    let inputs = vec![(1, 5), (2, 9), (1, 6), (1, 7), (1, 3)];
    assert_eq!(inputs_to_replay(&inputs, 1, 5), vec![2, 3]);
    assert_eq!(inputs_to_replay(&inputs, 2, 0), vec![1]);
    assert!(inputs_to_replay(&inputs, 3, 0).is_empty());

    let many: Vec<(u64, u64)> = (0..100).map(|t| (1, t)).collect();
    let window = inputs_to_replay(&many, 1, 0);
    assert_eq!(window.len(), MAX_PENDING);
    assert_eq!(window[0], 100 - MAX_PENDING);
    assert_eq!(*window.last().unwrap(), 99);
}

#[test]
fn controller_ids_skip_taken_ones() {
    let mut players: HashMap<u64, &str> = HashMap::new();
    players.insert(1, "a");
    players.insert(2, "b");
    players.insert(4, "c");
    let mut next = 1u64;
    assert_eq!(allocate_controller_id(&players, &mut next), 3);
    assert_eq!(next, 4);
    assert_eq!(allocate_controller_id(&players, &mut next), 5);
    assert_eq!(next, 6);
    let empty: HashMap<u64, ()> = HashMap::new();
    let mut next = 10u64;
    assert_eq!(allocate_controller_id(&empty, &mut next), 10);
    assert_eq!(next, 11);
}

#[test]
fn acknowledged_inputs_are_forgotten_in_order() {
    let mut pending = vec![(1u64, 5u64), (2, 9), (1, 7), (1, 3), (2, 8)];
    drop_acked_inputs(&mut pending, 7);
    assert_eq!(pending, vec![(2, 9), (2, 8)]);
    let mut none_acked = vec![(1u64, 1u64), (1, 2)];
    drop_acked_inputs(&mut none_acked, 0);
    assert_eq!(none_acked, vec![(1, 1), (1, 2)]);
    let mut empty: Vec<(u64, u64)> = Vec::new();
    drop_acked_inputs(&mut empty, 100);
    assert!(empty.is_empty());
}

#[test]
fn a_packet_sent_now_does_not_resend_its_messages_at_once() {
    let mut endpoint: PacketEndpoint<u32> = PacketEndpoint::new();
    endpoint.reliable.enqueue(7);
    let (first, carried) = endpoint.next_packet();
    assert_eq!(first.sequence, 0);
    assert_eq!(carried.len(), 1);
    assert_eq!(carried[0].message, 7);
    let (second, again) = endpoint.next_packet();
    assert_eq!(second.sequence, 1);
    assert!(again.is_empty());
}
