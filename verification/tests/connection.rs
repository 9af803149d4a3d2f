//! A connection: fragmentation, the send window, acknowledgements, retransmission and timers.

use bytes::Bytes;
use cquic::{
    decode_packet, enqueue_reliable, ConnShared, Error, Frame, OutPacket, Round,
    DATAGRAM_QUEUE_CAP, DUP_ACK_THRESHOLD, IDLE_TIMEOUT, MAX_INFLIGHT_BYTES, MAX_INFLIGHT_MSGS,
    MAX_MESSAGE_SIZE, MAX_RELIABLE_CHUNK, PING_INTERVAL, RELIABLE_QUEUE_CAP, RTO_INIT, RTO_MAX,
    SEND_QUEUE_CAP,
};

/// A connection whose handshake is done.
fn open(now: u64) -> ConnShared<u8> {
    let mut c = ConnShared::new(42, 7u8, now);
    assert!(c.establish());
    assert!(!c.establish());
    c
}

fn say(c: &mut ConnShared<u8>, data: &[u8]) {
    assert!(c.send_reliable(Bytes::from(data.to_vec())).is_none());
}

fn beat(c: &mut ConnShared<u8>, data: &[u8]) {
    assert!(matches!(c.send_datagram(Bytes::from(data.to_vec())), Ok(None)));
}

/// All messages that wait for the user.
fn heard(c: &mut ConnShared<u8>) -> Vec<Bytes> {
    let mut all = Vec::new();
    while let Ok(Some(m)) = c.recv_reliable() {
        all.push(m);
    }
    all
}

/// All datagrams that wait for the user.
fn beats(c: &mut ConnShared<u8>) -> Vec<Bytes> {
    let mut all = Vec::new();
    while let Ok(Some(d)) = c.recv_datagram() {
        all.push(d);
    }
    all
}

fn round(c: &mut ConnShared<u8>, now: u64) -> Round<u8> {
    assert!(c.has_seq_room());
    c.send_round(now)
}

fn frames_of(packets: &[OutPacket<u8>]) -> Vec<Frame> {
    let mut all = Vec::new();
    for (to, pkt) in packets {
        assert_eq!(*to, 7);
        let (cid, frames) = decode_packet(pkt).unwrap();
        assert_eq!(cid, 42);
        all.extend(frames);
    }
    all
}

/// The chunks among frames: number, last, length.
fn chunks(frames: &[Frame]) -> Vec<(u64, bool, usize)> {
    frames
        .iter()
        .filter_map(|f| match f {
            Frame::Msg { seq, fin, data } => Some((*seq, *fin, data.len())),
            _ => None,
        })
        .collect()
}

fn count(n: usize) -> Vec<u8> {
    (0..n).map(|i| (i % 251) as u8).collect()
}

fn msg(seq: u64, fin: bool, data: &[u8]) -> Frame {
    Frame::Msg { seq, fin, data: data.to_vec() }
}

#[test]
fn a_message_is_cut_into_full_chunks_and_a_last_one() {
    let mut c = open(0);
    let rest = enqueue_reliable(&mut c.inner, Bytes::from(count(MAX_RELIABLE_CHUNK * 7 / 2)), 5);
    assert!(rest.is_none());
    let got: Vec<(u64, bool, usize, u64)> =
        c.inner.inflight.iter().map(|f| (f.seq, f.fin, f.data.len(), f.sent_at)).collect();
    assert_eq!(
        got,
        vec![(0, false, 1200, 5), (1, false, 1200, 5), (2, false, 1200, 5), (3, true, 600, 5)]
    );
    assert_eq!(c.inner.inflight_bytes, 4200);
    assert_eq!(c.inner.send_next, 4);
    assert_eq!(c.inner.last_sent, 5);
}

#[test]
fn a_message_of_whole_chunks_has_no_empty_tail() {
    let mut c = open(0);
    assert!(enqueue_reliable(&mut c.inner, Bytes::from(count(2400)), 0).is_none());
    let got: Vec<(bool, usize)> = c.inner.inflight.iter().map(|f| (f.fin, f.data.len())).collect();
    assert_eq!(got, vec![(false, 1200), (true, 1200)]);
}

#[test]
fn an_empty_message_is_one_empty_chunk() {
    let mut c = open(0);
    assert!(enqueue_reliable(&mut c.inner, Bytes::new(), 0).is_none());
    assert_eq!(c.inner.inflight.len(), 1);
    assert!(c.inner.inflight[0].fin);
    assert_eq!(c.inner.inflight[0].data.len(), 0);
}

#[test]
fn the_window_limits_bytes() {
    let mut c = open(0);
    let data = count(MAX_INFLIGHT_BYTES + 5000);
    let rest = enqueue_reliable(&mut c.inner, Bytes::from(data.clone()), 0).unwrap();
    let full = MAX_INFLIGHT_BYTES / MAX_RELIABLE_CHUNK;
    assert_eq!(full, 218);
    assert_eq!(c.inner.inflight.len(), full);
    assert_eq!(c.inner.inflight_bytes, full * MAX_RELIABLE_CHUNK);
    assert_eq!(&rest[..], &data[full * MAX_RELIABLE_CHUNK..]);
}

#[test]
fn the_window_limits_chunks_and_an_empty_message_is_not_lost() {
    let mut c = open(0);
    for _ in 0..MAX_INFLIGHT_MSGS {
        assert!(enqueue_reliable(&mut c.inner, Bytes::from_static(b"x"), 0).is_none());
    }
    let rest = enqueue_reliable(&mut c.inner, Bytes::new(), 0);
    assert_eq!(rest, Some(Bytes::new()));
    assert_eq!(c.inner.inflight.len(), MAX_INFLIGHT_MSGS);
}

#[test]
fn a_message_cut_short_goes_on_before_later_ones() {
    let mut c = open(0);
    let long = count(MAX_INFLIGHT_BYTES + 3000);
    say(&mut c, &long);
    say(&mut c, b"after");
    let r = round(&mut c, 1);
    assert!(!r.released);
    assert_eq!(c.commands.len(), 1);
    assert_eq!(c.inner.pending.as_ref().unwrap().len(), MAX_INFLIGHT_BYTES + 3000 - 218 * 1200);
    let mut all = chunks(&frames_of(&r.packets));
    assert_eq!(all.len(), 218);
    c.inner.acknowledge(218);
    let r = round(&mut c, 2);
    assert!(c.inner.pending.is_none());
    assert!(c.commands.is_empty());
    all.extend(chunks(&frames_of(&r.packets)));
    assert_eq!(all.len(), 222);
    for (i, c) in all.iter().enumerate() {
        assert_eq!(c.0, i as u64);
    }
    assert_eq!(&all[218..], &[(218, false, 1200), (219, false, 1200), (220, true, 1144), (221, true, 5)]);
}

#[test]
fn a_cumulative_acknowledgement_lets_go_of_lower_chunks() {
    let mut c = open(0);
    assert!(enqueue_reliable(&mut c.inner, Bytes::from(count(6000)), 0).is_none());
    c.inner.acknowledge(3);
    let left: Vec<u64> = c.inner.inflight.iter().map(|f| f.seq).collect();
    assert_eq!(left, vec![3, 4]);
    assert_eq!(c.inner.inflight_bytes, 2400);
    assert_eq!(c.inner.last_ack, 3);
    c.inner.acknowledge(2);
    assert_eq!(c.inner.inflight.len(), 2);
    c.inner.acknowledge(u64::MAX);
    assert_eq!(c.inner.inflight.len(), 0);
    assert_eq!(c.inner.inflight_bytes, 0);
}

#[test]
fn any_progress_takes_the_timeout_back() {
    let mut c = open(0);
    assert!(enqueue_reliable(&mut c.inner, Bytes::from(count(3000)), 0).is_none());
    c.inner.resend(1);
    assert_eq!(c.inner.rto, 2 * RTO_INIT);
    c.inner.acknowledge(0);
    assert_eq!(c.inner.rto, 2 * RTO_INIT);
    c.inner.acknowledge(1);
    assert_eq!(c.inner.rto, RTO_INIT);
}

#[test]
fn three_duplicates_set_off_a_retransmission() {
    let mut c = open(0);
    say(&mut c, &count(3600));
    let first = chunks(&frames_of(&round(&mut c, 1).packets));
    c.inner.acknowledge(1);
    for i in 0..DUP_ACK_THRESHOLD {
        assert_eq!(c.inner.dup_acks, i);
        assert!(!c.inner.resend_due(2));
        c.inner.acknowledge(1);
    }
    assert!(c.inner.resend_due(2));
    assert_eq!(c.inner.dup_acks, 0);
    let again = chunks(&frames_of(&round(&mut c, 2).packets));
    assert_eq!(again, first[1..]);
    assert_eq!(again, vec![(1, false, 1200), (2, true, 1200)]);
    assert!(!c.inner.fast_retransmit);
    assert_eq!(c.inner.rto, 2 * RTO_INIT);
    assert!(c.inner.inflight.iter().all(|f| f.sent_at == 2));
}

#[test]
fn an_old_acknowledgement_with_nothing_in_flight_counts_for_nothing() {
    let mut c = open(0);
    for _ in 0..10 {
        c.inner.acknowledge(0);
    }
    assert_eq!(c.inner.dup_acks, 0);
    assert!(!c.inner.fast_retransmit);
}

#[test]
fn a_timeout_sends_all_again_and_doubles_up_to_the_limit() {
    let mut c = open(0);
    say(&mut c, b"lost");
    assert_eq!(chunks(&frames_of(&round(&mut c, 0).packets)), vec![(0, true, 4)]);
    let mut now = 0;
    let mut expected = RTO_INIT;
    for _ in 0..8 {
        assert_eq!(c.inner.rto, expected);
        assert!(chunks(&frames_of(&round(&mut c, now + expected - 1).packets)).is_empty());
        now += expected;
        c.inner.last_recv = now;
        assert_eq!(chunks(&frames_of(&round(&mut c, now).packets)), vec![(0, true, 4)]);
        expected = (2 * expected).min(RTO_MAX);
    }
    assert_eq!(c.inner.rto, RTO_MAX);
    assert_eq!(RTO_MAX, 2_000_000_000);
    assert_eq!(RTO_INIT, 200_000_000);
}

#[test]
fn a_retransmission_follows_what_is_new() {
    let mut c = open(0);
    say(&mut c, b"a");
    assert_eq!(chunks(&frames_of(&round(&mut c, 0).packets)), vec![(0, true, 1)]);
    say(&mut c, b"bc");
    let sent = chunks(&frames_of(&round(&mut c, RTO_INIT).packets));
    assert_eq!(sent, vec![(1, true, 2), (0, true, 1), (1, true, 2)]);
    assert!(c.inner.inflight.iter().all(|f| f.sent_at == RTO_INIT));
}

#[test]
fn chunks_are_put_together_again() {
    let mut c = open(0);
    let frames = vec![msg(0, false, b"ab"), msg(1, false, b""), msg(2, true, b"c"), msg(3, true, b"")];
    c.handle_frames(frames, 9);
    assert!(beats(&mut c).is_empty());
    assert_eq!(heard(&mut c), vec![Bytes::from_static(b"abc"), Bytes::new()]);
    assert_eq!(c.inner.recv_next, 4);
    assert_eq!(c.inner.last_recv, 9);
    let r = round(&mut c, 10);
    let frames = frames_of(&r.packets);
    assert_eq!(frames.len(), 1);
    assert!(matches!(frames[0], Frame::Ack { next_seq: 4 }));
}

#[test]
fn duplicates_and_gaps_change_nothing_but_are_acknowledged() {
    let mut c = open(0);
    c.handle_frames(vec![msg(0, true, b"one")], 1);
    c.handle_frames(vec![msg(0, true, b"one")], 2);
    c.handle_frames(vec![msg(2, true, b"three")], 3);
    assert_eq!(heard(&mut c), vec![Bytes::from_static(b"one")]);
    assert_eq!(c.inner.recv_next, 1);
    let frames = frames_of(&round(&mut c, 4).packets);
    assert_eq!(frames.len(), 3);
    assert!(frames.iter().all(|f| matches!(f, Frame::Ack { next_seq: 1 })));
    c.handle_frames(vec![msg(1, true, b"two"), msg(2, true, b"three")], 5);
    assert_eq!(heard(&mut c), vec![Bytes::from_static(b"two"), Bytes::from_static(b"three")]);
}

#[test]
fn datagrams_pass_through_in_order_and_are_not_acknowledged() {
    let mut c = open(0);
    let frames = vec![
        Frame::Datagram { data: b"x".to_vec() },
        Frame::Ping,
        Frame::Handshake { cid: 3 },
        Frame::HandshakeAck { cid: 3 },
        Frame::Datagram { data: Vec::new() },
    ];
    c.handle_frames(frames, 1);
    assert_eq!(beats(&mut c), vec![Bytes::from_static(b"x"), Bytes::new()]);
    assert!(heard(&mut c).is_empty());
    assert!(round(&mut c, 2).packets.is_empty());
}

#[test]
fn a_message_of_the_greatest_size_is_delivered() {
    let mut c = open(0);
    c.handle_frames(vec![msg(0, false, &count(MAX_MESSAGE_SIZE - 1)), msg(1, true, b"z")], 1);
    assert!(!c.is_closed());
    assert_eq!(heard(&mut c)[0].len(), MAX_MESSAGE_SIZE);
}

#[test]
fn a_message_that_is_too_long_closes() {
    let mut c = open(0);
    c.handle_frames(vec![msg(0, false, &count(MAX_MESSAGE_SIZE)), msg(1, true, b"z")], 1);
    assert!(c.is_closed());
    assert_eq!(c.inner.recv_next, 2);
    assert!(matches!(c.recv_reliable(), Err(Error::Closed)));
    assert!(round(&mut c, 2).released);
}

#[test]
fn a_user_without_room_closes() {
    let mut c = open(0);
    for i in 0..RELIABLE_QUEUE_CAP {
        c.handle_frames(vec![msg(i as u64, true, &[i as u8])], 1);
    }
    assert!(!c.is_closed());
    let n = RELIABLE_QUEUE_CAP as u64;
    let frames = vec![
        Frame::Datagram { data: b"before".to_vec() },
        msg(n, true, b"b"),
        msg(n + 1, true, b"c"),
        Frame::Datagram { data: b"behind".to_vec() },
    ];
    c.handle_frames(frames, 1);
    assert!(c.is_closed());
    assert_eq!(c.inner.recv_next, n + 1);
    assert_eq!(beats(&mut c), vec![Bytes::from_static(b"before")]);
    let all = heard(&mut c);
    assert_eq!(all.len(), RELIABLE_QUEUE_CAP);
    assert_eq!(all[5], Bytes::from_static(&[5]));
    assert!(matches!(c.recv_reliable(), Err(Error::Closed)));
}

#[test]
fn a_message_that_is_picked_up_makes_room() {
    let mut c = open(0);
    for i in 0..RELIABLE_QUEUE_CAP {
        c.handle_frames(vec![msg(i as u64, true, b"")], 1);
    }
    assert!(matches!(c.recv_reliable(), Ok(Some(_))));
    c.handle_frames(vec![msg(RELIABLE_QUEUE_CAP as u64, true, b"last")], 1);
    assert!(!c.is_closed());
    assert_eq!(heard(&mut c).pop().unwrap(), Bytes::from_static(b"last"));
    assert!(matches!(c.recv_reliable(), Ok(None)));
}

#[test]
fn datagrams_without_room_are_dropped() {
    let mut c = open(0);
    let mut frames = Vec::new();
    for i in 0..DATAGRAM_QUEUE_CAP + 5 {
        frames.push(Frame::Datagram { data: (i as u32).to_le_bytes().to_vec() });
    }
    c.handle_frames(frames, 1);
    assert!(!c.is_closed());
    let got = beats(&mut c);
    assert_eq!(got.len(), DATAGRAM_QUEUE_CAP);
    assert_eq!(got[1023].as_ref(), 1023u32.to_le_bytes());
    assert!(matches!(c.recv_datagram(), Ok(None)));
    c.mark_closed();
    assert!(matches!(c.recv_datagram(), Err(Error::Closed)));
}

#[test]
fn a_full_command_queue_gives_back() {
    let mut c = open(0);
    for _ in 0..SEND_QUEUE_CAP {
        say(&mut c, b"x");
    }
    assert_eq!(c.send_reliable(Bytes::from_static(b"y")), Some(Bytes::from_static(b"y")));
    assert!(matches!(c.send_datagram(Bytes::from_static(b"z")), Ok(Some(b)) if b == "z"));
    assert_eq!(c.commands.len(), SEND_QUEUE_CAP);
    round(&mut c, 1);
    assert_eq!(c.commands.len(), SEND_QUEUE_CAP - MAX_INFLIGHT_MSGS - 1);
    assert!(c.inner.pending.is_some());
    say(&mut c, b"y");
}

#[test]
fn a_closed_connection_queues_commands_and_sends_none() {
    let mut c = open(0);
    c.mark_closed();
    say(&mut c, b"late");
    beat(&mut c, b"late too");
    let r = round(&mut c, 1);
    assert!(r.released);
    assert!(r.packets.is_empty());
    assert_eq!(c.commands.len(), 2);
    assert!(matches!(
        c.send_datagram(Bytes::from(count(MAX_RELIABLE_CHUNK + 1))),
        Err(Error::InvalidParam(_))
    ));
}

#[test]
fn heartbeats_pass_a_message_that_is_held_up() {
    let mut c = open(0);
    say(&mut c, &count(MAX_INFLIGHT_BYTES + 1000));
    say(&mut c, b"behind");
    beat(&mut c, b"beat");
    say(&mut c, b"last");
    let frames = frames_of(&round(&mut c, 1).packets);
    assert_eq!(chunks(&frames).len(), 218);
    assert_eq!(frames.len(), 218);
    assert_eq!(c.commands.len(), 3);
    beat(&mut c, b"again");
    let frames = frames_of(&round(&mut c, 2).packets);
    assert_eq!(frames.len(), 2);
    assert!(matches!(&frames[0], Frame::Datagram { data } if data == b"beat"));
    assert!(matches!(&frames[1], Frame::Datagram { data } if data == b"again"));
    assert_eq!(c.commands.len(), 2);
    c.inner.acknowledge(218);
    let sent = chunks(&frames_of(&round(&mut c, 3).packets));
    let lens: Vec<usize> = sent.iter().map(|c| c.2).collect();
    assert_eq!(lens, vec![1200, 344, 6, 4]);
}

#[test]
fn a_message_and_then_a_close() {
    let mut c = ConnShared::new(42, 7u8, 0);
    c.handle_frames(vec![msg(0, true, b"a"), Frame::Close, msg(1, true, b"b")], 1);
    assert!(c.is_closed());
    assert_eq!(c.inner.recv_next, 1);
    assert!(c.inner.packer.frames.is_empty());
    assert_eq!(heard(&mut c), vec![Bytes::from_static(b"a")]);
}

#[test]
fn a_gap_and_a_repeat() {
    let mut c = ConnShared::new(42, 7u8, 0);
    c.handle_frames(
        vec![msg(0, false, b"a"), msg(2, true, b"c"), msg(0, false, b"a"), msg(1, true, b"b")],
        1,
    );
    assert!(!c.is_closed());
    assert_eq!(c.inner.recv_next, 2);
    assert!(c.inner.assembling.is_empty());
    assert_eq!(c.inner.packer.frames.len(), 1);
    assert!(matches!(c.inner.packer.frames[0], Frame::Ack { next_seq: 2 }));
    assert_eq!(heard(&mut c), vec![Bytes::from_static(b"ab")]);
}

#[test]
fn a_close_from_the_peer_ends_it_all() {
    let mut c = open(0);
    c.handle_frames(vec![msg(0, true, b"a"), Frame::Close, msg(1, true, b"b")], 1);
    assert!(c.is_closed());
    assert_eq!(c.inbox.len(), 1);
    c.handle_frames(vec![msg(1, true, b"b")], 2);
    assert_eq!(c.inbox.len(), 1);
    assert_eq!(c.inner.last_recv, 1);
    say(&mut c, b"too late");
    let r = round(&mut c, 3);
    assert!(r.released);
    assert!(r.packets.is_empty());
    assert_eq!(heard(&mut c), vec![Bytes::from_static(b"a")]);
}

#[test]
fn a_close_by_the_user_tells_the_peer_once() {
    let mut c = open(0);
    assert!(c.close());
    assert!(c.is_closed());
    assert!(!c.close());
    let r = round(&mut c, 1);
    assert!(r.released);
    let frames = frames_of(&r.packets);
    assert_eq!(frames.len(), 1);
    assert!(matches!(frames[0], Frame::Close));
    let r = round(&mut c, 2);
    assert!(r.released);
    assert!(r.packets.is_empty());
}

#[test]
fn a_close_before_the_handshake_sends_nothing() {
    let mut c = ConnShared::new(42, 7u8, 0);
    c.close();
    let r = round(&mut c, 1);
    assert!(r.released);
    assert!(r.packets.is_empty());
}

#[test]
fn nothing_is_sent_before_the_handshake() {
    let mut c = ConnShared::new(42, 7u8, 0);
    say(&mut c, b"early");
    let r = round(&mut c, 1);
    assert!(!r.released);
    assert!(r.packets.is_empty());
    assert_eq!(c.commands.len(), 1);
    c.establish();
    assert_eq!(chunks(&frames_of(&round(&mut c, 2).packets)), vec![(0, true, 5)]);
}

#[test]
fn a_silent_connection_sends_a_probe() {
    let mut c = open(100);
    assert!(round(&mut c, 100 + PING_INTERVAL - 1).packets.is_empty());
    let frames = frames_of(&round(&mut c, 100 + PING_INTERVAL).packets);
    assert_eq!(frames.len(), 1);
    assert!(matches!(frames[0], Frame::Ping));
    assert_eq!(c.inner.last_sent, 100 + PING_INTERVAL);
    assert!(round(&mut c, 100 + PING_INTERVAL + 1).packets.is_empty());
}

#[test]
fn a_silent_peer_is_given_up() {
    let mut c = open(100);
    assert!(!round(&mut c, 100 + IDLE_TIMEOUT - 1).released);
    assert!(!c.is_closed());
    let r = round(&mut c, 100 + IDLE_TIMEOUT);
    assert!(r.released);
    assert!(r.packets.is_empty());
    assert!(c.is_closed());
}

#[test]
fn any_datagram_is_a_sign_of_life() {
    let mut c = open(0);
    c.handle_frames(Vec::new(), 1000);
    assert_eq!(c.inner.last_recv, 1000);
    assert!(!round(&mut c, IDLE_TIMEOUT).released);
    assert!(round(&mut c, 1000 + IDLE_TIMEOUT).released);
}

#[test]
fn a_datagram_may_be_as_long_as_a_chunk() {
    let mut c = open(0);
    beat(&mut c, &count(MAX_RELIABLE_CHUNK));
    match c.send_datagram(Bytes::from(count(MAX_RELIABLE_CHUNK + 1))) {
        Err(Error::InvalidParam(what)) => assert_eq!(what, "datagram exceeds MTU budget"),
        _ => panic!("accepted"),
    }
    let frames = frames_of(&round(&mut c, 1).packets);
    assert_eq!(frames.len(), 1);
    assert!(matches!(&frames[0], Frame::Datagram { data } if *data == count(MAX_RELIABLE_CHUNK)));
}

#[test]
fn commands_go_out_in_order() {
    let mut c = open(0);
    say(&mut c, b"a");
    beat(&mut c, b"b");
    say(&mut c, b"c");
    let frames = frames_of(&round(&mut c, 1).packets);
    assert_eq!(frames.len(), 3);
    assert!(matches!(&frames[0], Frame::Msg { seq: 0, fin: true, data } if data == b"a"));
    assert!(matches!(&frames[1], Frame::Datagram { data } if data == b"b"));
    assert!(matches!(&frames[2], Frame::Msg { seq: 1, fin: true, data } if data == b"c"));
    assert_eq!(c.inner.last_sent, 1);
}

#[test]
fn a_whole_retransmission_recovers_from_any_loss() {
    let mut a = open(0);
    let mut b = open(0);
    say(&mut a, &count(5000));
    say(&mut a, b"end");
    let first = frames_of(&round(&mut a, 1).packets);
    b.handle_frames(vec![first[0].clone(), first[2].clone()], 2);
    assert_eq!(b.inner.recv_next, 1);
    let again = frames_of(&round(&mut a, 1 + RTO_INIT).packets);
    b.handle_frames(again, 3);
    assert_eq!(b.inner.recv_next, a.inner.send_next);
    assert_eq!(heard(&mut b), vec![Bytes::from(count(5000)), Bytes::from_static(b"end")]);
    let acks = frames_of(&round(&mut b, 4).packets);
    a.handle_frames(acks, 5);
    assert!(a.inner.inflight.is_empty());
    assert_eq!(a.inner.rto, RTO_INIT);
}

#[test]
fn numbers_that_run_out_are_seen_ahead() {
    let mut c = open(0);
    assert!(c.has_seq_room());
    c.inner.send_next = u64::MAX - MAX_INFLIGHT_MSGS as u64;
    assert!(c.has_seq_room());
    c.inner.send_next += 1;
    assert!(!c.has_seq_room());
}
