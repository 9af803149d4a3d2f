//! An endpoint: the handshake, the way of a datagram, and two endpoints in conversation.

use std::collections::VecDeque;

use bytes::Bytes;
use cquic::{
    decode_packet, encode_packet, handshake_deadline, handshake_wait, Accepted, ConnShared,
    ConnectStep, DriverState, Error, Frame, Handled, Handshakes, Waited, ACCEPT_QUEUE_CAP,
    HANDSHAKE_CID, HANDSHAKE_TIMEOUT, IDLE_TIMEOUT, MAX_RELIABLE_CHUNK,
};

/// Endpoints whose addresses and users are numbers.
type State = DriverState<u16, u8>;

/// Hands a datagram to a state, as its owner does. Each id that it asks for is offered to an
/// acceptor that answers in this way; the ids go to `asked`.
fn hand(
    s: &mut State,
    data: &[u8],
    from: u16,
    accepted: Accepted,
    asked: &mut Vec<u32>,
    now: u64,
) -> Handshakes<u16> {
    match s.handle_packet(data, now) {
        Handled::Handshake(frames, ids) => {
            let opened = ids.iter().map(|_| (9u8, accepted)).collect();
            asked.extend(ids);
            s.handle_handshake(frames, from, opened, now)
        }
        _ => panic!("no handshake"),
    }
}

/// A connection that is registered.
fn conn(s: &mut State, cid: u32) -> &mut ConnShared<u16> {
    &mut s.conns.get_mut(&cid).unwrap().conn
}

fn say(s: &mut State, cid: u32, data: Vec<u8>) {
    assert!(conn(s, cid).send_reliable(Bytes::from(data)).is_none());
}

fn hear(s: &mut State, cid: u32) -> Option<Bytes> {
    conn(s, cid).recv_reliable().unwrap()
}

/// Registers a client's connection to this address and gives its id and its request.
fn connect(s: &mut State, to: u16, now: u64) -> (u32, Vec<u8>) {
    match s.begin_connect(to, 9, now) {
        Ok(r) => r,
        Err(_) => panic!("the id was taken"),
    }
}

/// A server and a client with a connection between them: the server is at 1, the client at 2.
fn pair() -> (State, State, u32) {
    let mut server = State::new();
    let mut client = State::new();
    let mut asked = Vec::new();
    let (cid, request) = connect(&mut client, 1, 0);
    let h = hand(&mut server, &request, 2, Accepted::Queued, &mut asked, 0);
    assert_eq!(asked, vec![cid]);
    assert!(h.established.is_empty());
    assert_eq!(h.replies.len(), 1);
    assert_eq!(h.replies[0].0, 2);
    let h = hand(&mut client, &h.replies[0].1, 1, Accepted::Gone, &mut asked, 0);
    assert_eq!(asked, vec![cid]);
    assert!(h.replies.is_empty());
    assert_eq!(h.established, vec![cid]);
    (server, client, cid)
}

fn turn(s: &mut State, now: u64) -> Vec<(u16, Vec<u8>)> {
    assert!(s.has_seq_room());
    s.turn(now).packets
}

#[test]
fn a_handshake_connects_both_sides() {
    let (server, client, cid) = pair();
    assert!(!server.is_closed(cid));
    assert!(!client.is_closed(cid));
    let e = server.lookup(cid).unwrap();
    assert_eq!((e.conn.cid, e.conn.remote, e.conn.inner.established), (cid, 2, true));
    let e = client.lookup(cid).unwrap();
    assert_eq!((e.conn.cid, e.conn.remote, e.conn.inner.established), (cid, 1, true));
}

#[test]
fn the_request_names_its_id() {
    let mut s = State::new();
    let (cid, request) = connect(&mut s, 1, 0);
    let (to, frames) = decode_packet(&request).unwrap();
    assert_eq!(to, HANDSHAKE_CID);
    assert_eq!(frames.len(), 1);
    assert!(matches!(frames[0], Frame::Handshake { cid: id } if id == cid));
    assert!(!s.lookup(cid).unwrap().conn.inner.established);
}

#[test]
fn drawn_ids_are_in_range_and_differ() {
    let mut s = State::new();
    let mut seen = Vec::new();
    for _ in 0..50 {
        let (cid, _) = connect(&mut s, 1, 0);
        assert!(cid >= 1 && cid < u32::MAX);
        assert!(!seen.contains(&cid));
        seen.push(cid);
    }
    assert!(seen.iter().any(|c| *c > 1_000_000));
}

#[test]
fn an_id_is_registered_once_and_never_that_of_handshakes() {
    let mut s = State::new();
    assert!(s.register(5, 1, 9, 0).is_ok());
    assert!(s.register(5, 1, 9, 0).is_err());
    assert!(s.register(HANDSHAKE_CID, 1, 9, 0).is_err());
    assert!(s.lookup(HANDSHAKE_CID).is_none());
}

#[test]
fn a_repeated_request_is_answered_again_and_opens_nothing() {
    let mut server = State::new();
    let mut asked = Vec::new();
    let request = encode_packet(HANDSHAKE_CID, &[Frame::Handshake { cid: 8 }]);
    for _ in 0..3 {
        let h = hand(&mut server, &request, 2, Accepted::Queued, &mut asked, 0);
        assert_eq!(h.replies.len(), 1);
        assert_eq!(
            h.replies[0].1,
            encode_packet(HANDSHAKE_CID, &[Frame::HandshakeAck { cid: 8 }])
        );
        assert!(h.established.is_empty());
    }
    assert_eq!(asked, vec![8]);
}

#[test]
fn each_id_is_asked_for_once() {
    let mut s = State::new();
    assert!(s.register(5, 1, 9, 0).is_ok());
    let frames = [
        Frame::Handshake { cid: 8 },
        Frame::Handshake { cid: 5 },
        Frame::Handshake { cid: HANDSHAKE_CID },
        Frame::HandshakeAck { cid: 6 },
        Frame::Handshake { cid: 7 },
        Frame::Handshake { cid: 8 },
        Frame::Ping,
    ];
    assert_eq!(s.asked_for(&frames), vec![8, 7]);
    let opened = vec![(1, Accepted::Full), (2, Accepted::Queued)];
    let h = s.handle_handshake(frames.to_vec(), 3, opened, 4);
    assert!(s.lookup(8).is_none());
    assert_eq!(s.lookup(7).unwrap().user, 2);
    let acked: Vec<Vec<u8>> = h.replies.iter().map(|r| r.1.clone()).collect();
    let ack = |cid| encode_packet(HANDSHAKE_CID, &[Frame::HandshakeAck { cid }]);
    assert_eq!(acked, vec![ack(5), ack(7)]);
}

#[test]
fn a_full_accept_queue_drops_the_request_and_the_client_may_try_again() {
    let mut server = State::new();
    let mut asked = Vec::new();
    let request = encode_packet(HANDSHAKE_CID, &[Frame::Handshake { cid: 8 }]);
    for accepted in [Accepted::Full, Accepted::Gone] {
        let h = hand(&mut server, &request, 2, accepted, &mut asked, 0);
        assert!(h.replies.is_empty());
        assert!(server.lookup(8).is_none());
    }
    let h = hand(&mut server, &request, 2, Accepted::Queued, &mut asked, 0);
    assert_eq!(h.replies.len(), 1);
    assert!(server.lookup(8).unwrap().conn.inner.established);
    assert_eq!(asked, vec![8, 8, 8]);
    assert_eq!(ACCEPT_QUEUE_CAP, 256);
}

#[test]
fn what_is_no_request_opens_nothing() {
    let mut server = State::new();
    let mut asked = Vec::new();
    let frames =
        [Frame::Handshake { cid: HANDSHAKE_CID }, Frame::HandshakeAck { cid: 9 }, Frame::Ping];
    let pkt = encode_packet(HANDSHAKE_CID, &frames);
    let h = hand(&mut server, &pkt, 2, Accepted::Queued, &mut asked, 0);
    assert!(asked.is_empty());
    assert!(h.replies.is_empty());
    assert!(h.established.is_empty());
    assert!(server.lookup(9).is_none());
    assert!(server.lookup(0).is_none());
}

#[test]
fn the_answer_is_news_once() {
    let mut client = State::new();
    let (cid, _) = connect(&mut client, 1, 0);
    let frames = vec![Frame::HandshakeAck { cid }, Frame::HandshakeAck { cid }];
    let h = client.handle_handshake(frames, 1, Vec::new(), 0);
    assert_eq!(h.established, vec![cid]);
}

#[test]
fn datagrams_that_are_for_nobody_change_nothing() {
    let (mut server, _, cid) = pair();
    let handled = server.handle_packet(&[1, 2, 3], 9);
    assert!(matches!(handled, Handled::Malformed(Error::InvalidParam(_))));
    let handled = server.handle_packet(&[1, 2, 3, 4], 9);
    assert!(matches!(handled, Handled::Malformed(Error::Decode(_))));
    let other = if cid == 1 { 2 } else { 1 };
    let pkt = encode_packet(other, &[Frame::Ping]);
    let handled = server.handle_packet(&pkt, 9);
    assert!(matches!(handled, Handled::Unknown(id) if id == other));
    assert_eq!(server.lookup(cid).unwrap().conn.inner.last_recv, 0);
    assert!(server.close(cid));
    assert!(!server.close(cid));
    assert!(!server.close(other));
    let pkt = encode_packet(cid, &[Frame::Ping]);
    let handled = server.handle_packet(&pkt, 9);
    assert!(matches!(handled, Handled::Closed(id) if id == cid));
    assert_eq!(server.lookup(cid).unwrap().conn.inner.last_recv, 0);
}

#[test]
fn a_connection_without_numbers_left_says_so() {
    let (mut server, _, cid) = pair();
    server.conns.get_mut(&cid).unwrap().conn.inner.recv_next = u64::MAX;
    let pkt = encode_packet(cid, &[Frame::Ping]);
    let handled = server.handle_packet(&pkt, 9);
    assert!(matches!(handled, Handled::Exhausted(id) if id == cid));
    let pkt = encode_packet(cid, &[]);
    let handled = server.handle_packet(&pkt, 9);
    assert!(matches!(handled, Handled::Received(id) if id == cid));
}

#[test]
fn waiting_never_passes_the_deadline() {
    let deadline = handshake_deadline(1000);
    assert_eq!(deadline, 1000 + HANDSHAKE_TIMEOUT);
    assert_eq!(handshake_wait(1000, deadline), 300_000_000);
    assert_eq!(handshake_wait(deadline - 300_000_000, deadline), 300_000_000);
    assert_eq!(handshake_wait(deadline - 7, deadline), 7);
    assert_eq!(handshake_wait(deadline, deadline), 0);
    assert_eq!(handshake_wait(deadline + 7, deadline), 0);
}

#[test]
fn a_client_tries_again_until_the_deadline() {
    let mut s = State::new();
    let (cid, _) = connect(&mut s, 1, 0);
    let deadline = handshake_deadline(0);
    assert!(matches!(s.connect_step(cid, Waited::Elapsed, deadline - 1, deadline), ConnectStep::Retry));
    assert!(s.lookup(cid).is_some());
    assert!(matches!(s.connect_step(cid, Waited::Established, deadline, deadline), ConnectStep::Connected));
    assert!(s.lookup(cid).is_some());
    assert!(matches!(
        s.connect_step(cid, Waited::Elapsed, deadline, deadline),
        ConnectStep::Failed(Error::HandshakeTimeout)
    ));
    assert!(s.lookup(cid).is_none());
    let (cid, _) = connect(&mut s, 1, 0);
    assert!(matches!(
        s.connect_step(cid, Waited::Disconnected, 0, deadline),
        ConnectStep::Failed(Error::Closed)
    ));
    assert!(s.lookup(cid).is_none());
    assert!(s.is_closed(cid));
}

#[test]
fn connections_that_are_done_are_released() {
    let mut s = State::new();
    for cid in [3, 4, 5] {
        let request = encode_packet(HANDSHAKE_CID, &[Frame::Handshake { cid }]);
        hand(&mut s, &request, 2, Accepted::Queued, &mut Vec::new(), 0);
    }
    let pkt = encode_packet(4, &[Frame::Msg { seq: 0, fin: true, data: b"left".to_vec() }]);
    s.handle_packet(&pkt, 0);
    s.close(4);
    say(&mut s, 5, b"hi".to_vec());
    let mut t = s.turn(1);
    assert_eq!(t.released.len(), 1);
    let (cid, mut e) = t.released.remove(0);
    assert_eq!((cid, e.user), (4, 9));
    assert!(matches!(e.conn.recv_reliable(), Ok(Some(m)) if m == "left"));
    assert!(matches!(e.conn.recv_reliable(), Err(Error::Closed)));
    assert_eq!(t.packets.len(), 2);
    for (to, pkt) in &t.packets {
        assert_eq!(*to, 2);
        let (cid, frames) = decode_packet(pkt).unwrap();
        match cid {
            4 => {
                assert_eq!(frames.len(), 2);
                assert!(matches!(frames[0], Frame::Ack { next_seq: 1 }));
                assert!(matches!(frames[1], Frame::Close));
            }
            5 => assert!(matches!(frames[0], Frame::Msg { seq: 0, fin: true, .. })),
            _ => panic!("{cid} had nothing to send"),
        }
    }
    assert!(s.lookup(4).is_none());
    assert!(s.lookup(3).is_some() && s.lookup(5).is_some());
    let mut gone: Vec<u32> = s.turn(IDLE_TIMEOUT).released.iter().map(|r| r.0).collect();
    gone.sort();
    assert_eq!(gone, vec![3, 5]);
}

/// Carries datagrams to a state.
fn carry(packets: Vec<(u16, Vec<u8>)>, to: &mut State, now: u64) {
    for (_, pkt) in packets {
        assert!(matches!(to.handle_packet(&pkt, now), Handled::Received(_)));
    }
}

#[test]
fn test() {
    let (mut server, mut client, cid) = pair();
    let mut now = 1;
    assert_eq!(client.lookup(cid).unwrap().conn.remote, 1);

    // A message of about three and a half chunks, echoed by the server.
    let payload: Vec<u8> = (0..MAX_RELIABLE_CHUNK * 7 / 2).map(|i| (i % 251) as u8).collect();
    say(&mut client, cid, payload.clone());
    let packets = turn(&mut client, now);
    carry(packets, &mut server, now);
    let heard = hear(&mut server, cid).unwrap();
    say(&mut server, cid, heard.to_vec());
    now += 1;
    let packets = turn(&mut server, now);
    carry(packets, &mut client, now);
    let echoed = hear(&mut client, cid).unwrap();
    assert_eq!(echoed, Bytes::from(payload), "a reliable message comes back as it was");

    // A best-effort datagram.
    assert!(matches!(conn(&mut client, cid).send_datagram(Bytes::from_static(b"ping")), Ok(None)));
    now += 1;
    let packets = turn(&mut client, now);
    carry(packets, &mut server, now);
    assert!(matches!(conn(&mut server, cid).recv_datagram(), Ok(Some(d)) if d == "ping"));
    assert!(matches!(conn(&mut server, cid).recv_datagram(), Ok(None)));

    // Many messages keep their order.
    for i in 0..10u32 {
        say(&mut client, cid, i.to_le_bytes().to_vec());
    }
    now += 1;
    let packets = turn(&mut client, now);
    carry(packets, &mut server, now);
    while let Some(msg) = hear(&mut server, cid) {
        say(&mut server, cid, msg.to_vec());
    }
    now += 1;
    let packets = turn(&mut server, now);
    carry(packets, &mut client, now);
    for i in 0..10u32 {
        let echoed = hear(&mut client, cid).unwrap();
        assert_eq!(echoed.as_ref(), i.to_le_bytes(), "messages keep their order");
    }
    assert!(hear(&mut client, cid).is_none());

    assert!(client.close(cid));
    now += 1;
    let packets = turn(&mut client, now);
    assert!(client.lookup(cid).is_none());
    carry(packets, &mut server, now);
    assert!(server.is_closed(cid));
    turn(&mut server, now);
    assert!(server.lookup(cid).is_none());
}

#[test]
fn messages_get_through_a_network_that_loses_repeats_and_reorders() {
    let (mut server, mut client, cid) = pair();
    let mut seed = 7u64;
    let mut chance = move |n: u64| {
        seed ^= seed << 13;
        seed ^= seed >> 7;
        seed ^= seed << 17;
        seed % n == 0
    };
    let messages: Vec<Vec<u8>> =
        (0..60usize).map(|i| (0..(i * i * 7) % 9000).map(|j| (i + j) as u8).collect()).collect();
    for m in &messages {
        say(&mut client, cid, m.clone());
    }
    let mut got: Vec<Bytes> = Vec::new();
    let mut now = 0;
    let mut rounds = 0;
    while got.len() < messages.len() {
        rounds += 1;
        assert!(rounds < 5000, "no progress");
        now += 20_000_000;
        let mut way = VecDeque::new();
        for (_, pkt) in turn(&mut client, now) {
            if chance(40) {
                continue;
            }
            if chance(20) {
                way.push_front(pkt.clone());
            }
            way.push_back(pkt);
        }
        for pkt in way {
            server.handle_packet(&pkt, now);
        }
        for (_, pkt) in turn(&mut server, now) {
            if !chance(4) {
                client.handle_packet(&pkt, now);
            }
        }
        let inner = &client.lookup(cid).unwrap().conn.inner;
        let arrived = server.lookup(cid).unwrap().conn.inner.recv_next;
        assert!(inner.send_next - inner.inflight.len() as u64 <= arrived);
        assert!(arrived <= inner.send_next);
        while let Some(m) = hear(&mut server, cid) {
            got.push(m);
            assert_eq!(got[got.len() - 1].as_ref(), messages[got.len() - 1].as_slice());
        }
    }
    for _ in 0..200 {
        now += 20_000_000;
        for (_, pkt) in turn(&mut client, now) {
            server.handle_packet(&pkt, now);
        }
        for (_, pkt) in turn(&mut server, now) {
            client.handle_packet(&pkt, now);
        }
    }
    assert!(hear(&mut server, cid).is_none());
    assert!(client.lookup(cid).unwrap().conn.inner.inflight.is_empty());
}
