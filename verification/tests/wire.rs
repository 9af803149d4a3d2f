//! The wire format and the batching of frames.

use cquic::{
    decode_packet, encode_packet, Error, Frame, OutPacket, Packer, HANDSHAKE_CID,
    MAX_DATAGRAM_SIZE, MAX_RELIABLE_CHUNK,
};

/// A frame in a form that can be compared.
fn show(f: &Frame) -> String {
    format!("{f:?}")
}

fn show_all(frames: &[Frame]) -> Vec<String> {
    frames.iter().map(show).collect()
}

fn noise(n: usize) -> Vec<u8> {
    let mut x = 0x2545_f491_4f6c_dd1du64;
    let mut v = Vec::new();
    for _ in 0..n {
        x ^= x << 13;
        x ^= x >> 7;
        x ^= x << 17;
        v.push((x >> 32) as u8);
    }
    v
}

#[test]
fn every_kind_of_frame_round_trips() {
    let frames = vec![
        Frame::Handshake { cid: 1 },
        Frame::HandshakeAck { cid: u32::MAX },
        Frame::Msg { seq: u64::MAX, fin: true, data: vec![1, 2, 3] },
        Frame::Msg { seq: 0, fin: false, data: Vec::new() },
        Frame::Ack { next_seq: 1 << 40 },
        Frame::Datagram { data: b"ping".to_vec() },
        Frame::Datagram { data: Vec::new() },
        Frame::Ping,
        Frame::Close,
    ];
    let pkt = encode_packet(0xdead_beef, &frames);
    let (cid, back) = decode_packet(&pkt).unwrap();
    assert_eq!(cid, 0xdead_beef);
    assert_eq!(show_all(&back), show_all(&frames));
}

#[test]
fn no_frames_round_trip() {
    let pkt = encode_packet(5, &[]);
    let (cid, frames) = decode_packet(&pkt).unwrap();
    assert_eq!(cid, 5);
    assert!(frames.is_empty());
}

#[test]
fn a_packet_starts_with_its_id_little_end_first() {
    let pkt = encode_packet(0x0403_0201, &[Frame::Ping]);
    assert_eq!(&pkt[..4], &[1, 2, 3, 4]);
    let pkt = encode_packet(HANDSHAKE_CID, &[Frame::Ping]);
    assert_eq!(&pkt[..4], &[0, 0, 0, 0]);
    let pkt = encode_packet(u32::MAX, &[Frame::Ping]);
    assert_eq!(&pkt[..4], &[255, 255, 255, 255]);
}

#[test]
fn the_body_does_not_depend_on_the_id() {
    let a = encode_packet(1, &[Frame::Ack { next_seq: 9 }]);
    let b = encode_packet(2, &[Frame::Ack { next_seq: 9 }]);
    assert_eq!(&a[4..], &b[4..]);
    assert_ne!(a, b);
}

#[test]
fn a_packet_shorter_than_its_header_is_refused() {
    for n in 0..4 {
        match decode_packet(&vec![0u8; n]) {
            Err(Error::InvalidParam(what)) => assert_eq!(what, "packet shorter than CID header"),
            _ => panic!("{n} bytes were accepted"),
        }
    }
}

#[test]
fn a_packet_without_frames_behind_its_header_is_refused() {
    assert!(matches!(decode_packet(&[1, 2, 3, 4]), Err(Error::Decode(_))));
    assert!(matches!(decode_packet(&[0, 0, 0, 0, 255, 255, 255, 255]), Err(Error::Decode(_))));
    let mut pkt = encode_packet(1, &[Frame::Ack { next_seq: 300 }]);
    pkt.pop();
    assert!(matches!(decode_packet(&pkt), Err(Error::Decode(_))));
    let mut pkt = encode_packet(1, &[Frame::Ping]);
    pkt.push(0);
    assert!(matches!(decode_packet(&pkt), Err(Error::Decode(_))));
}

#[test]
fn one_full_chunk_fits_whatever_it_holds() {
    for data in [noise(MAX_RELIABLE_CHUNK), vec![0; MAX_RELIABLE_CHUNK], vec![255; MAX_RELIABLE_CHUNK]] {
        let chunk = Frame::Msg { seq: u64::MAX, fin: true, data: data.clone() };
        assert!(encode_packet(u32::MAX, &[chunk]).len() < 4 + MAX_RELIABLE_CHUNK + 64);
        let datagram = Frame::Datagram { data };
        assert!(encode_packet(u32::MAX, &[datagram]).len() < 4 + MAX_RELIABLE_CHUNK + 64);
    }
    for n in 0..300 {
        let chunk = Frame::Msg { seq: u64::MAX - n as u64, fin: n % 2 == 0, data: noise(n) };
        assert!(encode_packet(7, &[chunk]).len() < 4 + n + 64);
    }
    for f in [
        Frame::Handshake { cid: u32::MAX },
        Frame::HandshakeAck { cid: u32::MAX },
        Frame::Ack { next_seq: u64::MAX },
        Frame::Ping,
        Frame::Close,
    ] {
        assert!(encode_packet(7, &[f]).len() < 4 + 64);
    }
}

#[test]
fn an_empty_packer_gives_nothing() {
    let mut p = Packer::new("peer");
    let mut out: Vec<OutPacket<&str>> = Vec::new();
    p.flush(3, &mut out);
    assert!(out.is_empty());
}

#[test]
fn small_frames_share_a_datagram() {
    let mut p = Packer::new("peer");
    let mut out: Vec<OutPacket<&str>> = Vec::new();
    let frames = vec![
        Frame::Ping,
        Frame::Msg { seq: 0, fin: true, data: b"hello".to_vec() },
        Frame::Ack { next_seq: 12 },
    ];
    for f in &frames {
        p.push_or_flush(3, &mut out, f.clone());
    }
    assert!(out.is_empty());
    p.flush(3, &mut out);
    assert_eq!(out.len(), 1);
    assert_eq!(out[0].0, "peer");
    let (cid, back) = decode_packet(&out[0].1).unwrap();
    assert_eq!(cid, 3);
    assert_eq!(show_all(&back), show_all(&frames));
    p.flush(3, &mut out);
    assert_eq!(out.len(), 1);
}

#[test]
fn batches_keep_all_frames_in_order_and_within_the_limit() {
    let mut p = Packer::new(9u8);
    let mut out: Vec<OutPacket<u8>> = Vec::new();
    let mut frames = Vec::new();
    for i in 0..200usize {
        frames.push(Frame::Msg { seq: i as u64, fin: i % 3 == 0, data: noise((i * 37) % 1201) });
        frames.push(Frame::Ack { next_seq: (i * i) as u64 });
    }
    for f in &frames {
        p.push_or_flush(77, &mut out, f.clone());
    }
    p.flush(77, &mut out);
    let mut back = Vec::new();
    for (to, pkt) in &out {
        assert_eq!(*to, 9);
        assert!(pkt.len() <= MAX_DATAGRAM_SIZE);
        let (cid, some) = decode_packet(pkt).unwrap();
        assert_eq!(cid, 77);
        assert!(!some.is_empty());
        back.extend(some);
    }
    assert_eq!(show_all(&back), show_all(&frames));
}

#[test]
fn a_frame_that_does_not_fit_comes_back() {
    let mut p = Packer::new(0u8);
    assert!(p.push(Frame::Datagram { data: noise(1200) }).is_ok());
    match p.push(Frame::Datagram { data: noise(400) }) {
        Err(Frame::Datagram { data }) => assert_eq!(data, noise(400)),
        _ => panic!("it went in"),
    }
    assert!(p.push(Frame::Ping).is_ok());
    let mut out: Vec<OutPacket<u8>> = Vec::new();
    p.flush(1, &mut out);
    let (_, frames) = decode_packet(&out[0].1).unwrap();
    assert_eq!(frames.len(), 2);
}

#[test]
fn a_frame_that_fits_nowhere_is_left_out() {
    let mut p = Packer::new(0u8);
    let mut out: Vec<OutPacket<u8>> = Vec::new();
    p.push_or_flush(1, &mut out, Frame::Ping);
    p.push_or_flush(1, &mut out, Frame::Datagram { data: noise(MAX_DATAGRAM_SIZE) });
    p.push_or_flush(1, &mut out, Frame::Close);
    p.flush(1, &mut out);
    let all: Vec<String> = out
        .iter()
        .flat_map(|(_, pkt)| show_all(&decode_packet(pkt).unwrap().1))
        .collect();
    assert_eq!(all, vec!["Ping", "Close"]);
}
