//! The wire format: a datagram is a four-byte connection id, little end first, and the
//! `bitcode` form of a sequence of frames.
//!
//! Frames are sent in batches to spread the cost of the IP and UDP headers. Handshake
//! datagrams carry `HANDSHAKE_CID`; all others carry the id of their connection.

use vstd::prelude::*;

use crate::codec::{
    bitcode_decode, bitcode_decoding, bitcode_encode, bitcode_encoding, from_wire, to_wire,
    unwire, wire, wire_frame_view, WireFrame, WireView,
};
use crate::error::Error;

verus! {

/// The most bytes that a datagram may have: an Ethernet frame less the IP and UDP headers.
pub const MAX_DATAGRAM_SIZE: usize = 1472;

/// The most user data in one reliable chunk, with room left for the connection id and
/// for what the encoding adds.
pub const MAX_RELIABLE_CHUNK: usize = 1200;

/// The connection id that handshake datagrams carry. No connection has it.
pub const HANDSHAKE_CID: u32 = 0;

/// The length of the connection id at the start of a datagram.
pub const CID_HEADER_LEN: usize = 4;

/// A protocol frame.
#[derive(Debug, Clone)]
pub enum Frame {
    /// A client asks for a connection with this id.
    Handshake { cid: u32 },
    /// The answer to a handshake, with the id of the connection.
    HandshakeAck { cid: u32 },
    /// A chunk of a reliable message; `fin` marks the last chunk of a message.
    Msg { seq: u64, fin: bool, data: Vec<u8> },
    /// All chunks with a number below `next_seq` have arrived.
    Ack { next_seq: u64 },
    /// A best-effort datagram.
    Datagram { data: Vec<u8> },
    /// A keep-alive probe.
    Ping,
    /// The sender closes the connection.
    Close,
}

/// The model of a frame.
pub enum FrameView {
    Handshake { cid: u32 },
    HandshakeAck { cid: u32 },
    Msg { seq: u64, fin: bool, data: Seq<u8> },
    Ack { next_seq: u64 },
    Datagram { data: Seq<u8> },
    Ping,
    Close,
}

impl View for Frame {
    type V = FrameView;

    open spec fn view(&self) -> FrameView {
        match *self {
            Frame::Handshake { cid } => FrameView::Handshake { cid },
            Frame::HandshakeAck { cid } => FrameView::HandshakeAck { cid },
            Frame::Msg { seq, fin, data } => FrameView::Msg { seq, fin, data: data@ },
            Frame::Ack { next_seq } => FrameView::Ack { next_seq },
            Frame::Datagram { data } => FrameView::Datagram { data: data@ },
            Frame::Ping => FrameView::Ping,
            Frame::Close => FrameView::Close,
        }
    }
}

impl FrameView {
    /// The bytes of user data in the frame.
    pub open spec fn payload_len(self) -> nat {
        match self {
            FrameView::Msg { data, .. } => data.len(),
            FrameView::Datagram { data } => data.len(),
            _ => 0,
        }
    }
}

/// The models of the frames of a sequence.
pub open spec fn frame_views(frames: Seq<Frame>) -> Seq<FrameView> {
    frames.map_values(|f: Frame| f@)
}

/// The four bytes of a connection id, little end first.
pub open spec fn cid_bytes(cid: u32) -> Seq<u8> {
    seq![
        (cid % 256) as u8,
        (cid / 256 % 256) as u8,
        (cid / 65536 % 256) as u8,
        (cid / 16777216) as u8,
    ]
}

/// The connection id that four bytes spell, little end first.
pub open spec fn cid_value(b: Seq<u8>) -> u32 {
    (b[0] + 256 * b[1] + 65536 * b[2] + 16777216 * b[3]) as u32
}

/// The encoding of a sequence of frames.
pub open spec fn frames_encoding(frames: Seq<FrameView>) -> Seq<u8> {
    bitcode_encoding(frames.map_values(|f: FrameView| wire(f)))
}

/// The datagram that carries these frames under this connection id.
pub open spec fn packet_bytes(cid: u32, frames: Seq<FrameView>) -> Seq<u8> {
    cid_bytes(cid) + frames_encoding(frames)
}

/// What a datagram says: the connection id and the frames, or `None` where the part after
/// the connection id is no sequence of frames. A datagram is at least as long as the id.
pub open spec fn packet_parts(data: Seq<u8>) -> Option<(u32, Seq<FrameView>)> {
    if data.len() < CID_HEADER_LEN {
        None
    } else {
        match bitcode_decoding(data.skip(CID_HEADER_LEN as int)) {
            Some(w) => Some(
                (
                    cid_value(data.take(CID_HEADER_LEN as int)),
                    w.map_values(|w: WireView| unwire(w)),
                ),
            ),
            None => None,
        }
    }
}

/// The bytes of a connection id spell that id.
proof fn lemma_cid_round_trip(cid: u32)
    ensures
        cid_bytes(cid).len() == CID_HEADER_LEN,
        cid_value(cid_bytes(cid)) == cid,
{
    assert(cid as int == (cid % 256) + 256 * (cid / 256 % 256) + 65536 * (cid / 65536 % 256)
        + 16777216 * (cid / 16777216));
}

/// Appends `bytes` to `out`.
fn append_bytes(out: &mut Vec<u8>, bytes: &[u8])
    ensures
        final(out)@ == old(out)@ + bytes@,
{
    out.extend_from_slice(bytes);
    assert(out@ =~= old(out)@ + bytes@);
}

/// Encodes a sequence of frames.
fn encode_frames(frames: &[Frame]) -> (encoded: Vec<u8>)
    ensures
        encoded@ == frames_encoding(frame_views(frames@)),
        bitcode_decoding(encoded@) == Some(
            frame_views(frames@).map_values(|f: FrameView| wire(f)),
        ),
        frames@.len() == 1 ==> encoded@.len() < frames@[0]@.payload_len() + 64,
{
    let mut wires: Vec<WireFrame> = Vec::new();
    let n: usize = frames.len();
    for i in 0..n
        invariant
            n == frames@.len(),
            wires@.len() == i,
            forall|j: int|
                0 <= j < i ==> wire_frame_view(#[trigger] wires@[j]) == wire(frames@[j]@),
    {
        wires.push(to_wire(&frames[i]));
    }
    assert(wires@.map_values(|w: WireFrame| wire_frame_view(w)) =~= frame_views(
        frames@,
    ).map_values(|f: FrameView| wire(f)));
    bitcode_encode(&wires)
}

/// Puts the connection id in front of encoded frames.
fn join_packet(cid: u32, encoded: &[u8], Ghost(frames): Ghost<Seq<FrameView>>) -> (pkt: Vec<u8>)
    requires
        encoded@ == frames_encoding(frames),
        bitcode_decoding(encoded@) == Some(frames.map_values(|f: FrameView| wire(f))),
    ensures
        pkt@ == packet_bytes(cid, frames),
        pkt@.len() == CID_HEADER_LEN + encoded@.len(),
        packet_parts(pkt@) == Some((cid, frames)),
{
    let mut pkt: Vec<u8> = Vec::new();
    pkt.push((cid % 256) as u8);
    pkt.push((cid / 256 % 256) as u8);
    pkt.push((cid / 65536 % 256) as u8);
    pkt.push((cid / 16777216) as u8);
    append_bytes(&mut pkt, encoded);
    proof {
        lemma_cid_round_trip(cid);
        assert(pkt@ =~= packet_bytes(cid, frames));
        assert(pkt@.take(CID_HEADER_LEN as int) =~= cid_bytes(cid));
        assert(pkt@.skip(CID_HEADER_LEN as int) =~= encoded@);
        assert(frames.map_values(|f: FrameView| wire(f)).map_values(|w: WireView| unwire(w))
            =~= frames);
    }
    pkt
}

/// Encodes a datagram: the connection id, then the frames.
///
/// The datagram gives back the id and the frames.
pub fn encode_packet(cid: u32, frames: &[Frame]) -> (pkt: Vec<u8>)
    ensures
        pkt@ == packet_bytes(cid, frame_views(frames@)),
        packet_parts(pkt@) == Some((cid, frame_views(frames@))),
        frames@.len() == 1 ==> pkt@.len() < CID_HEADER_LEN + frames@[0]@.payload_len() + 64,
        pkt@.len() >= CID_HEADER_LEN,
        pkt@[0] == cid % 256,
        pkt@[1] == cid / 256 % 256,
        pkt@[2] == cid / 65536 % 256,
        pkt@[3] == cid / 16777216,
        bitcode_decoding(pkt@.skip(CID_HEADER_LEN as int)) == Some(
            frame_views(frames@).map_values(|f: FrameView| wire(f)),
        ),
{
    let encoded = encode_frames(frames);
    let pkt = join_packet(cid, encoded.as_slice(), Ghost(frame_views(frames@)));
    assert(pkt@.skip(CID_HEADER_LEN as int) =~= encoded@);
    pkt
}

/// Decodes a datagram: the connection id and the frames.
///
/// Fails with `InvalidParam` where the datagram is shorter than a connection id, and with
/// `Decode` where what follows the id is no sequence of frames.
pub fn decode_packet(data: &[u8]) -> (r: Result<(u32, Vec<Frame>), Error>)
    ensures
        match r {
            Ok((cid, frames)) => {
                &&& packet_parts(data@) == Some((cid, frame_views(frames@)))
                &&& data@.len() >= CID_HEADER_LEN
                &&& cid == data@[0] + 256 * data@[1] + 65536 * data@[2] + 16777216 * data@[3]
            },
            Err(Error::InvalidParam(what)) => data@.len() < CID_HEADER_LEN && what@
                == "packet shorter than CID header"@,
            Err(Error::Decode(_)) => data@.len() >= CID_HEADER_LEN && packet_parts(data@) is None,
            Err(_) => false,
        },
{
    if data.len() < CID_HEADER_LEN {
        return Err(Error::InvalidParam("packet shorter than CID header"));
    }
    let cid: u32 = data[0] as u32 + 256 * (data[1] as u32) + 65536 * (data[2] as u32) + 16777216 * (
    data[3] as u32);
    let body = vstd::slice::slice_subrange(data, CID_HEADER_LEN, data.len());
    assert(body@ =~= data@.skip(CID_HEADER_LEN as int));
    match bitcode_decode(body) {
        Err(e) => Err(Error::Decode(e)),
        Ok(wires) => {
            let ghost w = wires@.map_values(|w: WireFrame| wire_frame_view(w));
            let mut frames: Vec<Frame> = Vec::new();
            for x in it: wires
                invariant
                    frames@.len() == it.index(),
                    w == it.seq().map_values(|w: WireFrame| wire_frame_view(w)),
                    forall|j: int| 0 <= j < it.index() ==> (#[trigger] frames@[j])@ == unwire(w[j]),
            {
                frames.push(from_wire(x));
            }
            assert(frame_views(frames@) =~= w.map_values(|w: WireView| unwire(w)));
            Ok((cid, frames))
        },
    }
}

/// A datagram that is ready to go: the address of the peer and the bytes.
pub type OutPacket<A> = (A, Vec<u8>);

/// The models of datagrams: the bytes by their contents.
pub open spec fn packet_views<A>(packets: Seq<OutPacket<A>>) -> Seq<(A, Seq<u8>)> {
    packets.map_values(|p: OutPacket<A>| (p.0, p.1@))
}

/// Whether these frames fit into one datagram.
pub open spec fn fits(frames: Seq<FrameView>) -> bool {
    CID_HEADER_LEN + frames_encoding(frames).len() <= MAX_DATAGRAM_SIZE
}

/// The frames that a row of datagrams carries, in order.
pub open spec fn carried<A>(packets: Seq<(A, Seq<u8>)>) -> Seq<FrameView>
    decreases packets.len(),
{
    if packets.len() == 0 {
        Seq::empty()
    } else {
        carried(packets.drop_last()) + match packet_parts(packets.last().1) {
            Some((_, frames)) => frames,
            None => Seq::empty(),
        }
    }
}

/// The model of what a connection has to send: the frames that the packer holds, and the
/// datagrams that are full.
pub struct Batch<A> {
    /// The address that the datagrams go to.
    pub remote: A,
    /// The frames that wait for more.
    pub packed: Seq<FrameView>,
    /// The datagrams that are ready to go, oldest first.
    pub outbox: Seq<(A, Seq<u8>)>,
}

impl<A> Batch<A> {
    /// The datagram of the waiting frames joins those that are ready. With no frame
    /// waiting, nothing changes.
    pub open spec fn flush(self, cid: u32) -> Batch<A> {
        if self.packed.len() == 0 {
            self
        } else {
            Batch {
                packed: Seq::empty(),
                outbox: self.outbox.push((self.remote, packet_bytes(cid, self.packed))),
                ..self
            }
        }
    }

    /// A frame joins the waiting ones where the datagram still has room; where it has not,
    /// they are flushed first. A frame that fits into no datagram is left out.
    pub open spec fn push(self, cid: u32, frame: FrameView) -> Batch<A> {
        if fits(self.packed.push(frame)) {
            Batch { packed: self.packed.push(frame), ..self }
        } else {
            Batch {
                packed: if fits(seq![frame]) {
                    seq![frame]
                } else {
                    Seq::empty()
                },
                ..self.flush(cid)
            }
        }
    }

    /// All the frames that are still to go out, in order.
    pub open spec fn queued(self) -> Seq<FrameView> {
        carried(self.outbox) + self.packed
    }

    /// What holds at all times: the waiting frames fit into a datagram, and each datagram
    /// is addressed to the peer, within the size limit, and carries frames under this id.
    pub open spec fn sound(self, cid: u32) -> bool {
        &&& self.packed.len() > 0 ==> fits(self.packed)
        &&& forall|i: int|
            0 <= i < self.outbox.len() ==> sound_packet(self.remote, cid, #[trigger] self.outbox[i])
    }
}

/// A datagram for this address, within the size limit, that carries frames under this id.
pub open spec fn sound_packet<A>(remote: A, cid: u32, packet: (A, Seq<u8>)) -> bool {
    &&& packet.0 == remote
    &&& packet.1.len() <= MAX_DATAGRAM_SIZE
    &&& packet_parts(packet.1) matches Some((id, _)) && id == cid
}

/// Collects frames into datagrams.
pub struct Packer<A> {
    /// The address that the datagrams go to.
    pub remote: A,
    /// The frames of the next datagram.
    pub frames: Vec<Frame>,
}

/// The model of a packer with its outbox.
pub open spec fn batch_of<A>(packer: Packer<A>, outbox: Seq<OutPacket<A>>) -> Batch<A> {
    Batch {
        remote: packer.remote,
        packed: frame_views(packer.frames@),
        outbox: packet_views(outbox),
    }
}

impl<A: Copy> Packer<A> {
    /// An empty packer for this address.
    pub fn new(remote: A) -> (p: Packer<A>)
        ensures
            p.remote == remote,
            p.frames@.len() == 0,
    {
        Packer { remote, frames: Vec::new() }
    }

    /// Adds a frame. Gives it back, and changes nothing, where it no longer fits.
    ///
    /// An empty packer takes every frame that has no more than `MAX_RELIABLE_CHUNK` bytes
    /// of user data.
    pub fn push(&mut self, frame: Frame) -> (r: Result<(), Frame>)
        ensures
            final(self).remote == old(self).remote,
            r is Ok <==> fits(frame_views(old(self).frames@).push(frame@)),
            r is Ok <==> CID_HEADER_LEN + frames_encoding(
                frame_views(old(self).frames@).push(frame@),
            ).len() <= MAX_DATAGRAM_SIZE,
            match r {
                Ok(_) => final(self).frames@ == old(self).frames@.push(frame),
                Err(f) => f == frame && final(self).frames@ == old(self).frames@,
            },
            old(self).frames@.len() == 0 && frame@.payload_len() <= MAX_RELIABLE_CHUNK ==> r is Ok,
    {
        self.frames.push(frame);
        let encoded = encode_frames(self.frames.as_slice());
        proof {
            assert(frame_views(self.frames@) =~= frame_views(old(self).frames@).push(frame@));
        }
        if encoded.len() > MAX_DATAGRAM_SIZE - CID_HEADER_LEN {
            match self.frames.pop() {
                Some(f) => {
                    assert(self.frames@ =~= old(self).frames@);
                    Err(f)
                },
                None => Ok(()),
            }
        } else {
            Ok(())
        }
    }

    /// Adds a frame, after a flush where it does not fit. A frame that fits into a datagram of
    /// its own always goes in, behind all that were added before it, and so does one with no
    /// more than `MAX_RELIABLE_CHUNK` bytes of user data.
    pub fn push_or_flush(&mut self, cid: u32, outbox: &mut Vec<OutPacket<A>>, frame: Frame)
        requires
            batch_of(*old(self), old(outbox)@).sound(cid),
        ensures
            batch_of(*final(self), final(outbox)@) == batch_of(*old(self), old(outbox)@).push(
                cid,
                frame@,
            ),
            batch_of(*final(self), final(outbox)@).sound(cid),
            fits(seq![frame@]) || frame@.payload_len() <= MAX_RELIABLE_CHUNK ==> batch_of(
                *final(self),
                final(outbox)@,
            ).queued() == batch_of(*old(self), old(outbox)@).queued().push(frame@),
            ({
                let before = batch_of(*old(self), old(outbox)@);
                let after = batch_of(*final(self), final(outbox)@);
                let joins = CID_HEADER_LEN + frames_encoding(before.packed.push(frame@)).len()
                    <= MAX_DATAGRAM_SIZE;
                let alone = CID_HEADER_LEN + frames_encoding(seq![frame@]).len()
                    <= MAX_DATAGRAM_SIZE;
                &&& after.remote == before.remote
                &&& after.packed == if joins {
                    before.packed.push(frame@)
                } else if alone {
                    seq![frame@]
                } else {
                    Seq::empty()
                }
                &&& after.outbox == if joins || before.packed.len() == 0 {
                    before.outbox
                } else {
                    before.outbox.push((before.remote, packet_bytes(cid, before.packed)))
                }
            }),
    {
        let ghost b0 = batch_of(*self, outbox@);
        match self.push(frame) {
            Ok(_) => {
                proof {
                    assert(frame_views(self.frames@) =~= b0.packed.push(frame@));
                    assert(batch_of(*self, outbox@).queued() =~= b0.queued().push(frame@));
                }
            },
            Err(f) => {
                self.flush(cid, outbox);
                let ghost b1 = batch_of(*self, outbox@);
                proof {
                    assert(b1.packed.push(frame@) =~= seq![frame@]);
                }
                let pushed = self.push(f);
                proof {
                    let b2 = batch_of(*self, outbox@);
                    assert(b1.packed =~= Seq::<FrameView>::empty());
                    if pushed is Ok {
                        assert(b2.packed =~= seq![frame@]);
                    } else {
                        assert(b2.packed =~= Seq::<FrameView>::empty());
                    }
                    assert(b2.queued() =~= b1.queued() + b2.packed);
                    assert(b0.queued() + seq![frame@] =~= b0.queued().push(frame@));
                }
            },
        }
    }

    /// Turns the waiting frames into a datagram. With no frame waiting, nothing happens.
    pub fn flush(&mut self, cid: u32, outbox: &mut Vec<OutPacket<A>>)
        requires
            batch_of(*old(self), old(outbox)@).sound(cid),
        ensures
            batch_of(*final(self), final(outbox)@) == batch_of(*old(self), old(outbox)@).flush(cid),
            batch_of(*final(self), final(outbox)@).sound(cid),
            batch_of(*final(self), final(outbox)@).queued() == batch_of(
                *old(self),
                old(outbox)@,
            ).queued(),
            final(self).frames@.len() == 0,
            ({
                let before = batch_of(*old(self), old(outbox)@);
                let after = batch_of(*final(self), final(outbox)@);
                &&& after.remote == before.remote
                &&& after.outbox == if before.packed.len() == 0 {
                    before.outbox
                } else {
                    before.outbox.push((before.remote, packet_bytes(cid, before.packed)))
                }
            }),
    {
        let ghost b0 = batch_of(*self, outbox@);
        if self.frames.len() > 0 {
            let encoded = encode_frames(self.frames.as_slice());
            let pkt = join_packet(cid, encoded.as_slice(), Ghost(b0.packed));
            self.frames.clear();
            outbox.push((self.remote, pkt));
            proof {
                let b1 = batch_of(*self, outbox@);
                assert(b1.packed =~= Seq::<FrameView>::empty());
                assert(b1.outbox =~= b0.outbox.push((b0.remote, pkt@)));
                assert(b1.outbox.drop_last() =~= b0.outbox);
                assert(b1.queued() =~= b0.queued());
            }
        }
    }
}

} // verus!
