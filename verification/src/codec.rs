//! The binary form of frames: `bitcode` over a sum of plain values.

use bitcode::Error as BitcodeError;
use vstd::prelude::*;

use crate::frame::{Frame, FrameView};

verus! {

/// `bitcode::Error`: opaque, carried through as it came.
#[verifier::external_type_specification]
#[verifier::external_body]
pub struct ExBitcodeError(BitcodeError);

/// A frame as the sum of plain values that is handed to `bitcode`: one leaf for each
/// kind of frame, with just the fields of that kind. The last leaf is `true` for a
/// keep-alive probe and `false` for a close.
pub type WireFrame = Result<
    Result<u32, u32>,
    Result<Result<(u64, bool, Vec<u8>), u64>, Result<Vec<u8>, bool>>,
>;

/// The model of a `WireFrame`.
pub type WireView = Result<
    Result<u32, u32>,
    Result<Result<(u64, bool, Seq<u8>), u64>, Result<Seq<u8>, bool>>,
>;

/// The model of one `WireFrame`: vectors by their contents.
pub open spec fn wire_frame_view(w: WireFrame) -> WireView {
    match w {
        Ok(h) => Ok(h),
        Err(Ok(Ok((seq, fin, data)))) => Err(Ok(Ok((seq, fin, data@)))),
        Err(Ok(Err(next_seq))) => Err(Ok(Err(next_seq))),
        Err(Err(Ok(data))) => Err(Err(Ok(data@))),
        Err(Err(Err(ping))) => Err(Err(Err(ping))),
    }
}

/// The leaf that stands for a frame.
pub open spec fn wire(f: FrameView) -> WireView {
    match f {
        FrameView::Handshake { cid } => Ok(Ok(cid)),
        FrameView::HandshakeAck { cid } => Ok(Err(cid)),
        FrameView::Msg { seq, fin, data } => Err(Ok(Ok((seq, fin, data)))),
        FrameView::Ack { next_seq } => Err(Ok(Err(next_seq))),
        FrameView::Datagram { data } => Err(Err(Ok(data))),
        FrameView::Ping => Err(Err(Err(true))),
        FrameView::Close => Err(Err(Err(false))),
    }
}

/// The frame that a leaf stands for.
pub open spec fn unwire(w: WireView) -> FrameView {
    match w {
        Ok(Ok(cid)) => FrameView::Handshake { cid },
        Ok(Err(cid)) => FrameView::HandshakeAck { cid },
        Err(Ok(Ok((seq, fin, data)))) => FrameView::Msg { seq, fin, data },
        Err(Ok(Err(next_seq))) => FrameView::Ack { next_seq },
        Err(Err(Ok(data))) => FrameView::Datagram { data },
        Err(Err(Err(ping))) => if ping {
            FrameView::Ping
        } else {
            FrameView::Close
        },
    }
}

/// Every frame has a leaf of its own, and every leaf stands for a frame.
pub proof fn law_wire_bijective(f: FrameView, w: WireView)
    ensures
        unwire(wire(f)) == f,
        wire(unwire(w)) == w,
{
}

/// The bytes that `bitcode::encode` gives for a sequence of `WireFrame`s.
pub uninterp spec fn bitcode_encoding(frames: Seq<WireView>) -> Seq<u8>;

/// What `bitcode::decode` makes of bytes as a sequence of `WireFrame`s: `None` where it
/// reports an error.
pub uninterp spec fn bitcode_decoding(bytes: Seq<u8>) -> Option<Seq<WireView>>;

/// The bytes of user data in a leaf.
pub open spec fn wire_payload_len(w: WireView) -> nat {
    match w {
        Err(Ok(Ok((_, _, data)))) => data.len(),
        Err(Err(Ok(data))) => data.len(),
        _ => 0,
    }
}

/// Calls `bitcode::encode` on a vector of `WireFrame`s. The result is the name
/// `bitcode_encoding` at that vector, and `bitcode::decode` gives the vector back.
/// For a vector of one leaf, `bitcode` writes each of its at most nine columns as it
/// is, but for a header of at most two bytes and a length or number of at most eight,
/// so the result is the user data and fewer than 64 bytes more.
#[verifier::external_body]
pub(crate) fn bitcode_encode(frames: &Vec<WireFrame>) -> (bytes: Vec<u8>)
    ensures
        bytes@ == bitcode_encoding(frames@.map_values(|w: WireFrame| wire_frame_view(w))),
        bitcode_decoding(bytes@) == Some(
            frames@.map_values(|w: WireFrame| wire_frame_view(w)),
        ),
        frames@.len() == 1 ==> bytes@.len() < wire_payload_len(wire_frame_view(frames@[0])) + 64,
{
    bitcode::encode(frames)
}

/// Calls `bitcode::decode` for a vector of `WireFrame`s. The result is the name
/// `bitcode_decoding` at the bytes.
#[verifier::external_body]
pub(crate) fn bitcode_decode(bytes: &[u8]) -> (frames: Result<Vec<WireFrame>, BitcodeError>)
    ensures
        match frames {
            Ok(v) => bitcode_decoding(bytes@) == Some(
                v@.map_values(|w: WireFrame| wire_frame_view(w)),
            ),
            Err(_) => bitcode_decoding(bytes@) is None,
        },
{
    bitcode::decode(bytes)
}

/// The leaf for a frame.
pub(crate) fn to_wire(f: &Frame) -> (w: WireFrame)
    ensures
        wire_frame_view(w) == wire(f@),
{
    match f {
        Frame::Handshake { cid } => Ok(Ok(*cid)),
        Frame::HandshakeAck { cid } => Ok(Err(*cid)),
        Frame::Msg { seq, fin, data } => Err(Ok(Ok((*seq, *fin, copy_bytes(data))))),
        Frame::Ack { next_seq } => Err(Ok(Err(*next_seq))),
        Frame::Datagram { data } => Err(Err(Ok(copy_bytes(data)))),
        Frame::Ping => Err(Err(Err(true))),
        Frame::Close => Err(Err(Err(false))),
    }
}

/// The frame for a leaf.
pub(crate) fn from_wire(w: WireFrame) -> (f: Frame)
    ensures
        f@ == unwire(wire_frame_view(w)),
{
    match w {
        Ok(Ok(cid)) => Frame::Handshake { cid },
        Ok(Err(cid)) => Frame::HandshakeAck { cid },
        Err(Ok(Ok((seq, fin, data)))) => Frame::Msg { seq, fin, data },
        Err(Ok(Err(next_seq))) => Frame::Ack { next_seq },
        Err(Err(Ok(data))) => Frame::Datagram { data },
        Err(Err(Err(ping))) => if ping {
            Frame::Ping
        } else {
            Frame::Close
        },
    }
}

/// A copy of a byte vector.
pub(crate) fn copy_bytes(v: &Vec<u8>) -> (c: Vec<u8>)
    ensures
        c@ == v@,
{
    let c = v.clone();
    assert(c@ =~= v@);
    c
}

} // verus!
