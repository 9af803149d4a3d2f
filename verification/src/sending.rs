//! What a connection sends, said of its fields and of the frames that go out.

use vstd::prelude::*;

use crate::command::CmdView;
use crate::conn::ConnView;
use crate::frame::{
    carried, frames_encoding, packet_bytes, packet_parts, Batch, FrameView, CID_HEADER_LEN,
    MAX_DATAGRAM_SIZE, MAX_RELIABLE_CHUNK,
};
use crate::inner::{
    lemma_total_len_same_data, msg_frames, total_len, InflightView, InnerView, IDLE_TIMEOUT,
    MAX_INFLIGHT_BYTES, MAX_INFLIGHT_MSGS, PING_INTERVAL, RTO_INIT, RTO_MAX,
};
use crate::laws::{lemma_drain_sent, lemma_enqueue_appends, lemma_enqueue_sent};
use crate::receiving::{carry_chunks, lemma_row_arrives, lemma_steps_append};
use crate::send::{lemma_drain_keeps, lemma_served_keeps};

verus! {

/// A frame joins those that wait if the datagram of all of them is within the size limit.
/// Otherwise they go into a datagram of their own, for the peer and under the id of the
/// connection, and the frame waits alone; one that is too long for any datagram is left out.
pub proof fn law_batch<A>(b: Batch<A>, cid: u32, frame: FrameView)
    ensures
        ({
            let w = b.push(cid, frame);
            let joins = CID_HEADER_LEN + frames_encoding(b.packed.push(frame)).len()
                <= MAX_DATAGRAM_SIZE;
            let alone = CID_HEADER_LEN + frames_encoding(seq![frame]).len() <= MAX_DATAGRAM_SIZE;
            &&& w.remote == b.remote
            &&& w.packed == if joins {
                b.packed.push(frame)
            } else if alone {
                seq![frame]
            } else {
                Seq::empty()
            }
            &&& w.outbox == if joins || b.packed.len() == 0 {
                b.outbox
            } else {
                b.outbox.push((b.remote, packet_bytes(cid, b.packed)))
            }
        }),
{
}

/// What waits goes into one datagram, for the peer and under the id of the connection; where
/// nothing waits, there is none.
pub proof fn law_flush<A>(b: Batch<A>, cid: u32)
    ensures
        ({
            let w = b.flush(cid);
            &&& w.remote == b.remote
            &&& w.packed.len() == 0
            &&& w.outbox == if b.packed.len() == 0 {
                b.outbox
            } else {
                b.outbox.push((b.remote, packet_bytes(cid, b.packed)))
            }
        }),
{
}

/// The frames that datagrams carry are those of the first ones and then those of the last.
pub proof fn law_carried<A>(packets: Seq<(A, Seq<u8>)>, packet: (A, Seq<u8>))
    ensures
        carried(Seq::<(A, Seq<u8>)>::empty()).len() == 0,
        packet_parts(packet.1) matches Some((_, frames)) ==> carried(packets.push(packet))
            == carried(packets) + frames,
{
    assert(packets.push(packet).drop_last() =~= packets);
}

/// Bytes are counted chunk by chunk.
pub proof fn law_count_bytes(chunks: Seq<InflightView>, chunk: InflightView)
    ensures
        total_len(Seq::empty()) == 0,
        total_len(chunks.push(chunk)) == total_len(chunks) + chunk.data.len(),
{
    assert(chunks.push(chunk).drop_last() =~= chunks);
}

/// The frames of chunks carry them, one for one, in order.
pub proof fn law_chunk_frames(chunks: Seq<InflightView>)
    ensures
        carry_chunks(msg_frames(chunks), chunks),
{
}

/// The window has no room for the next piece of this data.
pub open spec fn no_room<A>(v: InnerView<A>, data: Seq<u8>) -> bool {
    let next = if data.len() <= MAX_RELIABLE_CHUNK {
        data.len() as int
    } else {
        MAX_RELIABLE_CHUNK as int
    };
    v.inflight.len() >= MAX_INFLIGHT_MSGS || total_len(v.inflight) + next > MAX_INFLIGHT_BYTES
}

/// A message takes up the window as far as there is room, and no less: something of it comes
/// back only where the next piece of it finds no room. The chunks that were there stay as they
/// are, the new ones are behind them with the numbers in a row, sent now, and each is within
/// the limit; their bytes are counted. Only where something was sent is that noted, and
/// nothing else changes but the frames that are queued.
pub proof fn law_enqueue<A>(v: InnerView<A>, message: Seq<u8>, now: u64)
    requires
        v.window_sound(),
        v.seq_room(),
    ensures
        ({
            let (w, rest) = v.enqueue(message, now);
            let new = w.inflight.len() - v.inflight.len();
            &&& v.inflight.is_prefix_of(w.inflight)
            &&& w.send_next == v.send_next + new
            &&& forall|i: int|
                v.inflight.len() <= i < w.inflight.len() ==> {
                    &&& (#[trigger] w.inflight[i]).seq == v.send_next + i - v.inflight.len()
                    &&& w.inflight[i].sent_at == now
                    &&& w.inflight[i].data.len() <= MAX_RELIABLE_CHUNK
                }
            &&& w.inflight.len() <= MAX_INFLIGHT_MSGS
            &&& w.inflight_bytes == total_len(w.inflight) <= MAX_INFLIGHT_BYTES
            &&& rest matches Some(data) ==> no_room(w, data)
            &&& w.last_sent == if new > 0 {
                now
            } else {
                v.last_sent
            }
            &&& w == InnerView {
                send_next: w.send_next,
                inflight: w.inflight,
                inflight_bytes: w.inflight_bytes,
                last_sent: w.last_sent,
                batch: w.batch,
                ..v
            }
        }),
    decreases message.len(),
{
    if message.len() <= MAX_RELIABLE_CHUNK {
        if v.window_takes(message.len()) {
            lemma_launch(v, message, true, now);
        }
    } else if v.window_takes(MAX_RELIABLE_CHUNK as nat) {
        let head = message.take(MAX_RELIABLE_CHUNK as int);
        let tail = message.skip(MAX_RELIABLE_CHUNK as int);
        lemma_launch(v, head, false, now);
        let one = v.launch(head, false, now);
        law_enqueue(one, tail, now);
        let w = v.enqueue(message, now).0;
        assert forall|i: int| v.inflight.len() <= i < w.inflight.len() implies {
            &&& (#[trigger] w.inflight[i]).seq == v.send_next + i - v.inflight.len()
            &&& w.inflight[i].sent_at == now
            &&& w.inflight[i].data.len() <= MAX_RELIABLE_CHUNK
        } by {
            if i == v.inflight.len() {
                assert(w.inflight[i] == one.inflight[i]);
            }
        }
    }
}

/// One chunk enters the window.
proof fn lemma_launch<A>(v: InnerView<A>, data: Seq<u8>, fin: bool, now: u64)
    requires
        v.window_sound(),
        v.seq_room(),
        data.len() <= MAX_RELIABLE_CHUNK,
        v.window_takes(data.len()),
    ensures
        v.launch(data, fin, now).window_sound(),
        v.launch(data, fin, now).seq_room(),
        v.launch(data, fin, now).inflight.len() == v.inflight.len() + 1,
        v.launch(data, fin, now).send_next == v.send_next + 1,
{
    let w = v.launch(data, fin, now);
    assert(w.inflight.drop_last() =~= v.inflight);
}

/// Whether chunks are to be sent again: some are in flight, and duplicate acknowledgements ask
/// for it or the oldest has waited for the timeout.
pub proof fn law_resend_due<A>(v: InnerView<A>, now: u64)
    ensures
        v.resend_due(now) <==> v.inflight.len() > 0 && (v.fast_retransmit || v.rto == 0 || now
            >= v.inflight[0].sent_at && now - v.inflight[0].sent_at >= v.rto),
{
}

/// Sending again keeps the chunks in flight, which start to wait anew, answers the request of
/// the duplicates, and doubles the timeout up to its limit. Nothing else changes but the
/// frames that are queued.
pub proof fn law_resend<A>(v: InnerView<A>, now: u64)
    requires
        RTO_INIT <= v.rto <= RTO_MAX,
    ensures
        ({
            let w = v.resend(now);
            &&& w.inflight.len() == v.inflight.len()
            &&& forall|i: int|
                0 <= i < v.inflight.len() ==> #[trigger] w.inflight[i] == (InflightView {
                    sent_at: now,
                    ..v.inflight[i]
                })
            &&& w.rto == if 2 * v.rto <= RTO_MAX {
                2 * v.rto
            } else {
                RTO_MAX as int
            }
            &&& !w.fast_retransmit
            &&& w == InnerView {
                inflight: w.inflight,
                rto: w.rto,
                fast_retransmit: w.fast_retransmit,
                batch: w.batch,
                ..v
            }
        }),
{
}

/// A turn, whatever becomes of it, leaves alone who the peer is, what was received, what waits
/// for the user, and what is known of acknowledgements.
pub proof fn law_turn_keeps<A>(v: ConnView<A>, now: u64)
    ensures
        ({
            let w = v.round(now).0;
            w == ConnView {
                closed: w.closed,
                closing: w.closing,
                commands: w.commands,
                inner: InnerView {
                    send_next: w.inner.send_next,
                    inflight: w.inner.inflight,
                    inflight_bytes: w.inner.inflight_bytes,
                    pending: w.inner.pending,
                    fast_retransmit: w.inner.fast_retransmit,
                    rto: w.inner.rto,
                    last_sent: w.inner.last_sent,
                    batch: w.inner.batch,
                    ..v.inner
                },
                ..v
            }
        }),
{
    lemma_drain_keeps(v.inner, v.commands, now);
    lemma_drain_keeps(v.inner.resume(now), v.commands, now);
}

/// A turn takes nothing from the window and puts new chunks behind what is there, with the
/// numbers in a row; every new one goes out. Those that go out twice are all of them, and only
/// where a retransmission is due, which doubles the timeout.
pub proof fn law_turn_window<A>(v: ConnView<A>, now: u64)
    requires
        !v.closed,
        v.inner.established,
        v.inner.window_sound(),
        v.inner.seq_room(),
        RTO_INIT <= v.inner.rto <= RTO_MAX,
    ensures
        ({
            let w = v.round(now).0;
            let frames = v.round_frames(now);
            let before = v.inner.inflight;
            let after = w.inner.inflight;
            let again = after.len() > 0 && (v.inner.fast_retransmit || before.len() > 0 && now
                >= before[0].sent_at && now - before[0].sent_at >= v.inner.rto);
            &&& before.len() <= after.len() <= MAX_INFLIGHT_MSGS
            &&& w.inner.send_next == v.inner.send_next + after.len() - before.len()
            &&& forall|i: int|
                0 <= i < after.len() ==> {
                    &&& (#[trigger] after[i]).seq == w.inner.send_next - after.len() + i
                    &&& i < before.len() ==> after[i].fin == before[i].fin && after[i].data
                        == before[i].data
                    &&& after[i].sent_at == if i >= before.len() || again {
                        now
                    } else {
                        before[i].sent_at
                    }
                    &&& (i >= before.len() || again) ==> frames.contains(
                        FrameView::Msg {
                            seq: after[i].seq,
                            fin: after[i].fin,
                            data: after[i].data,
                        },
                    )
                }
            &&& !again ==> forall|i: int|
                0 <= i < frames.len() ==> match #[trigger] frames[i] {
                    FrameView::Msg { seq, .. } => seq >= v.inner.send_next,
                    _ => true,
                }
            &&& w.inner.inflight_bytes == total_len(after) <= MAX_INFLIGHT_BYTES
            &&& w.inner.rto == if !again {
                v.inner.rto as int
            } else if 2 * v.inner.rto <= RTO_MAX {
                2 * v.inner.rto
            } else {
                RTO_MAX as int
            }
            &&& w.inner.fast_retransmit == (v.inner.fast_retransmit && !again)
        }),
{
    let inner = v.inner;
    let resumed = inner.resume(now);
    let (drained, kept) = inner.drained(v.commands, now);
    lemma_resume_window(inner, now);
    lemma_drain_window(resumed, v.commands, now);
    let served = inner.served(v.commands, now);
    let w = v.round(now).0;
    let frames = v.round_frames(now);
    let before = inner.inflight;
    let after = w.inner.inflight;
    assert(after == served.inflight);
    lemma_total_len_same_data(served.inflight, drained.inflight);
    let again = drained.resend_due(now);
    let a = inner.launched(resumed);
    let b = resumed.drain_frames(v.commands, now);
    let c = if again {
        msg_frames(drained.inflight)
    } else {
        Seq::empty()
    };
    let p = served.ping_frames(now);
    assert(frames == a + b + c + p);
    assert forall|i: int| before.len() <= i < drained.inflight.len() implies (
    #[trigger] drained.inflight[i]).sent_at == now by {
        if i < resumed.inflight.len() {
            assert(drained.inflight[i] == resumed.inflight[i]);
        }
    }
    assert forall|i: int| 0 <= i < before.len() implies #[trigger] drained.inflight[i]
        == before[i] by {
        assert(resumed.inflight[i] == before[i]);
    }
    if before.len() > 0 {
        assert(drained.inflight[0] == before[0]);
    }
    assert(again == (after.len() > 0 && (inner.fast_retransmit || before.len() > 0 && now
        >= before[0].sent_at && now - before[0].sent_at >= inner.rto)));
    assert forall|i: int| 0 <= i < after.len() implies {
        &&& (#[trigger] after[i]).seq == drained.inflight[i].seq
        &&& after[i].fin == drained.inflight[i].fin
        &&& after[i].data == drained.inflight[i].data
        &&& after[i].sent_at == if again {
            now
        } else {
            drained.inflight[i].sent_at
        }
    } by {}
    assert forall|i: int| 0 <= i < after.len() && (i >= before.len() || again) implies
        #[trigger] frames.contains(
        FrameView::Msg { seq: after[i].seq, fin: after[i].fin, data: after[i].data },
    ) by {
        let f = FrameView::Msg { seq: after[i].seq, fin: after[i].fin, data: after[i].data };
        assert(after[i].seq == drained.inflight[i].seq);
        if again {
            assert(c[i] == f);
            assert(frames[a.len() + b.len() + i] == f);
        } else if i < resumed.inflight.len() {
            let n = before.len() as int;
            assert(resumed.inflight.skip(n)[i - n] == resumed.inflight[i]);
            assert(a[i - before.len()] == f);
            assert(frames[i - before.len()] == f);
        } else {
            assert(b.contains(f));
            let k = choose|k: int| 0 <= k < b.len() && b[k] == f;
            assert(frames[a.len() + k] == f);
        }
    }
    if !again {
        assert forall|i: int| 0 <= i < frames.len() implies match #[trigger] frames[i] {
            FrameView::Msg { seq, .. } => seq >= inner.send_next,
            _ => true,
        } by {
            if i < a.len() {
                assert(frames[i] == a[i]);
                assert(resumed.inflight.skip(before.len() as int)[i] == resumed.inflight[i
                    + before.len()]);
            } else if i < a.len() + b.len() {
                assert(frames[i] == b[i - a.len()]);
            }
        }
    }
}

/// A message that goes on: the window grows behind what is there.
proof fn lemma_resume_window<A>(v: InnerView<A>, now: u64)
    requires
        v.window_sound(),
        v.seq_room(),
    ensures
        ({
            let w = v.resume(now);
            &&& w.window_sound()
            &&& w.seq_room()
            &&& grows(v, w, now)
        }),
{
    if let Some(data) = v.pending {
        lemma_enqueue_window(v, data, now);
    }
}

/// The second window is the first with chunks sent now behind it.
pub open spec fn grows<A>(v: InnerView<A>, w: InnerView<A>, now: u64) -> bool {
    &&& v.inflight.is_prefix_of(w.inflight)
    &&& w.send_next == v.send_next + w.inflight.len() - v.inflight.len()
    &&& forall|i: int|
        v.inflight.len() <= i < w.inflight.len() ==> (#[trigger] w.inflight[i]).sent_at == now
    &&& w.rto == v.rto
    &&& w.fast_retransmit == v.fast_retransmit
}

/// A message that enters the window leaves it as it must be.
proof fn lemma_enqueue_window<A>(v: InnerView<A>, data: Seq<u8>, now: u64)
    requires
        v.window_sound(),
        v.seq_room(),
    ensures
        ({
            let w = v.enqueue(data, now).0;
            &&& w.window_sound()
            &&& w.seq_room()
            &&& grows(v, w, now)
        }),
{
    law_enqueue(v, data, now);
    let w = v.enqueue(data, now).0;
    assert forall|i: int| 0 <= i < w.inflight.len() implies {
        &&& (#[trigger] w.inflight[i]).seq == w.send_next - w.inflight.len() + i
        &&& w.inflight[i].data.len() <= MAX_RELIABLE_CHUNK
    } by {
        if i < v.inflight.len() {
            assert(w.inflight[i] == v.inflight[i]);
        }
    }
}

/// Commands: the window grows, every new chunk is among the frames, and every chunk among the
/// frames is new.
proof fn lemma_drain_window<A>(v: InnerView<A>, cmds: Seq<CmdView>, now: u64)
    requires
        v.window_sound(),
        v.seq_room(),
    ensures
        ({
            let w = v.drain(cmds, now).0;
            let frames = v.drain_frames(cmds, now);
            &&& w.window_sound()
            &&& w.seq_room()
            &&& grows(v, w, now)
            &&& forall|i: int|
                v.inflight.len() <= i < w.inflight.len() ==> frames.contains(
                    FrameView::Msg {
                        seq: (#[trigger] w.inflight[i]).seq,
                        fin: w.inflight[i].fin,
                        data: w.inflight[i].data,
                    },
                )
            &&& forall|i: int|
                0 <= i < frames.len() ==> match #[trigger] frames[i] {
                    FrameView::Msg { seq, .. } => seq >= v.send_next,
                    _ => true,
                }
        }),
    decreases cmds.len(),
{
    if cmds.len() > 0 {
        let first = cmds.drop_last();
        lemma_drain_window(v, first, now);
        let before = v.drain(first, now).0;
        let w = v.drain(cmds, now).0;
        let had = v.drain_frames(first, now);
        let all = v.drain_frames(cmds, now);
        if before.heeds(cmds.last(), v.pending is Some) {
            let new = before.apply_frames(cmds.last(), now);
            if let CmdView::Reliable(data) = cmds.last() {
                lemma_enqueue_window(before, data, now);
            }
            assert forall|i: int|
                v.inflight.len() <= i < w.inflight.len() implies #[trigger] w.inflight[i].sent_at
                == now && all.contains(
                FrameView::Msg {
                    seq: w.inflight[i].seq,
                    fin: w.inflight[i].fin,
                    data: w.inflight[i].data,
                },
            ) by {
                let f = FrameView::Msg {
                    seq: w.inflight[i].seq,
                    fin: w.inflight[i].fin,
                    data: w.inflight[i].data,
                };
                if i < before.inflight.len() {
                    assert(w.inflight[i] == before.inflight[i]);
                    assert(had.contains(f));
                    let k = choose|k: int| 0 <= k < had.len() && had[k] == f;
                    assert(all[k] == f);
                } else {
                    let k = i - before.inflight.len();
                    assert(w.inflight.skip(before.inflight.len() as int)[k] == w.inflight[i]);
                    assert(new[k] == f);
                    assert(all[had.len() + k] == f);
                }
            }
            assert forall|i: int| 0 <= i < all.len() implies match #[trigger] all[i] {
                FrameView::Msg { seq, .. } => seq >= v.send_next,
                _ => true,
            } by {
                if i < had.len() {
                    assert(all[i] == had[i]);
                } else {
                    let k = i - had.len();
                    assert(all[i] == new[k]);
                    if let CmdView::Reliable(data) = cmds.last() {
                        let n = before.inflight.len() as int;
                        assert(w.inflight.skip(n)[k] == w.inflight[n + k]);
                    }
                }
            }
        } else {
            assert(all =~= had);
        }
    }
}

/// The chunk frames among frames, in order.
pub open spec fn chunks_among(frames: Seq<FrameView>) -> Seq<FrameView>
    decreases frames.len(),
{
    if frames.len() == 0 {
        Seq::empty()
    } else if frames.last() is Msg {
        chunks_among(frames.drop_last()).push(frames.last())
    } else {
        chunks_among(frames.drop_last())
    }
}

/// The chunk frames of two rows.
proof fn lemma_chunks_append(a: Seq<FrameView>, b: Seq<FrameView>)
    ensures
        chunks_among(a + b) == chunks_among(a) + chunks_among(b),
    decreases b.len(),
{
    if b.len() == 0 {
        assert(a + b =~= a);
        assert(chunks_among(a) + Seq::<FrameView>::empty() =~= chunks_among(a));
    } else {
        lemma_chunks_append(a, b.drop_last());
        assert((a + b).drop_last() =~= a + b.drop_last());
        assert(chunks_among(a) + chunks_among(b.drop_last()).push(b.last()) =~= (chunks_among(a)
            + chunks_among(b.drop_last())).push(b.last()));
    }
}

/// The frames of chunks are all chunk frames.
proof fn lemma_all_chunks(chunks: Seq<InflightView>)
    ensures
        chunks_among(msg_frames(chunks)) == msg_frames(chunks),
    decreases chunks.len(),
{
    let f = msg_frames(chunks);
    if chunks.len() > 0 {
        lemma_all_chunks(chunks.drop_last());
        assert(f.drop_last() =~= msg_frames(chunks.drop_last()));
        assert(f.drop_last().push(f.last()) =~= f);
    } else {
        assert(f =~= Seq::empty());
    }
}

/// The chunk frames that commands give are those of the chunks that they put into the window.
proof fn lemma_drain_chunks<A>(v: InnerView<A>, cmds: Seq<CmdView>, now: u64)
    ensures
        ({
            let w = v.drain(cmds, now).0;
            &&& v.inflight.is_prefix_of(w.inflight)
            &&& chunks_among(v.drain_frames(cmds, now)) == msg_frames(
                w.inflight.skip(v.inflight.len() as int),
            )
        }),
    decreases cmds.len(),
{
    let n = v.inflight.len() as int;
    let w = v.drain(cmds, now).0;
    if cmds.len() == 0 {
        assert(msg_frames(w.inflight.skip(n)) =~= Seq::empty());
    } else {
        lemma_drain_chunks(v, cmds.drop_last(), now);
        let before = v.drain(cmds.drop_last(), now).0;
        let had = v.drain_frames(cmds.drop_last(), now);
        let m = before.inflight.len() as int;
        if before.heeds(cmds.last(), v.pending is Some) {
            let new = before.apply_frames(cmds.last(), now);
            lemma_chunks_append(had, new);
            match cmds.last() {
                CmdView::Reliable(data) => {
                    lemma_enqueue_appends(before, data, now);
                    lemma_all_chunks(w.inflight.skip(m));
                    assert(msg_frames(before.inflight.skip(n)) + msg_frames(w.inflight.skip(m))
                        =~= msg_frames(w.inflight.skip(n)));
                },
                CmdView::Datagram(_) => {
                    assert(new.drop_last() =~= Seq::empty());
                    reveal_with_fuel(chunks_among, 2);
                    assert(chunks_among(had) + Seq::<FrameView>::empty() =~= chunks_among(had));
                },
            }
        } else {
            assert(had + Seq::<FrameView>::empty() =~= had);
        }
    }
}

/// The chunks that a turn sends are, one for one and in order: those that are new in the
/// window, once each; and behind them, where a retransmission is due, all that are in the
/// window. It sends no others.
pub proof fn law_turn_chunks<A>(v: ConnView<A>, now: u64)
    requires
        !v.closed,
        v.inner.established,
        v.inner.window_sound(),
        v.inner.seq_room(),
        RTO_INIT <= v.inner.rto <= RTO_MAX,
    ensures
        ({
            let before = v.inner.inflight;
            let after = v.round(now).0.inner.inflight;
            let again = after.len() > 0 && (v.inner.fast_retransmit || before.len() > 0 && now
                >= before[0].sent_at && now - before[0].sent_at >= v.inner.rto);
            carry_chunks(
                chunks_among(v.round_frames(now)),
                after.skip(before.len() as int) + if again {
                    after
                } else {
                    Seq::empty()
                },
            )
        }),
{
    let inner = v.inner;
    let resumed = inner.resume(now);
    let drained = inner.drained(v.commands, now).0;
    let served = inner.served(v.commands, now);
    let before = inner.inflight;
    let after = v.round(now).0.inner.inflight;
    let n = before.len() as int;
    assert(before.is_prefix_of(resumed.inflight)) by {
        if let Some(data) = inner.pending {
            lemma_enqueue_appends(inner, data, now);
        }
    }
    lemma_drain_chunks(resumed, v.commands, now);
    let a = inner.launched(resumed);
    let b = resumed.drain_frames(v.commands, now);
    let c = if drained.resend_due(now) {
        msg_frames(drained.inflight)
    } else {
        Seq::empty()
    };
    let p = served.ping_frames(now);
    lemma_chunks_append(a, b);
    lemma_chunks_append(a + b, c);
    lemma_chunks_append(a + b + c, p);
    lemma_all_chunks(resumed.inflight.skip(n));
    lemma_all_chunks(drained.inflight);
    reveal_with_fuel(chunks_among, 2);
    assert(chunks_among(p) =~= Seq::empty()) by {
        if p.len() > 0 {
            assert(p.drop_last() =~= Seq::<FrameView>::empty());
        }
    }
    let m = resumed.inflight.len() as int;
    assert(msg_frames(resumed.inflight.skip(n)) + msg_frames(drained.inflight.skip(m))
        =~= msg_frames(drained.inflight.skip(n)));
    let again = drained.resend_due(now);
    lemma_turn_due(v, now);
    let all = chunks_among(v.round_frames(now));
    assert(all =~= msg_frames(drained.inflight.skip(n)) + c);
    assert(after.len() == drained.inflight.len());
    assert forall|i: int| 0 <= i < after.len() implies (#[trigger] after[i]).seq
        == drained.inflight[i].seq && after[i].fin == drained.inflight[i].fin && after[i].data
        == drained.inflight[i].data by {}
}

/// When something was last sent, after a turn: now, where the turn gave a datagram, put a chunk
/// into the window or was due to probe; otherwise as before. A turn that sends nothing does not
/// put off the next probe.
pub proof fn law_turn_last_sent<A>(v: ConnView<A>, now: u64)
    requires
        !v.closed,
        v.inner.established,
        v.inner.window_sound(),
        v.inner.seq_room(),
        now < v.inner.last_recv + IDLE_TIMEOUT,
    ensures
        ({
            let (w, packets, _) = v.round(now);
            w.inner.last_sent == if packets.len() > 0 || w.inner.send_next > v.inner.send_next
                || now >= v.inner.last_sent + PING_INTERVAL {
                now
            } else {
                v.inner.last_sent
            }
        }),
{
    law_silent_peer(v, now);
    let resumed = v.inner.resume(now);
    if let Some(data) = v.inner.pending {
        lemma_enqueue_sent(v.inner, data, now);
    }
    lemma_drain_sent(resumed, v.commands, now);
}

/// Whether a retransmission is due in a turn does not depend on what the turn itself sends.
proof fn lemma_turn_due<A>(v: ConnView<A>, now: u64)
    requires
        v.inner.window_sound(),
        v.inner.seq_room(),
        RTO_INIT <= v.inner.rto,
    ensures
        ({
            let before = v.inner.inflight;
            let drained = v.inner.drained(v.commands, now).0;
            drained.resend_due(now) == (drained.inflight.len() > 0 && (v.inner.fast_retransmit
                || before.len() > 0 && now >= before[0].sent_at && now - before[0].sent_at
                >= v.inner.rto))
        }),
{
    let inner = v.inner;
    let before = inner.inflight;
    let resumed = inner.resume(now);
    let drained = inner.drained(v.commands, now).0;
    lemma_resume_window(inner, now);
    lemma_drain_window(resumed, v.commands, now);
    if before.len() > 0 {
        assert(resumed.inflight[0] == before[0]);
        assert(drained.inflight[0] == before[0]);
    } else if drained.inflight.len() > 0 {
        if resumed.inflight.len() > 0 {
            assert(drained.inflight[0] == resumed.inflight[0]);
        }
        assert(drained.inflight[0].sent_at == now);
    }
}

/// Commands go out in the order in which the user gave them: one more at the end of the queue
/// adds frames behind those of a turn without it, and changes none of them. They are its own:
/// one frame for a datagram, and chunks only for a message. The turn must be one in which
/// neither a retransmission nor a probe is due, since these go out last.
pub proof fn law_one_more_command<A>(v: ConnView<A>, cmd: CmdView, now: u64)
    requires
        !v.closed,
        v.inner.established,
        v.inner.window_sound(),
        v.inner.seq_room(),
        RTO_INIT <= v.inner.rto <= RTO_MAX,
        !v.inner.fast_retransmit,
        v.inner.inflight.len() > 0 ==> now < v.inner.inflight[0].sent_at + v.inner.rto,
        now < v.inner.last_sent + PING_INTERVAL,
    ensures
        ({
            let more = ConnView { commands: v.commands.push(cmd), ..v };
            let frames = v.round_frames(now);
            let longer = more.round_frames(now);
            let n = frames.len() as int;
            &&& frames.is_prefix_of(longer)
            &&& match cmd {
                CmdView::Datagram(data) => longer.skip(n).len() == 0 || longer.skip(n) == seq![
                    FrameView::Datagram { data },
                ],
                CmdView::Reliable(_) => forall|i: int|
                    n <= i < longer.len() ==> (#[trigger] longer[i]) is Msg,
            }
            &&& v.round(now).0.inner.pending is None ==> match cmd {
                CmdView::Datagram(data) => longer.len() == n + 1,
                CmdView::Reliable(data) => v.round(now).0.inner.inflight.len() == 0 ==> longer.len()
                    > n,
            }
        }),
{
    let more = ConnView { commands: v.commands.push(cmd), ..v };
    assert(more.commands.drop_last() =~= v.commands);
    let inner = v.inner;
    let resumed = inner.resume(now);
    if let Some(data) = inner.pending {
        lemma_enqueue_sent(inner, data, now);
    }
    lemma_drain_sent(resumed, v.commands, now);
    lemma_drain_sent(resumed, more.commands, now);
    lemma_turn_due(v, now);
    lemma_turn_due(more, now);
    let a = inner.launched(resumed);
    let b = resumed.drain_frames(v.commands, now);
    let drained = inner.drained(v.commands, now).0;
    let x = if drained.heeds(cmd, resumed.pending is Some) {
        drained.apply_frames(cmd, now)
    } else {
        Seq::empty()
    };
    let none = Seq::<FrameView>::empty();
    let frames = v.round_frames(now);
    let longer = more.round_frames(now);
    assert(inner.served(v.commands, now).ping_frames(now) == none);
    assert(inner.served(more.commands, now).ping_frames(now) == none);
    assert(frames =~= a + b);
    assert(longer =~= a + b + x);
    assert(longer.skip(frames.len() as int) =~= x);
    if let CmdView::Reliable(data) = cmd {
        lemma_resume_window(inner, now);
        lemma_drain_window(resumed, v.commands, now);
        assert(total_len(Seq::empty()) == 0);
        if drained.inflight.len() == 0 {
            assert(drained.inflight =~= Seq::empty());
        }
        if drained.pending is None {
            assert(drained.window_takes(0) || drained.inflight.len() > 0);
            lemma_first_chunk(drained, data, now);
        }
    }
}

/// An empty window takes in the first chunk of any message.
proof fn lemma_first_chunk<A>(v: InnerView<A>, data: Seq<u8>, now: u64)
    requires
        v.window_sound(),
    ensures
        v.inflight.len() == 0 ==> v.launched(v.send(data, now)).len() > 0,
{
    if v.inflight.len() == 0 {
        assert(v.inflight =~= Seq::empty());
        let w = v.enqueue(data, now).0;
        if data.len() > MAX_RELIABLE_CHUNK {
            lemma_enqueue_appends(
                v.launch(data.take(MAX_RELIABLE_CHUNK as int), false, now),
                data.skip(MAX_RELIABLE_CHUNK as int),
                now,
            );
        }
        assert(w.inflight.len() > 0);
    }
}

/// The messages among commands, as commands, in order.
pub open spec fn messages_among(cmds: Seq<CmdView>) -> Seq<CmdView>
    decreases cmds.len(),
{
    if cmds.len() == 0 {
        Seq::empty()
    } else if cmds.last() is Reliable {
        messages_among(cmds.drop_last()).push(cmds.last())
    } else {
        messages_among(cmds.drop_last())
    }
}

/// While a message is pending, the datagrams of the queue go out and the messages stay.
proof fn lemma_drain_held_up<A>(v: InnerView<A>, cmds: Seq<CmdView>, now: u64)
    requires
        v.pending is Some,
    ensures
        v.drain(cmds, now).0.pending == v.pending,
        v.drain(cmds, now).0.inflight == v.inflight,
        v.drain(cmds, now).1 == messages_among(cmds),
    decreases cmds.len(),
{
    if cmds.len() > 0 {
        lemma_drain_held_up(v, cmds.drop_last(), now);
    }
}

/// With nothing pending, commands are carried out up to a message that is cut short, if there
/// is one, and all behind it stay.
proof fn lemma_drain_cut<A>(v: InnerView<A>, cmds: Seq<CmdView>, now: u64)
    requires
        v.pending is None,
    ensures
        ({
            let (w, kept) = v.drain(cmds, now);
            &&& kept.len() <= cmds.len()
            &&& kept == cmds.skip(cmds.len() - kept.len())
            &&& w.pending is None ==> kept.len() == 0
            &&& w.pending is Some ==> kept.len() < cmds.len() && cmds[cmds.len() - kept.len()
                - 1] is Reliable
        }),
    decreases cmds.len(),
{
    if cmds.len() > 0 {
        let first = cmds.drop_last();
        lemma_drain_cut(v, first, now);
        let (before, had) = v.drain(first, now);
        let kept = v.drain(cmds, now).1;
        if before.pending is Some {
            assert(kept =~= had.push(cmds.last()));
            assert(kept =~= cmds.skip(cmds.len() - kept.len()));
        } else {
            assert(kept =~= Seq::empty());
            assert(kept =~= cmds.skip(cmds.len() - kept.len()));
        }
    } else {
        assert(cmds.skip(0) =~= cmds);
    }
}

/// What stays queued after a turn. Where the message that was pending is so still, the messages
/// wait behind it, all of them and in order, and no datagram does. Otherwise the commands
/// behind the message that the turn has cut short wait, datagrams too; where it has cut none,
/// nothing does.
pub proof fn law_turn_commands<A>(v: ConnView<A>, now: u64)
    requires
        !v.closed,
        v.inner.established,
    ensures
        ({
            let w = v.round(now).0;
            let held_up = v.inner.pending matches Some(data) && v.inner.enqueue(
                data,
                now,
            ).1 is Some;
            let n = v.commands.len();
            let k = w.commands.len();
            if held_up {
                &&& w.commands == messages_among(v.commands)
                &&& w.inner.pending == v.inner.enqueue(v.inner.pending->0, now).1
            } else {
                &&& k <= n
                &&& w.commands == v.commands.skip(n - k)
                &&& w.inner.pending is None ==> k == 0
                &&& w.inner.pending is Some ==> k < n && v.commands[n - k - 1] is Reliable
            }
        }),
{
    let resumed = v.inner.resume(now);
    if resumed.pending is Some {
        lemma_drain_held_up(resumed, v.commands, now);
    } else {
        lemma_drain_cut(resumed, v.commands, now);
    }
}

/// A turn leaves nothing behind that the window has room for: something stays pending only
/// where its next piece finds no room, and a command stays queued only behind what is pending.
/// Once the turn is over nothing is left to go out, and where it gave datagrams, that is noted
/// as the time at which something was last sent.
pub proof fn law_turn_leaves<A>(v: ConnView<A>, now: u64)
    requires
        !v.closed,
        v.inner.established,
        v.inner.window_sound(),
        v.inner.seq_room(),
    ensures
        ({
            let (w, packets, done) = v.round(now);
            &&& w.inner.pending matches Some(data) ==> no_room(w.inner, data)
            &&& w.inner.pending is None ==> w.commands.len() == 0
            &&& !done ==> w.inner.batch.packed.len() == 0 && w.inner.batch.outbox.len() == 0
            &&& packets.len() > 0 ==> w.inner.last_sent == now
        }),
{
    let inner = v.inner;
    let resumed = inner.resume(now);
    let (drained, kept) = inner.drained(v.commands, now);
    lemma_resume_window(inner, now);
    if let Some(data) = inner.pending {
        law_enqueue(inner, data, now);
    }
    lemma_drain_leaves(resumed, v.commands, now);
    let served = inner.served(v.commands, now);
    lemma_total_len_same_data(served.inflight, drained.inflight);
}

/// Commands leave nothing behind that the window has room for.
proof fn lemma_drain_leaves<A>(v: InnerView<A>, cmds: Seq<CmdView>, now: u64)
    requires
        v.window_sound(),
        v.seq_room(),
        v.pending matches Some(data) ==> no_room(v, data),
    ensures
        ({
            let (w, kept) = v.drain(cmds, now);
            &&& w.pending matches Some(data) ==> no_room(w, data)
            &&& w.pending is None ==> kept.len() == 0
            &&& v.pending is Some ==> w.pending is Some && w.inflight == v.inflight
        }),
    decreases cmds.len(),
{
    if cmds.len() > 0 {
        let first = cmds.drop_last();
        lemma_drain_leaves(v, first, now);
        lemma_drain_window(v, first, now);
        let before = v.drain(first, now).0;
        if let CmdView::Reliable(data) = cmds.last() {
            law_enqueue(before, data, now);
        }
    }
}

/// A peer that was silent for as long as the idle timeout is given up: the connection is
/// closed, sends nothing more, and is done. Any other is kept.
pub proof fn law_silent_peer<A>(v: ConnView<A>, now: u64)
    requires
        !v.closed,
        v.inner.established,
    ensures
        ({
            let (w, packets, done) = v.round(now);
            &&& done == (now >= v.inner.last_recv && now - v.inner.last_recv >= IDLE_TIMEOUT)
            &&& w.closed == done
            &&& done ==> packets.len() == 0
        }),
{
    lemma_served_keeps(v.inner, v.commands, now);
}

/// A turn of an open connection sends one probe, behind all else, if and only if nothing was
/// sent for as long as the probe interval and the turn puts no new chunk into the window.
pub proof fn law_probe<A>(v: ConnView<A>, now: u64)
    requires
        !v.closed,
        v.inner.established,
        v.inner.window_sound(),
        v.inner.seq_room(),
    ensures
        ({
            let frames = v.round_frames(now);
            let due = now >= v.inner.last_sent && now - v.inner.last_sent >= PING_INTERVAL
                && v.round(now).0.inner.send_next == v.inner.send_next;
            &&& forall|i: int|
                0 <= i < frames.len() ==> ((#[trigger] frames[i]) is Ping <==> due && i
                    == frames.len() - 1)
            &&& due ==> frames.len() > 0
        }),
{
    let inner = v.inner;
    let resumed = inner.resume(now);
    if let Some(data) = inner.pending {
        lemma_enqueue_sent(inner, data, now);
    }
    lemma_drain_sent(resumed, v.commands, now);
    lemma_drain_kinds(resumed, v.commands, now);
    let before = inner.turn_frames(v.commands, now);
    let probe = inner.served(v.commands, now).ping_frames(now);
    let frames = v.round_frames(now);
    assert forall|i: int| 0 <= i < before.len() implies !((#[trigger] before[i]) is Ping) by {
        let a = inner.launched(resumed);
        let b = resumed.drain_frames(v.commands, now);
        if i >= a.len() && i < a.len() + b.len() {
            assert(before[i] == b[i - a.len()]);
        }
    }
    assert forall|i: int| 0 <= i < frames.len() implies ((#[trigger] frames[i]) is Ping <==> i
        >= before.len()) by {
        if i < before.len() {
            assert(frames[i] == before[i]);
        } else {
            assert(frames[i] == probe[i - before.len()]);
        }
    }
}

/// Commands give chunks and datagrams only.
proof fn lemma_drain_kinds<A>(v: InnerView<A>, cmds: Seq<CmdView>, now: u64)
    ensures
        forall|i: int|
            0 <= i < v.drain_frames(cmds, now).len() ==> (#[trigger] v.drain_frames(cmds, now)[i])
                is Msg || v.drain_frames(cmds, now)[i] is Datagram,
    decreases cmds.len(),
{
    if cmds.len() > 0 {
        let first = cmds.drop_last();
        lemma_drain_kinds(v, first, now);
        let had = v.drain_frames(first, now);
        let all = v.drain_frames(cmds, now);
        assert forall|i: int| 0 <= i < all.len() implies (#[trigger] all[i]) is Msg
            || all[i] is Datagram by {
            if i < had.len() {
                assert(all[i] == had[i]);
            }
        }
    }
}

/// A turn of an open connection sends chunks, datagrams and probes only: an acknowledgement is
/// queued when its datagram arrives, and a close goes out when the connection is closed.
pub proof fn law_turn_kinds<A>(v: ConnView<A>, now: u64)
    requires
        !v.closed,
        v.inner.established,
    ensures
        forall|i: int|
            0 <= i < v.round_frames(now).len() ==> (#[trigger] v.round_frames(now)[i]) is Msg
                || v.round_frames(now)[i] is Datagram || v.round_frames(now)[i] is Ping,
{
    let inner = v.inner;
    let resumed = inner.resume(now);
    lemma_drain_kinds(resumed, v.commands, now);
    let a = inner.launched(resumed);
    let b = resumed.drain_frames(v.commands, now);
    let all = v.round_frames(now);
    assert forall|i: int| 0 <= i < all.len() implies (#[trigger] all[i]) is Msg
        || all[i] is Datagram || all[i] is Ping by {
        if a.len() <= i < a.len() + b.len() {
            assert(all[i] == b[i - a.len()]);
        }
    }
}

/// A connection that its user closed tells the peer in its next turn, once, behind what is
/// queued, if the handshake was done; otherwise it tells nothing. Either way it is done, and
/// no command of the user is carried out.
pub proof fn law_close_goes_out<A>(v: ConnView<A>, now: u64, later: u64)
    requires
        v.closed,
    ensures
        ({
            let (w, packets, done) = v.round(now);
            let told = v.closing && v.inner.established;
            &&& done
            &&& v.round_frames(now) == if told {
                seq![FrameView::Close]
            } else {
                Seq::empty()
            }
            &&& !told ==> packets.len() == 0 && w == v
            &&& told ==> !w.closing && w.inner.batch.packed.len() == 0
                && w.inner.batch.outbox.len() == 0
            &&& w.closed
            &&& w.commands == v.commands
            &&& w.round_frames(later).len() == 0
            &&& w.round(later).1.len() == 0
        }),
{
}

/// Before its handshake is done a connection that is open does nothing in its turn: it sends
/// nothing, is not given up, and what the user asked for stays queued.
pub proof fn law_turn_waits<A>(v: ConnView<A>, now: u64)
    requires
        !v.closed,
        !v.inner.established,
    ensures
        v.round(now).0 == v,
        v.round(now).1.len() == 0,
        !v.round(now).2,
        v.round_frames(now).len() == 0,
{
}

/// Frames other than chunks leave the receiving side where it is.
proof fn lemma_no_chunks<A>(v: ConnView<A>, frames: Seq<FrameView>)
    requires
        forall|i: int| 0 <= i < frames.len() ==> !((#[trigger] frames[i]) is Msg),
    ensures
        v.steps(frames).inner.recv_next == v.inner.recv_next,
    decreases frames.len(),
{
    if frames.len() > 0 {
        let first = frames.drop_last();
        assert forall|i: int| 0 <= i < first.len() implies !((#[trigger] first[i]) is Msg) by {
            assert(first[i] == frames[i]);
        }
        lemma_no_chunks(v, first);
        assert(frames.last() == frames[frames.len() - 1]);
    }
}

/// A connection that is open after frames was open before the last of them.
proof fn lemma_open_before<A>(v: ConnView<A>, a: Seq<FrameView>, b: Seq<FrameView>)
    requires
        !v.steps(a + b).closed,
    ensures
        !v.steps(a).closed,
        v.steps(a + b) == v.steps(a).steps(b),
    decreases b.len(),
{
    lemma_steps_append(v, a, b);
    if b.len() > 0 {
        let first = b.drop_last();
        assert((a + b).drop_last() =~= a + first);
        lemma_open_before(v, a, first);
    }
}

/// New chunks of a window, arriving in order, bring a receiver that had all before them up to
/// date.
proof fn lemma_new_chunks_arrive<A>(
    v: InnerView<A>,
    w: InnerView<A>,
    receiver: ConnView<A>,
    now: u64,
)
    requires
        w.window_sound(),
        grows(v, w, now),
        receiver.inner.recv_next == v.send_next,
        !receiver.steps(v.launched(w)).closed,
    ensures
        receiver.steps(v.launched(w)).inner.recv_next == w.send_next,
{
    let n = v.inflight.len() as int;
    let new = w.inflight.skip(n);
    assert forall|i: int| 0 <= i < new.len() implies (#[trigger] new[i]).seq == v.send_next + i by {
        assert(new[i] == w.inflight[n + i]);
    }
    law_chunk_frames(new);
    lemma_row_arrives(receiver, v.launched(w), new, v.send_next as int);
}

/// The same for what commands give.
proof fn lemma_drain_arrives<A>(
    v: InnerView<A>,
    cmds: Seq<CmdView>,
    receiver: ConnView<A>,
    now: u64,
)
    requires
        v.window_sound(),
        v.seq_room(),
        receiver.inner.recv_next == v.send_next,
        !receiver.steps(v.drain_frames(cmds, now)).closed,
    ensures
        receiver.steps(v.drain_frames(cmds, now)).inner.recv_next == v.drain(cmds, now).0.send_next,
    decreases cmds.len(),
{
    if cmds.len() > 0 {
        let first = cmds.drop_last();
        let had = v.drain_frames(first, now);
        let before = v.drain(first, now).0;
        lemma_drain_window(v, first, now);
        if before.heeds(cmds.last(), v.pending is Some) {
            let new = before.apply_frames(cmds.last(), now);
            lemma_open_before(receiver, had, new);
            lemma_drain_arrives(v, first, receiver, now);
            let caught_up = receiver.steps(had);
            match cmds.last() {
                CmdView::Reliable(data) => {
                    lemma_enqueue_window(before, data, now);
                    lemma_new_chunks_arrive(before, before.send(data, now), caught_up, now);
                },
                CmdView::Datagram(_) => {
                    lemma_no_chunks(caught_up, new);
                },
            }
        } else {
            assert(had + Seq::<FrameView>::empty() =~= had);
            lemma_drain_arrives(v, first, receiver, now);
        }
    }
}

/// Where nothing is lost, nothing is late: a turn whose frames all arrive, in order, at a
/// receiver that had every chunk before, leaves the receiver with every chunk that was ever
/// sent, as long as they do not close it.
pub proof fn law_turn_arrives<A>(
    sender: ConnView<A>,
    receiver: ConnView<A>,
    now: u64,
    arrived: u64,
)
    requires
        !sender.closed,
        sender.inner.established,
        sender.inner.window_sound(),
        sender.inner.seq_room(),
        !receiver.closed,
        receiver.inner.recv_next == sender.inner.send_next,
        !receiver.handle(sender.round_frames(now), arrived).closed,
    ensures
        receiver.handle(sender.round_frames(now), arrived).inner.recv_next == sender.round(
            now,
        ).0.inner.send_next,
{
    let inner = sender.inner;
    let start = receiver.heard(arrived);
    let resumed = inner.resume(now);
    let drained = inner.drained(sender.commands, now).0;
    let a = inner.launched(resumed);
    let b = resumed.drain_frames(sender.commands, now);
    let c = if drained.resend_due(now) {
        msg_frames(drained.inflight)
    } else {
        Seq::empty()
    };
    let p = inner.served(sender.commands, now).ping_frames(now);
    lemma_resume_window(inner, now);
    lemma_drain_window(resumed, sender.commands, now);
    lemma_open_before(start, a + b + c, p);
    lemma_open_before(start, a + b, c);
    lemma_open_before(start, a, b);
    lemma_new_chunks_arrive(inner, resumed, start, now);
    lemma_drain_arrives(resumed, sender.commands, start.steps(a), now);
    let caught_up = start.steps(a + b);
    if drained.resend_due(now) {
        law_chunk_frames(drained.inflight);
        lemma_row_arrives(
            caught_up,
            c,
            drained.inflight,
            drained.send_next - drained.inflight.len(),
        );
    }
    lemma_no_chunks(caught_up.steps(c), p);
}

} // verus!
