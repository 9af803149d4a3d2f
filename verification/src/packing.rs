//! How frames are spread over datagrams: as few datagrams as go, with the frames in order.

use vstd::prelude::*;

use crate::command::CmdView;
use crate::conn::{lemma_acks_heard, ConnView};
use crate::frame::{
    frames_encoding, packet_bytes, Batch, FrameView, CID_HEADER_LEN, MAX_DATAGRAM_SIZE,
    MAX_RELIABLE_CHUNK,
};
use crate::inner::{msg_frame, msg_frames, push_all, InnerView};
use crate::laws::lemma_enqueue_appends;
use crate::receiving::lemma_steps_queued;
use crate::send::lemma_drain_keeps;

verus! {

/// Frames are added to a batch one after the other.
pub proof fn law_push_all<A>(b: Batch<A>, cid: u32, frames: Seq<FrameView>, frame: FrameView)
    ensures
        push_all(b, cid, Seq::empty()) == b,
        push_all(b, cid, frames.push(frame)) == push_all(b, cid, frames).push(cid, frame),
{
    assert(frames.push(frame).drop_last() =~= frames);
}

/// Two rows of frames are added one after the other.
proof fn lemma_push_all_append<A>(b: Batch<A>, cid: u32, x: Seq<FrameView>, y: Seq<FrameView>)
    ensures
        push_all(b, cid, x + y) == push_all(push_all(b, cid, x), cid, y),
    decreases y.len(),
{
    if y.len() == 0 {
        assert(x + y =~= x);
    } else {
        lemma_push_all_append(b, cid, x, y.drop_last());
        assert((x + y).drop_last() =~= x + y.drop_last());
    }
}

/// One frame is added.
proof fn lemma_push_all_one<A>(b: Batch<A>, cid: u32, frame: FrameView)
    ensures
        push_all(b, cid, seq![frame]) == b.push(cid, frame),
{
    reveal_with_fuel(push_all, 2);
    assert(seq![frame].drop_last() =~= Seq::<FrameView>::empty());
}

/// A message adds the frames of its chunks.
proof fn lemma_enqueue_batch<A>(v: InnerView<A>, data: Seq<u8>, now: u64)
    ensures
        ({
            let w = v.enqueue(data, now).0;
            &&& w.cid == v.cid
            &&& w.batch == push_all(
                v.batch,
                v.cid,
                msg_frames(w.inflight.skip(v.inflight.len() as int)),
            )
        }),
    decreases data.len(),
{
    let w = v.enqueue(data, now).0;
    let n = v.inflight.len() as int;
    lemma_enqueue_appends(v, data, now);
    if w == v {
        assert(msg_frames(w.inflight.skip(n)) =~= Seq::empty());
    } else if data.len() <= MAX_RELIABLE_CHUNK {
        let f = msg_frame(w.inflight[n]);
        assert(msg_frames(w.inflight.skip(n)) =~= seq![f]);
        lemma_push_all_one(v.batch, v.cid, f);
    } else if v.window_takes(MAX_RELIABLE_CHUNK as nat) {
        let head = data.take(MAX_RELIABLE_CHUNK as int);
        let tail = data.skip(MAX_RELIABLE_CHUNK as int);
        let next = v.launch(head, false, now);
        lemma_enqueue_batch(next, tail, now);
        lemma_enqueue_appends(next, tail, now);
        let f = msg_frame(next.inflight[n]);
        let rest = msg_frames(w.inflight.skip(n + 1));
        assert(w.inflight[n] == next.inflight[n]);
        assert(msg_frames(w.inflight.skip(n)) =~= seq![f] + rest);
        lemma_push_all_append(v.batch, v.cid, seq![f], rest);
        lemma_push_all_one(v.batch, v.cid, f);
    } else {
        assert(msg_frames(w.inflight.skip(n)) =~= Seq::empty());
    }
}

/// Commands add the frames that they give.
proof fn lemma_drain_batch<A>(v: InnerView<A>, cmds: Seq<CmdView>, now: u64)
    ensures
        v.drain(cmds, now).0.cid == v.cid,
        v.drain(cmds, now).0.batch == push_all(v.batch, v.cid, v.drain_frames(cmds, now)),
    decreases cmds.len(),
{
    if cmds.len() > 0 {
        lemma_drain_batch(v, cmds.drop_last(), now);
        let before = v.drain(cmds.drop_last(), now).0;
        let had = v.drain_frames(cmds.drop_last(), now);
        if before.heeds(cmds.last(), v.pending is Some) {
            let new = before.apply_frames(cmds.last(), now);
            lemma_push_all_append(v.batch, v.cid, had, new);
            match cmds.last() {
                CmdView::Reliable(data) => {
                    lemma_enqueue_batch(before, data, now);
                },
                CmdView::Datagram(data) => {
                    lemma_push_all_one(before.batch, v.cid, FrameView::Datagram { data });
                },
            }
        } else {
            assert(had + Seq::<FrameView>::empty() =~= had);
        }
    }
}

/// A turn adds its frames to the batch one by one, behind those that wait, and then gives what
/// the batch holds.
pub proof fn law_turn_packs<A>(v: ConnView<A>, now: u64)
    requires
        v.inner.cid == v.cid,
    ensures
        ({
            let (w, packets, done) = v.round(now);
            let sends = !v.closed && v.inner.established && !done || v.closed && v.closing
                && v.inner.established;
            sends ==> packets == push_all(v.inner.batch, v.cid, v.round_frames(now)).flush(
                v.cid,
            ).outbox
        }),
{
    let inner = v.inner;
    let cid = v.cid;
    if v.closed {
        lemma_push_all_one(inner.batch, cid, FrameView::Close);
    } else {
        let resumed = inner.resume(now);
        let drained = inner.drained(v.commands, now).0;
        let served = inner.served(v.commands, now);
        let a = inner.launched(resumed);
        let b = resumed.drain_frames(v.commands, now);
        let c = if drained.resend_due(now) {
            msg_frames(drained.inflight)
        } else {
            Seq::empty()
        };
        let p = served.ping_frames(now);
        lemma_drain_keeps(inner, v.commands, now);
        lemma_drain_keeps(resumed, v.commands, now);
        match inner.pending {
            Some(data) => {
                lemma_enqueue_batch(inner, data, now);
            },
            None => {
                assert(a =~= Seq::empty());
            },
        }
        lemma_drain_batch(resumed, v.commands, now);
        lemma_push_all_append(inner.batch, cid, a, b);
        lemma_push_all_append(inner.batch, cid, a + b, c);
        lemma_push_all_append(inner.batch, cid, a + b + c, p);
        assert(push_all(inner.batch, cid, a + b + c) == served.batch);
        lemma_push_all_one(served.batch, cid, FrameView::Ping);
    }
}

/// Frames that all fit join those that wait.
proof fn lemma_all_fit<A>(b: Batch<A>, cid: u32, frames: Seq<FrameView>)
    requires
        forall|k: int|
            b.packed.len() < k <= b.packed.len() + frames.len() ==> CID_HEADER_LEN
                + frames_encoding(#[trigger] (b.packed + frames).take(k)).len()
                <= MAX_DATAGRAM_SIZE,
    ensures
        push_all(b, cid, frames).packed == b.packed + frames,
        push_all(b, cid, frames).outbox == b.outbox,
        push_all(b, cid, frames).remote == b.remote,
    decreases frames.len(),
{
    if frames.len() == 0 {
        assert(b.packed + frames =~= b.packed);
    } else {
        let first = frames.drop_last();
        let all = b.packed + frames;
        assert forall|k: int|
            b.packed.len() < k <= b.packed.len() + first.len() implies CID_HEADER_LEN
            + frames_encoding(#[trigger] (b.packed + first).take(k)).len()
            <= MAX_DATAGRAM_SIZE by {
            assert((b.packed + first).take(k) =~= all.take(k));
        }
        lemma_all_fit(b, cid, first);
        assert((b.packed + first).push(frames.last()) =~= all);
        assert(all.take(all.len() as int) =~= all);
    }
}

/// A turn gives no more datagrams than it must: where all that is to go out fits into one, as
/// frame joins frame, it gives that one, for the peer and under the id of the connection; and
/// where nothing is to go out, it gives none.
pub proof fn law_one_datagram<A>(v: ConnView<A>, now: u64)
    requires
        v.inner.cid == v.cid,
        v.inner.batch.remote == v.remote,
        v.inner.established,
        !v.closed && !v.round(now).2 || v.closed && v.closing,
        v.inner.batch.outbox.len() == 0,
        ({
            let all = v.inner.batch.packed + v.round_frames(now);
            forall|k: int|
                0 < k <= all.len() ==> CID_HEADER_LEN + frames_encoding(
                    #[trigger] all.take(k),
                ).len() <= MAX_DATAGRAM_SIZE
        }),
    ensures
        ({
            let all = v.inner.batch.packed + v.round_frames(now);
            v.round(now).1 == if all.len() > 0 {
                seq![(v.remote, packet_bytes(v.cid, all))]
            } else {
                Seq::empty()
            }
        }),
{
    law_turn_packs(v, now);
    lemma_all_fit(v.inner.batch, v.cid, v.round_frames(now));
    let all = v.inner.batch.packed + v.round_frames(now);
    assert(v.inner.batch.outbox =~= Seq::empty());
    assert(v.inner.batch.outbox.push((v.remote, packet_bytes(v.cid, all))) =~= seq![
        (v.remote, packet_bytes(v.cid, all)),
    ]);
}

/// What arrives touches what is to go out in one way: the acknowledgement, where one is called
/// for, joins the frames that wait where the datagram has room for it.
pub proof fn law_ack_joins<A>(v: ConnView<A>, frames: Seq<FrameView>, now: u64)
    requires
        !v.closed,
    ensures
        ({
            let w = v.handle(frames, now);
            let asks = exists|i: int| 0 <= i < frames.len() && (#[trigger] frames[i]) is Msg;
            let ack = FrameView::Ack { next_seq: w.inner.recv_next };
            let joined = v.inner.batch.packed.push(ack);
            &&& !asks || w.closed ==> w.inner.batch == v.inner.batch
            &&& asks && !w.closed && CID_HEADER_LEN + frames_encoding(joined).len()
                <= MAX_DATAGRAM_SIZE ==> w.inner.batch == (Batch {
                packed: joined,
                ..v.inner.batch
            })
        }),
{
    lemma_acks_heard(v, frames, now);
    lemma_steps_queued(v.heard(now), v.heard(now), frames);
    lemma_steps_cid(v.heard(now), frames);
}

/// Frames do not change the id of a connection.
proof fn lemma_steps_cid<A>(v: ConnView<A>, frames: Seq<FrameView>)
    ensures
        v.steps(frames).inner.cid == v.inner.cid,
    decreases frames.len(),
{
    if frames.len() > 0 {
        lemma_steps_cid(v, frames.drop_last());
    }
}

} // verus!
