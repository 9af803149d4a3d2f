//! What arriving frames do to a connection, said of its fields.
//!
//! A datagram with one frame is taken kind by kind. `law_split_datagram` says that a datagram
//! with many frames does what datagrams with one frame each do.

use vstd::prelude::*;

use crate::conn::{lemma_acks_heard, ConnView};
use crate::frame::FrameView;
use crate::inner::{
    lemma_acknowledge_window, total_len, InflightView, InnerView,
    DATAGRAM_QUEUE_CAP, DUP_ACK_THRESHOLD, MAX_MESSAGE_SIZE, RELIABLE_QUEUE_CAP, RTO_INIT,
};
use crate::laws::best_effort;

verus! {

/// The two connections agree on all but the frames that are queued.
pub open spec fn same_but_queued<A>(a: ConnView<A>, b: ConnView<A>) -> bool {
    a == ConnView { inner: InnerView { batch: a.inner.batch, ..b.inner }, ..b }
}

/// What a datagram with one frame does.
proof fn lemma_one_arrival<A>(v: ConnView<A>, frame: FrameView)
    ensures
        v.steps(seq![frame]) == if v.closed {
            v
        } else {
            v.step(frame)
        },
{
    reveal_with_fuel(ConnView::steps, 2);
    assert(seq![frame].drop_last() =~= Seq::<FrameView>::empty());
}

/// The chunk that is next in line is taken in: the number of the next one goes up by one, and
/// the data joins what is being put together. The last chunk of a message hands the whole of
/// it to the user, behind the messages that wait. Beyond the size limit, or with no room for
/// the user, the connection closes and the user gets nothing. The peer counts as heard of, and
/// nothing else changes but the frames that are queued.
pub proof fn law_next_chunk<A>(v: ConnView<A>, fin: bool, data: Seq<u8>, now: u64)
    requires
        !v.closed,
        v.inner.recv_next < u64::MAX,
    ensures
        ({
            let w = v.handle(seq![FrameView::Msg { seq: v.inner.recv_next, fin, data }], now);
            let message = v.inner.assembling + data;
            let lost = message.len() > MAX_MESSAGE_SIZE || fin && v.inbox.len()
                >= RELIABLE_QUEUE_CAP;
            &&& w.inner.recv_next == v.inner.recv_next + 1
            &&& w.closed == lost
            &&& w.inbox == if fin && !lost {
                v.inbox.push(message)
            } else {
                v.inbox
            }
            &&& !lost ==> w.inner.assembling == if fin {
                Seq::empty()
            } else {
                message
            }
            &&& w == ConnView {
                closed: w.closed,
                inbox: w.inbox,
                inner: InnerView {
                    recv_next: w.inner.recv_next,
                    assembling: w.inner.assembling,
                    last_recv: now,
                    batch: w.inner.batch,
                    ..v.inner
                },
                ..v
            }
        }),
{
    lemma_one_arrival(v.heard(now), FrameView::Msg { seq: v.inner.recv_next, fin, data });
}

/// A chunk that is not next in line, because it came before or because one before it is
/// missing, changes nothing but that the peer was heard of, and the frames that are queued.
pub proof fn law_other_chunk<A>(v: ConnView<A>, seq: u64, fin: bool, data: Seq<u8>, now: u64)
    requires
        !v.closed,
        seq != v.inner.recv_next,
    ensures
        ({
            let w = v.handle(seq![FrameView::Msg { seq, fin, data }], now);
            w == ConnView {
                inner: InnerView { last_recv: now, batch: w.inner.batch, ..v.inner },
                ..v
            }
        }),
{
    lemma_one_arrival(v.heard(now), FrameView::Msg { seq, fin, data });
}

/// An acknowledgement lets go of exactly the chunks whose number is below the one that it
/// names, takes their bytes off the count, and takes the timeout back to its start if there
/// were any. One above all before it is noted and ends a row of duplicates. One that is not,
/// while chunks are in flight that it does not cover, is one more duplicate, and as many in a
/// row as the threshold says ask for a retransmission. The peer counts as heard of, and
/// nothing else changes; no frame is queued.
pub proof fn law_ack_arrives<A>(v: ConnView<A>, next_seq: u64, now: u64)
    requires
        !v.closed,
        v.inner.window_sound(),
        v.inner.dup_acks < DUP_ACK_THRESHOLD,
    ensures
        ({
            let w = v.handle(seq![FrameView::Ack { next_seq }], now);
            let gone = v.inner.inflight.len() - w.inner.inflight.len();
            let repeated = next_seq <= v.inner.last_ack && next_seq < v.inner.send_next
                && w.inner.inflight.len() > 0;
            &&& 0 <= gone <= v.inner.inflight.len()
            &&& w.inner.inflight == v.inner.inflight.skip(gone)
            &&& forall|i: int|
                0 <= i < v.inner.inflight.len() ==> ((#[trigger] v.inner.inflight[i]).seq < next_seq
                    <==> i < gone)
            &&& w.inner.inflight_bytes == total_len(w.inner.inflight)
            &&& w.inner.rto == if gone > 0 {
                RTO_INIT
            } else {
                v.inner.rto
            }
            &&& w.inner.last_ack == if next_seq > v.inner.last_ack {
                next_seq
            } else {
                v.inner.last_ack
            }
            &&& w.inner.dup_acks == if next_seq > v.inner.last_ack {
                0int
            } else if !repeated {
                v.inner.dup_acks as int
            } else if v.inner.dup_acks + 1 == DUP_ACK_THRESHOLD {
                0
            } else {
                v.inner.dup_acks + 1
            }
            &&& w.inner.fast_retransmit == (v.inner.fast_retransmit || repeated
                && v.inner.dup_acks + 1 == DUP_ACK_THRESHOLD)
            &&& w == ConnView {
                inner: InnerView {
                    inflight: w.inner.inflight,
                    inflight_bytes: w.inner.inflight_bytes,
                    rto: w.inner.rto,
                    last_ack: w.inner.last_ack,
                    dup_acks: w.inner.dup_acks,
                    fast_retransmit: w.inner.fast_retransmit,
                    last_recv: now,
                    ..v.inner
                },
                ..v
            }
        }),
{
    let frames = seq![FrameView::Ack { next_seq }];
    lemma_one_arrival(v.heard(now), FrameView::Ack { next_seq });
    lemma_acknowledge_window(v.heard(now).inner, next_seq);
    assert(!(frames[0] is Msg));
}

/// A best-effort datagram joins those that wait for the user, as it is, behind them; where they
/// are as many as may wait, it is dropped. The peer counts as heard of, and nothing else
/// changes; no frame is queued.
pub proof fn law_datagram_arrives<A>(v: ConnView<A>, data: Seq<u8>, now: u64)
    requires
        !v.closed,
    ensures
        v.handle(seq![FrameView::Datagram { data }], now) == (ConnView {
            datagrams: if v.datagrams.len() < DATAGRAM_QUEUE_CAP {
                v.datagrams.push(data)
            } else {
                v.datagrams
            },
            inner: InnerView { last_recv: now, ..v.inner },
            ..v
        }),
{
    let frames = seq![FrameView::Datagram { data }];
    lemma_one_arrival(v.heard(now), FrameView::Datagram { data });
    assert(!(frames[0] is Msg));
}

/// A close that arrives closes the connection. The peer counts as heard of, and nothing else
/// changes: this side has nobody to tell, and no frame is queued.
pub proof fn law_close_arrives<A>(v: ConnView<A>, now: u64)
    requires
        !v.closed,
    ensures
        v.handle(seq![FrameView::Close], now) == (ConnView {
            closed: true,
            inner: InnerView { last_recv: now, ..v.inner },
            ..v
        }),
{
    lemma_one_arrival(v.heard(now), FrameView::Close);
}

/// A probe, or a handshake frame under the id of a connection, shows that the peer is alive, and
/// does nothing else; no frame is queued.
pub proof fn law_probe_arrives<A>(v: ConnView<A>, frame: FrameView, now: u64)
    requires
        !v.closed,
        frame is Ping || frame is Handshake || frame is HandshakeAck,
    ensures
        v.handle(seq![frame], now) == (ConnView {
            inner: InnerView { last_recv: now, ..v.inner },
            ..v
        }),
{
    lemma_one_arrival(v.heard(now), frame);
    assert(seq![frame][0] == frame);
}

/// A connection that is closed takes nothing in: whatever arrives, it stays as it is.
pub proof fn law_closed_takes_nothing<A>(v: ConnView<A>, frames: Seq<FrameView>, now: u64)
    requires
        v.closed,
    ensures
        v.handle(frames, now) == v,
{
}

/// A datagram without frames shows that the peer is alive, and does nothing else.
pub proof fn law_empty_datagram<A>(v: ConnView<A>, now: u64)
    requires
        !v.closed,
    ensures
        v.handle(Seq::empty(), now) == (ConnView {
            inner: InnerView { last_recv: now, ..v.inner },
            ..v
        }),
{
}

/// Frames are taken in one after the other.
pub(crate) proof fn lemma_steps_append<A>(v: ConnView<A>, a: Seq<FrameView>, b: Seq<FrameView>)
    ensures
        v.steps(a + b) == v.steps(a).steps(b),
    decreases b.len(),
{
    if b.len() == 0 {
        assert(a + b =~= a);
    } else {
        lemma_steps_append(v, a, b.drop_last());
        assert((a + b).drop_last() =~= a + b.drop_last());
    }
}

/// What frames do does not depend on the frames that are queued, nor change them.
pub(crate) proof fn lemma_steps_queued<A>(v: ConnView<A>, w: ConnView<A>, frames: Seq<FrameView>)
    requires
        same_but_queued(v, w),
    ensures
        same_but_queued(v.steps(frames), w.steps(frames)),
        v.steps(frames).inner.batch == v.inner.batch,
    decreases frames.len(),
{
    if frames.len() > 0 {
        lemma_steps_queued(v, w, frames.drop_last());
    }
}

/// Frames in one datagram do what they do in two: only the frames that are queued in answer may
/// differ.
pub proof fn law_split_datagram<A>(
    v: ConnView<A>,
    a: Seq<FrameView>,
    b: Seq<FrameView>,
    now: u64,
)
    ensures
        same_but_queued(v.handle(a + b, now), v.handle(a, now).handle(b, now)),
{
    if !v.closed {
        let start = v.heard(now);
        let first = start.steps(a);
        let handled = v.handle(a, now);
        lemma_steps_append(start, a, b);
        lemma_steps_queued(start, start, a);
        assert(same_but_queued(handled, first));
        if first.closed {
            lemma_closed_stays(first, b);
        } else {
            lemma_steps_heard(start, a);
            lemma_steps_queued(handled.heard(now), first, b);
        }
    }
}

/// Frames do not touch when the peer was last heard of.
proof fn lemma_steps_heard<A>(v: ConnView<A>, frames: Seq<FrameView>)
    ensures
        v.steps(frames).inner.last_recv == v.inner.last_recv,
    decreases frames.len(),
{
    if frames.len() > 0 {
        lemma_steps_heard(v, frames.drop_last());
    }
}

/// A closed connection ignores frames.
proof fn lemma_closed_stays<A>(v: ConnView<A>, frames: Seq<FrameView>)
    requires
        v.closed,
    ensures
        v.steps(frames) == v,
    decreases frames.len(),
{
    if frames.len() > 0 {
        lemma_closed_stays(v, frames.drop_last());
    }
}

/// A datagram that holds a chunk is always answered, by one acknowledgement of all chunks that
/// the connection has then: whether the chunk was new or not, and whether a message is complete
/// or not. Only a connection that is closed, before or after, does not answer; and a datagram
/// without a chunk is not answered.
pub proof fn law_chunks_are_acknowledged<A>(v: ConnView<A>, frames: Seq<FrameView>, now: u64)
    ensures
        ({
            let w = v.handle(frames, now);
            let asks = exists|i: int| 0 <= i < frames.len() && (#[trigger] frames[i]) is Msg;
            v.acks(frames) == if asks && !v.closed && !w.closed {
                seq![FrameView::Ack { next_seq: w.inner.recv_next }]
            } else {
                Seq::empty()
            }
        }),
{
    lemma_acks_heard(v, frames, now);
}

/// These frames are these chunks, one for one, in order.
pub open spec fn carry_chunks(frames: Seq<FrameView>, chunks: Seq<InflightView>) -> bool {
    &&& frames.len() == chunks.len()
    &&& forall|i: int|
        0 <= i < frames.len() ==> #[trigger] frames[i] == (FrameView::Msg {
            seq: chunks[i].seq,
            fin: chunks[i].fin,
            data: chunks[i].data,
        })
}

/// Chunks with numbers in a row take a receiver that has those before them to where they end,
/// as long as they do not close it.
pub(crate) proof fn lemma_row_arrives<A>(
    v: ConnView<A>,
    frames: Seq<FrameView>,
    chunks: Seq<InflightView>,
    first: int,
)
    requires
        carry_chunks(frames, chunks),
        forall|i: int| 0 <= i < chunks.len() ==> (#[trigger] chunks[i]).seq == first + i,
        first <= v.inner.recv_next,
        first + chunks.len() <= u64::MAX,
        !v.steps(frames).closed,
    ensures
        v.steps(frames).inner.recv_next == if v.inner.recv_next >= first + frames.len() {
            v.inner.recv_next as int
        } else {
            first + frames.len()
        },
    decreases frames.len(),
{
    if frames.len() > 0 {
        let f = frames.drop_last();
        let c = chunks.drop_last();
        assert forall|i: int| 0 <= i < f.len() implies #[trigger] f[i] == (FrameView::Msg {
            seq: c[i].seq,
            fin: c[i].fin,
            data: c[i].data,
        }) by {
            assert(f[i] == frames[i]);
        }
        lemma_row_arrives(v, f, c, first);
        assert(frames.last() == frames[frames.len() - 1]);
        assert(chunks[chunks.len() - 1].seq == first + chunks.len() - 1);
    }
}

/// A window that arrives is a window that empties: where all chunks in flight reach a receiver
/// that has fallen neither behind the window nor ahead of it, and do not close it, the frames
/// that the receiver queues in answer, handed to the sender, empty its window. So what is
/// pending or queued behind it, such as the rest of a message that is longer than the window,
/// finds room.
pub proof fn law_window_turns_over<A>(
    sender: ConnView<A>,
    receiver: ConnView<A>,
    frames: Seq<FrameView>,
    now: u64,
    answered: u64,
)
    requires
        !sender.closed,
        sender.inner.window_sound(),
        sender.inner.dup_acks < DUP_ACK_THRESHOLD,
        sender.inner.inflight.len() > 0,
        carry_chunks(frames, sender.inner.inflight),
        sender.inner.send_next - sender.inner.inflight.len() <= receiver.inner.recv_next
            <= sender.inner.send_next,
        !receiver.closed,
        !receiver.handle(frames, now).closed,
    ensures
        ({
            let answer = receiver.acks(frames);
            let after = sender.handle(answer, answered);
            &&& receiver.handle(frames, now).inner.recv_next == sender.inner.send_next
            &&& answer == seq![FrameView::Ack { next_seq: sender.inner.send_next }]
            &&& after.inner.inflight.len() == 0
            &&& after.inner.inflight_bytes == 0
            &&& after.inner.rto == RTO_INIT
            &&& !after.closed
        }),
{
    let first = sender.inner.send_next - sender.inner.inflight.len();
    lemma_row_arrives(receiver.heard(now), frames, sender.inner.inflight, first);
    law_chunks_are_acknowledged(receiver, frames, now);
    assert(frames[0] is Msg);
    law_ack_arrives(sender, sender.inner.send_next, answered);
    let after = sender.handle(seq![FrameView::Ack { next_seq: sender.inner.send_next }], answered);
    if after.inner.inflight.len() > 0 {
        let i = sender.inner.inflight.len() - 1;
        assert(sender.inner.inflight[i].seq == sender.inner.send_next - 1);
    }
}

/// As many of these as may be taken at most.
pub open spec fn at_most(items: Seq<Seq<u8>>, n: int) -> Seq<Seq<u8>> {
    if items.len() <= n {
        items
    } else {
        items.take(n)
    }
}

/// The best-effort datagrams of a datagram reach the user as they are, in order, behind those
/// that wait, as far as there is room; those that find none are dropped.
pub proof fn law_datagrams_reach_the_user<A>(v: ConnView<A>, frames: Seq<FrameView>, now: u64)
    requires
        !v.closed,
        !v.handle(frames, now).closed,
        v.datagrams.len() <= DATAGRAM_QUEUE_CAP,
    ensures
        v.handle(frames, now).datagrams == at_most(
            v.datagrams + best_effort(frames),
            DATAGRAM_QUEUE_CAP as int,
        ),
{
    lemma_steps_datagrams(v.heard(now), frames);
}

/// The same, of frames one after the other.
proof fn lemma_steps_datagrams<A>(v: ConnView<A>, frames: Seq<FrameView>)
    requires
        !v.steps(frames).closed,
        v.datagrams.len() <= DATAGRAM_QUEUE_CAP,
    ensures
        v.steps(frames).datagrams == at_most(
            v.datagrams + best_effort(frames),
            DATAGRAM_QUEUE_CAP as int,
        ),
    decreases frames.len(),
{
    if frames.len() == 0 {
        assert(v.datagrams + Seq::<Seq<u8>>::empty() =~= v.datagrams);
    } else {
        let first = frames.drop_last();
        lemma_steps_datagrams(v, first);
        let some = v.datagrams + best_effort(first);
        if let FrameView::Datagram { data } = frames.last() {
            assert(v.datagrams + best_effort(first).push(data) =~= some.push(data));
            if some.len() < DATAGRAM_QUEUE_CAP {
            } else {
                assert(some.push(data).take(DATAGRAM_QUEUE_CAP as int) =~= some.take(
                    DATAGRAM_QUEUE_CAP as int,
                ));
                if some.len() == DATAGRAM_QUEUE_CAP {
                    assert(some.take(DATAGRAM_QUEUE_CAP as int) =~= some);
                }
            }
        }
    }
}

} // verus!
