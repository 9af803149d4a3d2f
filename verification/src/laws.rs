//! What holds of acknowledgements, retransmission, timers and the handshake.

use vstd::arithmetic::power2::pow2;
use vstd::prelude::*;

use crate::command::CmdView;
use crate::conn::{fresh_conn, lemma_steps_closed, ConnView};
use crate::endpoint::{
    handshake_ack_bytes, Accepted, DriverView, ACCEPT_QUEUE_CAP, HANDSHAKE_RETRY, SEND_TICK,
};
use crate::frame::{
    FrameView, CID_HEADER_LEN, HANDSHAKE_CID, MAX_DATAGRAM_SIZE, MAX_RELIABLE_CHUNK,
};
use crate::inner::{
    elapsed, lemma_acknowledge_window, msg_frames, stamped, InflightView, InnerView,
    DATAGRAM_QUEUE_CAP, DUP_ACK_THRESHOLD, HANDSHAKE_TIMEOUT, IDLE_TIMEOUT, MAX_INFLIGHT_BYTES,
    MAX_INFLIGHT_MSGS, MAX_MESSAGE_SIZE, PING_INTERVAL, RELIABLE_QUEUE_CAP, RTO_INIT, RTO_MAX,
    SEND_QUEUE_CAP,
};
use crate::send::{lemma_drain_keeps, lemma_served_keeps};
use crate::stream::Event;

verus! {

/// An acknowledgement is cumulative: it lets go of exactly the chunks in flight whose number
/// is below the one that it names, and keeps the others as they were.
pub proof fn law_cumulative_ack<A>(v: InnerView<A>, next_seq: u64)
    requires
        v.window_sound(),
    ensures
        ({
            let w = v.acknowledge(next_seq);
            let k = v.inflight.len() - w.inflight.len();
            &&& w.window_sound()
            &&& 0 <= k <= v.inflight.len()
            &&& w.inflight == v.inflight.skip(k)
            &&& forall|i: int|
                0 <= i < v.inflight.len() ==> ((#[trigger] v.inflight[i]).seq < next_seq <==> i < k)
        }),
{
    lemma_acknowledge_window(v, next_seq);
}

/// An acknowledgement that makes progress takes the timeout back to its start, and one that
/// makes none leaves it alone.
pub proof fn law_ack_resets_timeout<A>(v: InnerView<A>, next_seq: u64)
    requires
        v.window_sound(),
    ensures
        v.acknowledge(next_seq).rto == if v.acknowledge(next_seq).inflight.len()
            < v.inflight.len() {
            RTO_INIT
        } else {
            v.rto
        },
{
    lemma_acknowledge_window(v, next_seq);
}

/// The state after the same acknowledgement came this many times in a row.
pub open spec fn acknowledged<A>(v: InnerView<A>, next_seq: u64, times: nat) -> InnerView<A>
    decreases times,
{
    if times == 0 {
        v
    } else {
        acknowledged(v, next_seq, (times - 1) as nat).acknowledge(next_seq)
    }
}

/// Duplicate acknowledgements while chunks are in flight, as many in a row as the threshold
/// says, make a retransmission due at once; fewer do not.
pub proof fn law_fast_retransmit<A>(v: InnerView<A>, next_seq: u64, now: u64)
    requires
        v.window_sound(),
        v.dup_acks == 0,
        !v.fast_retransmit,
        v.inflight.len() > 0,
        next_seq <= v.last_ack,
        next_seq <= v.inflight[0].seq,
    ensures
        acknowledged(v, next_seq, DUP_ACK_THRESHOLD as nat).resend_due(now),
        acknowledged(v, next_seq, DUP_ACK_THRESHOLD as nat).inflight == v.inflight,
        forall|times: nat|
            times < DUP_ACK_THRESHOLD ==> !(#[trigger] acknowledged(
                v,
                next_seq,
                times,
            )).fast_retransmit,
{
    assert forall|times: nat| times < DUP_ACK_THRESHOLD implies #[trigger] acknowledged(
        v,
        next_seq,
        times,
    ) == (InnerView { dup_acks: times as u32, ..v }) by {
        lemma_duplicates(v, next_seq, times);
    }
    let before = acknowledged(v, next_seq, (DUP_ACK_THRESHOLD - 1) as nat);
    assert(before.inflight.skip(0) =~= before.inflight);
}

/// Duplicates below the threshold are counted, and do nothing else.
proof fn lemma_duplicates<A>(v: InnerView<A>, next_seq: u64, times: nat)
    requires
        v.window_sound(),
        v.dup_acks == 0,
        v.inflight.len() > 0,
        next_seq <= v.last_ack,
        next_seq <= v.inflight[0].seq,
        times < DUP_ACK_THRESHOLD,
    ensures
        acknowledged(v, next_seq, times) == (InnerView { dup_acks: times as u32, ..v }),
    decreases times,
{
    if times > 0 {
        lemma_duplicates(v, next_seq, (times - 1) as nat);
        assert(v.inflight.skip(0) =~= v.inflight);
    }
}

/// The state after this many retransmissions without progress, at these times.
pub open spec fn resent<A>(v: InnerView<A>, times: Seq<u64>) -> InnerView<A>
    decreases times.len(),
{
    if times.len() == 0 {
        v
    } else {
        resent(v, times.drop_last()).resend(times.last())
    }
}

/// The timeout doubles with each retransmission, up to its limit.
pub proof fn law_backoff<A>(v: InnerView<A>, times: Seq<u64>)
    requires
        v.rto == RTO_INIT,
    ensures
        resent(v, times).rto == if RTO_INIT * pow2(times.len()) <= RTO_MAX {
            RTO_INIT * pow2(times.len())
        } else {
            RTO_MAX as int
        },
        resent(v, times).send_next == v.send_next,
        resent(v, times).inflight.len() == v.inflight.len(),
    decreases times.len(),
{
    if times.len() == 0 {
        vstd::arithmetic::power2::lemma2_to64();
    } else {
        law_backoff(v, times.drop_last());
        vstd::arithmetic::power2::lemma_pow2_unfold(times.len());
        let p = pow2((times.len() - 1) as nat);
        assert(RTO_INIT * (2 * p) == 2 * (RTO_INIT * p)) by (nonlinear_arith);
    }
}

/// A message that enters the window leaves the chunks that are there where they are.
pub(crate) proof fn lemma_enqueue_appends<A>(v: InnerView<A>, data: Seq<u8>, now: u64)
    ensures
        v.inflight.is_prefix_of(v.enqueue(data, now).0.inflight),
    decreases data.len(),
{
    if data.len() > MAX_RELIABLE_CHUNK && v.window_takes(MAX_RELIABLE_CHUNK as nat) {
        lemma_enqueue_appends(
            v.launch(data.take(MAX_RELIABLE_CHUNK as int), false, now),
            data.skip(MAX_RELIABLE_CHUNK as int),
            now,
        );
    }
}

/// Commands leave the chunks in the window where they are.
pub(crate) proof fn lemma_drain_appends<A>(v: InnerView<A>, cmds: Seq<CmdView>, now: u64)
    ensures
        v.inflight.is_prefix_of(v.drain(cmds, now).0.inflight),
    decreases cmds.len(),
{
    if cmds.len() > 0 {
        lemma_drain_appends(v, cmds.drop_last(), now);
        if let CmdView::Reliable(data) = cmds.last() {
            lemma_enqueue_appends(v.drain(cmds.drop_last(), now).0, data, now);
        }
    }
}

/// Where a retransmission is due, the turn of the connection makes it: behind what its user has
/// to send, all chunks in flight go out again, in order, and all of them start to wait anew.
pub proof fn law_retransmission<A>(v: InnerView<A>, cmds: Seq<CmdView>, now: u64)
    requires
        v.resend_due(now),
    ensures
        ({
            let resumed = v.resume(now);
            let drained = v.drained(cmds, now).0;
            let w = v.served(cmds, now);
            &&& v.inflight.is_prefix_of(drained.inflight)
            &&& v.turn_frames(cmds, now) == v.launched(resumed) + resumed.drain_frames(cmds, now)
                + msg_frames(drained.inflight)
            &&& w.inflight == stamped(drained.inflight, now)
            &&& !w.fast_retransmit
        }),
{
    let resumed = v.resume(now);
    let drained = v.drained(cmds, now).0;
    if let Some(data) = v.pending {
        lemma_enqueue_appends(v, data, now);
    }
    lemma_drain_appends(resumed, cmds, now);
    lemma_drain_keeps(v, cmds, now);
    lemma_drain_keeps(resumed, cmds, now);
    assert(drained.inflight[0] == v.inflight[0]);
}

/// A chunk that is not the next one in line, because it came before or because one is missing
/// before it, changes nothing.
pub proof fn law_stray_chunk<A>(v: ConnView<A>, seq: u64, fin: bool, data: Seq<u8>)
    requires
        seq != v.inner.recv_next,
    ensures
        v.step(FrameView::Msg { seq, fin, data }) == v,
{
}

/// Once closed, a connection ignores all frames.
pub proof fn law_closed_ignores<A>(v: ConnView<A>, frames: Seq<FrameView>, now: u64)
    requires
        v.closed,
    ensures
        v.handle(frames, now) == v,
{
}

/// A close that arrives ends the connection: the frames behind it are ignored, and nothing is
/// acknowledged.
pub proof fn law_close_is_final<A>(v: ConnView<A>, frames: Seq<FrameView>, now: u64, n: int)
    requires
        !v.closed,
        0 <= n < frames.len(),
        frames[n] is Close,
    ensures
        v.handle(frames, now).closed,
        v.handle(frames, now) == v.handle(frames.take(n + 1), now),
        v.acks(frames).len() == 0,
{
    let start = v.heard(now);
    assert(frames.take(n + 1).drop_last() =~= frames.take(n));
    assert(frames.take(n + 1).last() == frames[n]);
    lemma_steps_closed(start, frames, n + 1);
    lemma_steps_closed(v, frames, n + 1);
}

/// Nothing reopens a connection that is closed.
pub proof fn law_closed_for_good<A>(v: ConnView<A>, events: Seq<Event>)
    requires
        v.closed,
    ensures
        v.run(events).closed,
    decreases events.len(),
{
    if events.len() > 0 {
        law_closed_for_good(v, events.drop_last());
    }
}

/// A message that grows beyond the limit closes the connection, and so does one that finds the
/// queue for the user full; neither gets to the user. Any other complete message does, and
/// nothing else.
pub proof fn law_overflow_closes<A>(v: ConnView<A>, fin: bool, data: Seq<u8>)
    ensures
        ({
            let w = v.step(FrameView::Msg { seq: v.inner.recv_next, fin, data });
            let message = v.inner.assembling + data;
            let too_long = message.len() > MAX_MESSAGE_SIZE;
            let full = v.inbox.len() >= RELIABLE_QUEUE_CAP;
            &&& w.closed == (v.closed || too_long || fin && full)
            &&& w.inbox == if fin && !too_long && !full {
                v.inbox.push(message)
            } else {
                v.inbox
            }
        }),
{
}

/// Go-back-N recovers from any loss: where all chunks in flight arrive again, in order, at a
/// connection that has not fallen behind the window, it has every chunk that was ever sent,
/// and its acknowledgement empties the window. (That holds as long as the chunks do not close
/// the connection. That a receiver never falls behind the window, nor gets ahead of it, is
/// what `law_acknowledged_arrived` and `law_delivery` say.)
pub proof fn law_recovery<A>(sender: InnerView<A>, receiver: ConnView<A>)
    requires
        sender.window_sound(),
        sender.acked_below() <= receiver.inner.recv_next <= sender.send_next,
        !receiver.steps(msg_frames(sender.inflight)).closed,
    ensures
        ({
            let after = receiver.steps(msg_frames(sender.inflight));
            &&& after.inner.recv_next == sender.send_next
            &&& sender.acknowledge(after.inner.recv_next).inflight.len() == 0
            &&& sender.acknowledge(after.inner.recv_next).inflight_bytes == 0
            &&& sender.acknowledge(after.inner.recv_next).rto == if sender.inflight.len() > 0 {
                RTO_INIT
            } else {
                sender.rto
            }
        }),
{
    let frames = msg_frames(sender.inflight);
    assert(frames.take(frames.len() as int) =~= frames);
    lemma_catch_up(sender, receiver, frames.len() as int);
    lemma_acknowledge_window(sender, sender.send_next);
}

/// The first chunks of the window take the receiver to where they end, or leave it where it is
/// beyond that.
proof fn lemma_catch_up<A>(sender: InnerView<A>, receiver: ConnView<A>, n: int)
    requires
        sender.window_sound(),
        sender.acked_below() <= receiver.inner.recv_next <= sender.send_next,
        0 <= n <= sender.inflight.len(),
        !receiver.steps(msg_frames(sender.inflight).take(n)).closed,
    ensures
        ({
            let first = sender.acked_below();
            let after = receiver.steps(msg_frames(sender.inflight).take(n));
            after.inner.recv_next == if receiver.inner.recv_next >= first + n {
                receiver.inner.recv_next as int
            } else {
                first + n
            }
        }),
    decreases n,
{
    let frames = msg_frames(sender.inflight);
    if n > 0 {
        assert(frames.take(n).drop_last() =~= frames.take(n - 1));
        assert(frames.take(n).last() == frames[n - 1]);
        assert(sender.inflight[n - 1].seq == sender.acked_below() + n - 1);
        lemma_catch_up(sender, receiver, n - 1);
    }
}

/// A peer that was silent for too long is given up: the connection is closed, sends nothing
/// more, and is done.
pub proof fn law_idle<A>(v: ConnView<A>, now: u64)
    requires
        v.serves(),
    ensures
        ({
            let (w, packets, done) = v.round(now);
            &&& done == (elapsed(now, v.inner.last_recv) >= IDLE_TIMEOUT)
            &&& w.closed == done
            &&& done ==> packets.len() == 0
        }),
{
    lemma_served_keeps(v.inner, v.commands, now);
}

/// A message that puts chunks into the window counts as sending; one that puts none there does
/// not.
pub(crate) proof fn lemma_enqueue_sent<A>(v: InnerView<A>, data: Seq<u8>, now: u64)
    requires
        v.inflight.len() <= MAX_INFLIGHT_MSGS,
        v.seq_room(),
    ensures
        ({
            let w = v.enqueue(data, now).0;
            &&& w.inflight.len() <= MAX_INFLIGHT_MSGS
            &&& w.seq_room()
            &&& v.send_next <= w.send_next
            &&& w.last_sent == if w.send_next > v.send_next {
                now
            } else {
                v.last_sent
            }
        }),
    decreases data.len(),
{
    if data.len() > MAX_RELIABLE_CHUNK && v.window_takes(MAX_RELIABLE_CHUNK as nat) {
        lemma_enqueue_sent(
            v.launch(data.take(MAX_RELIABLE_CHUNK as int), false, now),
            data.skip(MAX_RELIABLE_CHUNK as int),
            now,
        );
    }
}

/// Commands that put chunks into the window count as sending; others do not.
pub(crate) proof fn lemma_drain_sent<A>(v: InnerView<A>, cmds: Seq<CmdView>, now: u64)
    requires
        v.inflight.len() <= MAX_INFLIGHT_MSGS,
        v.seq_room(),
    ensures
        ({
            let w = v.drain(cmds, now).0;
            &&& w.inflight.len() <= MAX_INFLIGHT_MSGS
            &&& w.seq_room()
            &&& v.send_next <= w.send_next
            &&& w.last_sent == if w.send_next > v.send_next {
                now
            } else {
                v.last_sent
            }
        }),
    decreases cmds.len(),
{
    if cmds.len() > 0 {
        lemma_drain_sent(v, cmds.drop_last(), now);
        if let CmdView::Reliable(data) = cmds.last() {
            lemma_enqueue_sent(v.drain(cmds.drop_last(), now).0, data, now);
        }
    }
}

/// A turn of a connection sends a probe if and only if nothing was sent for the interval and
/// the turn puts no new chunk into the window.
pub proof fn law_keep_alive<A>(v: InnerView<A>, cmds: Seq<CmdView>, now: u64)
    requires
        v.window_sound(),
        v.seq_room(),
    ensures
        v.served_frames(cmds, now).contains(FrameView::Ping) <==> elapsed(now, v.last_sent)
            >= PING_INTERVAL && v.served(cmds, now).send_next == v.send_next,
{
    let resumed = v.resume(now);
    if let Some(data) = v.pending {
        lemma_enqueue_sent(v, data, now);
    }
    lemma_drain_sent(resumed, cmds, now);
    let served = v.served(cmds, now);
    let before = v.turn_frames(cmds, now);
    let all = v.served_frames(cmds, now);
    lemma_drain_no_ping(resumed, cmds, now);
    assert(!before.contains(FrameView::Ping));
    let probe = served.ping_frames(now);
    if probe.len() > 0 {
        assert(all[before.len() as int] == FrameView::Ping);
    } else {
        assert(all =~= before);
    }
}

/// Commands send no probe.
proof fn lemma_drain_no_ping<A>(v: InnerView<A>, cmds: Seq<CmdView>, now: u64)
    ensures
        !v.drain_frames(cmds, now).contains(FrameView::Ping),
    decreases cmds.len(),
{
    if cmds.len() > 0 {
        lemma_drain_no_ping(v, cmds.drop_last(), now);
    }
}

/// After a turn of a live connection, less than the probe interval has passed since something
/// was last sent.
pub proof fn law_never_silent<A>(v: ConnView<A>, now: u64)
    requires
        v.serves(),
        !v.round(now).2,
    ensures
        elapsed(now, v.round(now).0.inner.last_sent) < PING_INTERVAL,
{
}

/// Any datagram from the peer counts as a sign of life, also an empty one and a probe.
pub proof fn law_sign_of_life<A>(v: ConnView<A>, frames: Seq<FrameView>, now: u64)
    requires
        !v.closed,
    ensures
        v.handle(frames, now).inner.last_recv == now,
{
    lemma_steps_heard(v.heard(now), frames);
}

/// Frames do not change when the peer was last heard of.
proof fn lemma_steps_heard<A>(v: ConnView<A>, frames: Seq<FrameView>)
    ensures
        v.steps(frames).inner.last_recv == v.inner.last_recv,
    decreases frames.len(),
{
    if frames.len() > 0 {
        lemma_steps_heard(v, frames.drop_last());
    }
}

/// Probes and handshake frames under the id of a connection do nothing but show that the peer
/// is alive.
pub proof fn law_probes_do_nothing_else<A>(v: ConnView<A>, frames: Seq<FrameView>, now: u64)
    requires
        !v.closed,
        forall|i: int|
            0 <= i < frames.len() ==> (#[trigger] frames[i]) is Ping || frames[i] is Handshake
                || frames[i] is HandshakeAck,
    ensures
        v.handle(frames, now) == v.heard(now),
        v.acks(frames).len() == 0,
{
    lemma_probes(v.heard(now), frames);
    lemma_probes(v, frames);
}

/// Probes and handshake frames change nothing.
proof fn lemma_probes<A>(v: ConnView<A>, frames: Seq<FrameView>)
    requires
        forall|i: int|
            0 <= i < frames.len() ==> (#[trigger] frames[i]) is Ping || frames[i] is Handshake
                || frames[i] is HandshakeAck,
    ensures
        v.steps(frames) == v,
    decreases frames.len(),
{
    if frames.len() > 0 {
        let first = frames.drop_last();
        assert forall|i: int| 0 <= i < first.len() implies (#[trigger] first[i]) is Ping
            || first[i] is Handshake || first[i] is HandshakeAck by {
            assert(first[i] == frames[i]);
        }
        lemma_probes(v, first);
        assert(frames[frames.len() - 1] == frames.last());
    }
}

/// The limits fit together: a full chunk with all that the encoding adds fits into a datagram,
/// and the window takes in more than one; a message may be longer than the window; the timeout
/// may double before it reaches its limit; a peer that is alive is probed several times before
/// it would be given up, and a handshake is repeated several times before it is.
pub proof fn law_limits()
    ensures
        MAX_DATAGRAM_SIZE == 1500 - 28,
        CID_HEADER_LEN + MAX_RELIABLE_CHUNK + 64 <= MAX_DATAGRAM_SIZE,
        MAX_RELIABLE_CHUNK == 1200,
        HANDSHAKE_CID == 0,
        CID_HEADER_LEN == 4,
        MAX_INFLIGHT_BYTES == 256 * 1024,
        MAX_INFLIGHT_MSGS == 1024,
        MAX_RELIABLE_CHUNK < MAX_INFLIGHT_BYTES < MAX_MESSAGE_SIZE,
        MAX_MESSAGE_SIZE == 1024 * 1024,
        RTO_INIT == 200 * 1_000_000,
        RTO_MAX == 10 * RTO_INIT,
        DUP_ACK_THRESHOLD == 3,
        PING_INTERVAL == 5 * 1_000_000_000,
        IDLE_TIMEOUT == 6 * PING_INTERVAL,
        HANDSHAKE_TIMEOUT == 3 * 1_000_000_000,
        HANDSHAKE_TIMEOUT == 10 * HANDSHAKE_RETRY,
        SEND_TICK == 20 * 1_000_000,
        RELIABLE_QUEUE_CAP == 4096,
        SEND_QUEUE_CAP == 4096,
        DATAGRAM_QUEUE_CAP == 1024,
        ACCEPT_QUEUE_CAP == 256,
{
}

/// A closed connection is done at its next turn.
pub proof fn law_closed_is_released<A>(v: ConnView<A>, now: u64)
    requires
        v.closed,
    ensures
        v.round(now).2,
        v.round(now).0.closed,
{
}

/// Before the handshake is done nothing is sent, and what the user asks for stays queued.
pub proof fn law_waits_for_handshake<A>(v: ConnView<A>, now: u64)
    requires
        !v.closed,
        !v.inner.established,
    ensures
        v.round(now) == (v, Seq::<(A, Seq<u8>)>::empty(), false),
{
}

/// The best-effort datagrams among frames, in order.
pub open spec fn best_effort(frames: Seq<FrameView>) -> Seq<Seq<u8>>
    decreases frames.len(),
{
    if frames.len() == 0 {
        Seq::empty()
    } else {
        match frames.last() {
            FrameView::Datagram { data } => best_effort(frames.drop_last()).push(data),
            _ => best_effort(frames.drop_last()),
        }
    }
}

/// The best-effort datagrams among commands, in order.
pub open spec fn datagrams_of(cmds: Seq<CmdView>) -> Seq<Seq<u8>>
    decreases cmds.len(),
{
    if cmds.len() == 0 {
        Seq::empty()
    } else {
        match cmds.last() {
            CmdView::Datagram(data) => datagrams_of(cmds.drop_last()).push(data),
            CmdView::Reliable(_) => datagrams_of(cmds.drop_last()),
        }
    }
}

/// The datagrams of two rows of frames.
pub(crate) proof fn lemma_best_effort_append(a: Seq<FrameView>, b: Seq<FrameView>)
    ensures
        best_effort(a + b) == best_effort(a) + best_effort(b),
    decreases b.len(),
{
    if b.len() == 0 {
        assert(a + b =~= a);
        assert(best_effort(a) + Seq::<Seq<u8>>::empty() =~= best_effort(a));
    } else {
        lemma_best_effort_append(a, b.drop_last());
        assert((a + b).drop_last() =~= a + b.drop_last());
        if let FrameView::Datagram { data } = b.last() {
            assert(best_effort(a) + best_effort(b.drop_last()).push(data) =~= (best_effort(a)
                + best_effort(b.drop_last())).push(data));
        }
    }
}

/// Chunks are no datagrams.
proof fn lemma_best_effort_chunks(chunks: Seq<InflightView>)
    ensures
        best_effort(msg_frames(chunks)) == Seq::<Seq<u8>>::empty(),
    decreases chunks.len(),
{
    if chunks.len() > 0 {
        lemma_best_effort_chunks(chunks.drop_last());
        assert(msg_frames(chunks).drop_last() =~= msg_frames(chunks.drop_last()));
    }
}

/// The datagrams of one command.
proof fn lemma_one_datagram(cmd: CmdView)
    ensures
        datagrams_of(seq![cmd]) == match cmd {
            CmdView::Datagram(data) => seq![data],
            CmdView::Reliable(_) => Seq::<Seq<u8>>::empty(),
        },
{
    reveal_with_fuel(datagrams_of, 2);
    assert(seq![cmd].drop_last() =~= Seq::<CmdView>::empty());
    if let CmdView::Datagram(data) = cmd {
        assert(Seq::<Seq<u8>>::empty().push(data) =~= seq![data]);
    }
}

/// The datagrams that a command gives are those that it asks for.
proof fn lemma_apply_datagrams<A>(v: InnerView<A>, cmd: CmdView, now: u64)
    ensures
        best_effort(v.apply_frames(cmd, now)) == datagrams_of(seq![cmd]),
{
    lemma_one_datagram(cmd);
    match cmd {
        CmdView::Datagram(data) => {
            let f = FrameView::Datagram { data };
            reveal_with_fuel(best_effort, 2);
            assert(seq![f].drop_last() =~= Seq::<FrameView>::empty());
            assert(best_effort(seq![f]) =~= seq![data]);
        },
        CmdView::Reliable(data) => {
            let after = v.send(data, now);
            lemma_best_effort_chunks(after.inflight.skip(v.inflight.len() as int));
        },
    }
}

/// The datagrams of a command more.
proof fn lemma_datagrams_step(cmds: Seq<CmdView>)
    requires
        cmds.len() > 0,
    ensures
        datagrams_of(cmds) == datagrams_of(cmds.drop_last()) + datagrams_of(seq![cmds.last()]),
{
    lemma_one_datagram(cmds.last());
    assert(datagrams_of(cmds) =~= datagrams_of(cmds.drop_last()) + datagrams_of(
        seq![cmds.last()],
    ));
}

/// The datagrams of a queue go out or stay queued, in order. None stays where the queue found
/// a message pending, or leaves none.
proof fn lemma_drain_datagrams<A>(v: InnerView<A>, cmds: Seq<CmdView>, now: u64)
    ensures
        ({
            let (w, kept) = v.drain(cmds, now);
            &&& best_effort(v.drain_frames(cmds, now)) + datagrams_of(kept) == datagrams_of(cmds)
            &&& v.pending is Some ==> w.pending is Some
            &&& v.pending is Some ==> datagrams_of(kept).len() == 0
            &&& w.pending is None ==> kept.len() == 0
        }),
    decreases cmds.len(),
{
    if cmds.len() > 0 {
        let first = cmds.drop_last();
        let one = datagrams_of(seq![cmds.last()]);
        lemma_drain_datagrams(v, first, now);
        let (before, kept) = v.drain(first, now);
        let frames = v.drain_frames(first, now);
        lemma_datagrams_step(cmds);
        lemma_one_datagram(cmds.last());
        if before.heeds(cmds.last(), v.pending is Some) {
            lemma_best_effort_append(frames, before.apply_frames(cmds.last(), now));
            lemma_apply_datagrams(before, cmds.last(), now);
            assert(datagrams_of(kept) =~= Seq::empty());
            assert(best_effort(frames) + datagrams_of(kept) =~= best_effort(frames));
            assert(best_effort(frames) + one + datagrams_of(kept) =~= best_effort(frames) + one);
        } else {
            let left = kept.push(cmds.last());
            assert(left.drop_last() =~= kept);
            lemma_datagrams_step(left);
            assert(frames + Seq::<FrameView>::empty() =~= frames);
            assert(best_effort(frames) + (datagrams_of(kept) + one) =~= best_effort(frames)
                + datagrams_of(kept) + one);
        }
    } else {
        assert(Seq::<Seq<u8>>::empty() + Seq::<Seq<u8>>::empty() =~= Seq::empty());
    }
}

/// Every best-effort datagram that is asked for goes out as one frame, in order, and none is
/// lost: it goes out in the next turn, unless the window cuts a message before it short in
/// that very turn, and then it stays queued. A message that is held up from one turn to the
/// next holds no datagram up.
pub proof fn law_datagrams_go_out<A>(v: InnerView<A>, cmds: Seq<CmdView>, now: u64)
    ensures
        ({
            let (w, kept) = v.drained(cmds, now);
            &&& best_effort(v.served_frames(cmds, now)) + datagrams_of(kept) == datagrams_of(cmds)
            &&& v.resume(now).pending is Some || w.pending is None ==> datagrams_of(kept).len() == 0
        }),
{
    let none = Seq::<Seq<u8>>::empty();
    let resumed = v.resume(now);
    let (drained, kept) = v.drained(cmds, now);
    let a = v.launched(resumed);
    let b = resumed.drain_frames(cmds, now);
    let c = if drained.resend_due(now) {
        msg_frames(drained.inflight)
    } else {
        Seq::empty()
    };
    let p = v.served(cmds, now).ping_frames(now);
    lemma_drain_datagrams(resumed, cmds, now);
    lemma_best_effort_chunks(resumed.inflight.skip(v.inflight.len() as int));
    lemma_best_effort_chunks(drained.inflight);
    reveal_with_fuel(best_effort, 2);
    assert(best_effort(p) =~= none) by {
        if p.len() > 0 {
            assert(p.drop_last() =~= Seq::<FrameView>::empty());
        }
    }
    lemma_best_effort_append(a, b);
    lemma_best_effort_append(a + b, c);
    lemma_best_effort_append(a + b + c, p);
    assert(none + best_effort(b) + none + none =~= best_effort(b));
}

/// The handshake: a client's request asks for its id once. Where the new connection waits to
/// be accepted, the server registers it as established, and answers; the answer takes the
/// client's connection from waiting to established, which is reported once.
pub proof fn law_handshake<A, H>(
    client: DriverView<A, H>,
    server: DriverView<A, H>,
    cid: u32,
    client_address: A,
    opened: (H, Accepted),
    now: u64,
)
    requires
        cid != HANDSHAKE_CID,
        !server.conns.contains_key(cid),
        opened.1 is Queued,
        client.conns.contains_key(cid),
        !client.conns[cid].conn.inner.established,
    ensures
        ({
            let request = seq![FrameView::Handshake { cid }];
            let answer = seq![FrameView::HandshakeAck { cid }];
            let s = server.open_all(server.asked(request), client_address, seq![opened], now);
            let c = client.shakes(answer);
            &&& server.asked(request) == seq![cid]
            &&& s.shakes(request) == s
            &&& s == server.put(
                cid,
                fresh_conn(cid, client_address, now).establish(),
                opened.0,
            )
            &&& s.replies(request, client_address) == seq![
                (client_address, handshake_ack_bytes(cid)),
            ]
            &&& client.asked(answer).len() == 0
            &&& c == client.put(cid, client.conns[cid].conn.establish(), client.conns[cid].user)
            &&& client.all_news(answer) == seq![cid]
            &&& c.all_news(answer) == Seq::<u32>::empty()
        }),
{
    lemma_one_frame(server, FrameView::Handshake { cid }, client_address);
    lemma_one_frame(client, FrameView::HandshakeAck { cid }, client_address);
    let request = seq![FrameView::Handshake { cid }];
    let s = server.open_all(server.asked(request), client_address, seq![opened], now);
    reveal_with_fuel(DriverView::open_all, 2);
    assert(server.asked(request) =~= seq![cid]);
    assert(seq![cid].drop_last() =~= Seq::<u32>::empty());
    lemma_one_frame(s, FrameView::Handshake { cid }, client_address);
    lemma_one_frame(
        client.shakes(seq![FrameView::HandshakeAck { cid }]),
        FrameView::HandshakeAck { cid },
        client_address,
    );
}

/// What a handshake datagram with one frame calls for.
proof fn lemma_one_frame<A, H>(v: DriverView<A, H>, frame: FrameView, remote: A)
    ensures
        v.shakes(seq![frame]) == v.shake(frame),
        v.replies(seq![frame], remote) == v.reply(frame, remote),
        v.all_news(seq![frame]) == v.news(frame),
        v.asked(seq![frame]) == match frame {
            FrameView::Handshake { cid } => if cid != HANDSHAKE_CID && !v.conns.contains_key(cid) {
                seq![cid]
            } else {
                Seq::empty()
            },
            _ => Seq::<u32>::empty(),
        },
{
    reveal_with_fuel(DriverView::shakes, 2);
    reveal_with_fuel(DriverView::replies, 2);
    reveal_with_fuel(DriverView::all_news, 2);
    reveal_with_fuel(DriverView::asked, 2);
    assert(seq![frame].drop_last() =~= Seq::<FrameView>::empty());
    assert(v.replies(seq![frame], remote) =~= v.reply(frame, remote));
    assert(v.all_news(seq![frame]) =~= v.news(frame));
    if let FrameView::Handshake { cid } = frame {
        assert(Seq::<u32>::empty().push(cid) =~= seq![cid]);
    }
}

/// A request that comes again, because its answer was lost, asks for nothing new: it changes
/// nothing, and is answered again.
pub proof fn law_handshake_repeats<A, H>(v: DriverView<A, H>, cid: u32, remote: A)
    requires
        v.conns.contains_key(cid),
    ensures
        ({
            let request = seq![FrameView::Handshake { cid }];
            &&& v.asked(request) == Seq::<u32>::empty()
            &&& v.shakes(request) == v
            &&& v.replies(request, remote) == seq![(remote, handshake_ack_bytes(cid))]
        }),
{
    lemma_one_frame(v, FrameView::Handshake { cid }, remote);
}

/// A request for a new connection that finds no room with the acceptor, or no acceptor, is
/// dropped: nothing is registered, and nothing is answered.
pub proof fn law_not_accepted<A, H>(
    v: DriverView<A, H>,
    cid: u32,
    remote: A,
    opened: Seq<(H, Accepted)>,
    now: u64,
)
    requires
        !v.conns.contains_key(cid),
        forall|i: int| 0 <= i < opened.len() ==> (#[trigger] opened[i]).1 !is Queued,
        opened.len() == v.asked(seq![FrameView::Handshake { cid }]).len(),
    ensures
        ({
            let request = seq![FrameView::Handshake { cid }];
            let w = v.open_all(v.asked(request), remote, opened, now);
            &&& w.shakes(request) == v
            &&& w.replies(request, remote) == Seq::<(A, Seq<u8>)>::empty()
        }),
{
    let request = seq![FrameView::Handshake { cid }];
    lemma_one_frame(v, FrameView::Handshake { cid }, remote);
    reveal_with_fuel(DriverView::open_all, 2);
    if v.asked(request).len() > 0 {
        assert(v.asked(request).drop_last() =~= Seq::<u32>::empty());
        assert(opened[0].1 !is Queued);
    }
}

/// In a turn of all connections each gets its own turn, whatever their order: one that is done
/// is gone afterwards, and any other is as its turn leaves it.
pub proof fn law_turns_are_independent<A, H>(
    v: DriverView<A, H>,
    ids: Seq<u32>,
    now: u64,
    i: int,
)
    requires
        ids.no_duplicates(),
        0 <= i < ids.len(),
    ensures
        ({
            let after = v.after_turns(ids, now);
            let (conn, _, done) = v.conns[ids[i]].conn.round(now);
            &&& after.conns.contains_key(ids[i]) == !done
            &&& !done ==> after.conns[ids[i]].conn == conn && after.conns[ids[i]].user
                == v.conns[ids[i]].user
        }),
    decreases ids.len(),
{
    let first = ids.drop_last();
    if i < first.len() {
        assert(first.no_duplicates()) by {
            assert forall|a: int, b: int|
                0 <= a < first.len() && 0 <= b < first.len() && a != b implies first[a]
                != first[b] by {
                assert(first[a] == ids[a] && first[b] == ids[b]);
            }
        }
        law_turns_are_independent(v, first, now, i);
        assert(first[i] == ids[i]);
        assert(ids.last() == ids[ids.len() - 1]);
        assert(ids[i] != ids.last());
    }
}

} // verus!
