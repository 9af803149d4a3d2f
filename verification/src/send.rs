//! What a connection sends: the commands of its user, retransmissions, probes and the close.

use std::collections::VecDeque;

use bytes::Bytes;
use vstd::prelude::*;

use crate::command::{all_allowed, cmd_views, CmdView, SendCmd};
use crate::conn::{ConnShared, ConnView};
use crate::frame::{
    carried, packet_parts, packet_views, sound_packet, Batch, Frame, FrameView, OutPacket,
    MAX_DATAGRAM_SIZE, MAX_RELIABLE_CHUNK,
};
use crate::inner::{
    elapsed, enqueue_reliable, msg_frames, push_all, time_since, ConnInner, InnerView,
    IDLE_TIMEOUT, MAX_INFLIGHT_MSGS, PING_INTERVAL,
};
use crate::payload::{bytes_len, bytes_slice, bytes_to_vec, contents};
use crate::sending::{
    law_probe, law_silent_peer, law_turn_chunks, law_turn_last_sent, law_turn_window,
};

verus! {

impl<A> InnerView<A> {
    /// A message is sent as far as the window allows; the rest stays pending.
    pub open spec fn send(self, data: Seq<u8>, now: u64) -> InnerView<A> {
        let (after, rest) = self.enqueue(data, now);
        InnerView { pending: rest, ..after }
    }

    /// The message that the window cut short goes on.
    pub open spec fn resume(self, now: u64) -> InnerView<A> {
        match self.pending {
            Some(data) => self.send(data, now),
            None => self,
        }
    }

    /// A command is carried out.
    pub open spec fn apply(self, cmd: CmdView, now: u64) -> InnerView<A> {
        match cmd {
            CmdView::Datagram(data) => self.emit(FrameView::Datagram { data }),
            CmdView::Reliable(data) => self.send(data, now),
        }
    }

    /// Whether a command is carried out. While a message is pending, messages wait. Where it
    /// was pending when the queue had its turn (`held_up`), best-effort datagrams go out all
    /// the same; where the window has just cut it short, they wait for the next turn.
    pub open spec fn heeds(self, cmd: CmdView, held_up: bool) -> bool {
        self.pending is None || held_up && cmd is Datagram
    }

    /// The commands of a queue are carried out in order. Those that have to wait stay queued,
    /// in order: they are the second part of the result.
    pub open spec fn drain(self, cmds: Seq<CmdView>, now: u64) -> (InnerView<A>, Seq<CmdView>)
        decreases cmds.len(),
    {
        if cmds.len() == 0 {
            (self, Seq::empty())
        } else {
            let (before, kept) = self.drain(cmds.drop_last(), now);
            if before.heeds(cmds.last(), self.pending is Some) {
                (before.apply(cmds.last(), now), kept)
            } else {
                (before, kept.push(cmds.last()))
            }
        }
    }

    /// The frames of the chunks that `after` has in flight beyond those in flight here.
    pub open spec fn launched(self, after: InnerView<A>) -> Seq<FrameView> {
        msg_frames(after.inflight.skip(self.inflight.len() as int))
    }

    /// The frames that a command queues: one for a datagram; for a message those of its chunks
    /// that enter the window.
    pub open spec fn apply_frames(self, cmd: CmdView, now: u64) -> Seq<FrameView> {
        match cmd {
            CmdView::Datagram(data) => seq![FrameView::Datagram { data }],
            CmdView::Reliable(data) => self.launched(self.send(data, now)),
        }
    }

    /// The frames that the commands of a queue give, in order.
    pub open spec fn drain_frames(self, cmds: Seq<CmdView>, now: u64) -> Seq<FrameView>
        decreases cmds.len(),
    {
        if cmds.len() == 0 {
            Seq::empty()
        } else {
            let before = self.drain(cmds.drop_last(), now).0;
            self.drain_frames(cmds.drop_last(), now) + if before.heeds(
                cmds.last(),
                self.pending is Some,
            ) {
                before.apply_frames(cmds.last(), now)
            } else {
                Seq::empty()
            }
        }
    }

    /// The retransmission, where it is due.
    pub open spec fn resend_if_due(self, now: u64) -> InnerView<A> {
        if self.resend_due(now) {
            self.resend(now)
        } else {
            self
        }
    }

    /// A probe, where nothing was sent for long.
    pub open spec fn ping_if_due(self, now: u64) -> InnerView<A> {
        if elapsed(now, self.last_sent) >= PING_INTERVAL {
            InnerView { last_sent: now, ..self.emit(FrameView::Ping) }
        } else {
            self
        }
    }

    /// What is queued goes out: nothing is left.
    pub open spec fn sent_off(self, now: u64) -> InnerView<A> {
        InnerView {
            batch: Batch { packed: Seq::empty(), outbox: Seq::empty(), ..self.batch },
            last_sent: if self.batch.flush(self.cid).outbox.len() > 0 {
                now
            } else {
                self.last_sent
            },
            ..self
        }
    }

    /// The state after a message that the window cut short and the commands have had their
    /// turn, and the commands that stay queued.
    pub open spec fn drained(self, cmds: Seq<CmdView>, now: u64) -> (InnerView<A>, Seq<CmdView>) {
        self.resume(now).drain(cmds, now)
    }

    /// The state after the retransmission had its turn too.
    pub open spec fn served(self, cmds: Seq<CmdView>, now: u64) -> InnerView<A> {
        self.drained(cmds, now).0.resend_if_due(now)
    }

    /// The frames that they queue: of the message that was cut short, of the commands and of
    /// the retransmission.
    pub open spec fn turn_frames(self, cmds: Seq<CmdView>, now: u64) -> Seq<FrameView> {
        let resumed = self.resume(now);
        let drained = self.drained(cmds, now).0;
        self.launched(resumed) + resumed.drain_frames(cmds, now) + if drained.resend_due(now) {
            msg_frames(drained.inflight)
        } else {
            Seq::empty()
        }
    }

    /// The probe, where it is due.
    pub open spec fn ping_frames(self, now: u64) -> Seq<FrameView> {
        if elapsed(now, self.last_sent) >= PING_INTERVAL {
            seq![FrameView::Ping]
        } else {
            Seq::empty()
        }
    }

    /// The frames that one turn queues: those of the user and of the retransmission, and the
    /// probe.
    pub open spec fn served_frames(self, cmds: Seq<CmdView>, now: u64) -> Seq<FrameView> {
        self.turn_frames(cmds, now) + self.served(cmds, now).ping_frames(now)
    }
}

/// What a turn of a connection gives: the datagrams to send, and whether the connection is
/// done and to be forgotten.
pub struct Round<A> {
    /// The datagrams to send, in order.
    pub packets: Vec<OutPacket<A>>,
    /// Whether the connection is done.
    pub released: bool,
}

impl<A> ConnView<A> {
    /// Whether commands of the user are carried out.
    pub open spec fn serves(self) -> bool {
        !self.closed && self.inner.established
    }

    /// A connection after its turn, the datagrams that it sends, and whether it is done.
    ///
    /// A closed connection is done; where its user closed it, the peer is told first. One
    /// whose handshake is not done waits. Any other serves its user and its timers, and is
    /// closed and done where the peer was silent for too long.
    pub open spec fn round(self, now: u64) -> (ConnView<A>, Seq<(A, Seq<u8>)>, bool) {
        if self.closed {
            if self.closing && self.inner.established {
                let told = self.inner.emit(FrameView::Close);
                (
                    ConnView { closing: false, inner: told.sent_off(now), ..self },
                    told.batch.flush(self.cid).outbox,
                    true,
                )
            } else {
                (self, Seq::empty(), true)
            }
        } else if !self.inner.established {
            (self, Seq::empty(), false)
        } else {
            let kept = self.inner.drained(self.commands, now).1;
            let served = self.inner.served(self.commands, now);
            if elapsed(now, served.last_recv) >= IDLE_TIMEOUT {
                (
                    ConnView { closed: true, inner: served, commands: kept, ..self },
                    Seq::empty(),
                    true,
                )
            } else {
                let full = served.ping_if_due(now);
                (
                    ConnView { inner: full.sent_off(now), commands: kept, ..self },
                    full.batch.flush(self.cid).outbox,
                    false,
                )
            }
        }
    }

    /// The frames that a turn sends, apart from those that were queued before.
    pub open spec fn round_frames(self, now: u64) -> Seq<FrameView> {
        if self.serves() {
            self.inner.served_frames(self.commands, now)
        } else if self.closed && self.closing && self.inner.established {
            seq![FrameView::Close]
        } else {
            Seq::empty()
        }
    }

    /// The datagrams of a turn are for the peer, within the size limit and under the id of the
    /// connection. Where the turn sends anything, they carry all frames that were queued
    /// before and those of the turn, in order.
    pub open spec fn faithful(self, now: u64) -> bool {
        let (_, packets, released) = self.round(now);
        &&& forall|i: int|
            0 <= i < packets.len() ==> sound_packet(self.remote, self.cid, #[trigger] packets[i])
        &&& self.serves() && !released || self.closed && self.closing && self.inner.established
            ==> carried(packets) == self.inner.batch.queued() + self.round_frames(now)
    }
}

impl<A> InnerView<A> {
    /// Whether the two states agree on all but what sending touches: the window, what is
    /// pending, what is queued, and when something was last sent.
    pub open spec fn same_but_sending(self, other: InnerView<A>) -> bool {
        self == InnerView {
            send_next: self.send_next,
            inflight: self.inflight,
            inflight_bytes: self.inflight_bytes,
            pending: self.pending,
            last_sent: self.last_sent,
            batch: Batch { packed: self.batch.packed, outbox: self.batch.outbox, ..other.batch },
            ..other
        }
    }
}

/// A message enters the window and touches nothing else.
proof fn lemma_enqueue_keeps<A>(v: InnerView<A>, data: Seq<u8>, now: u64)
    ensures
        v.enqueue(data, now).0.same_but_sending(v),
    decreases data.len(),
{
    if data.len() > MAX_RELIABLE_CHUNK && v.window_takes(MAX_RELIABLE_CHUNK as nat) {
        lemma_enqueue_keeps(
            v.launch(data.take(MAX_RELIABLE_CHUNK as int), false, now),
            data.skip(MAX_RELIABLE_CHUNK as int),
            now,
        );
    }
}

/// Commands touch nothing but the sending side.
pub(crate) proof fn lemma_drain_keeps<A>(v: InnerView<A>, cmds: Seq<CmdView>, now: u64)
    ensures
        v.resume(now).same_but_sending(v),
        v.drain(cmds, now).0.same_but_sending(v),
    decreases cmds.len(),
{
    if let Some(data) = v.pending {
        lemma_enqueue_keeps(v, data, now);
    }
    if cmds.len() > 0 {
        lemma_drain_keeps(v, cmds.drop_last(), now);
        if let CmdView::Reliable(data) = cmds.last() {
            lemma_enqueue_keeps(v.drain(cmds.drop_last(), now).0, data, now);
        }
    }
}

/// Frames do not change where a batch goes.
proof fn lemma_push_all_keeps<A>(batch: Batch<A>, cid: u32, frames: Seq<FrameView>)
    ensures
        push_all(batch, cid, frames).remote == batch.remote,
    decreases frames.len(),
{
    if frames.len() > 0 {
        lemma_push_all_keeps(batch, cid, frames.drop_last());
    }
}

/// A turn leaves the id, the address and what was received alone.
pub(crate) proof fn lemma_served_keeps<A>(v: InnerView<A>, cmds: Seq<CmdView>, now: u64)
    ensures
        ({
            let w = v.served(cmds, now);
            &&& w.cid == v.cid
            &&& w.batch.remote == v.batch.remote
            &&& w.established == v.established
            &&& w.recv_next == v.recv_next
            &&& w.assembling == v.assembling
            &&& w.last_recv == v.last_recv
        }),
{
    lemma_drain_keeps(v, cmds, now);
    lemma_drain_keeps(v.resume(now), cmds, now);
    let drained = v.drained(cmds, now).0;
    lemma_push_all_keeps(drained.batch, drained.cid, msg_frames(drained.inflight));
}

impl<A: Copy> ConnInner<A> {
    /// Sends a message as far as the window allows, and keeps the rest.
    fn send(&mut self, data: Bytes, now: u64)
        requires
            old(self)@.sound(),
            old(self)@.seq_room(),
        ensures
            final(self)@ == old(self)@.send(contents(data), now),
            final(self)@.sound(),
            final(self)@.seq_room(),
            final(self)@.batch.queued() == old(self)@.batch.queued() + old(self)@.launched(
                final(self)@,
            ),
    {
        let rest = enqueue_reliable(self, data, now);
        self.pending = rest;
    }

    /// Goes on with the message that the window cut short.
    pub fn resume(&mut self, now: u64)
        requires
            old(self)@.sound(),
            old(self)@.seq_room(),
        ensures
            final(self)@ == old(self)@.resume(now),
            final(self)@.sound(),
            final(self)@.seq_room(),
            final(self)@.batch.queued() == old(self)@.batch.queued() + old(self)@.launched(
                final(self)@,
            ),
    {
        match &self.pending {
            Some(rest) => {
                let n: usize = bytes_len(rest);
                let data = bytes_slice(rest, 0, n);
                assert(contents(data) =~= contents(*rest));
                self.send(data, now);
            },
            None => {
                assert(old(self)@.launched(self@) =~= Seq::empty());
                assert(self@.batch.queued() + Seq::<FrameView>::empty() =~= self@.batch.queued());
            },
        }
    }

    /// Carries out a command.
    fn apply(&mut self, cmd: SendCmd, now: u64)
        requires
            old(self)@.sound(),
            old(self)@.seq_room(),
            cmd@.allowed(),
        ensures
            final(self)@ == old(self)@.apply(cmd@, now),
            final(self)@.sound(),
            final(self)@.seq_room(),
            final(self)@.batch.queued() == old(self)@.batch.queued() + old(self)@.apply_frames(
                cmd@,
                now,
            ),
    {
        match cmd {
            SendCmd::Datagram(data) => {
                let ghost q = self@.batch.queued();
                let data = bytes_to_vec(&data);
                self.emit(Frame::Datagram { data });
                proof {
                    let f = FrameView::Datagram { data: data@ };
                    assert(q + seq![f] =~= q.push(f));
                }
            },
            SendCmd::Reliable(data) => {
                self.send(data, now);
            },
        }
    }

    /// Whether a command is carried out.
    fn heeds(&self, cmd: &SendCmd, held_up: bool) -> (r: bool)
        ensures
            r == self@.heeds(cmd@, held_up),
    {
        if self.pending.is_none() {
            return true;
        }
        match cmd {
            SendCmd::Datagram(_) => held_up,
            SendCmd::Reliable(_) => false,
        }
    }

    /// Carries out the commands of a queue, in order, and leaves in it those that have to wait.
    fn drain(&mut self, commands: &mut VecDeque<SendCmd>, now: u64)
        requires
            old(self)@.sound(),
            old(self)@.seq_room(),
            all_allowed(cmd_views(old(commands)@)),
        ensures
            (final(self)@, cmd_views(final(commands)@)) == old(self)@.drain(
                cmd_views(old(commands)@),
                now,
            ),
            final(self)@.sound(),
            final(self)@.seq_room(),
            final(commands)@.len() <= old(commands)@.len(),
            all_allowed(cmd_views(final(commands)@)),
            final(self)@.batch.queued() == old(self)@.batch.queued() + old(self)@.drain_frames(
                cmd_views(old(commands)@),
                now,
            ),
    {
        let ghost start = self@;
        let ghost all = cmd_views(commands@);
        let ghost mut n: int = 0;
        let held_up = self.pending.is_some();
        let mut kept: VecDeque<SendCmd> = VecDeque::new();
        proof {
            assert(all.take(0) =~= Seq::empty());
            assert(all.skip(0) =~= all);
            assert(cmd_views(kept@) =~= Seq::empty());
            assert(start.batch.queued() + Seq::<FrameView>::empty() =~= start.batch.queued());
        }
        while commands.len() > 0
            invariant
                0 <= n <= all.len(),
                held_up == (start.pending is Some),
                all_allowed(all),
                cmd_views(commands@) == all.skip(n),
                (self@, cmd_views(kept@)) == start.drain(all.take(n), now),
                self@.sound(),
                self@.seq_room(),
                kept@.len() <= n,
                all_allowed(cmd_views(kept@)),
                self@.batch.queued() == start.batch.queued() + start.drain_frames(
                    all.take(n),
                    now,
                ),
            decreases commands@.len(),
        {
            let ghost queue = commands@;
            let ghost had = kept@;
            let ghost before = self@;
            let cmd = commands.pop_front().unwrap();
            proof {
                assert(all.skip(n).len() == queue.len());
                assert(all.skip(n)[0] == cmd_views(queue)[0]);
                assert(all[n] == cmd@);
                assert(all[n].allowed());
                assert(cmd_views(commands@) =~= all.skip(n).skip(1));
                assert(all.skip(n).skip(1) =~= all.skip(n + 1));
                assert(all.take(n + 1).drop_last() =~= all.take(n));
            }
            let heeded = self.heeds(&cmd, held_up);
            if heeded {
                self.apply(cmd, now);
            } else {
                kept.push_back(cmd);
                assert(cmd_views(kept@) =~= cmd_views(had).push(cmd@));
            }
            proof {
                let q = start.batch.queued();
                let f = start.drain_frames(all.take(n), now);
                let g = if heeded {
                    before.apply_frames(all[n], now)
                } else {
                    Seq::empty()
                };
                assert(q + f + g =~= q + (f + g));
                assert(q + f + Seq::<FrameView>::empty() =~= q + f);
                n = n + 1;
            }
        }
        proof {
            assert(all.skip(n).len() == commands@.len());
            assert(all.take(n) =~= all);
        }
        std::mem::swap(commands, &mut kept);
    }

    /// Goes on with the message that was cut short, carries out commands, and sends again what
    /// is due.
    fn serve(&mut self, commands: &mut VecDeque<SendCmd>, now: u64)
        requires
            old(self)@.sound(),
            old(self)@.seq_room(),
            all_allowed(cmd_views(old(commands)@)),
        ensures
            final(self)@ == old(self)@.served(cmd_views(old(commands)@), now),
            cmd_views(final(commands)@) == old(self)@.drained(cmd_views(old(commands)@), now).1,
            final(self)@.sound(),
            final(commands)@.len() <= old(commands)@.len(),
            all_allowed(cmd_views(final(commands)@)),
            final(self)@.batch.queued() == old(self)@.batch.queued() + old(self)@.turn_frames(
                cmd_views(old(commands)@),
                now,
            ),
    {
        let ghost start = self@;
        let ghost cmds = cmd_views(commands@);
        self.resume(now);
        let ghost resumed = self@;
        self.drain(commands, now);
        let ghost drained = self@;
        if self.resend_due(now) {
            self.resend(now);
        }
        proof {
            let q = start.batch.queued();
            let a = start.launched(resumed);
            let b = resumed.drain_frames(cmds, now);
            let c = if drained.resend_due(now) {
                msg_frames(drained.inflight)
            } else {
                Seq::empty()
            };
            assert(q + a + b + c =~= q + (a + b + c));
            assert(q + a + b + Seq::<FrameView>::empty() =~= q + a + b);
        }
    }

    /// Queues a probe, where nothing was sent for long.
    fn ping_if_due(&mut self, now: u64)
        requires
            old(self)@.sound(),
        ensures
            final(self)@ == old(self)@.ping_if_due(now),
            final(self)@.sound(),
            final(self)@.batch.queued() == old(self)@.batch.queued() + old(self)@.ping_frames(now),
    {
        let ghost q = self@.batch.queued();
        if time_since(now, self.last_sent) >= PING_INTERVAL {
            self.emit(Frame::Ping);
            self.last_sent = now;
            assert(q + seq![FrameView::Ping] =~= q.push(FrameView::Ping));
        } else {
            assert(q + Seq::<FrameView>::empty() =~= q);
        }
    }

    /// Gives all that is queued as datagrams, and leaves nothing queued.
    fn send_off(&mut self, now: u64) -> (packets: Vec<OutPacket<A>>)
        requires
            old(self)@.sound(),
        ensures
            packet_views(packets@) == old(self)@.batch.flush(old(self)@.cid).outbox,
            final(self)@ == old(self)@.sent_off(now),
            final(self)@.sound(),
            carried(packet_views(packets@)) == old(self)@.batch.queued(),
            forall|i: int|
                0 <= i < packets@.len() ==> sound_packet(
                    old(self)@.batch.remote,
                    old(self)@.cid,
                    #[trigger] packet_views(packets@)[i],
                ),
    {
        self.packer.flush(self.cid, &mut self.outbox);
        let mut packets: Vec<OutPacket<A>> = Vec::new();
        let ghost b = self@.batch;
        proof {
            assert(b.packed =~= Seq::empty());
            assert(b.queued() =~= carried(b.outbox));
        }
        std::mem::swap(&mut packets, &mut self.outbox);
        if packets.len() > 0 {
            self.last_sent = now;
        }
        proof {
            assert(self@.batch.outbox =~= Seq::empty());
            assert(self@.batch.packed =~= Seq::empty());
        }
        packets
    }
}

/// A turn that sends no frame puts no chunk into the window, and is not due to probe.
proof fn lemma_silent_turn<A>(v: ConnView<A>, now: u64)
    requires
        v.sound(),
        v.inner.seq_room(),
        !v.closed,
        v.inner.established,
        v.round_frames(now).len() == 0,
        !v.round(now).2,
        v.round(now).1.len() == 0,
    ensures
        v.round(now).0.inner.last_sent == v.inner.last_sent,
{
    law_silent_peer(v, now);
    law_turn_last_sent(v, now);
    law_turn_chunks(v, now);
    law_turn_window(v, now);
    law_probe(v, now);
}

impl<A: Copy> ConnShared<A> {
    /// Whether there are numbers left for the chunks that the send window has room for.
    pub fn has_seq_room(&self) -> (r: bool)
        requires
            self@.sound(),
        ensures
            r == self@.inner.seq_room(),
            r == (self@.inner.send_next + (MAX_INFLIGHT_MSGS - self@.inner.inflight.len())
                <= u64::MAX),
    {
        self.inner.send_next <= u64::MAX - (MAX_INFLIGHT_MSGS - self.inner.inflight.len()) as u64
    }

    /// One turn of a connection: carries out what the user asked for and what the timers call
    /// for, and gives the datagrams to send.
    pub fn send_round(&mut self, now: u64) -> (round: Round<A>)
        requires
            old(self)@.sound(),
            old(self)@.inner.seq_room(),
        ensures
            (final(self)@, packet_views(round.packets@), round.released) == old(self)@.round(now),
            old(self)@.faithful(now),
            final(self)@.sound(),
            forall|i: int|
                0 <= i < round.packets@.len() ==> {
                    let (address, data) = #[trigger] packet_views(round.packets@)[i];
                    &&& address == old(self)@.remote
                    &&& data.len() <= MAX_DATAGRAM_SIZE
                    &&& packet_parts(data) matches Some((cid, _)) && cid == old(self)@.cid
                },
            round.released == (old(self)@.closed || old(self)@.inner.established && now
                >= old(self)@.inner.last_recv + IDLE_TIMEOUT),
            final(self)@.closed == round.released,
            !old(self)@.closed && old(self)@.inner.established && !round.released ==> carried(
                packet_views(round.packets@),
            ) == old(self)@.inner.batch.queued() + old(self)@.round_frames(now),
            old(self)@.closed && old(self)@.closing && old(self)@.inner.established ==> carried(
                packet_views(round.packets@),
            ) == old(self)@.inner.batch.queued().push(FrameView::Close),
            old(self)@.closed && !(old(self)@.closing && old(self)@.inner.established)
                ==> round.packets@.len() == 0 && final(self)@ == old(self)@,
            !old(self)@.closed && !old(self)@.inner.established ==> round.packets@.len() == 0
                && final(self)@ == old(self)@,
            round.packets@.len() > 0 ==> final(self)@.inner.batch.packed.len() == 0
                && final(self)@.inner.batch.outbox.len() == 0,
            !old(self)@.closed && old(self)@.inner.established && !round.released
                ==> final(self)@.inner.last_sent == if round.packets@.len() > 0 {
                now
            } else {
                old(self)@.inner.last_sent
            },
            final(self)@.inbox == old(self)@.inbox,
            final(self)@.datagrams == old(self)@.datagrams,
            final(self)@.inner.recv_next == old(self)@.inner.recv_next,
            final(self)@.inner.assembling == old(self)@.inner.assembling,
    {
        let ghost start = self@;
        if self.closed {
            let mut packets: Vec<OutPacket<A>> = Vec::new();
            if self.closing && self.inner.established {
                self.closing = false;
                self.inner.emit(Frame::Close);
                packets = self.inner.send_off(now);
                proof {
                    let q = start.inner.batch.queued();
                    assert(q + seq![FrameView::Close] =~= q.push(FrameView::Close));
                }
            } else {
                assert(packet_views(packets@) =~= Seq::empty());
            }
            return Round { packets, released: true };
        }
        if !self.inner.established {
            let packets: Vec<OutPacket<A>> = Vec::new();
            assert(packet_views(packets@) =~= Seq::empty());
            return Round { packets, released: false };
        }
        self.inner.serve(&mut self.commands, now);
        let ghost served = self.inner@;
        proof {
            lemma_served_keeps(start.inner, start.commands, now);
        }
        if time_since(now, self.inner.last_recv) >= IDLE_TIMEOUT {
            self.mark_closed();
            let packets: Vec<OutPacket<A>> = Vec::new();
            assert(packet_views(packets@) =~= Seq::empty());
            return Round { packets, released: true };
        }
        self.inner.ping_if_due(now);
        let packets = self.inner.send_off(now);
        proof {
            let q = start.inner.batch.queued();
            let a = start.inner.turn_frames(start.commands, now);
            let p = served.ping_frames(now);
            assert(q + a + p =~= q + (a + p));
            if packets@.len() == 0 {
                lemma_silent_turn(start, now);
            }
        }
        Round { packets, released: false }
    }
}

} // verus!
