//! A connection: its queues, and what it makes of arriving frames.

use std::collections::VecDeque;

use bytes::Bytes;
use vstd::prelude::*;

use crate::command::{all_allowed, cmd_views, CmdView, SendCmd};
use crate::error::Error;
use crate::frame::{frame_views, Batch, Frame, FrameView, Packer, MAX_RELIABLE_CHUNK};
use crate::inner::{
    ConnInner, InnerView, DATAGRAM_QUEUE_CAP, MAX_MESSAGE_SIZE, RELIABLE_QUEUE_CAP, RTO_INIT,
    SEND_QUEUE_CAP,
};
use crate::laws::{best_effort, law_sign_of_life};
use crate::payload::{bytes_from_vec, bytes_len, contents};
use crate::receiving::{at_most, law_chunks_are_acknowledged, law_datagrams_reach_the_user};

verus! {

/// A connection: who the peer is, whether it is closed, the protocol state, and the queues
/// between the connection and its user.
pub struct ConnShared<A> {
    /// The connection id.
    pub cid: u32,
    /// The address of the peer.
    pub remote: A,
    /// Whether the connection is closed.
    pub closed: bool,
    /// Whether the peer is still to be told of a close on this side.
    pub closing: bool,
    /// The protocol state.
    pub inner: ConnInner<A>,
    /// What the user asked for and was not carried out, oldest first.
    pub commands: VecDeque<SendCmd>,
    /// The reliable messages that wait for the user, oldest first.
    pub inbox: VecDeque<Bytes>,
    /// The best-effort datagrams that wait for the user, oldest first.
    pub datagrams: VecDeque<Bytes>,
}

/// The model of a connection.
#[verifier::ext_equal]
pub struct ConnView<A> {
    pub cid: u32,
    pub remote: A,
    pub closed: bool,
    pub closing: bool,
    pub inner: InnerView<A>,
    pub commands: Seq<CmdView>,
    pub inbox: Seq<Seq<u8>>,
    pub datagrams: Seq<Seq<u8>>,
}

/// The contents of buffers.
pub open spec fn buffer_views(buffers: Seq<Bytes>) -> Seq<Seq<u8>> {
    buffers.map_values(|b: Bytes| contents(b))
}

impl<A> View for ConnShared<A> {
    type V = ConnView<A>;

    open spec fn view(&self) -> ConnView<A> {
        ConnView {
            cid: self.cid,
            remote: self.remote,
            closed: self.closed,
            closing: self.closing,
            inner: self.inner@,
            commands: cmd_views(self.commands@),
            inbox: buffer_views(self.inbox@),
            datagrams: buffer_views(self.datagrams@),
        }
    }
}

/// The protocol state of a connection with this id at the start.
pub open spec fn fresh_inner<A>(cid: u32, remote: A, now: u64) -> InnerView<A> {
    InnerView {
        established: false,
        send_next: 0,
        inflight: Seq::empty(),
        inflight_bytes: 0,
        pending: None,
        recv_next: 0,
        assembling: Seq::empty(),
        fast_retransmit: false,
        last_ack: 0,
        dup_acks: 0,
        rto: RTO_INIT,
        last_recv: now,
        last_sent: now,
        cid,
        batch: Batch { remote, packed: Seq::empty(), outbox: Seq::empty() },
    }
}

/// A connection at the start.
pub open spec fn fresh_conn<A>(cid: u32, remote: A, now: u64) -> ConnView<A> {
    ConnView {
        cid,
        remote,
        closed: false,
        closing: false,
        inner: fresh_inner(cid, remote, now),
        commands: Seq::empty(),
        inbox: Seq::empty(),
        datagrams: Seq::empty(),
    }
}

/// Whether a sequence of frames holds a reliable chunk.
pub open spec fn has_msg(frames: Seq<FrameView>) -> bool {
    exists|i: int| 0 <= i < frames.len() && (#[trigger] frames[i]) is Msg
}

impl<A> ConnView<A> {
    /// What holds of a connection at all times.
    pub open spec fn sound(self) -> bool {
        &&& self.inner.sound()
        &&& self.inner.cid == self.cid
        &&& self.inner.batch.remote == self.remote
        &&& self.closing ==> self.closed
        &&& self.commands.len() <= SEND_QUEUE_CAP
        &&& all_allowed(self.commands)
        &&& self.inbox.len() <= RELIABLE_QUEUE_CAP
        &&& self.datagrams.len() <= DATAGRAM_QUEUE_CAP
    }

    /// The handshake is done.
    pub open spec fn establish(self) -> ConnView<A> {
        ConnView { inner: InnerView { established: true, ..self.inner }, ..self }
    }

    /// The user closes the connection: the peer is to be told. Where it is closed already,
    /// nothing changes.
    pub open spec fn close(self) -> ConnView<A> {
        if self.closed {
            self
        } else {
            ConnView { closed: true, closing: true, ..self }
        }
    }

    /// Whether a command is queued: the queue has room, and the command is allowed. On a closed
    /// connection it is queued too, and not carried out.
    pub open spec fn takes(self, cmd: CmdView) -> bool {
        self.commands.len() < SEND_QUEUE_CAP && cmd.allowed()
    }

    /// The user asks for something: it joins the queue, or nothing changes.
    pub open spec fn offer(self, cmd: CmdView) -> ConnView<A> {
        if self.takes(cmd) {
            ConnView { commands: self.commands.push(cmd), ..self }
        } else {
            self
        }
    }

    /// The user picks up the oldest message, if there is one.
    pub open spec fn pick_up(self) -> ConnView<A> {
        if self.inbox.len() > 0 {
            ConnView { inbox: self.inbox.skip(1), ..self }
        } else {
            self
        }
    }

    /// The user picks up the oldest datagram, if there is one.
    pub open spec fn pick_up_datagram(self) -> ConnView<A> {
        if self.datagrams.len() > 0 {
            ConnView { datagrams: self.datagrams.skip(1), ..self }
        } else {
            self
        }
    }

    /// The next reliable chunk in line. It joins the message that is being put together, and
    /// the last chunk completes the message, which joins the queue for the user. A message
    /// that grows too long, or that finds the queue full, closes the connection and is lost.
    pub open spec fn take_in(self, fin: bool, data: Seq<u8>) -> ConnView<A> {
        let inner = InnerView { recv_next: (self.inner.recv_next + 1) as u64, ..self.inner };
        let grown = self.inner.assembling + data;
        if grown.len() > MAX_MESSAGE_SIZE {
            ConnView { closed: true, inner, ..self }
        } else if !fin {
            ConnView { inner: InnerView { assembling: grown, ..inner }, ..self }
        } else {
            let emptied = InnerView { assembling: Seq::empty(), ..inner };
            if self.inbox.len() < RELIABLE_QUEUE_CAP {
                ConnView { inner: emptied, inbox: self.inbox.push(grown), ..self }
            } else {
                ConnView { closed: true, inner: emptied, ..self }
            }
        }
    }

    /// What a frame does to an open connection. Of the reliable chunks only the next one in
    /// line counts. A best-effort datagram joins the queue for the user where that has room.
    pub open spec fn step(self, frame: FrameView) -> ConnView<A> {
        match frame {
            FrameView::Msg { seq, fin, data } => if seq == self.inner.recv_next {
                self.take_in(fin, data)
            } else {
                self
            },
            FrameView::Ack { next_seq } => ConnView {
                inner: self.inner.acknowledge(next_seq),
                ..self
            },
            FrameView::Datagram { data } => if self.datagrams.len() < DATAGRAM_QUEUE_CAP {
                ConnView { datagrams: self.datagrams.push(data), ..self }
            } else {
                self
            },
            FrameView::Close => ConnView { closed: true, ..self },
            _ => self,
        }
    }

    /// What frames do to a connection, one after the other, up to the one that closes it.
    pub open spec fn steps(self, frames: Seq<FrameView>) -> ConnView<A>
        decreases frames.len(),
    {
        if frames.len() == 0 {
            self
        } else {
            let before = self.steps(frames.drop_last());
            if before.closed {
                before
            } else {
                before.step(frames.last())
            }
        }
    }

    /// The peer was heard of.
    pub open spec fn heard(self, now: u64) -> ConnView<A> {
        ConnView { inner: InnerView { last_recv: now, ..self.inner }, ..self }
    }

    /// The acknowledgement that the frames of a datagram call for: one, of all that the
    /// connection has then, where it is open before and after and a reliable chunk was among
    /// them.
    pub open spec fn acks(self, frames: Seq<FrameView>) -> Seq<FrameView> {
        let after = self.steps(frames);
        if !self.closed && !after.closed && has_msg(frames) {
            seq![FrameView::Ack { next_seq: after.inner.recv_next }]
        } else {
            Seq::empty()
        }
    }

    /// What the frames of a datagram do to a connection. A closed one ignores them.
    pub open spec fn handle(self, frames: Seq<FrameView>, now: u64) -> ConnView<A> {
        if self.closed {
            self
        } else {
            let start = self.heard(now);
            let after = start.steps(frames);
            if start.acks(frames).len() > 0 {
                ConnView { inner: after.inner.emit(start.acks(frames)[0]), ..after }
            } else {
                after
            }
        }
    }
}

/// Frames do nothing to a connection that is closed.
pub(crate) proof fn lemma_steps_closed<A>(v: ConnView<A>, frames: Seq<FrameView>, n: int)
    requires
        0 <= n <= frames.len(),
        v.steps(frames.take(n)).closed,
    ensures
        v.steps(frames) == v.steps(frames.take(n)),
    decreases frames.len() - n,
{
    if n < frames.len() {
        assert(frames.take(n + 1).drop_last() =~= frames.take(n));
        lemma_steps_closed(v, frames, n + 1);
    } else {
        assert(frames.take(n) =~= frames);
    }
}

/// One frame more: a chunk is among the frames where one was before, or where it is one.
proof fn lemma_has_msg_step(frames: Seq<FrameView>, n: int)
    requires
        0 <= n < frames.len(),
    ensures
        has_msg(frames.take(n + 1)) == (has_msg(frames.take(n)) || frames[n] is Msg),
{
    if has_msg(frames.take(n)) {
        let i = choose|i: int| 0 <= i < n && (#[trigger] frames.take(n)[i]) is Msg;
        assert(frames.take(n + 1)[i] is Msg);
    }
    if frames[n] is Msg {
        assert(frames.take(n + 1)[n] is Msg);
    }
    if has_msg(frames.take(n + 1)) {
        let i = choose|i: int| 0 <= i < n + 1 && (#[trigger] frames.take(n + 1)[i]) is Msg;
        if i < n {
            assert(frames.take(n)[i] is Msg);
        }
    }
}

/// Takes the oldest buffer out of a queue.
fn pop_buffer(queue: &mut VecDeque<Bytes>) -> (b: Option<Bytes>)
    ensures
        match b {
            Some(b) => {
                &&& old(queue)@.len() > 0
                &&& contents(b) == buffer_views(old(queue)@)[0]
                &&& buffer_views(final(queue)@) == buffer_views(old(queue)@).skip(1)
            },
            None => old(queue)@.len() == 0 && final(queue)@ == old(queue)@,
        },
{
    let b = queue.pop_front();
    proof {
        if old(queue)@.len() > 0 {
            assert(buffer_views(queue@) =~= buffer_views(old(queue)@).skip(1));
        }
    }
    b
}

/// Adds a buffer to a queue.
fn push_buffer(queue: &mut VecDeque<Bytes>, b: Bytes)
    ensures
        buffer_views(final(queue)@) == buffer_views(old(queue)@).push(contents(b)),
{
    queue.push_back(b);
    assert(buffer_views(queue@) =~= buffer_views(old(queue)@).push(contents(b)));
}

impl<A: Copy> ConnShared<A> {
    /// A connection whose handshake is not done.
    pub fn new(cid: u32, remote: A, now: u64) -> (c: ConnShared<A>)
        ensures
            c@ == fresh_conn(cid, remote, now),
            c@.sound(),
    {
        let inner = ConnInner {
            established: false,
            send_next: 0,
            inflight: VecDeque::new(),
            inflight_bytes: 0,
            pending: None,
            recv_next: 0,
            assembling: Vec::new(),
            fast_retransmit: false,
            last_ack: 0,
            dup_acks: 0,
            rto: RTO_INIT,
            last_recv: now,
            last_sent: now,
            cid,
            packer: Packer::new(remote),
            outbox: Vec::new(),
        };
        assert(inner@.inflight =~= Seq::empty());
        assert(inner@.batch.packed =~= Seq::empty());
        assert(inner@.batch.outbox =~= Seq::empty());
        let c = ConnShared {
            cid,
            remote,
            closed: false,
            closing: false,
            inner,
            commands: VecDeque::new(),
            inbox: VecDeque::new(),
            datagrams: VecDeque::new(),
        };
        assert(c@ =~= fresh_conn(cid, remote, now));
        c
    }

    /// Whether the connection is closed.
    pub fn is_closed(&self) -> (closed: bool)
        ensures
            closed == self@.closed,
    {
        self.closed
    }

    /// Closes the connection.
    pub fn mark_closed(&mut self)
        ensures
            final(self)@ == (ConnView { closed: true, ..old(self)@ }),
            old(self)@.sound() ==> final(self)@.sound(),
    {
        self.closed = true;
    }

    /// Closes the connection on behalf of its user: the peer is to be told. Does nothing, and
    /// says so, where it is closed already.
    pub fn close(&mut self) -> (fresh: bool)
        ensures
            fresh == !old(self)@.closed,
            final(self)@ == old(self)@.close(),
            final(self)@ == (ConnView {
                closed: true,
                closing: old(self)@.closing || !old(self)@.closed,
                ..old(self)@
            }),
            old(self)@.sound() ==> final(self)@.sound(),
    {
        if self.closed {
            false
        } else {
            self.closed = true;
            self.closing = true;
            true
        }
    }

    /// Notes that the handshake is done. Says whether that is news.
    pub fn establish(&mut self) -> (fresh: bool)
        ensures
            fresh == !old(self)@.inner.established,
            final(self)@ == old(self)@.establish(),
            final(self)@ == (ConnView {
                inner: InnerView { established: true, ..old(self)@.inner },
                ..old(self)@
            }),
            old(self)@.sound() ==> final(self)@.sound(),
    {
        let fresh = !self.inner.established;
        self.inner.established = true;
        fresh
    }

    /// Queues a command that is allowed. Gives it back where the queue is full.
    fn enqueue(&mut self, cmd: SendCmd) -> (back: Option<SendCmd>)
        requires
            old(self)@.sound(),
            cmd@.allowed(),
        ensures
            final(self)@ == old(self)@.offer(cmd@),
            final(self)@.sound(),
            back == if old(self)@.takes(cmd@) {
                None
            } else {
                Some(cmd)
            },
    {
        if self.commands.len() >= SEND_QUEUE_CAP {
            return Some(cmd);
        }
        self.commands.push_back(cmd);
        assert(self@.commands =~= old(self)@.commands.push(cmd@));
        assert(self@ =~= old(self)@.offer(cmd@));
        None
    }

    /// Queues a reliable message. Gives it back where the queue is full: the user waits for
    /// room and tries again.
    pub fn send_reliable(&mut self, data: Bytes) -> (back: Option<Bytes>)
        requires
            old(self)@.sound(),
        ensures
            final(self)@ == old(self)@.offer(CmdView::Reliable(contents(data))),
            final(self)@.sound(),
            final(self)@ == (ConnView {
                commands: if old(self)@.commands.len() < SEND_QUEUE_CAP {
                    old(self)@.commands.push(CmdView::Reliable(contents(data)))
                } else {
                    old(self)@.commands
                },
                ..old(self)@
            }),
            back == if old(self)@.commands.len() < SEND_QUEUE_CAP {
                None
            } else {
                Some(data)
            },
    {
        match self.enqueue(SendCmd::Reliable(data)) {
            Some(SendCmd::Reliable(data)) => Some(data),
            _ => None,
        }
    }

    /// Queues a best-effort datagram. One that is longer than a chunk may be is refused. Gives
    /// it back where the queue is full: the user waits for room and tries again.
    pub fn send_datagram(&mut self, data: Bytes) -> (r: Result<Option<Bytes>, Error>)
        requires
            old(self)@.sound(),
        ensures
            final(self)@ == old(self)@.offer(CmdView::Datagram(contents(data))),
            final(self)@.sound(),
            final(self)@ == (ConnView {
                commands: if old(self)@.commands.len() < SEND_QUEUE_CAP && contents(data).len()
                    <= MAX_RELIABLE_CHUNK {
                    old(self)@.commands.push(CmdView::Datagram(contents(data)))
                } else {
                    old(self)@.commands
                },
                ..old(self)@
            }),
            match r {
                Ok(back) => {
                    &&& contents(data).len() <= MAX_RELIABLE_CHUNK
                    &&& back == if old(self)@.commands.len() < SEND_QUEUE_CAP {
                        None
                    } else {
                        Some(data)
                    }
                },
                Err(Error::InvalidParam(what)) => contents(data).len() > MAX_RELIABLE_CHUNK
                    && what@ == "datagram exceeds MTU budget"@,
                Err(_) => false,
            },
    {
        if bytes_len(&data) > MAX_RELIABLE_CHUNK {
            return Err(Error::InvalidParam("datagram exceeds MTU budget"));
        }
        match self.enqueue(SendCmd::Datagram(data)) {
            Some(SendCmd::Datagram(data)) => Ok(Some(data)),
            _ => Ok(None),
        }
    }

    /// Picks up the oldest reliable message. There may be none yet; once the connection is
    /// closed and all messages are picked up, that is an error.
    pub fn recv_reliable(&mut self) -> (r: Result<Option<Bytes>, Error>)
        ensures
            final(self)@ == old(self)@.pick_up(),
            final(self)@ == (ConnView {
                inbox: if old(self)@.inbox.len() > 0 {
                    old(self)@.inbox.skip(1)
                } else {
                    old(self)@.inbox
                },
                ..old(self)@
            }),
            old(self)@.sound() ==> final(self)@.sound(),
            match r {
                Ok(Some(m)) => old(self)@.inbox.len() > 0 && contents(m) == old(self)@.inbox[0],
                Ok(None) => old(self)@.inbox.len() == 0 && !old(self)@.closed,
                Err(e) => {
                    &&& e == Error::Closed
                    &&& old(self)@.inbox.len() == 0
                    &&& old(self)@.closed
                },
            },
    {
        match pop_buffer(&mut self.inbox) {
            Some(m) => Ok(Some(m)),
            None => if self.closed {
                Err(Error::Closed)
            } else {
                Ok(None)
            },
        }
    }

    /// Picks up the oldest best-effort datagram. There may be none yet; once the connection is
    /// closed and all datagrams are picked up, that is an error.
    pub fn recv_datagram(&mut self) -> (r: Result<Option<Bytes>, Error>)
        ensures
            final(self)@ == old(self)@.pick_up_datagram(),
            final(self)@ == (ConnView {
                datagrams: if old(self)@.datagrams.len() > 0 {
                    old(self)@.datagrams.skip(1)
                } else {
                    old(self)@.datagrams
                },
                ..old(self)@
            }),
            old(self)@.sound() ==> final(self)@.sound(),
            match r {
                Ok(Some(d)) => {
                    &&& old(self)@.datagrams.len() > 0
                    &&& contents(d) == old(self)@.datagrams[0]
                },
                Ok(None) => old(self)@.datagrams.len() == 0 && !old(self)@.closed,
                Err(e) => {
                    &&& e == Error::Closed
                    &&& old(self)@.datagrams.len() == 0
                    &&& old(self)@.closed
                },
            },
    {
        match pop_buffer(&mut self.datagrams) {
            Some(d) => Ok(Some(d)),
            None => if self.closed {
                Err(Error::Closed)
            } else {
                Ok(None)
            },
        }
    }

    /// Hands the message that is complete to the user. Says whether there was room for it.
    fn deliver_reliable(&mut self) -> (ok: bool)
        requires
            old(self)@.sound(),
        ensures
            ok == (old(self)@.inbox.len() < RELIABLE_QUEUE_CAP),
            final(self)@ == (ConnView {
                inner: InnerView { assembling: Seq::empty(), ..old(self)@.inner },
                inbox: if ok {
                    old(self)@.inbox.push(old(self)@.inner.assembling)
                } else {
                    old(self)@.inbox
                },
                ..old(self)@
            }),
            final(self)@.sound(),
    {
        let msg = self.inner.take_message();
        if self.inbox.len() >= RELIABLE_QUEUE_CAP {
            return false;
        }
        push_buffer(&mut self.inbox, msg);
        true
    }

    /// Takes in the next reliable chunk in line.
    fn take_in(&mut self, fin: bool, data: Vec<u8>)
        requires
            old(self)@.sound(),
            old(self)@.inner.recv_next < u64::MAX,
        ensures
            final(self)@ == old(self)@.take_in(fin, data@),
            final(self)@.sound(),
    {
        self.inner.recv_next = self.inner.recv_next + 1;
        if data.len() > MAX_MESSAGE_SIZE - self.inner.assembling.len() {
            self.mark_closed();
            return;
        }
        let mut data = data;
        self.inner.assembling.append(&mut data);
        if fin && !self.deliver_reliable() {
            self.mark_closed();
        }
    }

    /// Takes in one frame.
    pub fn receive(&mut self, frame: Frame)
        requires
            old(self)@.sound(),
            old(self)@.inner.recv_next < u64::MAX,
        ensures
            final(self)@ == old(self)@.step(frame@),
            final(self)@.sound(),
    {
        match frame {
            Frame::Msg { seq, fin, data } => {
                if seq == self.inner.recv_next {
                    self.take_in(fin, data);
                }
            },
            Frame::Ack { next_seq } => {
                self.inner.acknowledge(next_seq);
            },
            Frame::Datagram { data } => {
                if self.datagrams.len() < DATAGRAM_QUEUE_CAP {
                    push_buffer(&mut self.datagrams, bytes_from_vec(data));
                }
            },
            Frame::Close => {
                self.mark_closed();
            },
            _ => {},
        }
    }

    /// Takes in the frames of a datagram. Where they call for an acknowledgement, it is queued
    /// behind what is queued already, and nothing else is.
    pub fn handle_frames(&mut self, frames: Vec<Frame>, now: u64)
        requires
            old(self)@.sound(),
            old(self)@.inner.recv_next + frames@.len() <= u64::MAX,
        ensures
            final(self)@ == old(self)@.handle(frame_views(frames@), now),
            final(self)@.inner.batch.queued() == old(self)@.inner.batch.queued() + old(
                self,
            )@.acks(frame_views(frames@)),
            final(self)@.sound(),
            final(self)@.cid == old(self)@.cid,
            final(self)@.remote == old(self)@.remote,
            final(self)@.inner.batch.queued() == if !old(self)@.closed && !final(self)@.closed
                && exists|i: int| 0 <= i < frames@.len() && (#[trigger] frames@[i]) is Msg {
                old(self)@.inner.batch.queued().push(
                    FrameView::Ack { next_seq: final(self)@.inner.recv_next },
                )
            } else {
                old(self)@.inner.batch.queued()
            },
            !old(self)@.closed ==> final(self)@.inner.last_recv == now,
            old(self)@.closed ==> final(self)@ == old(self)@,
            !final(self)@.closed ==> final(self)@.datagrams == at_most(
                old(self)@.datagrams + best_effort(frame_views(frames@)),
                DATAGRAM_QUEUE_CAP as int,
            ),
    {
        let ghost start = self@.heard(now);
        let ghost all = frame_views(frames@);
        let ghost queued = self@.inner.batch.queued();
        proof {
            assert(queued + Seq::<FrameView>::empty() =~= queued);
            lemma_acks_heard(self@, all, now);
            law_chunks_are_acknowledged(self@, all, now);
            if !self@.closed {
                law_sign_of_life(self@, all, now);
                if !self@.handle(all, now).closed {
                    law_datagrams_reach_the_user(self@, all, now);
                }
            }
            assert(has_msg(all) == exists|i: int|
                0 <= i < frames@.len() && (#[trigger] frames@[i]) is Msg) by {
                if has_msg(all) {
                    let i = choose|i: int| 0 <= i < all.len() && (#[trigger] all[i]) is Msg;
                    assert(frames@[i] is Msg);
                }
                if exists|i: int| 0 <= i < frames@.len() && (#[trigger] frames@[i]) is Msg {
                    let i = choose|i: int| 0 <= i < frames@.len() && (#[trigger] frames@[i]) is Msg;
                    assert(all[i] is Msg);
                }
            }
        }
        if self.closed {
            return;
        }
        self.inner.last_recv = now;
        let mut saw_msg = false;
        assert(all.take(0) =~= Seq::empty());
        for frame in it: frames
            invariant
                all == frame_views(it.seq()),
                start.inner.recv_next + all.len() <= u64::MAX,
                self@.sound(),
                self@.cid == start.cid,
                self@.remote == start.remote,
                self@.inner.batch == start.inner.batch,
                self@.inner.recv_next <= start.inner.recv_next + it.index(),
                self@ == start.steps(all.take(it.index() as int)),
                !self@.closed ==> saw_msg == has_msg(all.take(it.index() as int)),
        {
            let ghost n = it.index() as int;
            proof {
                assert(all[n] == frame@);
                assert(all.take(n + 1).drop_last() =~= all.take(n));
                lemma_has_msg_step(all, n);
            }
            if !self.closed {
                if let Frame::Msg { .. } = frame {
                    saw_msg = true;
                }
                self.receive(frame);
            }
        }
        proof {
            assert(all.take(all.len() as int) =~= all);
        }
        if saw_msg && !self.closed {
            let next_seq: u64 = self.inner.recv_next;
            self.inner.emit(Frame::Ack { next_seq });
            assert(queued + seq![FrameView::Ack { next_seq }] =~= queued.push(
                FrameView::Ack { next_seq },
            ));
        }
    }
}

/// When the peer is heard of does not touch what is acknowledged.
pub(crate) proof fn lemma_acks_heard<A>(v: ConnView<A>, frames: Seq<FrameView>, now: u64)
    ensures
        v.heard(now).steps(frames) == v.steps(frames).heard(now),
        v.heard(now).acks(frames) == v.acks(frames),
    decreases frames.len(),
{
    if frames.len() > 0 {
        lemma_acks_heard(v, frames.drop_last(), now);
    }
}

} // verus!
