//! The protocol state of a connection: the send window, acknowledgements and retransmission.

use std::collections::VecDeque;

use bytes::Bytes;
use vstd::prelude::*;

use crate::frame::{
    batch_of, fits, Batch, Frame, FrameView, OutPacket, Packer, MAX_RELIABLE_CHUNK,
};
use crate::payload::{bytes_from_vec, bytes_len, bytes_slice, bytes_to_vec, contents};

verus! {

/// The most bytes that may be in flight.
pub const MAX_INFLIGHT_BYTES: usize = 262144;

/// The most chunks that may be in flight.
pub const MAX_INFLIGHT_MSGS: usize = 1024;

/// The retransmission timeout at the start, in nanoseconds.
pub const RTO_INIT: u64 = 200_000_000;

/// The longest retransmission timeout, in nanoseconds.
pub const RTO_MAX: u64 = 2_000_000_000;

/// How many duplicate acknowledgements set off a fast retransmission.
pub const DUP_ACK_THRESHOLD: u32 = 3;

/// How long a connection may send nothing before it sends a probe, in nanoseconds.
pub const PING_INTERVAL: u64 = 5_000_000_000;

/// How long a peer may stay silent before its connection is given up, in nanoseconds.
pub const IDLE_TIMEOUT: u64 = 30_000_000_000;

/// How long a client waits for the answer to its handshake, in nanoseconds.
pub const HANDSHAKE_TIMEOUT: u64 = 3_000_000_000;

/// The most messages that wait for the user to pick them up.
pub const RELIABLE_QUEUE_CAP: usize = 4096;

/// The most datagrams that wait for the user to pick them up.
pub const DATAGRAM_QUEUE_CAP: usize = 1024;

/// The most commands that wait for the connection to carry them out.
pub const SEND_QUEUE_CAP: usize = 4096;

/// The most bytes that a message may have while it is put together. A longer one ends the
/// connection.
pub const MAX_MESSAGE_SIZE: usize = 1048576;

/// A chunk that was sent and is not acknowledged.
pub struct Inflight {
    /// The number of the chunk.
    pub seq: u64,
    /// Whether it is the last chunk of its message.
    pub fin: bool,
    /// The user data.
    pub data: Bytes,
    /// When it was last sent.
    pub sent_at: u64,
}

/// The model of a chunk in flight.
pub struct InflightView {
    pub seq: u64,
    pub fin: bool,
    pub data: Seq<u8>,
    pub sent_at: u64,
}

impl View for Inflight {
    type V = InflightView;

    open spec fn view(&self) -> InflightView {
        InflightView {
            seq: self.seq,
            fin: self.fin,
            data: contents(self.data),
            sent_at: self.sent_at,
        }
    }
}

/// The protocol state of a connection.
pub struct ConnInner<A> {
    /// Whether the handshake is done.
    pub established: bool,
    /// The number of the next chunk to send.
    pub send_next: u64,
    /// The chunks in flight, by rising number.
    pub inflight: VecDeque<Inflight>,
    /// The bytes in flight.
    pub inflight_bytes: usize,
    /// What is left of a message that the send window cut short.
    pub pending: Option<Bytes>,
    /// The number of the next chunk to receive.
    pub recv_next: u64,
    /// The chunks of a message that is not complete.
    pub assembling: Vec<u8>,
    /// Whether duplicate acknowledgements ask for a retransmission.
    pub fast_retransmit: bool,
    /// The highest acknowledgement.
    pub last_ack: u64,
    /// How many times in a row an acknowledgement brought nothing new.
    pub dup_acks: u32,
    /// The retransmission timeout: back to its start when an acknowledgement makes
    /// progress, doubled by each retransmission.
    pub rto: u64,
    /// When the peer was last heard of.
    pub last_recv: u64,
    /// When a datagram last went to the peer.
    pub last_sent: u64,
    /// The connection id.
    pub cid: u32,
    /// The frames of the next datagram.
    pub packer: Packer<A>,
    /// The datagrams that are ready to go.
    pub outbox: Vec<OutPacket<A>>,
}

/// The model of the protocol state of a connection.
pub struct InnerView<A> {
    pub established: bool,
    pub send_next: u64,
    pub inflight: Seq<InflightView>,
    pub inflight_bytes: usize,
    pub pending: Option<Seq<u8>>,
    pub recv_next: u64,
    pub assembling: Seq<u8>,
    pub fast_retransmit: bool,
    pub last_ack: u64,
    pub dup_acks: u32,
    pub rto: u64,
    pub last_recv: u64,
    pub last_sent: u64,
    pub cid: u32,
    pub batch: Batch<A>,
}

/// The models of chunks in flight.
pub open spec fn inflight_views(chunks: Seq<Inflight>) -> Seq<InflightView> {
    chunks.map_values(|c: Inflight| c@)
}

/// The model of a buffer that may be absent.
pub open spec fn opt_contents(b: Option<Bytes>) -> Option<Seq<u8>> {
    match b {
        Some(b) => Some(contents(b)),
        None => None,
    }
}

impl<A> View for ConnInner<A> {
    type V = InnerView<A>;

    open spec fn view(&self) -> InnerView<A> {
        InnerView {
            established: self.established,
            send_next: self.send_next,
            inflight: inflight_views(self.inflight@),
            inflight_bytes: self.inflight_bytes,
            pending: opt_contents(self.pending),
            recv_next: self.recv_next,
            assembling: self.assembling@,
            fast_retransmit: self.fast_retransmit,
            last_ack: self.last_ack,
            dup_acks: self.dup_acks,
            rto: self.rto,
            last_recv: self.last_recv,
            last_sent: self.last_sent,
            cid: self.cid,
            batch: batch_of(self.packer, self.outbox@),
        }
    }
}

/// The bytes of user data in a row of chunks.
pub open spec fn total_len(chunks: Seq<InflightView>) -> nat
    decreases chunks.len(),
{
    if chunks.len() == 0 {
        0
    } else {
        total_len(chunks.drop_last()) + chunks.last().data.len()
    }
}

/// The frame that carries a chunk.
pub open spec fn msg_frame(chunk: InflightView) -> FrameView {
    FrameView::Msg { seq: chunk.seq, fin: chunk.fin, data: chunk.data }
}

/// The frames that carry a row of chunks.
pub open spec fn msg_frames(chunks: Seq<InflightView>) -> Seq<FrameView> {
    chunks.map_values(|c: InflightView| msg_frame(c))
}

/// The same chunks, last sent at this time.
pub open spec fn stamped(chunks: Seq<InflightView>, now: u64) -> Seq<InflightView> {
    chunks.map_values(|c: InflightView| InflightView { sent_at: now, ..c })
}

/// The time from `since` to `now`: zero where `since` lies ahead.
pub open spec fn elapsed(now: u64, since: u64) -> int {
    if now >= since {
        now - since
    } else {
        0
    }
}

/// What a batch is after these frames were added one by one.
pub open spec fn push_all<A>(batch: Batch<A>, cid: u32, frames: Seq<FrameView>) -> Batch<A>
    decreases frames.len(),
{
    if frames.len() == 0 {
        batch
    } else {
        push_all(batch, cid, frames.drop_last()).push(cid, frames.last())
    }
}

impl<A> InnerView<A> {
    /// What holds of the protocol state at all times.
    pub open spec fn sound(self) -> bool {
        &&& self.window_sound()
        &&& self.dup_acks < DUP_ACK_THRESHOLD
        &&& RTO_INIT <= self.rto <= RTO_MAX
        &&& self.assembling.len() <= MAX_MESSAGE_SIZE
        &&& self.batch.sound(self.cid)
    }

    /// The send window is within its limits, its bytes are counted, and its chunks have the
    /// numbers just below the next one, without a gap.
    pub open spec fn window_sound(self) -> bool {
        &&& self.inflight.len() <= MAX_INFLIGHT_MSGS
        &&& self.inflight.len() <= self.send_next
        &&& self.inflight_bytes == total_len(self.inflight)
        &&& self.inflight_bytes <= MAX_INFLIGHT_BYTES
        &&& forall|i: int|
            0 <= i < self.inflight.len() ==> {
                &&& (#[trigger] self.inflight[i]).seq == self.send_next - self.inflight.len() + i
                &&& self.inflight[i].data.len() <= MAX_RELIABLE_CHUNK
            }
    }

    /// The numbers of the chunks that the window has room for do not run out.
    pub open spec fn seq_room(self) -> bool {
        self.send_next + (MAX_INFLIGHT_MSGS - self.inflight.len()) <= u64::MAX
    }

    /// A frame is queued.
    pub open spec fn emit(self, frame: FrameView) -> InnerView<A> {
        InnerView { batch: self.batch.push(self.cid, frame), ..self }
    }

    /// A chunk enters the window and is queued.
    pub open spec fn launch(self, data: Seq<u8>, fin: bool, now: u64) -> InnerView<A> {
        let chunk = InflightView { seq: self.send_next, fin, data, sent_at: now };
        InnerView {
            inflight: self.inflight.push(chunk),
            inflight_bytes: (self.inflight_bytes + data.len()) as usize,
            send_next: (self.send_next + 1) as u64,
            last_sent: now,
            ..self.emit(msg_frame(chunk))
        }
    }

    /// Whether the window has room for a chunk of this many bytes.
    pub open spec fn window_takes(self, len: nat) -> bool {
        self.inflight.len() < MAX_INFLIGHT_MSGS && self.inflight_bytes + len <= MAX_INFLIGHT_BYTES
    }

    /// A message is cut into chunks, and chunks enter the window for as long as it has
    /// room. What found no room comes back. An empty message is one empty chunk.
    pub open spec fn enqueue(self, data: Seq<u8>, now: u64) -> (InnerView<A>, Option<Seq<u8>>)
        decreases data.len(),
    {
        if data.len() <= MAX_RELIABLE_CHUNK {
            if self.window_takes(data.len()) {
                (self.launch(data, true, now), None)
            } else {
                (self, Some(data))
            }
        } else if self.window_takes(MAX_RELIABLE_CHUNK as nat) {
            self.launch(data.take(MAX_RELIABLE_CHUNK as int), false, now).enqueue(
                data.skip(MAX_RELIABLE_CHUNK as int),
                now,
            )
        } else {
            (self, Some(data))
        }
    }
}

impl<A> InnerView<A> {
    /// How many chunks in flight have a number below `next_seq`.
    pub open spec fn acked(self, next_seq: u64) -> int {
        let first = self.send_next - self.inflight.len();
        if next_seq <= first {
            0
        } else if next_seq >= self.send_next {
            self.inflight.len() as int
        } else {
            next_seq - first
        }
    }

    /// A cumulative acknowledgement: the chunks with a number below `next_seq` leave the
    /// window, which takes the timeout back to its start. One that brings nothing new while
    /// chunks are in flight counts as a duplicate, and enough of those in a row ask for a
    /// retransmission.
    pub open spec fn acknowledge(self, next_seq: u64) -> InnerView<A> {
        let left = self.inflight.skip(self.acked(next_seq));
        let v = InnerView {
            inflight: left,
            inflight_bytes: total_len(left) as usize,
            rto: if self.acked(next_seq) > 0 {
                RTO_INIT
            } else {
                self.rto
            },
            ..self
        };
        if next_seq > self.last_ack {
            InnerView { last_ack: next_seq, dup_acks: 0, ..v }
        } else if next_seq < self.send_next && left.len() > 0 {
            if self.dup_acks + 1 >= DUP_ACK_THRESHOLD {
                InnerView { fast_retransmit: true, dup_acks: 0, ..v }
            } else {
                InnerView { dup_acks: (self.dup_acks + 1) as u32, ..v }
            }
        } else {
            v
        }
    }

    /// Whether chunks are in flight and are to be sent again: on duplicate
    /// acknowledgements, or once the oldest has waited for the timeout.
    pub open spec fn resend_due(self, now: u64) -> bool {
        self.inflight.len() > 0 && (self.fast_retransmit || elapsed(now, self.inflight[0].sent_at)
            >= self.rto)
    }

    /// All chunks in flight are sent again, in order, and the timeout doubles up to its
    /// limit.
    pub open spec fn resend(self, now: u64) -> InnerView<A> {
        InnerView {
            inflight: stamped(self.inflight, now),
            batch: push_all(self.batch, self.cid, msg_frames(self.inflight)),
            rto: if 2 * self.rto <= RTO_MAX {
                (2 * self.rto) as u64
            } else {
                RTO_MAX
            },
            fast_retransmit: false,
            ..self
        }
    }
}

/// The bytes of a row are those of its first chunk and those of the rest.
proof fn lemma_total_len_first(s: Seq<InflightView>)
    requires
        s.len() > 0,
    ensures
        total_len(s) == s[0].data.len() + total_len(s.skip(1)),
    decreases s.len(),
{
    if s.len() == 1 {
        assert(s.drop_last() =~= Seq::empty());
        assert(s.skip(1) =~= Seq::empty());
    } else {
        lemma_total_len_first(s.drop_last());
        assert(s.drop_last().skip(1) =~= s.skip(1).drop_last());
        assert(s.skip(1).last() == s.last());
    }
}

/// The bytes of a row depend on the data of its chunks alone.
pub(crate) proof fn lemma_total_len_same_data(s: Seq<InflightView>, t: Seq<InflightView>)
    requires
        s.len() == t.len(),
        forall|i: int| 0 <= i < s.len() ==> (#[trigger] s[i]).data == t[i].data,
    ensures
        total_len(s) == total_len(t),
    decreases s.len(),
{
    if s.len() > 0 {
        lemma_total_len_same_data(s.drop_last(), t.drop_last());
    }
}

/// What is left of a row has no more bytes than the row.
proof fn lemma_total_len_rest(s: Seq<InflightView>, n: int)
    requires
        0 <= n <= s.len(),
    ensures
        total_len(s.skip(n)) <= total_len(s),
    decreases n,
{
    if n == 0 {
        assert(s.skip(0) =~= s);
    } else {
        lemma_total_len_first(s);
        lemma_total_len_rest(s.skip(1), n - 1);
        assert(s.skip(1).skip(n - 1) =~= s.skip(n));
    }
}

/// An acknowledgement keeps the window as it must be.
pub(crate) proof fn lemma_acknowledge_window<A>(v: InnerView<A>, next_seq: u64)
    requires
        v.window_sound(),
    ensures
        v.acknowledge(next_seq).window_sound(),
        v.acknowledge(next_seq).inflight == v.inflight.skip(v.acked(next_seq)),
        0 <= v.acked(next_seq) <= v.inflight.len(),
{
    lemma_total_len_rest(v.inflight, v.acked(next_seq));
}

impl<A: Copy> ConnInner<A> {
    /// Takes in a cumulative acknowledgement.
    pub fn acknowledge(&mut self, next_seq: u64)
        requires
            old(self)@.sound(),
        ensures
            final(self)@ == old(self)@.acknowledge(next_seq),
            final(self)@.sound(),
    {
        let ghost start = self@;
        let ghost mut n: int = 0;
        let mut progress = false;
        proof {
            assert(start.inflight.skip(0) =~= start.inflight);
        }
        while self.inflight.len() > 0 && self.inflight[0].seq < next_seq
            invariant
                0 <= n <= start.inflight.len(),
                start.sound(),
                progress == (n > 0),
                forall|i: int| 0 <= i < n ==> (#[trigger] start.inflight[i]).seq < next_seq,
                self@ == (InnerView {
                    inflight: start.inflight.skip(n),
                    inflight_bytes: total_len(start.inflight.skip(n)) as usize,
                    ..start
                }),
                self.inflight_bytes == total_len(start.inflight.skip(n)) <= start.inflight_bytes,
            decreases self.inflight@.len(),
        {
            let ghost before = self@;
            assert(self@.inflight[0].seq == self.inflight@[0].seq);
            let f = self.inflight.pop_front().unwrap();
            proof {
                lemma_total_len_first(before.inflight);
                assert(before.inflight.skip(1) =~= start.inflight.skip(n + 1));
                assert(inflight_views(self.inflight@) =~= start.inflight.skip(n + 1));
                assert(f@ == before.inflight[0]);
                n = n + 1;
            }
            self.inflight_bytes = self.inflight_bytes - bytes_len(&f.data);
            progress = true;
        }
        proof {
            if n < start.inflight.len() {
                assert(self@.inflight[0] == start.inflight[n]);
                assert(self.inflight@[0]@ == self@.inflight[0]);
            }
            if n > 0 {
                assert(start.inflight[n - 1].seq < next_seq);
            }
            assert(n == start.acked(next_seq));
        }
        if progress {
            self.rto = RTO_INIT;
        }
        if next_seq > self.last_ack {
            self.last_ack = next_seq;
            self.dup_acks = 0;
        } else if next_seq < self.send_next && self.inflight.len() > 0 {
            self.dup_acks = self.dup_acks + 1;
            if self.dup_acks >= DUP_ACK_THRESHOLD {
                self.fast_retransmit = true;
                self.dup_acks = 0;
            }
        }
    }
}

/// The time from `since` to `now`.
pub(crate) fn time_since(now: u64, since: u64) -> (t: u64)
    ensures
        t == elapsed(now, since),
{
    if now >= since {
        now - since
    } else {
        0
    }
}

/// One more chunk of a row: what it adds to the row, and to its frames.
proof fn lemma_resend_step(s: Seq<InflightView>, n: int, now: u64, queued: Seq<FrameView>)
    requires
        0 <= n < s.len(),
    ensures
        stamped(s.take(n + 1), now) == stamped(s.take(n), now).push(
            InflightView { sent_at: now, ..s[n] },
        ),
        msg_frames(s.take(n + 1)).len() > 0,
        msg_frames(s.take(n + 1)).drop_last() == msg_frames(s.take(n)),
        msg_frames(s.take(n + 1)).last() == msg_frame(s[n]),
        queued + msg_frames(s.take(n + 1)) == (queued + msg_frames(s.take(n))).push(
            msg_frame(s[n]),
        ),
{
    assert(stamped(s.take(n + 1), now) =~= stamped(s.take(n), now).push(
        InflightView { sent_at: now, ..s[n] },
    ));
    assert(msg_frames(s.take(n + 1)).drop_last() =~= msg_frames(s.take(n)));
    assert(queued + msg_frames(s.take(n + 1)) =~= (queued + msg_frames(s.take(n))).push(
        msg_frame(s[n]),
    ));
}

impl<A: Copy> ConnInner<A> {
    /// Queues a frame.
    pub fn emit(&mut self, frame: Frame)
        requires
            old(self)@.sound(),
        ensures
            final(self)@ == old(self)@.emit(frame@),
            final(self)@.sound(),
            fits(seq![frame@]) || frame@.payload_len() <= MAX_RELIABLE_CHUNK
                ==> final(self)@.batch.queued() == old(self)@.batch.queued().push(frame@),
    {
        self.packer.push_or_flush(self.cid, &mut self.outbox, frame);
    }

    /// Whether the chunks in flight are to be sent again.
    pub fn resend_due(&self, now: u64) -> (due: bool)
        ensures
            due == self@.resend_due(now),
    {
        if self.inflight.len() == 0 {
            return false;
        }
        assert(self@.inflight[0] == self.inflight@[0]@);
        self.fast_retransmit || time_since(now, self.inflight[0].sent_at) >= self.rto
    }

    /// Sends all chunks in flight again, in order.
    pub fn resend(&mut self, now: u64)
        requires
            old(self)@.sound(),
        ensures
            final(self)@ == old(self)@.resend(now),
            final(self)@.sound(),
            final(self)@.batch.queued() == old(self)@.batch.queued() + msg_frames(
                old(self)@.inflight,
            ),
    {
        let ghost start = self@;
        let mut waiting: VecDeque<Inflight> = VecDeque::new();
        std::mem::swap(&mut waiting, &mut self.inflight);
        let ghost mut n: int = 0;
        proof {
            assert(inflight_views(waiting@) =~= start.inflight.skip(0));
            assert(inflight_views(self.inflight@) =~= stamped(start.inflight.take(0), now));
            assert(msg_frames(start.inflight.take(0)) =~= Seq::empty());
            assert(start.batch.queued() + Seq::<FrameView>::empty() =~= start.batch.queued());
        }
        while waiting.len() > 0
            invariant
                forall|i: int|
                    0 <= i < start.inflight.len() ==> (#[trigger] start.inflight[i]).data.len()
                        <= MAX_RELIABLE_CHUNK,
                0 <= n <= start.inflight.len(),
                inflight_views(waiting@) == start.inflight.skip(n),
                self@ == (InnerView {
                    inflight: stamped(start.inflight.take(n), now),
                    batch: push_all(start.batch, start.cid, msg_frames(start.inflight.take(n))),
                    ..start
                }),
                self@.batch.sound(start.cid),
                self@.batch.queued() == start.batch.queued() + msg_frames(start.inflight.take(n)),
            decreases waiting@.len(),
        {
            let ghost c = start.inflight[n];
            assert(start.inflight.skip(n).len() == waiting@.len());
            assert(inflight_views(waiting@)[0] == waiting@[0]@);
            assert(start.inflight.skip(n)[0] == c);
            proof {
                lemma_resend_step(start.inflight, n, now, start.batch.queued());
            }
            let ghost rest = inflight_views(waiting@);
            let f = waiting.pop_front().unwrap();
            assert(f@ == c);
            assert(inflight_views(waiting@) =~= rest.skip(1));
            assert(start.inflight.skip(n).skip(1) =~= start.inflight.skip(n + 1));
            let frame = Frame::Msg { seq: f.seq, fin: f.fin, data: bytes_to_vec(&f.data) };
            assert(frame@ == msg_frame(c));
            self.packer.push_or_flush(self.cid, &mut self.outbox, frame);
            self.inflight.push_back(Inflight { sent_at: now, ..f });
            assert(self@.inflight =~= stamped(start.inflight.take(n), now).push(
                InflightView { sent_at: now, ..c },
            ));
            proof {
                n = n + 1;
            }
        }
        proof {
            assert(start.inflight.skip(n).len() == waiting@.len());
            assert(start.inflight.take(n) =~= start.inflight);
            lemma_total_len_same_data(self@.inflight, start.inflight);
        }
        self.rto = if self.rto + self.rto <= RTO_MAX {
            self.rto + self.rto
        } else {
            RTO_MAX
        };
        self.fast_retransmit = false;
    }

    /// Takes the message out of the reassembly buffer, which is empty afterwards.
    pub fn take_message(&mut self) -> (msg: Bytes)
        requires
            old(self)@.sound(),
        ensures
            contents(msg) == old(self)@.assembling,
            final(self)@ == (InnerView { assembling: Seq::empty(), ..old(self)@ }),
            final(self)@.sound(),
    {
        let mut msg: Vec<u8> = Vec::new();
        std::mem::swap(&mut msg, &mut self.assembling);
        bytes_from_vec(msg)
    }
}

/// A chunk at the end of the window is a frame at the end of the frames of its tail.
proof fn lemma_tail_frames(
    before: Seq<InflightView>,
    c: InflightView,
    k: int,
    queued: Seq<FrameView>,
)
    requires
        0 <= k <= before.len(),
    ensures
        queued + msg_frames(before.push(c).skip(k)) == (queued + msg_frames(before.skip(k))).push(
            msg_frame(c),
        ),
{
    assert(before.push(c).skip(k) =~= before.skip(k).push(c));
    assert(queued + msg_frames(before.push(c).skip(k)) =~= (queued + msg_frames(
        before.skip(k),
    )).push(msg_frame(c)));
}

/// Where the window has room, the first chunk enters it and the rest of the message follows.
proof fn lemma_enqueue_step<A>(v: InnerView<A>, data: Seq<u8>, now: u64)
    ensures
        data.len() <= MAX_RELIABLE_CHUNK && v.window_takes(data.len()) ==> v.enqueue(data, now) == (
            v.launch(data, true, now),
            None::<Seq<u8>>,
        ),
        data.len() > MAX_RELIABLE_CHUNK && v.window_takes(MAX_RELIABLE_CHUNK as nat) ==> v.enqueue(
            data,
            now,
        ) == v.launch(data.take(MAX_RELIABLE_CHUNK as int), false, now).enqueue(
            data.skip(MAX_RELIABLE_CHUNK as int),
            now,
        ),
        data.len() <= MAX_RELIABLE_CHUNK && !v.window_takes(data.len()) ==> v.enqueue(data, now)
            == (v, Some(data)),
        data.len() > MAX_RELIABLE_CHUNK && !v.window_takes(MAX_RELIABLE_CHUNK as nat)
            ==> v.enqueue(data, now) == (v, Some(data)),
{
}

/// Cuts a message into chunks that enter the send window and are queued as frames. Gives back
/// what the window has no room for.
///
/// An empty message is sent as one empty chunk.
pub fn enqueue_reliable<A: Copy>(inner: &mut ConnInner<A>, data: Bytes, now: u64) -> (rest: Option<
    Bytes,
>)
    requires
        old(inner)@.sound(),
        old(inner)@.seq_room(),
    ensures
        (final(inner)@, opt_contents(rest)) == old(inner)@.enqueue(contents(data), now),
        final(inner)@.sound(),
        final(inner)@.seq_room(),
        old(inner)@.inflight.is_prefix_of(final(inner)@.inflight),
        final(inner)@.batch.queued() == old(inner)@.batch.queued() + msg_frames(
            final(inner)@.inflight.skip(old(inner)@.inflight.len() as int),
        ),
{
    let n: usize = bytes_len(&data);
    let mut off: usize = 0;
    let ghost start = inner@;
    let ghost all = contents(data);
    proof {
        assert(all.skip(0) =~= all);
        assert(start.inflight.skip(start.inflight.len() as int) =~= Seq::empty());
        assert(msg_frames(Seq::<InflightView>::empty()) =~= Seq::empty());
        assert(start.batch.queued() + Seq::<FrameView>::empty() =~= start.batch.queued());
    }
    loop
        invariant
            start == old(inner)@,
            n == all.len(),
            all == contents(data),
            off <= n,
            inner@.sound(),
            inner@.seq_room(),
            inner@.enqueue(all.skip(off as int), now) == start.enqueue(all, now),
            start.inflight.is_prefix_of(inner@.inflight),
            inner@.batch.queued() == start.batch.queued() + msg_frames(
                inner@.inflight.skip(start.inflight.len() as int),
            ),
        decreases n - off,
    {
        let take: usize = if n - off > MAX_RELIABLE_CHUNK {
            MAX_RELIABLE_CHUNK
        } else {
            n - off
        };
        let end: usize = off + take;
        let window_left: usize = MAX_INFLIGHT_BYTES - inner.inflight_bytes;
        if inner.inflight.len() >= MAX_INFLIGHT_MSGS || take > window_left {
            let rest = bytes_slice(&data, off, n);
            assert(contents(rest) =~= all.skip(off as int));
            proof {
                lemma_enqueue_step(inner@, all.skip(off as int), now);
            }
            return Some(rest);
        }
        let chunk = bytes_slice(&data, off, end);
        let ghost before = inner@;
        let ghost piece = contents(chunk);
        let fin = end == n;
        launch_chunk(inner, chunk, fin, now);
        proof {
            let k = start.inflight.len() as int;
            let c = inner@.inflight.last();
            let rem = all.skip(off as int);
            if fin {
                assert(piece =~= rem);
            } else {
                assert(piece =~= rem.take(MAX_RELIABLE_CHUNK as int));
                assert(rem.skip(MAX_RELIABLE_CHUNK as int) =~= all.skip(end as int));
            }
            assert(inner@.inflight == before.inflight.push(c));
            lemma_tail_frames(before.inflight, c, k, start.batch.queued());
            lemma_enqueue_step(before, rem, now);
        }
        if fin {
            return None;
        }
        off = end;
    }
}

/// Puts one chunk into the send window and queues its frame.
fn launch_chunk<A: Copy>(inner: &mut ConnInner<A>, chunk: Bytes, fin: bool, now: u64)
    requires
        old(inner)@.sound(),
        old(inner)@.seq_room(),
        contents(chunk).len() <= MAX_RELIABLE_CHUNK,
        old(inner)@.window_takes(contents(chunk).len()),
    ensures
        final(inner)@ == old(inner)@.launch(contents(chunk), fin, now),
        final(inner)@.sound(),
        final(inner)@.seq_room(),
        final(inner)@.batch.queued() == old(inner)@.batch.queued().push(
            msg_frame(final(inner)@.inflight.last()),
        ),
{
    let ghost before = inner@;
    let seq: u64 = inner.send_next;
    let frame = Frame::Msg { seq, fin, data: bytes_to_vec(&chunk) };
    inner.inflight_bytes = inner.inflight_bytes + bytes_len(&chunk);
    let ghost piece = contents(chunk);
    inner.inflight.push_back(Inflight { seq, fin, data: chunk, sent_at: now });
    inner.packer.push_or_flush(inner.cid, &mut inner.outbox, frame);
    inner.send_next = seq + 1;
    inner.last_sent = now;
    proof {
        let c = InflightView { seq, fin, data: piece, sent_at: now };
        assert(inner@.inflight =~= before.inflight.push(c));
        assert(inner@.inflight.drop_last() =~= before.inflight);
        assert(inner@ == before.launch(piece, fin, now));
    }
}

} // verus!
