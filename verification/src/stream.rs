//! What the reliable channel is for: messages arrive as they were sent, in order.
//!
//! Messages become a stream of pieces, the pieces travel as numbered chunks, and the receiver
//! puts messages together again. The laws here follow a message from the command that sends
//! it to its delivery, over a network that may lose, repeat and reorder what it carries.

use vstd::prelude::*;

use crate::command::CmdView;
use crate::conn::{fresh_conn, lemma_acks_heard, ConnView};
use crate::frame::{FrameView, MAX_RELIABLE_CHUNK};
use crate::inner::{
    lemma_acknowledge_window, lemma_total_len_same_data, msg_frame, msg_frames, total_len,
    InflightView, InnerView, MAX_INFLIGHT_BYTES, MAX_INFLIGHT_MSGS, SEND_QUEUE_CAP,
};
use crate::send::lemma_served_keeps;

verus! {

/// A piece of a message: whether it is the last one, and its bytes.
pub type Piece = (bool, Seq<u8>);

/// The pieces of a message: full chunks, and one last piece that may be shorter, or empty.
pub open spec fn fragments(message: Seq<u8>) -> Seq<Piece>
    decreases message.len(),
{
    if message.len() <= MAX_RELIABLE_CHUNK {
        seq![(true, message)]
    } else {
        seq![(false, message.take(MAX_RELIABLE_CHUNK as int))] + fragments(
            message.skip(MAX_RELIABLE_CHUNK as int),
        )
    }
}

/// The pieces of messages, one message after the other.
pub open spec fn all_fragments(messages: Seq<Seq<u8>>) -> Seq<Piece>
    decreases messages.len(),
{
    if messages.len() == 0 {
        Seq::empty()
    } else {
        all_fragments(messages.drop_last()) + fragments(messages.last())
    }
}

/// The bytes behind the last complete message of a stream of pieces.
pub open spec fn partial(pieces: Seq<Piece>) -> Seq<u8>
    decreases pieces.len(),
{
    if pieces.len() == 0 || pieces.last().0 {
        Seq::empty()
    } else {
        partial(pieces.drop_last()) + pieces.last().1
    }
}

/// The complete messages of a stream of pieces.
pub open spec fn whole(pieces: Seq<Piece>) -> Seq<Seq<u8>>
    decreases pieces.len(),
{
    if pieces.len() == 0 {
        Seq::empty()
    } else if pieces.last().0 {
        whole(pieces.drop_last()).push(partial(pieces.drop_last()) + pieces.last().1)
    } else {
        whole(pieces.drop_last())
    }
}

/// Pieces of a message behind a stream that ends with a complete message.
proof fn lemma_fragments_whole(s: Seq<Piece>, message: Seq<u8>)
    ensures
        whole(s + fragments(message)) == whole(s).push(partial(s) + message),
        partial(s + fragments(message)) == Seq::<u8>::empty(),
        fragments(message).len() > 0,
        fragments(message).last().0,
    decreases message.len(),
{
    let f = fragments(message);
    if message.len() <= MAX_RELIABLE_CHUNK {
        assert((s + f).drop_last() =~= s);
        assert((s + f).last() == (true, message));
    } else {
        let head = message.take(MAX_RELIABLE_CHUNK as int);
        let tail = message.skip(MAX_RELIABLE_CHUNK as int);
        let t = s.push((false, head));
        lemma_fragments_whole(t, tail);
        assert(t.drop_last() =~= s);
        assert(s + f =~= t + fragments(tail));
        assert(partial(s) + head + tail =~= partial(s) + message);
        assert(f.last() == fragments(tail).last());
    }
}

/// Cutting messages into pieces and putting the pieces together gives the messages back, and
/// nothing is left over.
pub proof fn law_reassembly(messages: Seq<Seq<u8>>)
    ensures
        whole(all_fragments(messages)) == messages,
        partial(all_fragments(messages)) == Seq::<u8>::empty(),
    decreases messages.len(),
{
    if messages.len() > 0 {
        law_reassembly(messages.drop_last());
        lemma_fragments_whole(all_fragments(messages.drop_last()), messages.last());
        assert(Seq::<u8>::empty() + messages.last() =~= messages.last());
        assert(messages.drop_last().push(messages.last()) =~= messages);
    }
}

/// Every piece has at most as many bytes as a chunk may have, and only the last piece of a
/// message is marked as such. There is always one, also for an empty message.
pub proof fn law_fragments(message: Seq<u8>)
    ensures
        fragments(message).len() > 0,
        fragments(message).last().0,
        forall|i: int|
            0 <= i < fragments(message).len() ==> {
                &&& (#[trigger] fragments(message)[i]).1.len() <= MAX_RELIABLE_CHUNK
                &&& i < fragments(message).len() - 1 ==> !fragments(message)[i].0
                &&& i < fragments(message).len() - 1 ==> fragments(message)[i].1.len()
                    == MAX_RELIABLE_CHUNK
            },
    decreases message.len(),
{
    if message.len() > MAX_RELIABLE_CHUNK {
        law_fragments(message.skip(MAX_RELIABLE_CHUNK as int));
        let f = fragments(message);
        let g = fragments(message.skip(MAX_RELIABLE_CHUNK as int));
        assert forall|i: int| 0 <= i < f.len() implies {
            &&& (#[trigger] f[i]).1.len() <= MAX_RELIABLE_CHUNK
            &&& i < f.len() - 1 ==> !f[i].0
            &&& i < f.len() - 1 ==> f[i].1.len() == MAX_RELIABLE_CHUNK
        } by {
            if i > 0 {
                assert(f[i] == g[i - 1]);
            }
        }
    }
}

/// The complete messages at the start of a stream are the first ones of the stream.
proof fn lemma_whole_prefix(s: Seq<Piece>, n: int)
    requires
        0 <= n <= s.len(),
    ensures
        whole(s.take(n)).is_prefix_of(whole(s)),
    decreases s.len(),
{
    if n == s.len() {
        assert(s.take(n) =~= s);
    } else {
        lemma_whole_prefix(s.drop_last(), n);
        assert(s.drop_last().take(n) =~= s.take(n));
    }
}

/// More messages, more pieces: those of the first messages stay where they are.
proof fn lemma_fragments_append(a: Seq<Seq<u8>>, b: Seq<Seq<u8>>)
    ensures
        all_fragments(a + b) == all_fragments(a) + all_fragments(b),
    decreases b.len(),
{
    if b.len() == 0 {
        assert(a + b =~= a);
        assert(all_fragments(a) + Seq::<Piece>::empty() =~= all_fragments(a));
    } else {
        lemma_fragments_append(a, b.drop_last());
        assert((a + b).drop_last() =~= a + b.drop_last());
        assert(all_fragments(a) + (all_fragments(b.drop_last()) + fragments(b.last()))
            =~= all_fragments(a) + all_fragments(b.drop_last()) + fragments(b.last()));
    }
}

/// The pieces that chunks carry.
pub open spec fn pieces(chunks: Seq<InflightView>) -> Seq<Piece> {
    chunks.map_values(|c: InflightView| (c.fin, c.data))
}

/// The pieces of what the window cut short.
pub open spec fn unsent(pending: Option<Seq<u8>>) -> Seq<Piece> {
    match pending {
        Some(data) => fragments(data),
        None => Seq::empty(),
    }
}

/// The reliable messages among commands.
pub open spec fn reliable(cmds: Seq<CmdView>) -> Seq<Seq<u8>>
    decreases cmds.len(),
{
    if cmds.len() == 0 {
        Seq::empty()
    } else {
        match cmds.last() {
            CmdView::Reliable(data) => reliable(cmds.drop_last()).push(data),
            CmdView::Datagram(_) => reliable(cmds.drop_last()),
        }
    }
}

impl<A> InnerView<A> {
    /// The number below which all chunks are acknowledged.
    pub open spec fn acked_below(self) -> int {
        self.send_next - self.inflight.len()
    }

    /// The chunk with number `i` is piece `i` of this stream: of those in flight, each carries
    /// the piece with its number; those below are acknowledged; and the rest of the stream
    /// is `rest`.
    pub open spec fn sends(self, stream: Seq<Piece>, rest: Seq<Piece>) -> bool {
        &&& self.window_sound()
        &&& self.send_next <= stream.len()
        &&& pieces(self.inflight) == stream.subrange(self.acked_below(), self.send_next as int)
        &&& stream.skip(self.send_next as int) == rest
    }
}

impl<A> ConnView<A> {
    /// The connection sends this stream: what was sent of it, then what the window cut short,
    /// then the messages that are queued.
    pub open spec fn streams(self, stream: Seq<Piece>) -> bool {
        self.inner.sends(
            stream,
            unsent(self.inner.pending) + all_fragments(reliable(self.commands)),
        )
    }
}

/// A chunk takes up the next piece of the stream.
proof fn lemma_launch_sends<A>(
    v: InnerView<A>,
    data: Seq<u8>,
    fin: bool,
    now: u64,
    stream: Seq<Piece>,
    rest: Seq<Piece>,
)
    requires
        v.sends(stream, seq![(fin, data)] + rest),
        v.seq_room(),
        data.len() <= MAX_RELIABLE_CHUNK,
        v.window_takes(data.len()),
    ensures
        v.launch(data, fin, now).sends(stream, rest),
        v.launch(data, fin, now).seq_room(),
        v.launch(data, fin, now).acked_below() == v.acked_below(),
{
    let w = v.launch(data, fin, now);
    let n = v.send_next as int;
    assert((seq![(fin, data)] + rest).len() == 1 + rest.len());
    assert(stream.skip(n).len() == 1 + rest.len());
    assert(stream.skip(n)[0] == (fin, data));
    assert(stream[n] == (fin, data));
    assert(w.inflight.drop_last() =~= v.inflight);
    assert(stream.skip(n + 1) =~= stream.skip(n).skip(1));
    assert((seq![(fin, data)] + rest).skip(1) =~= rest);
    assert forall|i: int| 0 <= i < w.inflight.len() implies pieces(w.inflight)[i]
        == #[trigger] stream.subrange(
        w.send_next - w.inflight.len(),
        w.send_next as int,
    )[i] by {
        if i < v.inflight.len() {
            assert(pieces(v.inflight)[i] == stream.subrange(
                v.send_next - v.inflight.len(),
                v.send_next as int,
            )[i]);
        }
    }
    assert(pieces(w.inflight) =~= stream.subrange(
        w.send_next - w.inflight.len(),
        w.send_next as int,
    ));
}

/// The pieces of a message enter the window in order, as far as it has room, and what comes
/// back is the rest.
proof fn lemma_enqueue_sends<A>(
    v: InnerView<A>,
    message: Seq<u8>,
    now: u64,
    stream: Seq<Piece>,
    tail: Seq<Piece>,
)
    requires
        v.sends(stream, fragments(message) + tail),
        v.seq_room(),
    ensures
        ({
            let (w, rest) = v.enqueue(message, now);
            &&& w.sends(stream, unsent(rest) + tail)
            &&& w.seq_room()
            &&& w.acked_below() == v.acked_below()
            &&& v.inflight.len() <= w.inflight.len()
        }),
    decreases message.len(),
{
    if message.len() <= MAX_RELIABLE_CHUNK {
        if v.window_takes(message.len()) {
            assert(fragments(message) + tail =~= seq![(true, message)] + tail);
            lemma_launch_sends(v, message, true, now, stream, tail);
            assert(Seq::<Piece>::empty() + tail =~= tail);
        }
    } else if v.window_takes(MAX_RELIABLE_CHUNK as nat) {
        let head = message.take(MAX_RELIABLE_CHUNK as int);
        let rest = message.skip(MAX_RELIABLE_CHUNK as int);
        assert(fragments(message) + tail =~= seq![(false, head)] + (fragments(rest) + tail));
        lemma_launch_sends(v, head, false, now, stream, fragments(rest) + tail);
        lemma_enqueue_sends(v.launch(head, false, now), rest, now, stream, tail);
    }
}

/// What is in flight and what comes behind it make up a stream.
proof fn lemma_window_sends<A>(v: InnerView<A>, rest: Seq<Piece>) -> (stream: Seq<Piece>)
    requires
        v.window_sound(),
    ensures
        v.sends(stream, rest),
        stream.skip(v.acked_below()) == pieces(v.inflight) + rest,
{
    let blank: Seq<Piece> = Seq::new(v.acked_below() as nat, |i: int| (true, Seq::<u8>::empty()));
    let stream = blank + pieces(v.inflight) + rest;
    assert(stream.subrange(v.acked_below(), v.send_next as int) =~= pieces(v.inflight));
    assert(stream.skip(v.send_next as int) =~= rest);
    assert(stream.skip(v.acked_below()) =~= pieces(v.inflight) + rest);
    stream
}

/// The chunks that a message has put into the window, with the pieces of what came back, are
/// the pieces of the message, behind the chunks that were there.
pub proof fn law_enqueue_cuts<A>(v: InnerView<A>, message: Seq<u8>, now: u64)
    requires
        v.window_sound(),
        v.seq_room(),
    ensures
        ({
            let (w, rest) = v.enqueue(message, now);
            &&& w.window_sound()
            &&& w.acked_below() == v.acked_below()
            &&& v.inflight.len() <= w.inflight.len()
            &&& pieces(w.inflight) + unsent(rest) == pieces(v.inflight) + fragments(message)
        }),
{
    let stream = lemma_window_sends(v, fragments(message));
    assert(fragments(message) + Seq::<Piece>::empty() =~= fragments(message));
    lemma_enqueue_sends(v, message, now, stream, Seq::empty());
    let (w, rest) = v.enqueue(message, now);
    assert(unsent(rest) + Seq::<Piece>::empty() =~= unsent(rest));
    let m = v.acked_below();
    assert(stream.skip(m) =~= stream.subrange(m, w.send_next as int) + stream.skip(
        w.send_next as int,
    ));
}

/// A message that the window cut short and that goes on later is cut as one that finds room at
/// once: its chunks are the same, and have the numbers in a row.
pub proof fn law_cut_short<A>(
    v: InnerView<A>,
    later: InnerView<A>,
    roomy: InnerView<A>,
    message: Seq<u8>,
    now: u64,
    resumed_at: u64,
)
    requires
        v.window_sound(),
        v.seq_room(),
        roomy.window_sound(),
        roomy.seq_room(),
        roomy.enqueue(message, now).1 is None,
        v.enqueue(message, now).1 is Some,
        later.window_sound(),
        later.seq_room(),
        later.send_next == v.enqueue(message, now).0.send_next,
        later.enqueue(v.enqueue(message, now).1->0, resumed_at).1 is None,
    ensures
        ({
            let first = v.enqueue(message, now).0;
            let last = later.enqueue(v.enqueue(message, now).1->0, resumed_at).0;
            let whole = roomy.enqueue(message, now).0;
            let a = first.inflight.skip(v.inflight.len() as int);
            let b = last.inflight.skip(later.inflight.len() as int);
            let c = whole.inflight.skip(roomy.inflight.len() as int);
            &&& pieces(a) + pieces(b) == pieces(c)
            &&& pieces(c) == fragments(message)
            &&& forall|i: int| 0 <= i < a.len() ==> (#[trigger] a[i]).seq == v.send_next + i
            &&& forall|i: int|
                0 <= i < b.len() ==> (#[trigger] b[i]).seq == v.send_next + a.len() + i
        }),
{
    let (first, rest) = v.enqueue(message, now);
    law_enqueue_cuts(v, message, now);
    law_enqueue_cuts(later, rest->0, resumed_at);
    law_enqueue_cuts(roomy, message, now);
    let last = later.enqueue(rest->0, resumed_at).0;
    let whole = roomy.enqueue(message, now).0;
    lemma_tail_pieces(v.inflight, first.inflight, fragments(message), fragments(rest->0));
    lemma_tail_pieces(later.inflight, last.inflight, fragments(rest->0), Seq::empty());
    lemma_tail_pieces(roomy.inflight, whole.inflight, fragments(message), Seq::empty());
    let a = first.inflight.skip(v.inflight.len() as int);
    let b = last.inflight.skip(later.inflight.len() as int);
    assert forall|i: int| 0 <= i < a.len() implies (#[trigger] a[i]).seq == v.send_next + i by {
        assert(a[i] == first.inflight[i + v.inflight.len()]);
    }
    assert forall|i: int| 0 <= i < b.len() implies (#[trigger] b[i]).seq == v.send_next + a.len()
        + i by {
        assert(b[i] == last.inflight[i + later.inflight.len()]);
    }
}

/// What a window gains, and what is left over, are what was added.
proof fn lemma_tail_pieces(
    before: Seq<InflightView>,
    after: Seq<InflightView>,
    added: Seq<Piece>,
    left: Seq<Piece>,
)
    requires
        pieces(after) + left == pieces(before) + added,
        before.len() <= after.len(),
    ensures
        pieces(after.skip(before.len() as int)) + left == added,
        left.len() == 0 ==> pieces(after.skip(before.len() as int)) == added,
{
    let n = before.len() as int;
    let all = pieces(after) + left;
    assert(all.skip(n) =~= pieces(after.skip(n)) + left);
    assert((pieces(before) + added).skip(n) =~= added);
    if left.len() == 0 {
        assert(pieces(after.skip(n)) + left =~= pieces(after.skip(n)));
    }
}

/// A chunk carries the piece of the stream that has its number. Frames that carry no chunk
/// have no part in this.
pub open spec fn genuine(frame: FrameView, stream: Seq<Piece>) -> bool {
    match frame {
        FrameView::Msg { seq, fin, data } => seq < stream.len() && stream[seq as int] == (
            fin,
            data,
        ),
        _ => true,
    }
}

/// All these frames are genuine.
pub open spec fn all_genuine(frames: Seq<FrameView>, stream: Seq<Piece>) -> bool {
    forall|i: int| 0 <= i < frames.len() ==> genuine(#[trigger] frames[i], stream)
}

/// The chunks in flight are genuine, and were sent.
proof fn lemma_window_genuine<A>(v: InnerView<A>, stream: Seq<Piece>, rest: Seq<Piece>, n: int)
    requires
        v.sends(stream, rest),
        0 <= n <= v.inflight.len(),
    ensures
        all_genuine(msg_frames(v.inflight.skip(n)), stream.take(v.send_next as int)),
        all_genuine(msg_frames(v.inflight), stream.take(v.send_next as int)),
{
    let sent = stream.take(v.send_next as int);
    assert forall|i: int| 0 <= i < v.inflight.len() implies genuine(
        msg_frame(#[trigger] v.inflight[i]),
        sent,
    ) by {
        assert(pieces(v.inflight)[i] == stream.subrange(v.acked_below(), v.send_next as int)[i]);
    }
    assert forall|i: int| 0 <= i < v.inflight.len() - n implies genuine(
        #[trigger] msg_frames(v.inflight.skip(n))[i],
        sent,
    ) by {
        assert(v.inflight.skip(n)[i] == v.inflight[i + n]);
    }
}

/// A stream may grow at its end.
proof fn lemma_sends_more<A>(
    v: InnerView<A>,
    stream: Seq<Piece>,
    rest: Seq<Piece>,
    more: Seq<Piece>,
)
    requires
        v.sends(stream, rest),
    ensures
        v.sends(stream + more, rest + more),
{
    let n = v.send_next as int;
    let m = v.acked_below();
    assert((stream + more).subrange(m, n) =~= stream.subrange(m, n));
    assert((stream + more).skip(n) =~= stream.skip(n) + more);
}

/// What is genuine stays so where the stream grows, and more of it is sent.
proof fn lemma_genuine_more(
    frames: Seq<FrameView>,
    stream: Seq<Piece>,
    more: Seq<Piece>,
    n: int,
    m: int,
)
    requires
        0 <= n <= stream.len(),
        n <= m <= stream.len() + more.len(),
        all_genuine(frames, stream.take(n)),
    ensures
        all_genuine(frames, (stream + more).take(m)),
{
    assert forall|i: int| 0 <= i < frames.len() implies genuine(
        #[trigger] frames[i],
        (stream + more).take(m),
    ) by {
        assert(genuine(frames[i], stream.take(n)));
    }
}

/// A message that the window cut short goes on where it stopped.
proof fn lemma_resume_sends<A>(
    v: InnerView<A>,
    now: u64,
    stream: Seq<Piece>,
    tail: Seq<Piece>,
)
    requires
        v.sends(stream, unsent(v.pending) + tail),
        v.seq_room(),
    ensures
        ({
            let w = v.resume(now);
            &&& w.sends(stream, unsent(w.pending) + tail)
            &&& w.seq_room()
            &&& w.acked_below() == v.acked_below()
            &&& v.send_next <= w.send_next
            &&& all_genuine(v.launched(w), stream.take(w.send_next as int))
        }),
{
    let w = v.resume(now);
    if let Some(data) = v.pending {
        lemma_enqueue_sends(v, data, now, stream, tail);
    }
    lemma_window_genuine(w, stream, unsent(w.pending) + tail, v.inflight.len() as int);
}

/// The messages of a command more.
proof fn lemma_reliable_step(cmds: Seq<CmdView>)
    requires
        cmds.len() > 0,
    ensures
        reliable(cmds) == reliable(cmds.drop_last()) + reliable(seq![cmds.last()]),
        all_fragments(reliable(cmds)) == all_fragments(reliable(cmds.drop_last()))
            + all_fragments(reliable(seq![cmds.last()])),
{
    reveal_with_fuel(reliable, 2);
    assert(seq![cmds.last()].drop_last() =~= Seq::<CmdView>::empty());
    assert(reliable(cmds) =~= reliable(cmds.drop_last()) + reliable(seq![cmds.last()]));
    lemma_fragments_append(reliable(cmds.drop_last()), reliable(seq![cmds.last()]));
}

/// Commands are carried out, or stay queued, in the order of the stream.
proof fn lemma_drain_sends<A>(
    v: InnerView<A>,
    cmds: Seq<CmdView>,
    now: u64,
    stream: Seq<Piece>,
    tail: Seq<Piece>,
)
    requires
        v.sends(stream, unsent(v.pending) + (all_fragments(reliable(cmds)) + tail)),
        v.seq_room(),
    ensures
        ({
            let (w, kept) = v.drain(cmds, now);
            &&& w.sends(stream, unsent(w.pending) + (all_fragments(reliable(kept)) + tail))
            &&& w.seq_room()
            &&& w.acked_below() == v.acked_below()
            &&& v.send_next <= w.send_next
            &&& w.pending is None ==> kept.len() == 0
            &&& all_genuine(v.drain_frames(cmds, now), stream.take(w.send_next as int))
        }),
    decreases cmds.len(),
{
    if cmds.len() > 0 {
        let first = cmds.drop_last();
        let one = all_fragments(reliable(seq![cmds.last()]));
        let (before, kept) = v.drain(first, now);
        let (w, left) = v.drain(cmds, now);
        lemma_reliable_step(cmds);
        assert(all_fragments(reliable(cmds)) + tail =~= all_fragments(reliable(first)) + (one
            + tail));
        lemma_drain_sends(v, first, now, stream, one + tail);
        lemma_one_command(cmds.last());
        if before.heeds(cmds.last(), v.pending is Some) {
            match cmds.last() {
                CmdView::Datagram(_) => {
                    assert(one + tail =~= tail);
                },
                CmdView::Reliable(data) => {
                    assert(reliable(kept) =~= Seq::empty());
                    assert(Seq::<Piece>::empty() + (Seq::<Piece>::empty() + (fragments(data)
                        + tail)) =~= fragments(data) + tail);
                    lemma_enqueue_sends(before, data, now, stream, tail);
                    assert(Seq::<Piece>::empty() + tail =~= tail);
                    lemma_window_genuine(
                        w,
                        stream,
                        unsent(w.pending) + tail,
                        before.inflight.len() as int,
                    );
                },
            }
        } else {
            assert(left.drop_last() =~= kept);
            lemma_reliable_step(left);
            assert(all_fragments(reliable(left)) + tail =~= all_fragments(reliable(kept)) + (one
                + tail));
        }
        lemma_genuine_more(
            v.drain_frames(first, now),
            stream,
            Seq::empty(),
            before.send_next as int,
            w.send_next as int,
        );
        assert(stream + Seq::<Piece>::empty() =~= stream);
    }
}

/// The pieces of one command.
proof fn lemma_one_command(cmd: CmdView)
    ensures
        match cmd {
            CmdView::Reliable(data) => reliable(seq![cmd]) == seq![data] && all_fragments(
                reliable(seq![cmd]),
            ) == fragments(data),
            CmdView::Datagram(_) => reliable(seq![cmd]) == Seq::<Seq<u8>>::empty()
                && all_fragments(reliable(seq![cmd])) == Seq::<Piece>::empty(),
        },
{
    reveal_with_fuel(reliable, 2);
    reveal_with_fuel(all_fragments, 2);
    assert(seq![cmd].drop_last() =~= Seq::<CmdView>::empty());
    if let CmdView::Reliable(data) = cmd {
        assert(reliable(seq![cmd]) =~= seq![data]);
        assert(seq![data].drop_last() =~= Seq::<Seq<u8>>::empty());
        assert(all_fragments(seq![data]) =~= fragments(data));
    }
}

/// Sending again changes nothing about the stream.
proof fn lemma_resend_sends<A>(
    v: InnerView<A>,
    now: u64,
    stream: Seq<Piece>,
    rest: Seq<Piece>,
)
    requires
        v.sends(stream, rest),
    ensures
        v.resend(now).sends(stream, rest),
        v.resend(now).send_next == v.send_next,
        v.resend(now).acked_below() == v.acked_below(),
        all_genuine(msg_frames(v.inflight), stream.take(v.send_next as int)),
{
    let w = v.resend(now);
    lemma_total_len_same_data(w.inflight, v.inflight);
    assert(pieces(w.inflight) =~= pieces(v.inflight));
    lemma_window_genuine(v, stream, rest, 0);
}

/// A turn takes the stream forward: the message that was cut short goes first, then the
/// messages of the queue in their order; and every chunk that goes out, for the first time or
/// again, carries the piece of the stream that has its number. Nothing counts as acknowledged
/// that did not before.
pub proof fn law_turn_streams<A>(
    v: InnerView<A>,
    cmds: Seq<CmdView>,
    now: u64,
    stream: Seq<Piece>,
)
    requires
        v.sends(stream, unsent(v.pending) + all_fragments(reliable(cmds))),
        v.seq_room(),
    ensures
        ({
            let kept = v.drained(cmds, now).1;
            let w = v.served(cmds, now);
            &&& w.sends(stream, unsent(w.pending) + all_fragments(reliable(kept)))
            &&& w.acked_below() == v.acked_below()
            &&& v.send_next <= w.send_next
            &&& all_genuine(v.served_frames(cmds, now), stream.take(w.send_next as int))
        }),
{
    let none = Seq::<Piece>::empty();
    let resumed = v.resume(now);
    let (drained, kept) = v.drained(cmds, now);
    let queued = all_fragments(reliable(cmds));
    lemma_resume_sends(v, now, stream, queued);
    assert(queued + none =~= queued);
    lemma_drain_sends(resumed, cmds, now, stream, none);
    assert(all_fragments(reliable(kept)) + none =~= all_fragments(reliable(kept)));
    assert(stream + none =~= stream);
    lemma_genuine_more(
        v.launched(resumed),
        stream,
        none,
        resumed.send_next as int,
        drained.send_next as int,
    );
    lemma_resend_sends(
        drained,
        now,
        stream,
        unsent(drained.pending) + all_fragments(reliable(kept)),
    );
}

impl<A> ConnView<A> {
    /// The connection has taken in the pieces of this stream below the next number, and holds
    /// what they leave incomplete.
    pub open spec fn receives(self, stream: Seq<Piece>) -> bool {
        &&& self.inner.recv_next <= stream.len()
        &&& self.inner.assembling == partial(stream.take(self.inner.recv_next as int))
    }
}

/// One frame: the next piece of the stream is taken in, and completes a message where it is
/// the last of one. `got` are the messages that the user has picked up.
proof fn lemma_step_receives<A>(
    v: ConnView<A>,
    frame: FrameView,
    stream: Seq<Piece>,
    got: Seq<Seq<u8>>,
)
    requires
        !v.closed,
        v.receives(stream),
        genuine(frame, stream),
        v.inner.recv_next < u64::MAX,
        got + v.inbox == whole(stream.take(v.inner.recv_next as int)),
    ensures
        ({
            let w = v.step(frame);
            &&& v.inner.recv_next <= w.inner.recv_next <= v.inner.recv_next + 1
            &&& w.inner.recv_next <= stream.len()
            &&& (got + w.inbox).is_prefix_of(whole(stream))
            &&& !w.closed ==> {
                &&& w.receives(stream)
                &&& got + w.inbox == whole(stream.take(w.inner.recv_next as int))
            }
        }),
{
    let n = v.inner.recv_next as int;
    lemma_whole_prefix(stream, n);
    if let FrameView::Msg { seq, fin, data } = frame {
        if seq == v.inner.recv_next {
            let longer = stream.take(n + 1);
            assert(longer.drop_last() =~= stream.take(n));
            assert(longer.last() == (fin, data));
            lemma_whole_prefix(stream, n + 1);
            let grown = v.inner.assembling + data;
            assert(got + v.inbox.push(grown) =~= (got + v.inbox).push(grown));
        }
    }
}

/// Frames: the messages that they complete are the next ones of the stream.
proof fn lemma_steps_receive<A>(
    v: ConnView<A>,
    frames: Seq<FrameView>,
    stream: Seq<Piece>,
    got: Seq<Seq<u8>>,
)
    requires
        !v.closed,
        v.receives(stream),
        all_genuine(frames, stream),
        v.inner.recv_next + frames.len() <= u64::MAX,
        got + v.inbox == whole(stream.take(v.inner.recv_next as int)),
    ensures
        ({
            let w = v.steps(frames);
            &&& v.inner.recv_next <= w.inner.recv_next <= v.inner.recv_next + frames.len()
            &&& w.inner.recv_next <= stream.len()
            &&& (got + w.inbox).is_prefix_of(whole(stream))
            &&& !w.closed ==> {
                &&& w.receives(stream)
                &&& got + w.inbox == whole(stream.take(w.inner.recv_next as int))
            }
        }),
    decreases frames.len(),
{
    if frames.len() == 0 {
        lemma_whole_prefix(stream, v.inner.recv_next as int);
    } else {
        let first = frames.drop_last();
        assert forall|i: int| 0 <= i < first.len() implies genuine(
            #[trigger] first[i],
            stream,
        ) by {
            assert(first[i] == frames[i]);
        }
        lemma_steps_receive(v, first, stream, got);
        let before = v.steps(first);
        if !before.closed {
            assert(frames.last() == frames[frames.len() - 1]);
            lemma_step_receives(before, frames.last(), stream, got);
        }
    }
}

/// What can happen to a connection. Each event is what the function of `ConnShared` that it
/// names does, no more and no less.
pub enum Event {
    /// A datagram with these frames arrives (`handle_frames`).
    Arrive { frames: Seq<FrameView>, now: u64 },
    /// It gets its turn (`send_round`).
    Turn { now: u64 },
    /// Its user asks for something (`send_reliable`, `send_datagram`).
    Send { cmd: CmdView },
    /// Its user picks up a message (`recv_reliable`).
    PickUp,
    /// Its user picks up a datagram (`recv_datagram`).
    PickUpDatagram,
    /// Its handshake is done (`establish`).
    Establish,
    /// Its user closes it (`close`).
    Close,
}

impl<A> ConnView<A> {
    /// The connection after an event.
    pub open spec fn event(self, e: Event) -> ConnView<A> {
        match e {
            Event::Arrive { frames, now } => self.handle(frames, now),
            Event::Turn { now } => self.round(now).0,
            Event::Send { cmd } => self.offer(cmd),
            Event::PickUp => self.pick_up(),
            Event::PickUpDatagram => self.pick_up_datagram(),
            Event::Establish => self.establish(),
            Event::Close => self.close(),
        }
    }

    /// Whether an event can happen: the numbers of chunks do not run out.
    pub open spec fn possible(self, e: Event) -> bool {
        match e {
            Event::Arrive { frames, .. } => self.inner.recv_next + frames.len() <= u64::MAX,
            Event::Turn { .. } => self.inner.seq_room(),
            _ => true,
        }
    }

    /// The message that the user sends in an event: one that was queued.
    pub open spec fn commanded_in(self, e: Event) -> Seq<Seq<u8>> {
        match e {
            Event::Send { cmd: CmdView::Reliable(data) } => if self.commands.len()
                < SEND_QUEUE_CAP {
                seq![data]
            } else {
                Seq::empty()
            },
            _ => Seq::empty(),
        }
    }

    /// The frames that an event queues.
    pub open spec fn emitted_in(self, e: Event) -> Seq<FrameView> {
        match e {
            Event::Arrive { frames, .. } => self.acks(frames),
            Event::Turn { now } => self.round_frames(now),
            _ => Seq::empty(),
        }
    }

    /// The message that the user picks up in an event.
    pub open spec fn picked_in(self, e: Event) -> Seq<Seq<u8>> {
        match e {
            Event::PickUp => if self.inbox.len() > 0 {
                seq![self.inbox[0]]
            } else {
                Seq::empty()
            },
            _ => Seq::empty(),
        }
    }

    /// The connection after events.
    pub open spec fn run(self, events: Seq<Event>) -> ConnView<A>
        decreases events.len(),
    {
        if events.len() == 0 {
            self
        } else {
            self.run(events.drop_last()).event(events.last())
        }
    }

    /// Whether events can happen in this order.
    pub open spec fn possible_run(self, events: Seq<Event>) -> bool
        decreases events.len(),
    {
        events.len() > 0 ==> {
            &&& self.possible_run(events.drop_last())
            &&& self.run(events.drop_last()).possible(events.last())
        }
    }

    /// The messages that the user sends over events, in order.
    pub open spec fn commanded(self, events: Seq<Event>) -> Seq<Seq<u8>>
        decreases events.len(),
    {
        if events.len() == 0 {
            Seq::empty()
        } else {
            self.commanded(events.drop_last()) + self.run(events.drop_last()).commanded_in(
                events.last(),
            )
        }
    }

    /// The frames that events queue, in order.
    pub open spec fn emitted(self, events: Seq<Event>) -> Seq<FrameView>
        decreases events.len(),
    {
        if events.len() == 0 {
            Seq::empty()
        } else {
            self.emitted(events.drop_last()) + self.run(events.drop_last()).emitted_in(
                events.last(),
            )
        }
    }

    /// The messages that the user picks up over events, in order.
    pub open spec fn picked(self, events: Seq<Event>) -> Seq<Seq<u8>>
        decreases events.len(),
    {
        if events.len() == 0 {
            Seq::empty()
        } else {
            self.picked(events.drop_last()) + self.run(events.drop_last()).picked_in(
                events.last(),
            )
        }
    }

    /// The messages that were put into the queue for the user over events, in order: those that
    /// the user picked up, and those that still wait.
    pub open spec fn delivered(self, events: Seq<Event>) -> Seq<Seq<u8>> {
        self.picked(events) + self.run(events).inbox
    }

    /// Nothing has happened to the connection.
    pub open spec fn fresh(self) -> bool {
        self == fresh_conn(self.cid, self.remote, self.inner.last_recv)
    }
}

/// Arriving frames change nothing about the stream that is sent: an acknowledgement only lets
/// go of chunks.
proof fn lemma_steps_stream<A>(v: ConnView<A>, frames: Seq<FrameView>, stream: Seq<Piece>)
    requires
        v.streams(stream),
    ensures
        v.steps(frames).streams(stream),
        v.steps(frames).inner.send_next == v.inner.send_next,
    decreases frames.len(),
{
    if frames.len() > 0 {
        lemma_steps_stream(v, frames.drop_last(), stream);
        let before = v.steps(frames.drop_last());
        if let FrameView::Ack { next_seq } = frames.last() {
            let inner = before.inner;
            let k = inner.acked(next_seq);
            lemma_acknowledge_window(inner, next_seq);
            let left = inner.acknowledge(next_seq).inflight;
            assert(pieces(left) =~= pieces(inner.inflight).skip(k));
            assert(pieces(left) =~= stream.subrange(
                inner.send_next - left.len(),
                inner.send_next as int,
            ));
        }
    }
}

/// A connection at the start has sent nothing.
proof fn lemma_fresh_streams<A>(v: ConnView<A>)
    requires
        v.fresh(),
    ensures
        v.streams(Seq::empty()),
{
    assert(pieces(v.inner.inflight) =~= Seq::<Piece>::empty().subrange(0, 0));
    assert(Seq::<Piece>::empty().skip(0) =~= Seq::<Piece>::empty() + Seq::<Piece>::empty());
}

/// Over a run, the messages that the user sends make up the stream, and every chunk that goes
/// out is genuine.
proof fn lemma_run_streams<A>(v: ConnView<A>, events: Seq<Event>)
    requires
        v.fresh(),
        v.possible_run(events),
    ensures
        ({
            let stream = all_fragments(v.commanded(events));
            let w = v.run(events);
            &&& w.streams(stream)
            &&& all_genuine(v.emitted(events), stream.take(w.inner.send_next as int))
        }),
    decreases events.len(),
{
    if events.len() == 0 {
        lemma_fresh_streams(v);
    } else {
        let first = events.drop_last();
        let e = events.last();
        lemma_run_streams(v, first);
        let before = v.run(first);
        let after = before.event(e);
        let stream = all_fragments(v.commanded(first));
        let more = all_fragments(before.commanded_in(e));
        lemma_fragments_append(v.commanded(first), before.commanded_in(e));
        assert(stream + Seq::<Piece>::empty() =~= stream);
        match e {
            Event::Arrive { frames, now } => {
                lemma_steps_stream(before.heard(now), frames, stream);
            },
            Event::Turn { now } => {
                if before.serves() {
                    law_turn_streams(before.inner, before.commands, now, stream);
                }
            },
            Event::Send { cmd } => {
                lemma_send_streams(before, cmd, stream);
            },
            _ => {},
        }
        lemma_genuine_more(
            v.emitted(first),
            stream,
            more,
            before.inner.send_next as int,
            after.inner.send_next as int,
        );
    }
}

/// What the user asks for leaves a stream that ends with what is queued.
proof fn lemma_send_streams<A>(v: ConnView<A>, cmd: CmdView, stream: Seq<Piece>)
    requires
        v.streams(stream),
    ensures
        v.offer(cmd).streams(stream + all_fragments(v.commanded_in(Event::Send { cmd }))),
        v.offer(cmd).inner == v.inner,
{
    assert(stream + Seq::<Piece>::empty() =~= stream);
    lemma_one_command(cmd);
    if v.takes(cmd) {
        lemma_offer_streams(v, cmd, stream);
    }
}

/// A message that is queued joins the end of the stream.
proof fn lemma_offer_streams<A>(v: ConnView<A>, cmd: CmdView, stream: Seq<Piece>)
    requires
        v.streams(stream),
        v.takes(cmd),
    ensures
        v.offer(cmd).streams(stream + all_fragments(reliable(seq![cmd]))),
{
    let more = all_fragments(reliable(seq![cmd]));
    let rest = unsent(v.inner.pending);
    let queued = all_fragments(reliable(v.commands));
    let longer = v.commands.push(cmd);
    assert(longer.drop_last() =~= v.commands);
    lemma_reliable_step(longer);
    lemma_sends_more(v.inner, stream, rest + queued, more);
    assert(rest + queued + more =~= rest + (queued + more));
}

/// Whatever happens to a connection, what is in flight never exceeds the window, in chunks or
/// in bytes; the chunks in flight have the numbers just below the next one; and each piece of
/// the messages that its user sent is acknowledged, in flight, pending or queued, in that
/// order, with nothing lost in between.
pub proof fn law_window<A>(v: ConnView<A>, events: Seq<Event>)
    requires
        v.fresh(),
        v.possible_run(events),
    ensures
        ({
            let w = v.run(events);
            let acked = w.inner.acked_below();
            let stream = all_fragments(v.commanded(events));
            &&& w.inner.inflight.len() <= MAX_INFLIGHT_MSGS
            &&& total_len(w.inner.inflight) <= MAX_INFLIGHT_BYTES
            &&& forall|i: int|
                0 <= i < w.inner.inflight.len() ==> (#[trigger] w.inner.inflight[i]).seq == acked
                    + i
            &&& 0 <= acked <= stream.len()
            &&& stream == stream.take(acked) + pieces(w.inner.inflight) + unsent(w.inner.pending)
                + all_fragments(reliable(w.commands))
        }),
{
    lemma_run_streams(v, events);
    let w = v.run(events);
    let acked = w.inner.acked_below();
    let n = w.inner.send_next as int;
    let stream = all_fragments(v.commanded(events));
    assert(stream =~= stream.take(acked) + stream.subrange(acked, n) + stream.skip(n));
    assert(stream.take(acked) + stream.subrange(acked, n) + (unsent(w.inner.pending)
        + all_fragments(reliable(w.commands))) =~= stream.take(acked) + stream.subrange(acked, n)
        + unsent(w.inner.pending) + all_fragments(reliable(w.commands)));
}

/// A turn leaves the receiving side alone.
proof fn lemma_round_receives<A>(v: ConnView<A>, now: u64)
    ensures
        v.round(now).0.inner.recv_next == v.inner.recv_next,
        v.round(now).0.inner.assembling == v.inner.assembling,
        v.round(now).0.inbox == v.inbox,
        v.closed ==> v.round(now).0.closed,
{
    lemma_served_keeps(v.inner, v.commands, now);
}

/// The frames of the datagram that arrives in an event.
pub open spec fn arriving(e: Event) -> Seq<FrameView> {
    match e {
        Event::Arrive { frames, .. } => frames,
        _ => Seq::empty(),
    }
}

/// Only genuine chunks arrive over these events.
pub open spec fn arrivals_genuine(events: Seq<Event>, stream: Seq<Piece>) -> bool {
    forall|i: int| 0 <= i < events.len() ==> all_genuine(arriving(#[trigger] events[i]), stream)
}

/// Over a run in which only genuine chunks arrive, the messages that are delivered are the
/// first ones of the stream.
proof fn lemma_run_receives<A>(v: ConnView<A>, events: Seq<Event>, stream: Seq<Piece>)
    requires
        v.fresh(),
        v.possible_run(events),
        arrivals_genuine(events, stream),
    ensures
        ({
            let w = v.run(events);
            &&& w.inner.recv_next <= stream.len()
            &&& v.delivered(events).is_prefix_of(whole(stream))
            &&& !w.closed ==> {
                &&& w.receives(stream)
                &&& v.delivered(events) == whole(stream.take(w.inner.recv_next as int))
            }
        }),
    decreases events.len(),
{
    if events.len() == 0 {
        assert(stream.take(0) =~= Seq::empty());
        assert(v.delivered(events) =~= Seq::empty());
    } else {
        let first = events.drop_last();
        let e = events.last();
        assert(arrivals_genuine(first, stream)) by {
            assert forall|i: int| 0 <= i < first.len() implies all_genuine(
                arriving(#[trigger] first[i]),
                stream,
            ) by {
                assert(first[i] == events[i]);
            }
        }
        lemma_run_receives(v, first, stream);
        let before = v.run(first);
        let got = v.picked(first);
        assert(events[events.len() - 1] == e);
        assert(got + Seq::<Seq<u8>>::empty() =~= got);
        match e {
            Event::Arrive { frames, now } => {
                if !before.closed {
                    lemma_steps_receive(before.heard(now), frames, stream, got);
                }
            },
            Event::Turn { now } => {
                lemma_round_receives(before, now);
            },
            Event::PickUp => {
                if before.inbox.len() > 0 {
                    assert(got + seq![before.inbox[0]] + before.inbox.skip(1) =~= got
                        + before.inbox);
                }
            },
            _ => {},
        }
    }
}

/// Every chunk that arrives over these events is one of these frames. Nothing is said of
/// those that never arrive, or arrive twice, or out of order.
pub open spec fn chunks_come_from(events: Seq<Event>, frames: Seq<FrameView>) -> bool {
    forall|i: int, j: int|
        0 <= i < events.len() && 0 <= j < arriving(events[i]).len() && #[trigger] arriving(
            events[i],
        )[j] is Msg ==> frames.contains(arriving(events[i])[j])
}

/// Chunks that come from a sender are genuine.
proof fn lemma_arrivals_genuine(
    events: Seq<Event>,
    frames: Seq<FrameView>,
    stream: Seq<Piece>,
)
    requires
        chunks_come_from(events, frames),
        all_genuine(frames, stream),
    ensures
        arrivals_genuine(events, stream),
{
    assert forall|i: int| 0 <= i < events.len() implies all_genuine(
        arriving(#[trigger] events[i]),
        stream,
    ) by {
        let some = arriving(events[i]);
        assert forall|j: int| 0 <= j < some.len() implies genuine(#[trigger] some[j], stream) by {
            if some[j] is Msg {
                assert(arriving(events[i])[j] == some[j]);
                assert(frames.contains(some[j]));
                let k = choose|k: int| 0 <= k < frames.len() && frames[k] == some[j];
                assert(genuine(frames[k], stream));
            }
        }
    }
}

/// Reliable and ordered delivery, over a network that may lose, repeat, reorder and regroup
/// what it carries: where two connections start afresh, and every chunk that arrives at the
/// receiver was sent by the sender, the messages that the user of the receiver picked up, and
/// then those that wait to be picked up, are the first ones of those that the user of the
/// sender sent: unaltered, in order, none twice and none left out. The receiver never has more
/// chunks than were sent.
pub proof fn law_delivery<A>(
    sender: ConnView<A>,
    sending: Seq<Event>,
    receiver: ConnView<A>,
    receiving: Seq<Event>,
)
    requires
        sender.fresh(),
        sender.possible_run(sending),
        receiver.fresh(),
        receiver.possible_run(receiving),
        chunks_come_from(receiving, sender.emitted(sending)),
    ensures
        receiver.delivered(receiving).is_prefix_of(sender.commanded(sending)),
        receiver.run(receiving).inner.recv_next <= sender.run(sending).inner.send_next,
{
    let messages = sender.commanded(sending);
    let n = sender.run(sending).inner.send_next as int;
    let sent = all_fragments(messages).take(n);
    lemma_run_streams(sender, sending);
    lemma_arrivals_genuine(receiving, sender.emitted(sending), sent);
    lemma_run_receives(receiver, receiving, sent);
    lemma_whole_prefix(all_fragments(messages), n);
    law_reassembly(messages);
}

/// Nothing is missing in the end: once the receiver has every chunk that was sent, and the
/// sender has nothing pending or queued, the messages that the user of the receiver picked up,
/// and those that wait to be picked up, are all that the user of the sender sent.
pub proof fn law_complete_delivery<A>(
    sender: ConnView<A>,
    sending: Seq<Event>,
    receiver: ConnView<A>,
    receiving: Seq<Event>,
)
    requires
        sender.fresh(),
        sender.possible_run(sending),
        receiver.fresh(),
        receiver.possible_run(receiving),
        chunks_come_from(receiving, sender.emitted(sending)),
        sender.run(sending).inner.pending is None,
        reliable(sender.run(sending).commands).len() == 0,
        receiver.run(receiving).inner.recv_next == sender.run(sending).inner.send_next,
        !receiver.run(receiving).closed,
    ensures
        receiver.delivered(receiving) == sender.commanded(sending),
{
    let messages = sender.commanded(sending);
    let stream = all_fragments(messages);
    let n = sender.run(sending).inner.send_next as int;
    lemma_run_streams(sender, sending);
    assert(reliable(sender.run(sending).commands) =~= Seq::empty());
    assert(stream.skip(n).len() == 0);
    assert(stream.take(n) =~= stream);
    lemma_arrivals_genuine(receiving, sender.emitted(sending), stream);
    lemma_run_receives(receiver, receiving, stream);
    law_reassembly(messages);
}

/// No acknowledgement among these frames goes beyond this number.
pub open spec fn acks_within(frames: Seq<FrameView>, limit: int) -> bool {
    forall|i: int|
        0 <= i < frames.len() ==> match #[trigger] frames[i] {
            FrameView::Ack { next_seq } => next_seq <= limit,
            _ => true,
        }
}

/// Frames only ever take the receiving side forward, and by no more than their number.
proof fn lemma_steps_forward<A>(v: ConnView<A>, frames: Seq<FrameView>)
    requires
        v.inner.recv_next + frames.len() <= u64::MAX,
    ensures
        v.inner.recv_next <= v.steps(frames).inner.recv_next <= v.inner.recv_next + frames.len(),
    decreases frames.len(),
{
    if frames.len() > 0 {
        lemma_steps_forward(v, frames.drop_last());
    }
}

/// Acknowledgements say no more than what arrived: none that a connection sends goes beyond
/// the chunks that it has, then or later.
pub proof fn law_acks_are_honest<A>(v: ConnView<A>, events: Seq<Event>)
    requires
        v.possible_run(events),
    ensures
        acks_within(v.emitted(events), v.run(events).inner.recv_next as int),
        v.inner.recv_next <= v.run(events).inner.recv_next,
    decreases events.len(),
{
    if events.len() > 0 {
        let first = events.drop_last();
        let e = events.last();
        law_acks_are_honest(v, first);
        let before = v.run(first);
        let limit = v.run(events).inner.recv_next as int;
        let some = before.emitted_in(e);
        match e {
            Event::Arrive { frames, now } => {
                lemma_steps_forward(before.heard(now), frames);
                lemma_acks_heard(before, frames, now);
                assert(acks_within(some, limit));
            },
            Event::Turn { now } => {
                lemma_round_receives(before, now);
                if before.serves() {
                    lemma_served_frames_no_acks(before.inner, before.commands, now, limit);
                }
                assert(acks_within(some, limit));
            },
            _ => {
                assert(acks_within(some, limit));
            },
        }
        let all = v.emitted(first);
        assert forall|i: int| 0 <= i < (all + some).len() implies match #[trigger] (all + some)[i] {
            FrameView::Ack { next_seq } => next_seq <= limit,
            _ => true,
        } by {
            if i < all.len() {
                assert((all + some)[i] == all[i]);
            } else {
                assert((all + some)[i] == some[i - all.len()]);
            }
        }
    }
}

/// A turn queues no acknowledgement.
proof fn lemma_served_frames_no_acks<A>(
    v: InnerView<A>,
    cmds: Seq<CmdView>,
    now: u64,
    limit: int,
)
    ensures
        acks_within(v.served_frames(cmds, now), limit),
{
    lemma_drain_frames_no_acks(v.resume(now), cmds, now, limit);
}

/// Commands queue no acknowledgement.
proof fn lemma_drain_frames_no_acks<A>(
    v: InnerView<A>,
    cmds: Seq<CmdView>,
    now: u64,
    limit: int,
)
    ensures
        acks_within(v.drain_frames(cmds, now), limit),
    decreases cmds.len(),
{
    if cmds.len() > 0 {
        lemma_drain_frames_no_acks(v, cmds.drop_last(), now, limit);
    }
}

/// Frames whose acknowledgements stay within a limit let go of no chunk beyond it.
proof fn lemma_steps_acked<A>(
    v: ConnView<A>,
    frames: Seq<FrameView>,
    stream: Seq<Piece>,
    limit: int,
)
    requires
        v.streams(stream),
        acks_within(frames, limit),
        v.inner.acked_below() <= limit,
    ensures
        v.steps(frames).inner.acked_below() <= limit,
    decreases frames.len(),
{
    if frames.len() > 0 {
        let first = frames.drop_last();
        assert(acks_within(first, limit)) by {
            assert forall|i: int| 0 <= i < first.len() implies match #[trigger] first[i] {
                FrameView::Ack { next_seq } => next_seq <= limit,
                _ => true,
            } by {
                assert(first[i] == frames[i]);
            }
        }
        lemma_steps_acked(v, first, stream, limit);
        lemma_steps_stream(v, first, stream);
        let before = v.steps(first);
        assert(frames[frames.len() - 1] == frames.last());
        if let FrameView::Ack { next_seq } = frames.last() {
            lemma_acknowledge_window(before.inner, next_seq);
        }
    }
}

/// Over a run in which acknowledgements stay within a limit, nothing beyond it counts as
/// acknowledged.
proof fn lemma_run_acked<A>(v: ConnView<A>, events: Seq<Event>, limit: int)
    requires
        v.fresh(),
        v.possible_run(events),
        0 <= limit,
        forall|i: int| 0 <= i < events.len() ==> acks_within(arriving(#[trigger] events[i]), limit),
    ensures
        v.run(events).inner.acked_below() <= limit,
    decreases events.len(),
{
    if events.len() > 0 {
        let first = events.drop_last();
        let e = events.last();
        assert forall|i: int| 0 <= i < first.len() implies acks_within(
            arriving(#[trigger] first[i]),
            limit,
        ) by {
            assert(first[i] == events[i]);
        }
        lemma_run_acked(v, first, limit);
        lemma_run_streams(v, first);
        let before = v.run(first);
        let stream = all_fragments(v.commanded(first));
        assert(events[events.len() - 1] == e);
        match e {
            Event::Arrive { frames, now } => {
                assert(arriving(e) == frames);
                lemma_steps_acked(before.heard(now), frames, stream, limit);
            },
            Event::Turn { now } => {
                if before.serves() {
                    law_turn_streams(before.inner, before.commands, now, stream);
                }
            },
            _ => {},
        }
    }
}

/// Every acknowledgement that arrives over these events is one of these frames.
pub open spec fn acks_come_from(events: Seq<Event>, frames: Seq<FrameView>) -> bool {
    forall|i: int, j: int|
        0 <= i < events.len() && 0 <= j < arriving(events[i]).len() && #[trigger] arriving(
            events[i],
        )[j] is Ack ==> frames.contains(arriving(events[i])[j])
}

/// What counts as acknowledged has arrived: where every acknowledgement that reaches the sender
/// was sent by the receiver, the receiver has every chunk that the sender let go of. So
/// whatever the receiver still lacks is in flight, pending or queued, and is sent.
pub proof fn law_acknowledged_arrived<A>(
    sender: ConnView<A>,
    sending: Seq<Event>,
    receiver: ConnView<A>,
    receiving: Seq<Event>,
)
    requires
        sender.fresh(),
        sender.possible_run(sending),
        receiver.fresh(),
        receiver.possible_run(receiving),
        acks_come_from(sending, receiver.emitted(receiving)),
    ensures
        sender.run(sending).inner.acked_below() <= receiver.run(receiving).inner.recv_next,
{
    let limit = receiver.run(receiving).inner.recv_next as int;
    let frames = receiver.emitted(receiving);
    law_acks_are_honest(receiver, receiving);
    assert forall|i: int| 0 <= i < sending.len() implies acks_within(
        arriving(#[trigger] sending[i]),
        limit,
    ) by {
        let some = arriving(sending[i]);
        assert forall|j: int| 0 <= j < some.len() implies match #[trigger] some[j] {
            FrameView::Ack { next_seq } => next_seq <= limit,
            _ => true,
        } by {
            if some[j] is Ack {
                assert(arriving(sending[i])[j] == some[j]);
                assert(frames.contains(some[j]));
                let k = choose|k: int| 0 <= k < frames.len() && frames[k] == some[j];
                assert(frames[k] is Ack);
            }
        }
    }
    lemma_run_acked(sender, sending, limit);
}

} // verus!
