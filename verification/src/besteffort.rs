//! What the best-effort channel is for: a datagram goes out once, and reaches the user of the
//! peer as it was, or not at all.

use vstd::prelude::*;

use crate::command::CmdView;
use crate::conn::ConnView;
use crate::frame::{FrameView, MAX_RELIABLE_CHUNK};
use crate::inner::SEND_QUEUE_CAP;
use crate::laws::{best_effort, datagrams_of, law_datagrams_go_out, lemma_best_effort_append};
use crate::stream::{arriving, Event};

verus! {

impl<A> ConnView<A> {
    /// The datagram that the user sends in an event: one that is no longer than a chunk may be,
    /// and finds room in the queue.
    pub open spec fn sent_in(self, e: Event) -> Seq<Seq<u8>> {
        match e {
            Event::Send { cmd: CmdView::Datagram(data) } => if data.len() <= MAX_RELIABLE_CHUNK
                && self.commands.len() < SEND_QUEUE_CAP {
                seq![data]
            } else {
                Seq::empty()
            },
            _ => Seq::empty(),
        }
    }

    /// The datagrams that the user sends over events, in order.
    pub open spec fn sent_datagrams(self, events: Seq<Event>) -> Seq<Seq<u8>>
        decreases events.len(),
    {
        if events.len() == 0 {
            Seq::empty()
        } else {
            self.sent_datagrams(events.drop_last()) + self.run(events.drop_last()).sent_in(
                events.last(),
            )
        }
    }

    /// The datagram that the user picks up in an event.
    pub open spec fn picked_datagram_in(self, e: Event) -> Seq<Seq<u8>> {
        if e is PickUpDatagram && self.datagrams.len() > 0 {
            seq![self.datagrams[0]]
        } else {
            Seq::empty()
        }
    }

    /// The datagrams that the user picks up over events, in order.
    pub open spec fn picked_datagrams(self, events: Seq<Event>) -> Seq<Seq<u8>>
        decreases events.len(),
    {
        if events.len() == 0 {
            Seq::empty()
        } else {
            self.picked_datagrams(events.drop_last()) + self.run(
                events.drop_last(),
            ).picked_datagram_in(events.last())
        }
    }
}

/// The datagrams of a command more.
proof fn lemma_datagrams_push(cmds: Seq<CmdView>, cmd: CmdView)
    ensures
        datagrams_of(cmds.push(cmd)) == match cmd {
            CmdView::Datagram(data) => datagrams_of(cmds).push(data),
            CmdView::Reliable(_) => datagrams_of(cmds),
        },
{
    assert(cmds.push(cmd).drop_last() =~= cmds);
}

/// A row of frames without a datagram.
proof fn lemma_no_datagrams(frames: Seq<FrameView>)
    requires
        forall|i: int| 0 <= i < frames.len() ==> !((#[trigger] frames[i]) is Datagram),
    ensures
        best_effort(frames) == Seq::<Seq<u8>>::empty(),
    decreases frames.len(),
{
    if frames.len() > 0 {
        let first = frames.drop_last();
        assert forall|i: int| 0 <= i < first.len() implies !((#[trigger] first[i]) is Datagram) by {
            assert(first[i] == frames[i]);
        }
        lemma_no_datagrams(first);
        assert(frames.last() == frames[frames.len() - 1]);
    }
}

/// Arriving frames leave the commands alone.
proof fn lemma_steps_commands<A>(v: ConnView<A>, frames: Seq<FrameView>)
    ensures
        v.steps(frames).commands == v.commands,
    decreases frames.len(),
{
    if frames.len() > 0 {
        lemma_steps_commands(v, frames.drop_last());
    }
}

/// Whatever happens to a connection, each datagram that its user sent went out as one frame, or
/// still waits to: all of them, once each, as they were and in order.
pub proof fn law_datagrams_once<A>(v: ConnView<A>, events: Seq<Event>)
    requires
        v.fresh(),
    ensures
        best_effort(v.emitted(events)) + datagrams_of(v.run(events).commands) == v.sent_datagrams(
            events,
        ),
    decreases events.len(),
{
    let none = Seq::<Seq<u8>>::empty();
    if events.len() == 0 {
        assert(none + none =~= none);
    } else {
        let first = events.drop_last();
        let e = events.last();
        law_datagrams_once(v, first);
        let before = v.run(first);
        let out = best_effort(v.emitted(first));
        let new = before.emitted_in(e);
        lemma_best_effort_append(v.emitted(first), new);
        assert(out + none =~= out);
        assert(v.sent_datagrams(first) + none =~= v.sent_datagrams(first));
        match e {
            Event::Arrive { frames, now } => {
                lemma_no_datagrams(new);
                lemma_steps_commands(before.heard(now), frames);
            },
            Event::Turn { now } => {
                if before.serves() {
                    law_datagrams_go_out(before.inner, before.commands, now);
                    let kept = before.inner.drained(before.commands, now).1;
                    assert(out + best_effort(new) + datagrams_of(kept) =~= out + (best_effort(new)
                        + datagrams_of(kept)));
                } else {
                    lemma_no_datagrams(new);
                }
            },
            Event::Send { cmd } => {
                lemma_datagrams_push(before.commands, cmd);
                if let CmdView::Datagram(data) = cmd {
                    let waiting = datagrams_of(before.commands);
                    assert(out + waiting.push(data) =~= out + waiting + seq![data]);
                }
            },
            _ => {},
        }
    }
}

/// Every best-effort datagram that arrives over these events is one of these frames.
pub open spec fn datagrams_come_from(events: Seq<Event>, frames: Seq<FrameView>) -> bool {
    forall|i: int, j: int|
        0 <= i < events.len() && 0 <= j < arriving(events[i]).len() && #[trigger] arriving(
            events[i],
        )[j] is Datagram ==> frames.contains(arriving(events[i])[j])
}

/// All of these are among those.
pub open spec fn all_among(items: Seq<Seq<u8>>, those: Seq<Seq<u8>>) -> bool {
    forall|i: int| 0 <= i < items.len() ==> those.contains(#[trigger] items[i])
}

/// A datagram frame that was sent carries a datagram that the user sent.
proof fn lemma_among_frames(frames: Seq<FrameView>, data: Seq<u8>)
    requires
        frames.contains(FrameView::Datagram { data }),
    ensures
        best_effort(frames).contains(data),
    decreases frames.len(),
{
    let f = FrameView::Datagram { data };
    let i = choose|i: int| 0 <= i < frames.len() && frames[i] == f;
    let first = frames.drop_last();
    if i == frames.len() - 1 {
        let all = best_effort(frames);
        assert(all[all.len() - 1] == data);
    } else {
        assert(first[i] == f);
        lemma_among_frames(first, data);
        let had = best_effort(first);
        let k = choose|k: int| 0 <= k < had.len() && had[k] == data;
        assert(best_effort(frames)[k] == data);
    }
}

/// What waits for the user after frames waited before, or is one of them.
proof fn lemma_steps_among<A>(v: ConnView<A>, frames: Seq<FrameView>, those: Seq<Seq<u8>>)
    requires
        all_among(v.datagrams, those),
        forall|j: int|
            0 <= j < frames.len() ==> match #[trigger] frames[j] {
                FrameView::Datagram { data } => those.contains(data),
                _ => true,
            },
    ensures
        all_among(v.steps(frames).datagrams, those),
    decreases frames.len(),
{
    if frames.len() > 0 {
        let first = frames.drop_last();
        assert forall|j: int| 0 <= j < first.len() implies match #[trigger] first[j] {
            FrameView::Datagram { data } => those.contains(data),
            _ => true,
        } by {
            assert(first[j] == frames[j]);
        }
        lemma_steps_among(v, first, those);
        assert(frames.last() == frames[frames.len() - 1]);
        let before = v.steps(first);
        if let FrameView::Datagram { data } = frames.last() {
            let longer = before.datagrams.push(data);
            assert forall|i: int| 0 <= i < longer.len() implies those.contains(
                #[trigger] longer[i],
            ) by {
                if i < before.datagrams.len() {
                    assert(longer[i] == before.datagrams[i]);
                }
            }
        }
    }
}

/// A best-effort datagram arrives as it was sent, or not at all: where every datagram that
/// reaches the receiver was sent by the sender, each one that the user of the receiver picked
/// up, and each one that waits, is one that the user of the sender sent, byte for byte.
pub proof fn law_datagram_delivery<A>(
    sender: ConnView<A>,
    sending: Seq<Event>,
    receiver: ConnView<A>,
    receiving: Seq<Event>,
)
    requires
        sender.fresh(),
        receiver.fresh(),
        datagrams_come_from(receiving, sender.emitted(sending)),
    ensures
        all_among(receiver.picked_datagrams(receiving), sender.sent_datagrams(sending)),
        all_among(receiver.run(receiving).datagrams, sender.sent_datagrams(sending)),
    decreases receiving.len(),
{
    let those = sender.sent_datagrams(sending);
    if receiving.len() > 0 {
        let first = receiving.drop_last();
        let e = receiving.last();
        let frames = sender.emitted(sending);
        assert(datagrams_come_from(first, frames)) by {
            assert forall|i: int, j: int|
                0 <= i < first.len() && 0 <= j < arriving(first[i]).len() && #[trigger] arriving(
                    first[i],
                )[j] is Datagram implies frames.contains(arriving(first[i])[j]) by {
                assert(first[i] == receiving[i]);
                assert(arriving(receiving[i])[j] is Datagram);
            }
        }
        law_datagram_delivery(sender, sending, receiver, first);
        let before = receiver.run(first);
        let n = receiving.len() - 1;
        assert(receiving[n] == e);
        match e {
            Event::Arrive { frames: some, now } => {
                law_datagrams_once(sender, sending);
                assert forall|j: int| 0 <= j < some.len() implies match #[trigger] some[j] {
                    FrameView::Datagram { data } => those.contains(data),
                    _ => true,
                } by {
                    if let FrameView::Datagram { data } = some[j] {
                        assert(arriving(receiving[n])[j] == some[j]);
                        lemma_among_frames(frames, data);
                        let out = best_effort(frames);
                        let k = choose|k: int| 0 <= k < out.len() && out[k] == data;
                        assert(those[k] == data);
                    }
                }
                lemma_steps_among(before.heard(now), some, those);
            },
            Event::PickUpDatagram => {
                if before.datagrams.len() > 0 {
                    let rest = before.datagrams.skip(1);
                    assert forall|i: int| 0 <= i < rest.len() implies those.contains(
                        #[trigger] rest[i],
                    ) by {
                        assert(rest[i] == before.datagrams[i + 1]);
                    }
                    let had = receiver.picked_datagrams(first);
                    let all = had + seq![before.datagrams[0]];
                    assert forall|i: int| 0 <= i < all.len() implies those.contains(
                        #[trigger] all[i],
                    ) by {
                        if i < had.len() {
                            assert(all[i] == had[i]);
                        }
                    }
                }
            },
            _ => {},
        }
        let had = receiver.picked_datagrams(first);
        assert(had + Seq::<Seq<u8>>::empty() =~= had);
    }
}

} // verus!
