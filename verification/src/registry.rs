//! What an endpoint does with its connections, said of each of them.

use vstd::prelude::*;

use crate::conn::{fresh_conn, ConnView};
use crate::endpoint::{
    handshake_ack_bytes, handshake_bytes, Accepted, DriverView, EntryView,
};
use crate::frame::{packet_bytes, packet_parts, FrameView, HANDSHAKE_CID};
use crate::inner::{InnerView, IDLE_TIMEOUT, RTO_INIT};
use crate::laws::{law_sign_of_life, law_turns_are_independent};
use crate::sending::law_silent_peer;

verus! {

/// A new connection is open, waits for its handshake, knows who its peer is, has sent and
/// received nothing, holds nothing in its queues, and counts its peer as heard of now.
pub proof fn law_fresh<A>(cid: u32, remote: A, now: u64)
    ensures
        ({
            let v = fresh_conn(cid, remote, now);
            &&& v.cid == cid && v.inner.cid == cid
            &&& v.remote == remote && v.inner.batch.remote == remote
            &&& !v.closed && !v.closing && !v.inner.established
            &&& v.inner.send_next == 0 && v.inner.recv_next == 0 && v.inner.last_ack == 0
            &&& v.inner.inflight.len() == 0 && v.inner.inflight_bytes == 0
            &&& v.inner.pending is None && v.inner.assembling.len() == 0
            &&& v.inner.dup_acks == 0 && !v.inner.fast_retransmit && v.inner.rto == RTO_INIT
            &&& v.inner.last_recv == now && v.inner.last_sent == now
            &&& v.inner.batch.packed.len() == 0 && v.inner.batch.outbox.len() == 0
            &&& v.commands.len() == 0 && v.inbox.len() == 0 && v.datagrams.len() == 0
        }),
{
}

/// Handshake datagrams carry the id that is kept for them, and one frame: a request or an
/// answer, with the id of the connection.
pub proof fn law_handshake_datagrams(cid: u32)
    ensures
        handshake_bytes(cid) == packet_bytes(HANDSHAKE_CID, seq![FrameView::Handshake { cid }]),
        handshake_ack_bytes(cid) == packet_bytes(
            HANDSHAKE_CID,
            seq![FrameView::HandshakeAck { cid }],
        ),
{
}

/// A datagram under the id of a connection that is registered and open goes to it, and to no
/// other, at the time that it arrives: the peer counts as heard of then. No connection comes
/// or goes.
pub proof fn law_datagram_finds_its_connection<A, H>(
    v: DriverView<A, H>,
    data: Seq<u8>,
    cid: u32,
    frames: Seq<FrameView>,
    now: u64,
)
    requires
        packet_parts(data) == Some((cid, frames)),
        cid != HANDSHAKE_CID,
        v.conns.contains_key(cid),
        !v.conns[cid].conn.closed,
        v.conns[cid].conn.inner.recv_next + frames.len() <= u64::MAX,
    ensures
        ({
            let w = v.handle(data, now);
            &&& w.conns.dom() == v.conns.dom()
            &&& forall|other: u32|
                v.conns.contains_key(other) && other != cid ==> #[trigger] w.conns[other]
                    == v.conns[other]
            &&& w.conns[cid].user == v.conns[cid].user
            &&& w.conns[cid].conn == v.conns[cid].conn.handle(frames, now)
            &&& w.conns[cid].conn.inner.last_recv == now
        }),
{
    let w = v.handle(data, now);
    assert(w.conns.dom() =~= v.conns.dom());
    law_sign_of_life(v.conns[cid].conn, frames, now);
}

/// Any other datagram changes nothing: one that cannot be decoded, one that is a handshake, and
/// one whose connection is not registered or is closed.
pub proof fn law_datagram_for_nobody<A, H>(v: DriverView<A, H>, data: Seq<u8>, now: u64)
    requires
        match packet_parts(data) {
            Some((cid, _)) => cid == HANDSHAKE_CID || !v.conns.contains_key(cid)
                || v.conns[cid].conn.closed,
            None => true,
        },
    ensures
        v.handle(data, now) == v,
{
}

/// A peer that is heard of is kept: where a datagram for a connection arrived, and left it open,
/// a turn of all connections less than the idle timeout later does not release it.
pub proof fn law_heard_peer_is_kept<A, H>(
    v: DriverView<A, H>,
    data: Seq<u8>,
    cid: u32,
    frames: Seq<FrameView>,
    now: u64,
    ids: Seq<u32>,
    later: u64,
)
    requires
        packet_parts(data) == Some((cid, frames)),
        cid != HANDSHAKE_CID,
        v.conns.contains_key(cid),
        !v.conns[cid].conn.closed,
        v.conns[cid].conn.inner.recv_next + frames.len() <= u64::MAX,
        !v.handle(data, now).conns[cid].conn.closed,
        later < now + IDLE_TIMEOUT,
        ids.no_duplicates(),
        ids.contains(cid),
    ensures
        ({
            let after = v.handle(data, now).after_turns(ids, later);
            &&& after.conns.contains_key(cid)
            &&& !after.conns[cid].conn.closed
        }),
{
    law_datagram_finds_its_connection(v, data, cid, frames, now);
    let w = v.handle(data, now);
    let i = choose|i: int| 0 <= i < ids.len() && ids[i] == cid;
    law_turns_are_independent(w, ids, later, i);
    if w.conns[cid].conn.inner.established {
        law_silent_peer(w.conns[cid].conn, later);
    }
}

/// The answers among the frames of a handshake datagram do one thing: each says that the
/// handshake of its connection is done. A connection whose handshake was done before is left
/// as it is, however often the answer comes, and so is every connection that no answer names;
/// none comes or goes.
pub proof fn law_answers<A, H>(v: DriverView<A, H>, frames: Seq<FrameView>)
    ensures
        ({
            let w = v.shakes(frames);
            &&& w.conns.dom() == v.conns.dom()
            &&& forall|cid: u32|
                v.conns.contains_key(cid) ==> #[trigger] w.conns[cid] == (EntryView {
                    conn: ConnView {
                        inner: InnerView {
                            established: v.conns[cid].conn.inner.established || frames.contains(
                                FrameView::HandshakeAck { cid },
                            ),
                            ..v.conns[cid].conn.inner
                        },
                        ..v.conns[cid].conn
                    },
                    user: v.conns[cid].user,
                })
        }),
    decreases frames.len(),
{
    let w = v.shakes(frames);
    if frames.len() > 0 {
        let first = frames.drop_last();
        law_answers(v, first);
        let before = v.shakes(first);
        assert(w.conns.dom() =~= v.conns.dom()) by {
            if let FrameView::HandshakeAck { cid } = frames.last() {
                assert(before.conns.dom().contains(cid) == v.conns.dom().contains(cid));
            }
        }
        assert forall|cid: u32| v.conns.contains_key(cid) implies #[trigger] w.conns[cid] == (
        EntryView {
            conn: ConnView {
                inner: InnerView {
                    established: v.conns[cid].conn.inner.established || frames.contains(
                        FrameView::HandshakeAck { cid },
                    ),
                    ..v.conns[cid].conn.inner
                },
                ..v.conns[cid].conn
            },
            user: v.conns[cid].user,
        }) by {
            lemma_contains_last(frames, FrameView::HandshakeAck { cid });
            assert(before.conns.dom().contains(cid));
            assert(before.conns[cid].user == v.conns[cid].user);
        }
    } else {
        assert forall|cid: u32| v.conns.contains_key(cid) implies #[trigger] w.conns[cid] == (
        EntryView {
            conn: ConnView {
                inner: InnerView {
                    established: v.conns[cid].conn.inner.established || frames.contains(
                        FrameView::HandshakeAck { cid },
                    ),
                    ..v.conns[cid].conn.inner
                },
                ..v.conns[cid].conn
            },
            user: v.conns[cid].user,
        }) by {}
    }
}

/// A frame is in a row where it is in the row without its last one, or is that one.
proof fn lemma_contains_last(frames: Seq<FrameView>, f: FrameView)
    requires
        frames.len() > 0,
    ensures
        frames.contains(f) == (frames.drop_last().contains(f) || frames.last() == f),
{
    let first = frames.drop_last();
    if first.contains(f) {
        let i = choose|i: int| 0 <= i < first.len() && first[i] == f;
        assert(frames[i] == f);
    }
    if frames.last() == f {
        assert(frames[frames.len() - 1] == f);
    }
    if frames.contains(f) {
        let i = choose|i: int| 0 <= i < frames.len() && frames[i] == f;
        if i < first.len() {
            assert(first[i] == f);
        }
    }
}

/// An answer that comes again changes nothing: where the handshake of every connection that
/// answers name is done, a datagram with these answers leaves all connections as they are, and
/// is no news.
pub proof fn law_repeated_answer<A, H>(v: DriverView<A, H>, frames: Seq<FrameView>)
    requires
        forall|i: int|
            0 <= i < frames.len() ==> match #[trigger] frames[i] {
                FrameView::HandshakeAck { cid } => v.conns.contains_key(cid)
                    ==> v.conns[cid].conn.inner.established,
                _ => true,
            },
    ensures
        v.shakes(frames) == v,
        v.all_news(frames).len() == 0,
    decreases frames.len(),
{
    law_answers(v, frames);
    let w = v.shakes(frames);
    assert forall|cid: u32| #[trigger] v.conns.contains_key(cid) implies w.conns[cid]
        == v.conns[cid] by {
        let f = FrameView::HandshakeAck { cid };
        assert(w.conns[cid].user == v.conns[cid].user);
        if frames.contains(f) {
            let i = choose|i: int| 0 <= i < frames.len() && frames[i] == f;
            assert(frames[i] == f);
        }
    }
    assert(w.conns =~= v.conns);
    if frames.len() > 0 {
        let first = frames.drop_last();
        assert forall|i: int| 0 <= i < first.len() implies match #[trigger] first[i] {
            FrameView::HandshakeAck { cid } => v.conns.contains_key(cid)
                ==> v.conns[cid].conn.inner.established,
            _ => true,
        } by {
            assert(first[i] == frames[i]);
        }
        law_repeated_answer(v, first);
        assert(frames[frames.len() - 1] == frames.last());
    }
}

/// News is what was not so before, said once: an id is reported if and only if an answer names
/// it, its connection is registered, and its handshake was not done.
pub proof fn law_news<A, H>(v: DriverView<A, H>, frames: Seq<FrameView>)
    ensures
        v.all_news(frames).no_duplicates(),
        forall|cid: u32| #[trigger]
            v.all_news(frames).contains(cid) <==> frames.contains(FrameView::HandshakeAck { cid })
                && v.conns.contains_key(cid) && !v.conns[cid].conn.inner.established,
    decreases frames.len(),
{
    if frames.len() > 0 {
        let first = frames.drop_last();
        law_news(v, first);
        law_answers(v, first);
        let before = v.shakes(first);
        let had = v.all_news(first);
        let new = before.news(frames.last());
        let all = v.all_news(frames);
        if let FrameView::HandshakeAck { cid } = frames.last() {
            assert(before.conns.dom().contains(cid) == v.conns.dom().contains(cid));
            if v.conns.contains_key(cid) {
                assert(before.conns[cid].user == v.conns[cid].user);
            }
            assert(had.contains(cid) == (first.contains(frames.last()) && v.conns.contains_key(cid)
                && !v.conns[cid].conn.inner.established));
            if new.len() > 0 {
                assert(!had.contains(cid));
                assert(all.no_duplicates()) by {
                    assert forall|i: int, j: int|
                        0 <= i < all.len() && 0 <= j < all.len() && i != j implies all[i]
                        != all[j] by {
                        if i < had.len() {
                            assert(all[i] == had[i]);
                            assert(had.contains(had[i]));
                        }
                        if j < had.len() {
                            assert(all[j] == had[j]);
                            assert(had.contains(had[j]));
                        }
                    }
                }
            } else {
                assert(all =~= had);
            }
        } else {
            assert(all =~= had);
        }
        assert forall|cid: u32| #[trigger]
            all.contains(cid) <==> frames.contains(FrameView::HandshakeAck { cid })
                && v.conns.contains_key(cid) && !v.conns[cid].conn.inner.established by {
            lemma_contains_last(frames, FrameView::HandshakeAck { cid });
            assert(had.contains(cid) <==> first.contains(FrameView::HandshakeAck { cid })
                && v.conns.contains_key(cid) && !v.conns[cid].conn.inner.established);
            assert(all.contains(cid) == (had.contains(cid) || new.contains(cid))) by {
                if had.contains(cid) {
                    let i = choose|i: int| 0 <= i < had.len() && had[i] == cid;
                    assert(all[i] == cid);
                }
                if new.contains(cid) {
                    let i = choose|i: int| 0 <= i < new.len() && new[i] == cid;
                    assert(all[had.len() + i] == cid);
                }
                if all.contains(cid) {
                    let i = choose|i: int| 0 <= i < all.len() && all[i] == cid;
                    if i < had.len() {
                        assert(had[i] == cid);
                    } else {
                        assert(new[i - had.len()] == cid);
                    }
                }
            }
            if frames.last() == (FrameView::HandshakeAck { cid }) && new.len() > 0 {
                assert(new[0] == cid);
            }
        }
    }
}

/// The requests among frames that name a registered connection, by their ids, in order.
pub open spec fn known_requests<A, H>(v: DriverView<A, H>, frames: Seq<FrameView>) -> Seq<u32>
    decreases frames.len(),
{
    if frames.len() == 0 {
        Seq::empty()
    } else {
        match frames.last() {
            FrameView::Handshake { cid } => if v.conns.contains_key(cid) {
                known_requests(v, frames.drop_last()).push(cid)
            } else {
                known_requests(v, frames.drop_last())
            },
            _ => known_requests(v, frames.drop_last()),
        }
    }
}

/// Each request for a registered connection is answered, once per request, in order, to where
/// it came from, with the id that it names; and nothing else is.
pub proof fn law_requests_are_answered<A, H>(
    v: DriverView<A, H>,
    frames: Seq<FrameView>,
    remote: A,
)
    ensures
        v.replies(frames, remote).len() == known_requests(v, frames).len(),
        forall|i: int|
            0 <= i < v.replies(frames, remote).len() ==> #[trigger] v.replies(frames, remote)[i]
                == (
                remote,
                packet_bytes(
                    HANDSHAKE_CID,
                    seq![FrameView::HandshakeAck { cid: known_requests(v, frames)[i] }],
                ),
            ),
    decreases frames.len(),
{
    if frames.len() > 0 {
        law_requests_are_answered(v, frames.drop_last(), remote);
        let had = v.replies(frames.drop_last(), remote);
        let all = v.replies(frames, remote);
        let ids = known_requests(v, frames);
        assert forall|i: int| 0 <= i < all.len() implies #[trigger] all[i] == (
            remote,
            packet_bytes(HANDSHAKE_CID, seq![FrameView::HandshakeAck { cid: ids[i] }]),
        ) by {
            if i < had.len() {
                assert(all[i] == had[i]);
                assert(ids[i] == known_requests(v, frames.drop_last())[i]);
            }
        }
    }
}

/// Of the connections that are asked for, exactly those that wait to be accepted are
/// registered: each as a new connection to where the request came from, with its handshake
/// done, and with the handle that was offered. All others stay as they were.
pub proof fn law_accepted_are_registered<A, H>(
    v: DriverView<A, H>,
    ids: Seq<u32>,
    remote: A,
    opened: Seq<(H, Accepted)>,
    now: u64,
)
    requires
        ids.no_duplicates(),
        ids.len() <= opened.len(),
    ensures
        ({
            let w = v.open_all(ids, remote, opened, now);
            &&& forall|i: int|
                0 <= i < ids.len() ==> if (#[trigger] opened[i]).1 is Queued {
                    &&& w.conns.contains_key(ids[i])
                    &&& w.conns[ids[i]].user == opened[i].0
                    &&& w.conns[ids[i]].conn == (ConnView {
                        inner: InnerView {
                            established: true,
                            ..fresh_conn(ids[i], remote, now).inner
                        },
                        ..fresh_conn(ids[i], remote, now)
                    })
                } else {
                    &&& w.conns.contains_key(ids[i]) == v.conns.contains_key(ids[i])
                    &&& w.conns[ids[i]] == v.conns[ids[i]]
                }
            &&& forall|cid: u32|
                !ids.contains(cid) ==> (#[trigger] w.conns.contains_key(cid)
                    == v.conns.contains_key(cid)) && w.conns[cid] == v.conns[cid]
        }),
    decreases ids.len(),
{
    if ids.len() > 0 {
        let first = ids.drop_last();
        assert(first.no_duplicates()) by {
            assert forall|a: int, b: int|
                0 <= a < first.len() && 0 <= b < first.len() && a != b implies first[a]
                != first[b] by {
                assert(first[a] == ids[a] && first[b] == ids[b]);
            }
        }
        law_accepted_are_registered(v, first, remote, opened, now);
        let before = v.open_all(first, remote, opened, now);
        let w = v.open_all(ids, remote, opened, now);
        let n = ids.len() - 1;
        assert(!first.contains(ids.last())) by {
            if first.contains(ids.last()) {
                let i = choose|i: int| 0 <= i < first.len() && first[i] == ids.last();
                assert(ids[i] == ids[n]);
            }
        }
        assert(before.conns.contains_key(ids[n]) == v.conns.contains_key(ids[n]));
        assert forall|i: int| 0 <= i < ids.len() implies if (#[trigger] opened[i]).1 is Queued {
            &&& w.conns.contains_key(ids[i])
            &&& w.conns[ids[i]].user == opened[i].0
            &&& w.conns[ids[i]].conn == (ConnView {
                inner: InnerView { established: true, ..fresh_conn(ids[i], remote, now).inner },
                ..fresh_conn(ids[i], remote, now)
            })
        } else {
            &&& w.conns.contains_key(ids[i]) == v.conns.contains_key(ids[i])
            &&& w.conns[ids[i]] == v.conns[ids[i]]
        } by {
            if i < n {
                assert(first[i] == ids[i]);
                assert(ids[i] != ids[n]);
            }
        }
        assert forall|cid: u32| !ids.contains(cid) implies (#[trigger] w.conns.contains_key(cid)
            == v.conns.contains_key(cid)) && w.conns[cid] == v.conns[cid] by {
            assert(ids[n] == ids.last());
            if first.contains(cid) {
                let i = choose|i: int| 0 <= i < first.len() && first[i] == cid;
                assert(ids[i] == cid);
            }
            assert(before.conns.contains_key(cid) == v.conns.contains_key(cid));
        }
    }
}

/// The ids that are asked for: each once, in the order of the first requests for them.
pub proof fn law_asked_in_order<A, H>(v: DriverView<A, H>, frames: Seq<FrameView>, frame: FrameView)
    ensures
        v.asked(Seq::empty()) == Seq::<u32>::empty(),
        v.asked(frames.push(frame)) == match frame {
            FrameView::Handshake { cid } => if cid == HANDSHAKE_CID || v.conns.contains_key(cid)
                || v.asked(frames).contains(cid) {
                v.asked(frames)
            } else {
                v.asked(frames).push(cid)
            },
            _ => v.asked(frames),
        },
{
    assert(frames.push(frame).drop_last() =~= frames);
}

/// A datagram is under this id.
pub open spec fn is_under<A>(packet: (A, Seq<u8>), cid: u32) -> bool {
    match packet_parts(packet.1) {
        Some((id, _)) => id == cid,
        None => false,
    }
}

/// The datagrams under an id, in order.
pub open spec fn under<A>(packets: Seq<(A, Seq<u8>)>, cid: u32) -> Seq<(A, Seq<u8>)>
    decreases packets.len(),
{
    if packets.len() == 0 {
        Seq::empty()
    } else if is_under(packets.last(), cid) {
        under(packets.drop_last(), cid).push(packets.last())
    } else {
        under(packets.drop_last(), cid)
    }
}

/// The datagrams under an id, of two rows.
proof fn lemma_under_append<A>(a: Seq<(A, Seq<u8>)>, b: Seq<(A, Seq<u8>)>, cid: u32)
    ensures
        under(a + b, cid) == under(a, cid) + under(b, cid),
    decreases b.len(),
{
    if b.len() == 0 {
        assert(a + b =~= a);
        assert(under(a, cid) + Seq::<(A, Seq<u8>)>::empty() =~= under(a, cid));
    } else {
        lemma_under_append(a, b.drop_last(), cid);
        assert((a + b).drop_last() =~= a + b.drop_last());
        assert((a + b).last() == b.last());
        if is_under(b.last(), cid) {
            assert(under(a, cid) + under(b.drop_last(), cid).push(b.last()) =~= (under(a, cid)
                + under(b.drop_last(), cid)).push(b.last()));
        }
    }
}

/// A row of datagrams that are all under one id.
proof fn lemma_under_one<A>(packets: Seq<(A, Seq<u8>)>, owner: u32, cid: u32)
    requires
        forall|i: int| 0 <= i < packets.len() ==> is_under(#[trigger] packets[i], owner),
    ensures
        under(packets, cid) == if cid == owner {
            packets
        } else {
            Seq::empty()
        },
    decreases packets.len(),
{
    if packets.len() > 0 {
        let first = packets.drop_last();
        assert forall|i: int| 0 <= i < first.len() implies is_under(#[trigger] first[i], owner) by {
            assert(first[i] == packets[i]);
        }
        lemma_under_one(first, owner, cid);
        assert(packets[packets.len() - 1] == packets.last());
        assert(first.push(packets.last()) =~= packets);
    } else {
        assert(packets =~= Seq::empty());
    }
}

/// A datagram under an id is among those under that id.
pub(crate) proof fn lemma_among_under<A>(packets: Seq<(A, Seq<u8>)>, i: int, cid: u32)
    requires
        0 <= i < packets.len(),
        is_under(packets[i], cid),
    ensures
        under(packets, cid).contains(packets[i]),
    decreases packets.len(),
{
    let all = under(packets, cid);
    let first = packets.drop_last();
    if i < first.len() {
        lemma_among_under(first, i, cid);
        let had = under(first, cid);
        let k = choose|k: int| 0 <= k < had.len() && had[k] == packets[i];
        assert(all[k] == packets[i]);
    } else {
        assert(all[all.len() - 1] == packets[i]);
    }
}

/// Each datagram of a turn of all connections goes to the peer of its connection: it is under
/// the id of a connection that had its turn, and addressed to the peer of that connection. The
/// datagrams under an id are those of the connection's own turn, in order.
///
/// Each connection must be registered under its own id, and the datagrams of its own turn be
/// for its peer and under its id.
pub proof fn law_turn_datagrams<A, H>(v: DriverView<A, H>, ids: Seq<u32>, now: u64)
    requires
        ids.no_duplicates(),
        forall|i: int, k: int|
            0 <= i < ids.len() && 0 <= k < v.conns[ids[i]].conn.round(now).1.len() ==> {
                let packet = #[trigger] v.conns[ids[i]].conn.round(now).1[k];
                packet.0 == v.conns[ids[i]].conn.remote && is_under(packet, ids[i])
            },
    ensures
        forall|i: int|
            0 <= i < v.turn_packets(ids, now).len() ==> {
                let packet = #[trigger] v.turn_packets(ids, now)[i];
                packet_parts(packet.1) matches Some((cid, _)) && ids.contains(cid) && packet.0
                    == v.conns[cid].conn.remote
            },
        forall|cid: u32| #[trigger]
            ids.contains(cid) ==> under(v.turn_packets(ids, now), cid)
                == v.conns[cid].conn.round(now).1,
        forall|cid: u32|
            !ids.contains(cid) ==> (#[trigger] under(v.turn_packets(ids, now), cid)).len() == 0,
    decreases ids.len(),
{
    if ids.len() > 0 {
        let first = ids.drop_last();
        let last = ids.last();
        let n = ids.len() - 1;
        assert(ids[n] == last);
        assert(first.no_duplicates()) by {
            assert forall|a: int, b: int|
                0 <= a < first.len() && 0 <= b < first.len() && a != b implies first[a]
                != first[b] by {
                assert(first[a] == ids[a] && first[b] == ids[b]);
            }
        }
        assert forall|i: int, k: int|
            0 <= i < first.len() && 0 <= k < v.conns[first[i]].conn.round(now).1.len() implies {
            let packet = #[trigger] v.conns[first[i]].conn.round(now).1[k];
            packet.0 == v.conns[first[i]].conn.remote && is_under(packet, first[i])
        } by {
            assert(first[i] == ids[i]);
            let packet = v.conns[ids[i]].conn.round(now).1[k];
            assert(packet.0 == v.conns[ids[i]].conn.remote && is_under(packet, ids[i]));
        }
        law_turn_datagrams(v, first, now);
        assert(!first.contains(last)) by {
            if first.contains(last) {
                let i = choose|i: int| 0 <= i < first.len() && first[i] == last;
                assert(ids[i] == ids[n]);
            }
        }
        assert forall|cid: u32| #[trigger]
            ids.contains(cid) == (first.contains(cid) || cid == last) by {
            if first.contains(cid) {
                let i = choose|i: int| 0 <= i < first.len() && first[i] == cid;
                assert(ids[i] == cid);
            }
            if ids.contains(cid) {
                let i = choose|i: int| 0 <= i < ids.len() && ids[i] == cid;
                if i < n {
                    assert(first[i] == cid);
                }
            }
        }
        let had = v.turn_packets(first, now);
        let new = v.conns[last].conn.round(now).1;
        let all = v.turn_packets(ids, now);
        assert forall|k: int| 0 <= k < new.len() implies is_under(#[trigger] new[k], last)
            && new[k].0 == v.conns[last].conn.remote by {
            let packet = v.conns[ids[n]].conn.round(now).1[k];
            assert(packet.0 == v.conns[ids[n]].conn.remote && is_under(packet, ids[n]));
        }
        assert forall|i: int| 0 <= i < all.len() implies {
            let packet = #[trigger] all[i];
            packet_parts(packet.1) matches Some((cid, _)) && ids.contains(cid) && packet.0
                == v.conns[cid].conn.remote
        } by {
            if i < had.len() {
                assert(all[i] == had[i]);
            } else {
                assert(all[i] == new[i - had.len()]);
                assert(ids.contains(last));
            }
        }
        assert forall|cid: u32| true implies #[trigger] under(all, cid) == under(had, cid) + if cid
            == last {
            new
        } else {
            Seq::empty()
        } by {
            lemma_under_append(had, new, cid);
            lemma_under_one(new, last, cid);
        }
        assert forall|cid: u32| #[trigger] ids.contains(cid) implies under(all, cid)
            == v.conns[cid].conn.round(now).1 by {
            let part = under(had, cid);
            assert(under(all, cid) == part + if cid == last {
                new
            } else {
                Seq::empty()
            });
            if cid == last {
                assert(part.len() == 0);
                assert(part + new =~= new);
            } else {
                assert(first.contains(cid));
                assert(part + Seq::<(A, Seq<u8>)>::empty() =~= part);
            }
        }
    }
}

/// What a turn of all connections releases are the connections that are done, each once and as
/// its own turn leaves it, and no others.
pub proof fn law_turn_releases<A, H>(v: DriverView<A, H>, ids: Seq<u32>, now: u64)
    requires
        ids.no_duplicates(),
    ensures
        ({
            let gone = v.turn_released(ids, now);
            &&& forall|k: int|
                0 <= k < gone.len() ==> {
                    let (cid, e) = #[trigger] gone[k];
                    &&& ids.contains(cid)
                    &&& v.conns[cid].conn.round(now).2
                    &&& e.conn == v.conns[cid].conn.round(now).0
                    &&& e.user == v.conns[cid].user
                }
            &&& forall|i: int|
                0 <= i < ids.len() && v.conns[#[trigger] ids[i]].conn.round(now).2
                    ==> gone.contains(
                    (
                        ids[i],
                        EntryView {
                            conn: v.conns[ids[i]].conn.round(now).0,
                            user: v.conns[ids[i]].user,
                        },
                    ),
                )
            &&& gone.len() <= ids.len()
        }),
    decreases ids.len(),
{
    if ids.len() > 0 {
        let first = ids.drop_last();
        let last = ids.last();
        let n = ids.len() - 1;
        assert(ids[n] == last);
        assert(first.no_duplicates()) by {
            assert forall|a: int, b: int|
                0 <= a < first.len() && 0 <= b < first.len() && a != b implies first[a]
                != first[b] by {
                assert(first[a] == ids[a] && first[b] == ids[b]);
            }
        }
        law_turn_releases(v, first, now);
        let had = v.turn_released(first, now);
        let gone = v.turn_released(ids, now);
        assert forall|k: int| 0 <= k < gone.len() implies {
            let (cid, e) = #[trigger] gone[k];
            &&& ids.contains(cid)
            &&& v.conns[cid].conn.round(now).2
            &&& e.conn == v.conns[cid].conn.round(now).0
            &&& e.user == v.conns[cid].user
        } by {
            if k < had.len() {
                assert(gone[k] == had[k]);
                let cid = had[k].0;
                assert(first.contains(cid));
                let i = choose|i: int| 0 <= i < first.len() && first[i] == cid;
                assert(ids[i] == cid);
            }
        }
        assert forall|i: int|
            0 <= i < ids.len()
                && v.conns[#[trigger] ids[i]].conn.round(now).2 implies gone.contains(
            (
                ids[i],
                EntryView { conn: v.conns[ids[i]].conn.round(now).0, user: v.conns[ids[i]].user },
            ),
        ) by {
            let e = (
                ids[i],
                EntryView { conn: v.conns[ids[i]].conn.round(now).0, user: v.conns[ids[i]].user },
            );
            if i < n {
                assert(first[i] == ids[i]);
                assert(had.contains(e));
                let k = choose|k: int| 0 <= k < had.len() && had[k] == e;
                assert(gone[k] == e);
            } else {
                assert(gone[had.len() as int] == e);
            }
        }
    }
}

} // verus!
