//! An endpoint: the connections behind one socket, the handshake, and what becomes of a
//! datagram that arrives.

use std::collections::HashMap;

use vstd::prelude::*;
use vstd::std_specs::iter::IteratorSpec;

use crate::conn::{fresh_conn, ConnShared, ConnView};
use crate::error::Error;
use crate::frame::{
    carried, decode_packet, encode_packet, frame_views, packet_bytes, packet_parts, packet_views,
    Frame, FrameView, OutPacket, CID_HEADER_LEN, HANDSHAKE_CID, MAX_DATAGRAM_SIZE,
};
use crate::inner::{
    InnerView, DATAGRAM_QUEUE_CAP, HANDSHAKE_TIMEOUT, IDLE_TIMEOUT, MAX_INFLIGHT_MSGS,
};
use crate::laws::{best_effort, law_turns_are_independent};
use crate::receiving::at_most;
use crate::registry::{
    is_under, known_requests, law_accepted_are_registered, law_answers, law_news,
    law_requests_are_answered, law_turn_datagrams, law_turn_releases, lemma_among_under, under,
};
use crate::sending::law_silent_peer;

verus! {

/// The most connections that wait to be accepted. While nobody accepts them, handshakes beyond
/// that are dropped, and the client may try again.
pub const ACCEPT_QUEUE_CAP: usize = 256;

/// How often connections get their turn where nothing else asks for one, in nanoseconds.
pub const SEND_TICK: u64 = 20_000_000;

/// How long a client waits before it sends its handshake again, in nanoseconds.
pub const HANDSHAKE_RETRY: u64 = 300_000_000;

/// A registered connection, and what its user knows it by.
pub struct Entry<A, H> {
    /// The connection.
    pub conn: ConnShared<A>,
    /// The user's handle.
    pub user: H,
}

/// The model of a registered connection.
pub struct EntryView<A, H> {
    pub conn: ConnView<A>,
    pub user: H,
}

impl<A, H> View for Entry<A, H> {
    type V = EntryView<A, H>;

    open spec fn view(&self) -> EntryView<A, H> {
        EntryView { conn: self.conn@, user: self.user }
    }
}

/// The connections of an endpoint by their ids.
pub struct DriverState<A, H> {
    /// The connections.
    pub conns: HashMap<u32, Entry<A, H>>,
}

/// The model of the connections of an endpoint.
#[verifier::ext_equal]
pub struct DriverView<A, H> {
    pub conns: Map<u32, EntryView<A, H>>,
}

impl<A, H> View for DriverState<A, H> {
    type V = DriverView<A, H>;

    open spec fn view(&self) -> DriverView<A, H> {
        DriverView { conns: self.conns@.map_values(|e: Entry<A, H>| e@) }
    }
}

impl<A, H> DriverView<A, H> {
    /// What holds at all times: each connection is sound and registered under its own id, and
    /// none has the id of handshake datagrams.
    pub open spec fn sound(self) -> bool {
        forall|cid: u32| #[trigger]
            self.conns.contains_key(cid) ==> {
                &&& cid != HANDSHAKE_CID
                &&& self.conns[cid].conn.cid == cid
                &&& self.conns[cid].conn.sound()
            }
    }

    /// A connection is registered in place of any that has the same id.
    pub open spec fn put(self, cid: u32, conn: ConnView<A>, user: H) -> DriverView<A, H> {
        DriverView { conns: self.conns.insert(cid, EntryView { conn, user }) }
    }

    /// The connection with this id, if any, is forgotten.
    pub open spec fn forget(self, cid: u32) -> DriverView<A, H> {
        DriverView { conns: self.conns.remove(cid) }
    }

    /// The connection with this id is closed, or there is none.
    pub open spec fn is_closed(self, cid: u32) -> bool {
        self.conns.contains_key(cid) ==> self.conns[cid].conn.closed
    }
}

/// The datagram by which a client asks for a connection with this id.
pub open spec fn handshake_bytes(cid: u32) -> Seq<u8> {
    packet_bytes(HANDSHAKE_CID, seq![FrameView::Handshake { cid }])
}

/// The datagram that answers it.
pub open spec fn handshake_ack_bytes(cid: u32) -> Seq<u8> {
    packet_bytes(HANDSHAKE_CID, seq![FrameView::HandshakeAck { cid }])
}

/// Calls `fastrand::u32` with the range from 1 up to but not including `u32::MAX`: some
/// number in that range.
#[verifier::external_body]
fn random_cid() -> (cid: u32)
    ensures
        1 <= cid < u32::MAX,
{
    fastrand::u32(1..u32::MAX)
}

impl<A: Copy, H> DriverState<A, H> {
    /// No connections.
    pub fn new() -> (s: DriverState<A, H>)
        ensures
            s@.conns == Map::<u32, EntryView<A, H>>::empty(),
            s@.sound(),
    {
        let s = DriverState { conns: HashMap::new() };
        assert(s@.conns =~= Map::empty());
        s
    }

    /// The connection with this id, if there is one.
    pub fn lookup(&self, cid: u32) -> (e: Option<&Entry<A, H>>)
        ensures
            match e {
                Some(e) => self@.conns.contains_key(cid) && e@ == self@.conns[cid],
                None => !self@.conns.contains_key(cid),
            },
    {
        self.conns.get(&cid)
    }

    /// Whether the connection with this id is closed or gone.
    pub fn is_closed(&self, cid: u32) -> (closed: bool)
        ensures
            closed == self@.is_closed(cid),
            closed == (!self@.conns.contains_key(cid) || self@.conns[cid].conn.closed),
    {
        match self.conns.get(&cid) {
            Some(e) => e.conn.is_closed(),
            None => true,
        }
    }

    /// Registers a connection in place of any that has the same id.
    fn put(&mut self, cid: u32, conn: ConnShared<A>, user: H)
        ensures
            final(self)@ == old(self)@.put(cid, conn@, user),
    {
        let _ = self.conns.insert(cid, Entry { conn, user });
        assert(self@.conns =~= old(self)@.put(cid, conn@, user).conns);
    }

    /// Takes the connection with this id out of the registry.
    fn take(&mut self, cid: u32) -> (e: Option<Entry<A, H>>)
        ensures
            final(self)@ == old(self)@.forget(cid),
            match e {
                Some(e) => old(self)@.conns.contains_key(cid) && e@ == old(self)@.conns[cid],
                None => !old(self)@.conns.contains_key(cid),
            },
    {
        let e = self.conns.remove(&cid);
        assert(self@.conns =~= old(self)@.forget(cid).conns);
        e
    }

    /// Closes the connection with this id on behalf of its user. Does nothing, and says so,
    /// where it is closed or gone.
    pub fn close(&mut self, cid: u32) -> (fresh: bool)
        requires
            old(self)@.sound(),
        ensures
            fresh == !old(self)@.is_closed(cid),
            fresh ==> final(self)@ == old(self)@.put(
                cid,
                old(self)@.conns[cid].conn.close(),
                old(self)@.conns[cid].user,
            ),
            !fresh ==> final(self)@ == old(self)@,
            fresh == (old(self)@.conns.contains_key(cid) && !old(self)@.conns[cid].conn.closed),
            fresh ==> final(self)@.conns == old(self)@.conns.insert(
                cid,
                EntryView {
                    conn: ConnView { closed: true, closing: true, ..old(self)@.conns[cid].conn },
                    user: old(self)@.conns[cid].user,
                },
            ),
            final(self)@.sound(),
    {
        match self.take(cid) {
            Some(e) => {
                let mut e = e;
                let fresh = e.conn.close();
                self.put(cid, e.conn, e.user);
                assert(!fresh ==> self@.conns =~= old(self)@.conns);
                assert(fresh ==> self@.conns =~= old(self)@.put(
                    cid,
                    old(self)@.conns[cid].conn.close(),
                    old(self)@.conns[cid].user,
                ).conns);
                fresh
            },
            None => {
                assert(self@.conns =~= old(self)@.conns);
                false
            },
        }
    }

    /// Registers a client's connection under this id, which must be free and not that of
    /// handshake datagrams, and gives the datagram that asks the peer for it. Gives the user's
    /// handle back where the id will not do.
    pub fn register(&mut self, cid: u32, remote: A, user: H, now: u64) -> (r: Result<Vec<u8>, H>)
        requires
            old(self)@.sound(),
        ensures
            r is Ok <==> cid != HANDSHAKE_CID && !old(self)@.conns.contains_key(cid),
            match r {
                Ok(pkt) => {
                    &&& final(self)@ == old(self)@.put(cid, fresh_conn(cid, remote, now), user)
                    &&& final(self)@.conns == old(self)@.conns.insert(
                        cid,
                        EntryView { conn: fresh_conn(cid, remote, now), user },
                    )
                    &&& pkt@ == handshake_bytes(cid)
                    &&& packet_parts(pkt@) == Some(
                        (HANDSHAKE_CID, seq![FrameView::Handshake { cid }]),
                    )
                },
                Err(u) => u == user && final(self)@ == old(self)@,
            },
            final(self)@.sound(),
    {
        if cid == HANDSHAKE_CID || self.conns.contains_key(&cid) {
            return Err(user);
        }
        self.put(cid, ConnShared::new(cid, remote, now), user);
        let frames = [Frame::Handshake { cid }];
        assert(frame_views(frames@) =~= seq![FrameView::Handshake { cid }]);
        Ok(encode_packet(HANDSHAKE_CID, &frames))
    }

    /// Starts a connection to this address under an id drawn at random. Gives the user's handle
    /// back where the id is taken: the caller draws again.
    pub fn begin_connect(&mut self, remote: A, user: H, now: u64) -> (r: Result<(u32, Vec<u8>), H>)
        requires
            old(self)@.sound(),
        ensures
            match r {
                Ok((cid, pkt)) => {
                    &&& 1 <= cid < u32::MAX
                    &&& !old(self)@.conns.contains_key(cid)
                    &&& final(self)@ == old(self)@.put(cid, fresh_conn(cid, remote, now), user)
                    &&& final(self)@.conns == old(self)@.conns.insert(
                        cid,
                        EntryView { conn: fresh_conn(cid, remote, now), user },
                    )
                    &&& pkt@ == handshake_bytes(cid)
                    &&& packet_parts(pkt@) == Some(
                        (HANDSHAKE_CID, seq![FrameView::Handshake { cid }]),
                    )
                },
                Err(u) => {
                    &&& u == user
                    &&& final(self)@ == old(self)@
                    &&& exists|cid: u32|
                        1 <= cid < u32::MAX && #[trigger] old(self)@.conns.contains_key(cid)
                },
            },
            final(self)@.sound(),
    {
        let cid: u32 = random_cid();
        match self.register(cid, remote, user, now) {
            Ok(pkt) => Ok((cid, pkt)),
            Err(user) => Err(user),
        }
    }
}

/// What became of a new connection that was offered to the acceptor.
#[derive(Debug, Clone, Copy, PartialEq, Eq)]
pub enum Accepted {
    /// It waits to be accepted.
    Queued,
    /// There was no room for it to wait.
    Full,
    /// There is no acceptor.
    Gone,
}

/// What the frames of a handshake datagram call for.
pub struct Handshakes<A> {
    /// The datagrams to send, in order.
    pub replies: Vec<OutPacket<A>>,
    /// The connections whose handshake is done with this, in order.
    pub established: Vec<u32>,
}

/// Whether a request for a connection with this id is among the frames.
pub open spec fn requested(frames: Seq<FrameView>, cid: u32) -> bool {
    frames.contains(FrameView::Handshake { cid })
}

impl<A, H> DriverView<A, H> {
    /// The ids that frames ask new connections for, each once, in order: those that are not
    /// registered and may be used.
    pub open spec fn asked(self, frames: Seq<FrameView>) -> Seq<u32>
        decreases frames.len(),
    {
        if frames.len() == 0 {
            Seq::empty()
        } else {
            let before = self.asked(frames.drop_last());
            match frames.last() {
                FrameView::Handshake { cid } => if cid != HANDSHAKE_CID
                    && !self.conns.contains_key(cid) && !before.contains(cid) {
                    before.push(cid)
                } else {
                    before
                },
                _ => before,
            }
        }
    }

    /// New connections with these ids are registered, as far as they wait to be accepted. Each
    /// counts as established at once. One that found no room or no acceptor is dropped.
    pub open spec fn open_all(
        self,
        ids: Seq<u32>,
        remote: A,
        opened: Seq<(H, Accepted)>,
        now: u64,
    ) -> DriverView<A, H>
        decreases ids.len(),
    {
        if ids.len() == 0 {
            self
        } else {
            let before = self.open_all(ids.drop_last(), remote, opened, now);
            let (user, accepted) = opened[ids.len() - 1];
            if accepted is Queued {
                before.put(ids.last(), fresh_conn(ids.last(), remote, now).establish(), user)
            } else {
                before
            }
        }
    }

    /// What a frame of a handshake datagram does to the connections that are registered: an
    /// answer says that the handshake of its connection is done.
    pub open spec fn shake(self, frame: FrameView) -> DriverView<A, H> {
        match frame {
            FrameView::HandshakeAck { cid } => if self.conns.contains_key(cid) {
                self.put(cid, self.conns[cid].conn.establish(), self.conns[cid].user)
            } else {
                self
            },
            _ => self,
        }
    }

    /// What the frames of a handshake datagram do, one after the other.
    pub open spec fn shakes(self, frames: Seq<FrameView>) -> DriverView<A, H>
        decreases frames.len(),
    {
        if frames.len() == 0 {
            self
        } else {
            self.shakes(frames.drop_last()).shake(frames.last())
        }
    }

    /// The answer to a frame of a handshake datagram: a request is answered if and only if its
    /// connection is registered.
    pub open spec fn reply(self, frame: FrameView, remote: A) -> Seq<(A, Seq<u8>)> {
        match frame {
            FrameView::Handshake { cid } => if self.conns.contains_key(cid) {
                seq![(remote, handshake_ack_bytes(cid))]
            } else {
                Seq::empty()
            },
            _ => Seq::empty(),
        }
    }

    /// The answers to the frames of a handshake datagram, in order.
    pub open spec fn replies(self, frames: Seq<FrameView>, remote: A) -> Seq<(A, Seq<u8>)>
        decreases frames.len(),
    {
        if frames.len() == 0 {
            Seq::empty()
        } else {
            self.replies(frames.drop_last(), remote) + self.reply(frames.last(), remote)
        }
    }

    /// The connection whose handshake is done with this frame.
    pub open spec fn news(self, frame: FrameView) -> Seq<u32> {
        match frame {
            FrameView::HandshakeAck { cid } => if self.conns.contains_key(cid)
                && !self.conns[cid].conn.inner.established {
                seq![cid]
            } else {
                Seq::empty()
            },
            _ => Seq::empty(),
        }
    }

    /// The connections whose handshake is done with these frames, in order.
    pub open spec fn all_news(self, frames: Seq<FrameView>) -> Seq<u32>
        decreases frames.len(),
    {
        if frames.len() == 0 {
            Seq::empty()
        } else {
            self.all_news(frames.drop_last()) + self.shakes(frames.drop_last()).news(frames.last())
        }
    }
}

/// The ids that are asked for: each once, and just those that are requested, free and usable.
proof fn lemma_asked<A, H>(v: DriverView<A, H>, frames: Seq<FrameView>)
    ensures
        v.asked(frames).no_duplicates(),
        forall|cid: u32| #[trigger]
            v.asked(frames).contains(cid) <==> requested(frames, cid) && cid != HANDSHAKE_CID
                && !v.conns.contains_key(cid),
    decreases frames.len(),
{
    if frames.len() > 0 {
        let first = frames.drop_last();
        let before = v.asked(first);
        lemma_asked(v, first);
        assert forall|cid: u32| #[trigger]
            v.asked(frames).contains(cid) <==> requested(frames, cid) && cid != HANDSHAKE_CID
                && !v.conns.contains_key(cid) by {
            let f = FrameView::Handshake { cid };
            assert(frames.contains(f) <==> first.contains(f) || frames.last() == f) by {
                if first.contains(f) {
                    let i = choose|i: int| 0 <= i < first.len() && first[i] == f;
                    assert(frames[i] == f);
                }
                if frames.last() == f {
                    assert(frames[frames.len() - 1] == f);
                }
                if frames.contains(f) {
                    let i = choose|i: int| 0 <= i < frames.len() && frames[i] == f;
                    if i < first.len() {
                        assert(first[i] == f);
                    }
                }
            }
            assert(before.contains(cid) <==> requested(first, cid) && cid != HANDSHAKE_CID
                && !v.conns.contains_key(cid));
            if let FrameView::Handshake { cid: last } = frames.last() {
                let longer = before.push(last);
                assert(longer.contains(cid) <==> before.contains(cid) || cid == last) by {
                    assert(longer[before.len() as int] == last);
                    if before.contains(cid) {
                        let i = choose|i: int| 0 <= i < before.len() && before[i] == cid;
                        assert(longer[i] == cid);
                    }
                }
            }
        }
    }
}

/// This datagram answers the request for a connection with this id.
pub open spec fn answers<A>(packet: (A, Seq<u8>), cid: u32) -> bool {
    packet_parts(packet.1) == Some((HANDSHAKE_CID, seq![FrameView::HandshakeAck { cid }]))
}

/// What a handshake datagram comes to for each connection.
proof fn lemma_handshake_outcome<A, H>(
    v: DriverView<A, H>,
    frames: Seq<FrameView>,
    remote: A,
    opened: Seq<(H, Accepted)>,
    now: u64,
)
    requires
        opened.len() == v.asked(frames).len(),
    ensures
        ({
            let ids = v.asked(frames);
            let with_new = v.open_all(ids, remote, opened, now);
            let w = with_new.shakes(frames);
            let news = with_new.all_news(frames);
            &&& w.conns.dom() == with_new.conns.dom()
            &&& forall|cid: u32| #[trigger]
                v.conns.contains_key(cid) ==> w.conns.contains_key(cid) && w.conns[cid] == (
                EntryView {
                    conn: ConnView {
                        inner: InnerView {
                            established: v.conns[cid].conn.inner.established || frames.contains(
                                FrameView::HandshakeAck { cid },
                            ),
                            ..v.conns[cid].conn.inner
                        },
                        ..v.conns[cid].conn
                    },
                    user: v.conns[cid].user,
                })
            &&& forall|i: int|
                0 <= i < opened.len() ==> if (#[trigger] opened[i]).1 is Queued {
                    &&& w.conns.contains_key(ids[i])
                    &&& w.conns[ids[i]].user == opened[i].0
                    &&& w.conns[ids[i]].conn == (ConnView {
                        inner: InnerView {
                            established: true,
                            ..fresh_conn(ids[i], remote, now).inner
                        },
                        ..fresh_conn(ids[i], remote, now)
                    })
                } else {
                    !w.conns.contains_key(ids[i])
                }
            &&& forall|cid: u32| #[trigger]
                w.conns.contains_key(cid) ==> v.conns.contains_key(cid) || ids.contains(cid)
            &&& news.no_duplicates()
            &&& forall|cid: u32| #[trigger]
                news.contains(cid) <==> frames.contains(FrameView::HandshakeAck { cid })
                    && v.conns.contains_key(cid) && !v.conns[cid].conn.inner.established
        }),
{
    let ids = v.asked(frames);
    let with_new = v.open_all(ids, remote, opened, now);
    let w = with_new.shakes(frames);
    let news = with_new.all_news(frames);
    lemma_asked(v, frames);
    law_accepted_are_registered(v, ids, remote, opened, now);
    law_answers(with_new, frames);
    law_news(with_new, frames);
    assert forall|cid: u32| #[trigger] w.conns.contains_key(cid) == with_new.conns.contains_key(
        cid,
    ) by {
        assert(w.conns.dom().contains(cid) == with_new.conns.dom().contains(cid));
    }
    assert forall|cid: u32| #[trigger]
        v.conns.contains_key(cid) implies with_new.conns.contains_key(cid) && with_new.conns[cid] == v.conns[cid] && w.conns.contains_key(cid) by {
        assert(!ids.contains(cid));
    }
    assert forall|i: int| 0 <= i < opened.len() implies if (#[trigger] opened[i]).1 is Queued {
        &&& w.conns.contains_key(ids[i])
        &&& w.conns[ids[i]].user == opened[i].0
        &&& w.conns[ids[i]].conn == (ConnView {
            inner: InnerView { established: true, ..fresh_conn(ids[i], remote, now).inner },
            ..fresh_conn(ids[i], remote, now)
        })
    } else {
        !w.conns.contains_key(ids[i])
    } by {
        assert(ids.contains(ids[i]));
    }
    assert forall|cid: u32| #[trigger]
        news.contains(cid) <==> frames.contains(FrameView::HandshakeAck { cid })
            && v.conns.contains_key(cid) && !v.conns[cid].conn.inner.established by {
        if ids.contains(cid) {
            let i = choose|i: int| 0 <= i < ids.len() && ids[i] == cid;
            assert(opened[i] == opened[i]);
            assert(!v.conns.contains_key(cid));
        }
    }
}

/// The requests that are answered depend on which ids are registered alone.
proof fn lemma_known_requests<A, H>(
    v: DriverView<A, H>,
    w: DriverView<A, H>,
    frames: Seq<FrameView>,
)
    requires
        v.conns.dom() == w.conns.dom(),
    ensures
        known_requests(v, frames) == known_requests(w, frames),
    decreases frames.len(),
{
    if frames.len() > 0 {
        lemma_known_requests(v, w, frames.drop_last());
        if let FrameView::Handshake { cid } = frames.last() {
            assert(v.conns.dom().contains(cid) == w.conns.dom().contains(cid));
        }
    }
}

/// Whether an id is in a row of ids.
fn contains_id(ids: &Vec<u32>, cid: u32) -> (r: bool)
    ensures
        r == ids@.contains(cid),
{
    let n: usize = ids.len();
    for i in 0..n
        invariant
            n == ids@.len(),
            forall|j: int| 0 <= j < i ==> #[trigger] ids@[j] != cid,
    {
        if ids[i] == cid {
            assert(ids@[i as int] == cid);
            return true;
        }
    }
    false
}

impl<A: Copy, H> DriverState<A, H> {
    /// The ids that the frames of a handshake datagram ask new connections for, each once, in
    /// order. The owner offers each of these to the acceptor, and no others.
    pub fn asked_for(&self, frames: &[Frame]) -> (ids: Vec<u32>)
        ensures
            ids@ == self@.asked(frame_views(frames@)),
            ids@.no_duplicates(),
            forall|cid: u32| #[trigger]
                ids@.contains(cid) <==> requested(frame_views(frames@), cid) && cid
                    != HANDSHAKE_CID && !self@.conns.contains_key(cid),
    {
        let mut ids: Vec<u32> = Vec::new();
        let ghost all = frame_views(frames@);
        let n: usize = frames.len();
        assert(all.take(0) =~= Seq::empty());
        for i in 0..n
            invariant
                n == frames@.len(),
                all == frame_views(frames@),
                ids@ == self@.asked(all.take(i as int)),
        {
            proof {
                assert(all.take(i + 1).drop_last() =~= all.take(i as int));
                assert(all.take(i + 1).last() == frames@[i as int]@);
            }
            if let Frame::Handshake { cid } = &frames[i] {
                let cid: u32 = *cid;
                if cid != HANDSHAKE_CID && !self.conns.contains_key(&cid) && !contains_id(
                    &ids,
                    cid,
                ) {
                    ids.push(cid);
                }
            }
        }
        proof {
            assert(all.take(n as int) =~= all);
            lemma_asked(self@, all);
        }
        ids
    }

    /// Registers new connections, as far as they wait to be accepted.
    fn open_all(&mut self, ids: &Vec<u32>, remote: A, opened: Vec<(H, Accepted)>, now: u64)
        requires
            old(self)@.sound(),
            opened@.len() == ids@.len(),
            !ids@.contains(HANDSHAKE_CID),
        ensures
            final(self)@ == old(self)@.open_all(ids@, remote, opened@, now),
            final(self)@.sound(),
    {
        let ghost start = self@;
        let ghost all = opened@;
        let n: usize = ids.len();
        let mut i: usize = 0;
        assert(ids@.take(0) =~= Seq::empty());
        for one in it: opened
            invariant
                all == it.seq(),
                i == it.index(),
                n == ids@.len(),
                all.len() == ids@.len(),
                !ids@.contains(HANDSHAKE_CID),
                self@.sound(),
                self@ == start.open_all(ids@.take(i as int), remote, all, now),
        {
            let (user, accepted) = one;
            let cid: u32 = ids[i];
            proof {
                assert(all[i as int] == (user, accepted));
                assert(ids@.take(i + 1).drop_last() =~= ids@.take(i as int));
                assert(ids@.contains(ids@[i as int]));
            }
            if let Accepted::Queued = accepted {
                let mut conn = ConnShared::new(cid, remote, now);
                let _ = conn.establish();
                self.put(cid, conn, user);
            }
            i = i + 1;
        }
        assert(ids@.take(ids@.len() as int) =~= ids@);
    }

    /// Takes in one frame of a handshake datagram, and adds to `out` what it calls for.
    fn handle_shake(&mut self, frame: &Frame, remote: A, out: &mut Handshakes<A>)
        requires
            old(self)@.sound(),
        ensures
            final(self)@ == old(self)@.shake(frame@),
            final(self)@.sound(),
            final(self)@.conns.dom() == old(self)@.conns.dom(),
            packet_views(final(out).replies@) == packet_views(old(out).replies@) + old(self)@.reply(
                frame@,
                remote,
            ),
            final(out).established@ == old(out).established@ + old(self)@.news(frame@),
            match frame@ {
                FrameView::Handshake { cid } => old(self)@.conns.contains_key(cid)
                    ==> answers(packet_views(final(out).replies@).last(), cid),
                _ => true,
            },
    {
        proof {
            assert(packet_views(out.replies@) + Seq::<(A, Seq<u8>)>::empty() =~= packet_views(
                out.replies@,
            ));
            assert(out.established@ + Seq::<u32>::empty() =~= out.established@);
        }
        match frame {
            Frame::Handshake { cid } => {
                let cid: u32 = *cid;
                if self.conns.contains_key(&cid) {
                    let frames = [Frame::HandshakeAck { cid }];
                    assert(frame_views(frames@) =~= seq![FrameView::HandshakeAck { cid }]);
                    let pkt = encode_packet(HANDSHAKE_CID, &frames);
                    let ghost had = out.replies@;
                    out.replies.push((remote, pkt));
                    assert(packet_views(out.replies@) =~= packet_views(had) + seq![
                        (remote, handshake_ack_bytes(cid)),
                    ]);
                }
            },
            Frame::HandshakeAck { cid } => {
                let cid: u32 = *cid;
                if let Some(e) = self.take(cid) {
                    let mut e = e;
                    let fresh = e.conn.establish();
                    self.put(cid, e.conn, e.user);
                    if fresh {
                        let ghost had = out.established@;
                        out.established.push(cid);
                        assert(out.established@ =~= had + seq![cid]);
                    }
                    assert(self@.conns =~= old(self)@.shake(frame@).conns);
                    assert(self@.conns.dom() =~= old(self)@.conns.dom());
                } else {
                    assert(self@.conns =~= old(self)@.conns);
                }
            },
            _ => {},
        }
    }

    /// Takes in the frames of a handshake datagram from this address. `opened` holds, for each
    /// id that they ask a new connection for, the user's handle and what became of it with
    /// the acceptor.
    ///
    /// A connection is registered, and its request answered, only if it waits to be accepted.
    pub fn handle_handshake(
        &mut self,
        frames: Vec<Frame>,
        remote: A,
        opened: Vec<(H, Accepted)>,
        now: u64,
    ) -> (out: Handshakes<A>)
        requires
            old(self)@.sound(),
            opened@.len() == old(self)@.asked(frame_views(frames@)).len(),
        ensures
            final(self)@.sound(),
            ({
                let views = frame_views(frames@);
                let with_new = old(self)@.open_all(
                    old(self)@.asked(views),
                    remote,
                    opened@,
                    now,
                );
                &&& final(self)@ == with_new.shakes(views)
                &&& packet_views(out.replies@) == with_new.replies(views, remote)
                &&& out.established@ == with_new.all_news(views)
            }),
            forall|cid: u32| #[trigger]
                old(self)@.conns.contains_key(cid) ==> final(self)@.conns.contains_key(cid)
                    && final(self)@.conns[cid] == (EntryView {
                    conn: ConnView {
                        inner: InnerView {
                            established: old(self)@.conns[cid].conn.inner.established
                                || frame_views(frames@).contains(FrameView::HandshakeAck { cid }),
                            ..old(self)@.conns[cid].conn.inner
                        },
                        ..old(self)@.conns[cid].conn
                    },
                    user: old(self)@.conns[cid].user,
                }),
            forall|i: int|
                0 <= i < opened@.len() ==> {
                    let cid = old(self)@.asked(frame_views(frames@))[i];
                    if (#[trigger] opened@[i]).1 is Queued {
                        &&& final(self)@.conns.contains_key(cid)
                        &&& final(self)@.conns[cid].user == opened@[i].0
                        &&& final(self)@.conns[cid].conn == (ConnView {
                            inner: InnerView {
                                established: true,
                                ..fresh_conn(cid, remote, now).inner
                            },
                            ..fresh_conn(cid, remote, now)
                        })
                    } else {
                        !final(self)@.conns.contains_key(cid)
                    }
                },
            forall|cid: u32| #[trigger]
                final(self)@.conns.contains_key(cid) ==> old(self)@.conns.contains_key(cid) || old(
                    self,
                )@.asked(frame_views(frames@)).contains(cid),
            out.replies@.len() == known_requests(final(self)@, frame_views(frames@)).len(),
            forall|i: int|
                0 <= i < out.replies@.len() ==> {
                    let (address, data) = #[trigger] packet_views(out.replies@)[i];
                    &&& address == remote
                    &&& packet_parts(data) == Some(
                        (
                            HANDSHAKE_CID,
                            seq![
                                FrameView::HandshakeAck {
                                    cid: known_requests(final(self)@, frame_views(frames@))[i],
                                },
                            ],
                        ),
                    )
                },
            out.established@.no_duplicates(),
            forall|cid: u32| #[trigger]
                out.established@.contains(cid) <==> frame_views(frames@).contains(
                    FrameView::HandshakeAck { cid },
                ) && old(self)@.conns.contains_key(cid) && !old(
                    self,
                )@.conns[cid].conn.inner.established,
    {
        let ghost all = frame_views(frames@);
        let ids = self.asked_for(frames.as_slice());
        assert(!ids@.contains(HANDSHAKE_CID));
        let ghost first = self@;
        let ghost offered = opened@;
        self.open_all(&ids, remote, opened, now);
        let ghost start = self@;
        let mut out = Handshakes { replies: Vec::new(), established: Vec::new() };
        proof {
            assert(all.take(0) =~= Seq::empty());
            assert(packet_views(out.replies@) =~= Seq::empty());
            assert(out.established@ =~= Seq::empty());
        }
        for frame in it: frames
            invariant
                all == frame_views(it.seq()),
                self@.sound(),
                self@.conns.dom() == start.conns.dom(),
                self@ == start.shakes(all.take(it.index() as int)),
                packet_views(out.replies@) == start.replies(all.take(it.index() as int), remote),
                out.established@ == start.all_news(all.take(it.index() as int)),
                out.replies@.len() == known_requests(start, all.take(it.index() as int)).len(),
                forall|i: int|
                    0 <= i < out.replies@.len() ==> answers(
                        #[trigger] packet_views(out.replies@)[i],
                        known_requests(start, all.take(it.index() as int))[i],
                    ),
        {
            proof {
                let n = it.index() as int;
                assert(all[n] == frame@);
                assert(all.take(n + 1).drop_last() =~= all.take(n));
                if let FrameView::Handshake { cid } = frame@ {
                    assert(self@.conns.dom().contains(cid) == start.conns.dom().contains(cid));
                }
            }
            let ghost had = packet_views(out.replies@);
            self.handle_shake(&frame, remote, &mut out);
            proof {
                let n = it.index() as int;
                let replies = packet_views(out.replies@);
                let ids = known_requests(start, all.take(n + 1));
                assert forall|i: int| 0 <= i < replies.len() implies answers(
                    #[trigger] replies[i],
                    ids[i],
                ) by {
                    if i < had.len() {
                        assert(replies[i] == had[i]);
                        assert(answers(had[i], known_requests(start, all.take(n))[i]));
                    } else {
                        assert(replies[i] == replies.last());
                    }
                }
            }
        }
        proof {
            assert(all.take(all.len() as int) =~= all);
            lemma_handshake_outcome(first, all, remote, offered, now);
            lemma_known_requests(start, self@, all);
            assert forall|i: int| 0 <= i < out.replies@.len() implies answers(
                #[trigger] packet_views(out.replies@)[i],
                known_requests(self@, all)[i],
            ) && packet_views(out.replies@)[i].0 == remote by {
                law_requests_are_answered(start, all, remote);
                assert(packet_views(out.replies@)[i] == start.replies(all, remote)[i]);
            }
        }
        out
    }
}

/// What became of a datagram that arrived.
pub enum Handled {
    /// It was no packet of this protocol.
    Malformed(Error),
    /// It is a handshake: its frames, and the ids that they ask new connections for. The owner
    /// offers those to the acceptor, and goes on with `handle_handshake`.
    Handshake(Vec<Frame>, Vec<u32>),
    /// No connection has its id.
    Unknown(u32),
    /// Its connection is closed.
    Closed(u32),
    /// Its connection has no numbers left for the chunks that it might hold.
    Exhausted(u32),
    /// Its connection took it in.
    Received(u32),
}

impl<A, H> DriverView<A, H> {
    /// The connections after a datagram. One that is malformed or a handshake, or whose
    /// connection is unknown, closed or out of numbers, changes nothing. Any other goes to
    /// its connection, and touches no other.
    pub open spec fn handle(self, data: Seq<u8>, now: u64) -> DriverView<A, H> {
        match packet_parts(data) {
            Some((cid, frames)) => if cid != HANDSHAKE_CID && self.conns.contains_key(cid)
                && !self.conns[cid].conn.closed && self.conns[cid].conn.inner.recv_next
                + frames.len() <= u64::MAX {
                self.put(cid, self.conns[cid].conn.handle(frames, now), self.conns[cid].user)
            } else {
                self
            },
            None => self,
        }
    }

    /// What is said of a datagram.
    pub open spec fn handled(self, data: Seq<u8>, outcome: Handled) -> bool {
        match packet_parts(data) {
            None => match outcome {
                Handled::Malformed(Error::InvalidParam(what)) => data.len() < CID_HEADER_LEN
                    && what@ == "packet shorter than CID header"@,
                Handled::Malformed(Error::Decode(_)) => data.len() >= CID_HEADER_LEN,
                _ => false,
            },
            Some((cid, frames)) => if cid == HANDSHAKE_CID {
                outcome matches Handled::Handshake(some, ids) && frame_views(some@) == frames
                    && ids@ == self.asked(frames)
            } else if !self.conns.contains_key(cid) {
                outcome == Handled::Unknown(cid)
            } else if self.conns[cid].conn.closed {
                outcome == Handled::Closed(cid)
            } else if self.conns[cid].conn.inner.recv_next + frames.len() > u64::MAX {
                outcome == Handled::Exhausted(cid)
            } else {
                outcome == Handled::Received(cid)
            },
        }
    }
}

impl<A: Copy, H> DriverState<A, H> {
    /// Takes in a datagram: decodes it, and hands its frames to the connection that they are
    /// for, which queues the acknowledgement that they call for, and no other frame. A
    /// handshake is left to the owner to go on with.
    pub fn handle_packet(&mut self, data: &[u8], now: u64) -> (outcome: Handled)
        requires
            old(self)@.sound(),
        ensures
            final(self)@ == old(self)@.handle(data@, now),
            old(self)@.handled(data@, outcome),
            match (outcome, packet_parts(data@)) {
                (Handled::Received(cid), Some((_, frames))) => {
                    let before = old(self)@.conns[cid].conn;
                    final(self)@.conns[cid].conn.inner.batch.queued()
                        == before.inner.batch.queued() + before.acks(frames)
                },
                _ => true,
            },
            match outcome {
                Handled::Malformed(e) => {
                    &&& packet_parts(data@) is None
                    &&& final(self)@ == old(self)@
                    &&& match e {
                        Error::InvalidParam(what) => data@.len() < CID_HEADER_LEN && what@
                            == "packet shorter than CID header"@,
                        Error::Decode(_) => data@.len() >= CID_HEADER_LEN,
                        _ => false,
                    }
                },
                Handled::Handshake(frames, ids) => {
                    &&& packet_parts(data@) == Some((HANDSHAKE_CID, frame_views(frames@)))
                    &&& final(self)@ == old(self)@
                    &&& ids@.no_duplicates()
                    &&& forall|cid: u32| #[trigger]
                        ids@.contains(cid) <==> frame_views(frames@).contains(
                            FrameView::Handshake { cid },
                        ) && cid != HANDSHAKE_CID && !old(self)@.conns.contains_key(cid)
                },
                Handled::Unknown(cid) => {
                    &&& packet_parts(data@) matches Some((id, _)) && id == cid
                    &&& cid != HANDSHAKE_CID
                    &&& !old(self)@.conns.contains_key(cid)
                    &&& final(self)@ == old(self)@
                },
                Handled::Closed(cid) => {
                    &&& packet_parts(data@) matches Some((id, _)) && id == cid
                    &&& old(self)@.conns.contains_key(cid)
                    &&& old(self)@.conns[cid].conn.closed
                    &&& final(self)@ == old(self)@
                },
                Handled::Exhausted(cid) => {
                    &&& packet_parts(data@) matches Some((id, frames)) && id == cid
                        && old(self)@.conns.contains_key(cid)
                        && !old(self)@.conns[cid].conn.closed
                        && old(self)@.conns[cid].conn.inner.recv_next + frames.len() > u64::MAX
                    &&& final(self)@ == old(self)@
                },
                Handled::Received(cid) => {
                    &&& old(self)@.conns.contains_key(cid)
                    &&& final(self)@.conns.dom() == old(self)@.conns.dom()
                    &&& forall|other: u32|
                        old(self)@.conns.contains_key(other) && other != cid
                            ==> #[trigger] final(self)@.conns[other] == old(self)@.conns[other]
                    &&& final(self)@.conns[cid].user == old(self)@.conns[cid].user
                    &&& packet_parts(data@) matches Some((id, frames)) && {
                        let before = old(self)@.conns[cid].conn;
                        let after = final(self)@.conns[cid].conn;
                        &&& id == cid
                        &&& !before.closed
                        &&& after == before.handle(frames, now)
                        &&& after.inner.last_recv == now
                        &&& after.inner.batch.queued() == if !after.closed && exists|i: int|
                            0 <= i < frames.len() && (#[trigger] frames[i]) is Msg {
                            before.inner.batch.queued().push(
                                FrameView::Ack { next_seq: after.inner.recv_next },
                            )
                        } else {
                            before.inner.batch.queued()
                        }
                        &&& !after.closed ==> after.datagrams == at_most(
                            before.datagrams + best_effort(frames),
                            DATAGRAM_QUEUE_CAP as int,
                        )
                    }
                },
            },
            final(self)@.sound(),
    {
        let (cid, frames) = match decode_packet(data) {
            Ok(parts) => parts,
            Err(e) => {
                return Handled::Malformed(e);
            },
        };
        if cid == HANDSHAKE_CID {
            let ids = self.asked_for(frames.as_slice());
            return Handled::Handshake(frames, ids);
        }
        let room: u64 = match self.conns.get(&cid) {
            None => {
                return Handled::Unknown(cid);
            },
            Some(e) => {
                if e.conn.is_closed() {
                    return Handled::Closed(cid);
                }
                u64::MAX - e.conn.inner.recv_next
            },
        };
        if frames.len() as u64 > room {
            return Handled::Exhausted(cid);
        }
        match self.take(cid) {
            Some(e) => {
                let mut e = e;
                let ghost arrived = frames@;
                e.conn.handle_frames(frames, now);
                self.put(cid, e.conn, e.user);
                proof {
                    let views = frame_views(arrived);
                    if exists|i: int| 0 <= i < views.len() && (#[trigger] views[i]) is Msg {
                        let i = choose|i: int| 0 <= i < views.len() && (#[trigger] views[i]) is Msg;
                        assert(arrived[i] is Msg);
                    }
                    if exists|i: int| 0 <= i < arrived.len() && (#[trigger] arrived[i]) is Msg {
                        let i = choose|i: int|
                            0 <= i < arrived.len() && (#[trigger] arrived[i]) is Msg;
                        assert(views[i] is Msg);
                    }
                    assert(self@.conns.dom() =~= old(self)@.conns.dom());
                }
                assert(self@.conns =~= old(self)@.handle(data@, now).conns);
                Handled::Received(cid)
            },
            None => Handled::Unknown(cid),
        }
    }
}

/// How the wait for the answer to a handshake ended.
#[derive(Debug, Clone, Copy, PartialEq, Eq)]
pub enum Waited {
    /// The answer came.
    Established,
    /// The connection is gone.
    Disconnected,
    /// No answer came in time.
    Elapsed,
}

/// What a client does after it waited.
pub enum ConnectStep {
    /// The connection stands.
    Connected,
    /// Send the handshake again and wait.
    Retry,
    /// There will be no connection.
    Failed(Error),
}

/// The time by which a handshake that starts now must be answered.
pub fn handshake_deadline(now: u64) -> (deadline: u64)
    requires
        now + HANDSHAKE_TIMEOUT <= u64::MAX,
    ensures
        deadline == now + HANDSHAKE_TIMEOUT,
{
    now + HANDSHAKE_TIMEOUT
}

/// How long to wait for the answer before the handshake is sent again: no longer than the
/// retry interval, and not past the deadline.
pub fn handshake_wait(now: u64, deadline: u64) -> (wait: u64)
    ensures
        wait <= HANDSHAKE_RETRY,
        now <= deadline ==> now + wait <= deadline,
        now >= deadline ==> wait == 0,
        now + HANDSHAKE_RETRY <= deadline ==> wait == HANDSHAKE_RETRY,
        now <= deadline < now + HANDSHAKE_RETRY ==> now + wait == deadline,
{
    let left: u64 = if now < deadline {
        deadline - now
    } else {
        0
    };
    if left < HANDSHAKE_RETRY {
        left
    } else {
        HANDSHAKE_RETRY
    }
}

impl<A: Copy, H> DriverState<A, H> {
    /// What a client does after it waited for the answer to its handshake. A connection that
    /// will not be is forgotten.
    pub fn connect_step(&mut self, cid: u32, waited: Waited, now: u64, deadline: u64) -> (step:
        ConnectStep)
        requires
            old(self)@.sound(),
        ensures
            match waited {
                Waited::Established => step is Connected,
                Waited::Disconnected => step == ConnectStep::Failed(Error::Closed),
                Waited::Elapsed => if now >= deadline {
                    step == ConnectStep::Failed(Error::HandshakeTimeout)
                } else {
                    step is Retry
                },
            },
            final(self)@ == if step is Failed {
                old(self)@.forget(cid)
            } else {
                old(self)@
            },
            final(self)@.conns == if step is Failed {
                old(self)@.conns.remove(cid)
            } else {
                old(self)@.conns
            },
            final(self)@.sound(),
    {
        match waited {
            Waited::Established => ConnectStep::Connected,
            Waited::Disconnected => {
                let _ = self.take(cid);
                ConnectStep::Failed(Error::Closed)
            },
            Waited::Elapsed => {
                if now >= deadline {
                    let _ = self.take(cid);
                    ConnectStep::Failed(Error::HandshakeTimeout)
                } else {
                    ConnectStep::Retry
                }
            },
        }
    }
}

/// What a turn of all connections gives.
pub struct Turn<A, H> {
    /// The datagrams to send.
    pub packets: Vec<OutPacket<A>>,
    /// The connections that are done, which are forgotten. What waits in them for the user can
    /// still be picked up.
    pub released: Vec<(u32, Entry<A, H>)>,
}

/// The models of connections that are done.
pub open spec fn released_views<A, H>(released: Seq<(u32, Entry<A, H>)>) -> Seq<
    (u32, EntryView<A, H>),
> {
    released.map_values(|r: (u32, Entry<A, H>)| (r.0, r.1@))
}

impl<A, H> DriverView<A, H> {
    /// The connections after those with these ids had their turn. Those that are done are
    /// forgotten.
    pub open spec fn after_turns(self, ids: Seq<u32>, now: u64) -> DriverView<A, H>
        decreases ids.len(),
    {
        if ids.len() == 0 {
            self
        } else {
            let cid = ids.last();
            let before = self.after_turns(ids.drop_last(), now);
            let (conn, _, done) = self.conns[cid].conn.round(now);
            if done {
                before.forget(cid)
            } else {
                before.put(cid, conn, self.conns[cid].user)
            }
        }
    }

    /// The datagrams that those connections send, one connection after the other.
    pub open spec fn turn_packets(self, ids: Seq<u32>, now: u64) -> Seq<(A, Seq<u8>)>
        decreases ids.len(),
    {
        if ids.len() == 0 {
            Seq::empty()
        } else {
            self.turn_packets(ids.drop_last(), now) + self.conns[ids.last()].conn.round(now).1
        }
    }

    /// Those of them that are done, as their turn leaves them.
    pub open spec fn turn_released(self, ids: Seq<u32>, now: u64) -> Seq<(u32, EntryView<A, H>)>
        decreases ids.len(),
    {
        if ids.len() == 0 {
            Seq::empty()
        } else {
            let before = self.turn_released(ids.drop_last(), now);
            let cid = ids.last();
            let (conn, _, done) = self.conns[cid].conn.round(now);
            if done {
                before.push((cid, EntryView { conn, user: self.conns[cid].user }))
            } else {
                before
            }
        }
    }

    /// There are numbers left for all chunks that the send windows have room for.
    pub open spec fn seq_room(self) -> bool {
        forall|cid: u32| #[trigger]
            self.conns.contains_key(cid) ==> self.conns[cid].conn.inner.seq_room()
    }
}

/// A connection whose turn has not come is as it was.
proof fn lemma_turns_others<A, H>(v: DriverView<A, H>, ids: Seq<u32>, cid: u32, now: u64)
    requires
        !ids.contains(cid),
    ensures
        v.after_turns(ids, now).conns.contains_key(cid) == v.conns.contains_key(cid),
        v.conns.contains_key(cid) ==> v.after_turns(ids, now).conns[cid] == v.conns[cid],
    decreases ids.len(),
{
    if ids.len() > 0 {
        assert(ids[ids.len() - 1] == ids.last());
        assert(!ids.drop_last().contains(cid)) by {
            if ids.drop_last().contains(cid) {
                let i = choose|i: int| 0 <= i < ids.len() - 1 && ids.drop_last()[i] == cid;
                assert(ids[i] == cid);
            }
        }
        lemma_turns_others(v, ids.drop_last(), cid, now);
    }
}

/// What a turn of all connections comes to for each of them.
proof fn lemma_turn_outcome<A, H>(v: DriverView<A, H>, ids: Seq<u32>, now: u64)
    requires
        v.sound(),
        ids.no_duplicates(),
        ids.to_set() == v.conns.dom(),
        forall|cid: u32| #[trigger]
            v.conns.contains_key(cid) ==> v.conns[cid].conn.faithful(now),
    ensures
        ({
            let w = v.after_turns(ids, now);
            let packets = v.turn_packets(ids, now);
            let gone = v.turn_released(ids, now);
            &&& forall|i: int|
                0 <= i < packets.len() ==> {
                    let (address, data) = #[trigger] packets[i];
                    &&& data.len() <= MAX_DATAGRAM_SIZE
                    &&& packet_parts(data) matches Some((cid, _)) && v.conns.contains_key(cid)
                        && address == v.conns[cid].conn.remote
                }
            &&& forall|cid: u32| #[trigger]
                v.conns.contains_key(cid) ==> {
                    let before = v.conns[cid].conn;
                    let (after, own, done) = before.round(now);
                    &&& under(packets, cid) == own
                    &&& done == (before.closed || before.inner.established && now
                        >= before.inner.last_recv + IDLE_TIMEOUT)
                    &&& w.conns.contains_key(cid) == !done
                    &&& !done ==> w.conns[cid] == (EntryView {
                        conn: after,
                        user: v.conns[cid].user,
                    })
                    &&& gone.contains((cid, EntryView { conn: after, user: v.conns[cid].user }))
                        == done
                }
            &&& forall|cid: u32| #[trigger]
                w.conns.contains_key(cid) ==> v.conns.contains_key(cid)
            &&& forall|i: int|
                0 <= i < gone.len() ==> v.conns.contains_key((#[trigger] gone[i]).0)
        }),
{
    let w = v.after_turns(ids, now);
    let packets = v.turn_packets(ids, now);
    let gone = v.turn_released(ids, now);
    assert forall|cid: u32| #[trigger] ids.contains(cid) == v.conns.contains_key(cid) by {
        assert(ids.to_set().contains(cid) == ids.contains(cid));
        assert(v.conns.dom().contains(cid) == v.conns.contains_key(cid));
    }
    assert forall|i: int, k: int|
        0 <= i < ids.len() && 0 <= k < v.conns[ids[i]].conn.round(now).1.len() implies {
        let packet = #[trigger] v.conns[ids[i]].conn.round(now).1[k];
        packet.0 == v.conns[ids[i]].conn.remote && is_under(packet, ids[i])
    } by {
        assert(ids.contains(ids[i]));
        assert(v.conns[ids[i]].conn.faithful(now));
    }
    law_turn_datagrams(v, ids, now);
    law_turn_releases(v, ids, now);
    assert forall|i: int| 0 <= i < packets.len() implies {
        let (address, data) = #[trigger] packets[i];
        &&& data.len() <= MAX_DATAGRAM_SIZE
        &&& packet_parts(data) matches Some((cid, _)) && v.conns.contains_key(cid) && address
            == v.conns[cid].conn.remote
    } by {
        let (cid, _) = packet_parts(packets[i].1)->0;
        assert(ids.contains(cid));
        lemma_among_under(packets, i, cid);
        let own = v.conns[cid].conn.round(now).1;
        assert(own.contains(packets[i]));
        let k = choose|k: int| 0 <= k < own.len() && own[k] == packets[i];
        assert(v.conns[cid].conn.faithful(now));
        assert(own[k] == packets[i]);
    }
    assert forall|cid: u32| #[trigger] v.conns.contains_key(cid) implies {
        let before = v.conns[cid].conn;
        let (after, own, done) = before.round(now);
        &&& under(packets, cid) == own
        &&& done == (before.closed || before.inner.established && now >= before.inner.last_recv
            + IDLE_TIMEOUT)
        &&& w.conns.contains_key(cid) == !done
        &&& !done ==> w.conns[cid] == (EntryView { conn: after, user: v.conns[cid].user })
        &&& gone.contains((cid, EntryView { conn: after, user: v.conns[cid].user })) == done
    } by {
        assert(ids.contains(cid));
        let i = choose|i: int| 0 <= i < ids.len() && ids[i] == cid;
        law_turns_are_independent(v, ids, now, i);
        let before = v.conns[cid].conn;
        if !before.closed && before.inner.established {
            law_silent_peer(before, now);
        }
    }
    assert forall|cid: u32| #[trigger] w.conns.contains_key(cid) implies v.conns.contains_key(
        cid,
    ) by {
        if !ids.contains(cid) {
            lemma_turns_others(v, ids, cid, now);
        }
    }
    assert forall|i: int| 0 <= i < gone.len() implies v.conns.contains_key(
        (#[trigger] gone[i]).0,
    ) by {
        assert(ids.contains(gone[i].0));
    }
}

impl<A: Copy, H> DriverState<A, H> {
    /// The ids of all connections, in some order.
    fn ids(&self) -> (ids: Vec<u32>)
        ensures
            ids@.to_set() == self@.conns.dom(),
            ids@.no_duplicates(),
    {
        let mut ids: Vec<u32> = Vec::new();
        for cid in it: self.conns.keys()
            invariant
                ids@.len() == it.index(),
                forall|i: int| 0 <= i < ids@.len() ==> ids@[i] == *it.seq()[i],
        {
            ids.push(*cid);
        }
        assert(ids@ =~= self.conns.keys().remaining().unref());
        assert(self.conns@.dom() =~= self@.conns.dom());
        ids
    }

    /// Whether there are numbers left for all chunks that the send windows have room for.
    pub fn has_seq_room(&self) -> (r: bool)
        requires
            self@.sound(),
        ensures
            r == self@.seq_room(),
            r == forall|cid: u32| #[trigger]
                self@.conns.contains_key(cid) ==> self@.conns[cid].conn.inner.send_next + (
                MAX_INFLIGHT_MSGS - self@.conns[cid].conn.inner.inflight.len()) <= u64::MAX,
    {
        let ids = self.ids();
        for cid in it: ids
            invariant
                it.seq().to_set() == self@.conns.dom(),
                self@.sound(),
                forall|i: int|
                    0 <= i < it.index()
                        ==> self@.conns[#[trigger] it.seq()[i]].conn.inner.seq_room(),
        {
            assert(it.seq().to_set().contains(it.seq()[it.index() as int]));
            match self.conns.get(&cid) {
                Some(e) => {
                    assert(e@ == self@.conns[cid]);
                    if !e.conn.has_seq_room() {
                        return false;
                    }
                },
                None => {},
            }
        }
        proof {
            assert forall|cid: u32| #[trigger]
                self@.conns.contains_key(cid) implies self@.conns[cid].conn.inner.seq_room() by {
                assert(ids@.to_set().contains(cid));
                let i = choose|i: int| 0 <= i < ids@.len() && ids@[i] == cid;
                assert(ids@[i] == cid);
            }
        }
        true
    }

    /// Gives the connection with this id its turn, and adds what comes of it to `turn`.
    fn turn_one(&mut self, cid: u32, now: u64, turn: &mut Turn<A, H>)
        requires
            old(self)@.sound(),
            old(self)@.conns.contains_key(cid),
            old(self)@.conns[cid].conn.inner.seq_room(),
        ensures
            final(self)@.sound(),
            old(self)@.conns[cid].conn.faithful(now),
            ({
                let user = old(self)@.conns[cid].user;
                let (conn, packets, done) = old(self)@.conns[cid].conn.round(now);
                &&& final(self)@ == if done {
                    old(self)@.forget(cid)
                } else {
                    old(self)@.put(cid, conn, user)
                }
                &&& packet_views(final(turn).packets@) == packet_views(old(turn).packets@) + packets
                &&& released_views(final(turn).released@) == if done {
                    released_views(old(turn).released@).push((cid, EntryView { conn, user }))
                } else {
                    released_views(old(turn).released@)
                }
            }),
    {
        let ghost start = self@;
        if let Some(e) = self.take(cid) {
            let mut e = e;
            let round = e.conn.send_round(now);
            let ghost had = turn.packets@;
            let ghost gone = turn.released@;
            let ghost after = e@;
            let mut packets = round.packets;
            let ghost new = packets@;
            turn.packets.append(&mut packets);
            assert(packet_views(turn.packets@) =~= packet_views(had) + packet_views(new));
            if round.released {
                turn.released.push((cid, e));
                assert(released_views(turn.released@) =~= released_views(gone).push((cid, after)));
            } else {
                self.put(cid, e.conn, e.user);
                assert(self@.conns =~= start.put(cid, after.conn, after.user).conns);
            }
        }
    }

    /// Gives every connection its turn, in some order. Gives the datagrams to send, and the
    /// connections that are done.
    pub fn turn(&mut self, now: u64) -> (turn: Turn<A, H>)
        requires
            old(self)@.sound(),
            old(self)@.seq_room(),
        ensures
            final(self)@.sound(),
            exists|ids: Seq<u32>|
                {
                    &&& ids.no_duplicates()
                    &&& ids.to_set() == old(self)@.conns.dom()
                    &&& final(self)@ == #[trigger] old(self)@.after_turns(ids, now)
                    &&& packet_views(turn.packets@) == old(self)@.turn_packets(ids, now)
                    &&& released_views(turn.released@) == old(self)@.turn_released(ids, now)
                },
            forall|cid: u32| #[trigger]
                old(self)@.conns.contains_key(cid) ==> old(self)@.conns[cid].conn.faithful(now),
            forall|i: int|
                0 <= i < turn.packets@.len() ==> {
                    let (address, data) = #[trigger] packet_views(turn.packets@)[i];
                    &&& data.len() <= MAX_DATAGRAM_SIZE
                    &&& packet_parts(data) matches Some((cid, _)) && old(
                        self,
                    )@.conns.contains_key(cid) && address == old(self)@.conns[cid].conn.remote
                },
            forall|cid: u32| #[trigger]
                old(self)@.conns.contains_key(cid) ==> {
                    let before = old(self)@.conns[cid].conn;
                    let (after, packets, done) = before.round(now);
                    &&& under(packet_views(turn.packets@), cid) == packets
                    &&& !before.closed && before.inner.established && !done ==> carried(packets)
                        == before.inner.batch.queued() + before.round_frames(now)
                    &&& done == (before.closed || before.inner.established && now
                        >= before.inner.last_recv + IDLE_TIMEOUT)
                    &&& final(self)@.conns.contains_key(cid) == !done
                    &&& !done ==> final(self)@.conns[cid] == (EntryView {
                        conn: after,
                        user: old(self)@.conns[cid].user,
                    })
                    &&& released_views(turn.released@).contains(
                        (cid, EntryView { conn: after, user: old(self)@.conns[cid].user }),
                    ) == done
                },
            forall|cid: u32| #[trigger]
                final(self)@.conns.contains_key(cid) ==> old(self)@.conns.contains_key(cid),
            forall|i: int|
                0 <= i < turn.released@.len() ==> old(self)@.conns.contains_key(
                    (#[trigger] released_views(turn.released@)[i]).0,
                ),
    {
        let ghost start = self@;
        let ids = self.ids();
        let ghost all = ids@;
        let mut turn = Turn { packets: Vec::new(), released: Vec::new() };
        proof {
            assert(all.take(0) =~= Seq::empty());
            assert(packet_views(turn.packets@) =~= Seq::empty());
            assert(released_views(turn.released@) =~= Seq::empty());
        }
        for cid in it: ids
            invariant
                all == it.seq(),
                all.no_duplicates(),
                all.to_set() == start.conns.dom(),
                start.sound(),
                start.seq_room(),
                self@.sound(),
                self@ == start.after_turns(all.take(it.index() as int), now),
                packet_views(turn.packets@) == start.turn_packets(
                    all.take(it.index() as int),
                    now,
                ),
                released_views(turn.released@) == start.turn_released(
                    all.take(it.index() as int),
                    now,
                ),
                forall|i: int|
                    0 <= i < it.index() ==> start.conns[#[trigger] all[i]].conn.faithful(now),
        {
            let ghost n = it.index() as int;
            proof {
                assert(cid == all[n]);
                assert(all.to_set().contains(cid));
                assert(start.conns.contains_key(cid));
                assert(!all.take(n).contains(cid)) by {
                    if all.take(n).contains(cid) {
                        let i = choose|i: int| 0 <= i < n && all.take(n)[i] == cid;
                        assert(all[i] == cid);
                    }
                }
                lemma_turns_others(start, all.take(n), cid, now);
                assert(all.take(n + 1).drop_last() =~= all.take(n));
            }
            self.turn_one(cid, now, &mut turn);
        }
        proof {
            assert(all.take(all.len() as int) =~= all);
            assert forall|cid: u32| #[trigger] start.conns.contains_key(cid) implies start.conns[
                cid
            ].conn.faithful(now) by {
                assert(all.to_set().contains(cid));
                let i = choose|i: int| 0 <= i < all.len() && all[i] == cid;
                assert(all[i] == cid);
            }
            lemma_turn_outcome(start, all, now);
        }
        turn
    }
}

} // verus!
