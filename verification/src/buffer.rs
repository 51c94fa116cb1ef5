//! Retains outgoing fragment packets per session and peer with one
//! acknowledgement bit each, so single fragments can be retried and a
//! fully acknowledged session vanishes.

use vstd::prelude::*;
use crate::packet::{Packet, PacketV, PacketTypeV};

verus! {

/// The retained packets of one session, indexed by fragment index.
#[derive(Debug)]
pub struct BufferEntry {
    pub session_id: u64,
    pub peer: u8,
    pub packets: Vec<(bool, Packet)>,
}

/// Mathematical view of a `BufferEntry`.
#[verifier::ext_equal]
pub struct BufEntryV {
    pub session_id: u64,
    pub peer: u8,
    pub packets: Seq<(bool, PacketV)>,
}

impl View for BufferEntry {
    type V = BufEntryV;

    open spec fn view(&self) -> BufEntryV {
        BufEntryV {
            session_id: self.session_id,
            peer: self.peer,
            packets: self.packets@.map_values(|p: (bool, Packet)| (p.0, p.1@)),
        }
    }
}

/// Whether an entry for this session and peer exists.
pub open spec fn has_buf_entry(es: Seq<BufEntryV>, sid: u64, peer: u8) -> bool {
    exists|i: int|
        0 <= i < es.len() && (#[trigger] es[i]).session_id == sid && es[i].peer == peer
}

/// The index of the entry for this session and peer, meaningful when
/// `has_buf_entry` holds.
pub open spec fn buf_entry_at(es: Seq<BufEntryV>, sid: u64, peer: u8) -> int {
    choose|i: int| 0 <= i < es.len() && (#[trigger] es[i]).session_id == sid && es[i].peer == peer
}

/// How many packets are buffered under this key.
pub open spec fn buffered_count(es: Seq<BufEntryV>, sid: u64, peer: u8) -> int {
    if has_buf_entry(es, sid, peer) {
        es[buf_entry_at(es, sid, peer)].packets.len() as int
    } else {
        0
    }
}

/// Whether every buffered fragment has been acknowledged.
pub open spec fn all_acked(ps: Seq<(bool, PacketV)>) -> bool {
    forall|i: int| 0 <= i < ps.len() ==> (#[trigger] ps[i]).0
}

/// The packets not yet acknowledged, in fragment order.
pub open spec fn unacked(ps: Seq<(bool, PacketV)>) -> Seq<PacketV>
    decreases ps.len(),
{
    if ps.len() == 0 {
        Seq::empty()
    } else if ps.last().0 {
        unacked(ps.drop_last())
    } else {
        unacked(ps.drop_last()).push(ps.last().1)
    }
}

/// Every fragment acknowledged and nothing left to retry are the same
/// condition: the unacked list is empty exactly when every bit is set.
pub proof fn lemma_all_acked_unacked(ps: Seq<(bool, PacketV)>)
    ensures
        all_acked(ps) <==> unacked(ps).len() == 0,
    decreases ps.len(),
{
    if ps.len() > 0 {
        lemma_all_acked_unacked(ps.drop_last());
        if all_acked(ps) {
            assert(all_acked(ps.drop_last()));
        }
        if unacked(ps).len() == 0 {
            assert(ps.last().0);
            assert forall|i: int| 0 <= i < ps.len() implies (#[trigger] ps[i]).0 by {
                if i < ps.len() - 1 {
                    assert(ps.drop_last()[i] == ps[i]);
                }
            }
        } else {
            if all_acked(ps) {
                assert(ps.last().0);
                assert(all_acked(ps.drop_last())) by {
                    assert forall|i: int| 0 <= i < ps.drop_last().len() implies (
                    #[trigger] ps.drop_last()[i]).0 by {
                        assert(ps.drop_last()[i] == ps[i]);
                    }
                }
            }
        }
    }
}

/// Send buffer completeness: once every other fragment of a session is
/// acknowledged, acknowledging the one index still outstanding leaves
/// every bit set, which is the condition under which `mark_as_received`
/// destroys the entry, so nothing of the session remains buffered.
pub proof fn lemma_ack_all_clears(ps: Seq<(bool, PacketV)>, i: int)
    requires
        0 <= i < ps.len(),
        forall|j: int| 0 <= j < ps.len() && j != i ==> (#[trigger] ps[j]).0,
    ensures
        all_acked(ps.update(i, (true, ps[i].1))),
        unacked(ps.update(i, (true, ps[i].1))).len() == 0,
{
    let ps2 = ps.update(i, (true, ps[i].1));
    assert forall|j: int| 0 <= j < ps2.len() implies (#[trigger] ps2[j]).0 by {
        if j != i {
            assert(ps2[j] == ps[j]);
        }
    }
    lemma_all_acked_unacked(ps2);
}

/// Packets already sent but not yet acknowledged, per session and peer.
#[derive(Debug)]
pub struct Buffer {
    pub packets_received: Vec<BufferEntry>,
}

impl View for Buffer {
    type V = Seq<BufEntryV>;

    open spec fn view(&self) -> Seq<BufEntryV> {
        self.packets_received@.map_values(|e: BufferEntry| e@)
    }
}

impl Buffer {
    /// Well formed: one entry per key, every entry nonempty, and the
    /// packet at position `i` is the fragment with index `i`.
    pub open spec fn wf(&self) -> bool {
        &&& forall|i: int, j: int|
            0 <= i < j < self@.len() ==> !((#[trigger] self@[i]).session_id == (
            #[trigger] self@[j]).session_id && self@[i].peer == self@[j].peer)
        &&& forall|i: int| 0 <= i < self@.len() ==> (#[trigger] self@[i]).packets.len() >= 1
        &&& forall|i: int, k: int|
            0 <= i < self@.len() && 0 <= k < (#[trigger] self@[i]).packets.len() ==> ((
            #[trigger] self@[i].packets[k]).1.pack_type matches PacketTypeV::MsgFragment(f)
                && f.fragment_index == k)
    }

    pub fn new() -> (r: Buffer)
        ensures
            r@ =~= Seq::<BufEntryV>::empty(),
            r.wf(),
    {
        Buffer { packets_received: Vec::new() }
    }

    /// The position of the entry for this session and peer, if any.
    fn find_entry(&self, sid: u64, peer: u8) -> (r: Option<usize>)
        ensures
            match r {
                Some(i) => i < self@.len() && self@[i as int].session_id == sid
                    && self@[i as int].peer == peer,
                None => !has_buf_entry(self@, sid, peer),
            },
    {
        let mut i: usize = 0;
        while i < self.packets_received.len()
            invariant
                i <= self@.len(),
                self@.len() == self.packets_received@.len(),
                forall|k: int|
                    0 <= k < i ==> !((#[trigger] self@[k]).session_id == sid && self@[k].peer
                        == peer),
            decreases self@.len() - i,
        {
            if self.packets_received[i].session_id == sid && self.packets_received[i].peer == peer {
                proof {
                    assert(self.packets_received@[i as int]@ == self@[i as int]);
                }
                return Some(i);
            }
            i = i + 1;
        }
        None
    }

    /// Buffers one outgoing fragment packet, not yet acknowledged.
    /// Fragments of a session arrive here in ascending index order, so
    /// the packet's index equals the count already buffered.
    pub fn insert(&mut self, packet: Packet, session_id: u64, from: u8)
        requires
            old(self).wf(),
            packet@.pack_type matches PacketTypeV::MsgFragment(f) && f.fragment_index
                == buffered_count(old(self)@, session_id, from),
        ensures
            final(self).wf(),
            !has_buf_entry(old(self)@, session_id, from) ==> final(self)@ == old(self)@.push(
                BufEntryV { session_id, peer: from, packets: seq![(false, packet@)] },
            ),
            has_buf_entry(old(self)@, session_id, from) ==> final(self)@ == old(self)@.update(
                buf_entry_at(old(self)@, session_id, from),
                BufEntryV {
                    session_id,
                    peer: from,
                    packets: old(self)@[buf_entry_at(old(self)@, session_id, from)].packets.push(
                        (false, packet@),
                    ),
                },
            ),
            has_buf_entry(final(self)@, session_id, from),
    {
        let ghost eold = self@;
        match self.find_entry(session_id, from) {
            Some(k) => {
                proof {
                    assert(has_buf_entry(eold, session_id, from)) by {
                        assert(eold[k as int].session_id == session_id && eold[k as int].peer
                            == from);
                    }
                    assert(buf_entry_at(eold, session_id, from) == k as int) by {
                        let j = buf_entry_at(eold, session_id, from);
                        assert(eold[j].session_id == session_id && eold[j].peer == from);
                    }
                    assert(self.packets_received@[k as int]@ == eold[k as int]);
                }
                let mut e = self.packets_received.remove(k);
                let ghost ev = e@;
                e.packets.push((false, packet));
                proof {
                    crate::assembler::lemma_view_map_remove(old(self).packets_received@, k as int);
                    assert(e@.packets =~= ev.packets.push((false, packet@)));
                }
                let ghost scrap = self.packets_received@;
                self.packets_received.insert(k, e);
                proof {
                    crate::assembler::lemma_view_map_insert(scrap, k as int, e);
                    assert(final(self)@ =~= eold.remove(k as int).insert(k as int, e@));
                    assert(final(self)@ =~= eold.update(k as int, e@));
                    assert(e@ =~= (BufEntryV {
                        session_id,
                        peer: from,
                        packets: eold[k as int].packets.push((false, packet@)),
                    }));
                    assert(has_buf_entry(final(self)@, session_id, from)) by {
                        assert(final(self)@[k as int].session_id == session_id);
                    }
                    assert forall|i: int, j: int|
                        0 <= i < j < final(self)@.len() implies !((#[trigger] final(self)@[i]).session_id
                        == (#[trigger] final(self)@[j]).session_id && final(self)@[i].peer
                        == final(self)@[j].peer) by {
                        assert(final(self)@[i] == if i == k { e@ } else { eold[i] });
                        assert(final(self)@[j] == if j == k { e@ } else { eold[j] });
                    }
                    assert forall|i: int, t: int|
                        0 <= i < final(self)@.len() && 0 <= t < (#[trigger] final(self)@[i]).packets.len()
                        implies ((#[trigger] final(self)@[i].packets[t]).1.pack_type matches
                        PacketTypeV::MsgFragment(f) && f.fragment_index == t) by {
                        if i == k {
                            if t < ev.packets.len() {
                                assert(final(self)@[i].packets[t] == eold[k as int].packets[t]);
                            } else {
                                assert(final(self)@[i].packets[t] == (false, packet@));
                            }
                        } else {
                            assert(final(self)@[i] == eold[i]);
                        }
                    }
                }
            },
            None => {
                let mut ps: Vec<(bool, Packet)> = Vec::new();
                ps.push((false, packet));
                let e = BufferEntry { session_id, peer: from, packets: ps };
                proof {
                    assert(e@.packets =~= seq![(false, packet@)]);
                }
                let ghost scrap = self.packets_received@;
                self.packets_received.push(e);
                proof {
                    crate::assembler::lemma_view_map_push(scrap, e);
                    assert(final(self)@ =~= eold.push(e@));
                    assert(e@ =~= (BufEntryV {
                        session_id,
                        peer: from,
                        packets: seq![(false, packet@)],
                    }));
                    assert(has_buf_entry(final(self)@, session_id, from)) by {
                        assert(final(self)@[eold.len() as int].session_id == session_id);
                    }
                    assert forall|i: int, j: int|
                        0 <= i < j < final(self)@.len() implies !((#[trigger] final(self)@[i]).session_id
                        == (#[trigger] final(self)@[j]).session_id && final(self)@[i].peer
                        == final(self)@[j].peer) by {
                        if j == eold.len() {
                            assert(final(self)@[i] == eold[i]);
                            assert(final(self)@[j] == e@);
                            if eold[i].session_id == session_id && eold[i].peer == from {
                                assert(has_buf_entry(eold, session_id, from));
                            }
                        }
                    }
                    assert forall|i: int, t: int|
                        0 <= i < final(self)@.len() && 0 <= t < (#[trigger] final(self)@[i]).packets.len()
                        implies ((#[trigger] final(self)@[i].packets[t]).1.pack_type matches
                        PacketTypeV::MsgFragment(f) && f.fragment_index == t) by {
                        if i == eold.len() {
                            assert(final(self)@[i].packets[t] == (false, packet@));
                        } else {
                            assert(final(self)@[i] == eold[i]);
                        }
                    }
                }
            },
        }
    }

    /// The packets of a session not yet acknowledged, in fragment order,
    /// or nothing when the session has no entry.
    pub fn get_not_received(&self, session_id: u64, from: u8) -> (r: Option<Vec<Packet>>)
        requires
            self.wf(),
        ensures
            r is Some <==> has_buf_entry(self@, session_id, from),
            r matches Some(v) ==> v@.map_values(|p: Packet| p@) == unacked(
                self@[buf_entry_at(self@, session_id, from)].packets,
            ),
    {
        let k = match self.find_entry(session_id, from) {
            Some(k) => k,
            None => {
                return None;
            },
        };
        proof {
            assert(has_buf_entry(self@, session_id, from)) by {
                assert(self@[k as int].session_id == session_id && self@[k as int].peer == from);
            }
            assert(buf_entry_at(self@, session_id, from) == k as int) by {
                let j = buf_entry_at(self@, session_id, from);
                assert(self@[j].session_id == session_id && self@[j].peer == from);
            }
            assert(self.packets_received@[k as int]@ == self@[k as int]);
        }
        let e = &self.packets_received[k];
        let ghost ps = self@[k as int].packets;
        let mut out: Vec<Packet> = Vec::new();
        let mut i: usize = 0;
        proof {
            assert(ps.take(0) =~= Seq::<(bool, PacketV)>::empty());
        }
        while i < e.packets.len()
            invariant
                ps == e@.packets,
                i <= ps.len(),
                e.packets@.len() == ps.len(),
                out@.map_values(|p: Packet| p@) == unacked(ps.take(i as int)),
            decreases ps.len() - i,
        {
            proof {
                assert(ps.take(i + 1).drop_last() =~= ps.take(i as int));
                assert(ps.take(i + 1).last() == ps[i as int]);
                assert(ps[i as int] == (e.packets@[i as int].0, e.packets@[i as int].1@));
            }
            if !e.packets[i].0 {
                let ghost oold = out@;
                out.push(e.packets[i].1.duplicate());
                proof {
                    crate::assembler::lemma_view_map_push(oold, out@.last());
                    assert(out@.map_values(|p: Packet| p@) =~= unacked(ps.take(i + 1)));
                }
            }
            i = i + 1;
        }
        proof {
            assert(ps.take(ps.len() as int) =~= ps);
        }
        Some(out)
    }

    /// Sets the acknowledgement bit of one fragment.  An unknown session
    /// or an index out of range changes nothing; the acknowledgement
    /// that sets the last remaining bit destroys the whole entry.
    pub fn mark_as_received(&mut self, session_id: u64, fragment_index: u64, from: u8)
        requires
            old(self).wf(),
        ensures
            final(self).wf(),
            !has_buf_entry(old(self)@, session_id, from) ==> final(self)@ == old(self)@,
            has_buf_entry(old(self)@, session_id, from) ==> ({
                let k = buf_entry_at(old(self)@, session_id, from);
                let e = old(self)@[k];
                if (fragment_index as int) >= e.packets.len() {
                    final(self)@ == old(self)@
                } else {
                    let ps2 = e.packets.update(
                        fragment_index as int,
                        (true, e.packets[fragment_index as int].1),
                    );
                    if all_acked(ps2) {
                        final(self)@ == old(self)@.remove(k)
                    } else {
                        final(self)@ == old(self)@.update(
                            k,
                            BufEntryV { session_id, peer: from, packets: ps2 },
                        )
                    }
                }
            }),
    {
        let ghost eold = self@;
        let k = match self.find_entry(session_id, from) {
            Some(k) => k,
            None => {
                return ;
            },
        };
        proof {
            assert(has_buf_entry(eold, session_id, from)) by {
                assert(eold[k as int].session_id == session_id && eold[k as int].peer == from);
            }
            assert(buf_entry_at(eold, session_id, from) == k as int) by {
                let j = buf_entry_at(eold, session_id, from);
                assert(eold[j].session_id == session_id && eold[j].peer == from);
            }
            assert(self.packets_received@[k as int]@ == eold[k as int]);
        }
        if fragment_index >= self.packets_received[k].packets.len() as u64 {
            return ;
        }
        let i = fragment_index as usize;
        let ghost ev = eold[k as int];
        let ghost ps2 = ev.packets.update(i as int, (true, ev.packets[i as int].1));
        let mut e = self.packets_received.remove(k);
        proof {
            crate::assembler::lemma_view_map_remove(old(self).packets_received@, k as int);
            assert(self@ =~= eold.remove(k as int));
        }
        let pair = e.packets.remove(i);
        e.packets.insert(i, (true, pair.1));
        proof {
            assert(e@.packets =~= ps2) by {
                crate::assembler::lemma_view_map_remove(old(self).packets_received@[k as int].packets@, i as int);
                let mid = old(self).packets_received@[k as int].packets@.remove(i as int);
                crate::assembler::lemma_view_map_insert(mid, i as int, (true, pair.1));
                assert(pair.1@ == ev.packets[i as int].1);
                assert(ev.packets.remove(i as int).insert(i as int, (true, pair.1@)) =~= ps2);
            }
        }
        // If every fragment is now acknowledged the session is done.
        let mut all: bool = true;
        let mut t: usize = 0;
        while t < e.packets.len()
            invariant
                t <= e@.packets.len(),
                e.packets@.len() == e@.packets.len(),
                all == forall|x: int| 0 <= x < t ==> (#[trigger] e@.packets[x]).0,
            decreases e@.packets.len() - t,
        {
            proof {
                assert(e@.packets[t as int] == (e.packets@[t as int].0, e.packets@[t as int].1@));
            }
            if !e.packets[t].0 {
                all = false;
            }
            t = t + 1;
        }
        if all {
            proof {
                assert(all_acked(ps2));
            }
        } else {
            proof {
                assert(!all_acked(ps2));
            }
            let ghost scrap = self.packets_received@;
            self.packets_received.insert(k, e);
            proof {
                crate::assembler::lemma_view_map_insert(scrap, k as int, e);
                assert(final(self)@ =~= eold.remove(k as int).insert(k as int, e@));
                assert(final(self)@ =~= eold.update(k as int, e@));
                assert(e@ =~= (BufEntryV { session_id, peer: from, packets: ps2 }));
            }
        }
        proof {
            let newv = final(self)@;
            if all {
                assert(newv == eold.remove(k as int));
                eold.remove_ensures(k as int);
                assert forall|a: int, b: int|
                    0 <= a < b < newv.len() implies !((#[trigger] newv[a]).session_id == (
                #[trigger] newv[b]).session_id && newv[a].peer == newv[b].peer) by {
                    let a2: int = if a < k { a } else { a + 1 };
                    let b2: int = if b < k { b } else { b + 1 };
                    assert(newv[a] == eold[a2]);
                    assert(newv[b] == eold[b2]);
                }
                assert forall|a: int| 0 <= a < newv.len() implies (#[trigger] newv[a]).packets.len()
                    >= 1 && (forall|x: int|
                    0 <= x < newv[a].packets.len() ==> ((#[trigger] newv[a].packets[x]).1.pack_type
                        matches PacketTypeV::MsgFragment(f) && f.fragment_index == x)) by {
                    let a2: int = if a < k { a } else { a + 1 };
                    assert(newv[a] == eold[a2]);
                }
            } else {
                assert forall|a: int, b: int|
                    0 <= a < b < newv.len() implies !((#[trigger] newv[a]).session_id == (
                #[trigger] newv[b]).session_id && newv[a].peer == newv[b].peer) by {
                    assert(newv[a] == if a == k { e@ } else { eold[a] });
                    assert(newv[b] == if b == k { e@ } else { eold[b] });
                }
                assert forall|a: int| 0 <= a < newv.len() implies (#[trigger] newv[a]).packets.len()
                    >= 1 && (forall|x: int|
                    0 <= x < newv[a].packets.len() ==> ((#[trigger] newv[a].packets[x]).1.pack_type
                        matches PacketTypeV::MsgFragment(f) && f.fragment_index == x)) by {
                    if a == k {
                        assert(newv[a] == e@);
                        assert forall|x: int|
                            0 <= x < e@.packets.len() implies ((#[trigger] e@.packets[x]).1.pack_type
                            matches PacketTypeV::MsgFragment(f) && f.fragment_index == x) by {
                            if x == i {
                                assert(e@.packets[x] == (true, ev.packets[i as int].1));
                                assert(ev.packets[i as int].1.pack_type matches
                                    PacketTypeV::MsgFragment(f) && f.fragment_index == i);
                            } else {
                                assert(e@.packets[x] == ev.packets[x]);
                            }
                        }
                    } else {
                        assert(newv[a] == eold[a]);
                    }
                }
            }
        }
    }

    /// Looks one fragment up: the packet comes back only while the entry
    /// exists, the index is in range, and the fragment is still
    /// unacknowledged.
    pub fn get_fragment_by_id(&self, session_id: u64, fragment_index: u64, from: u8) -> (r: Option<
        Packet,
    >)
        requires
            self.wf(),
        ensures
            r is Some <==> has_buf_entry(self@, session_id, from) && (fragment_index as int)
                < self@[buf_entry_at(self@, session_id, from)].packets.len() && !self@[buf_entry_at(
                self@,
                session_id,
                from,
            )].packets[fragment_index as int].0,
            r matches Some(p) ==> p@ == self@[buf_entry_at(
                self@,
                session_id,
                from,
            )].packets[fragment_index as int].1,
    {
        let k = match self.find_entry(session_id, from) {
            Some(k) => k,
            None => {
                return None;
            },
        };
        proof {
            assert(has_buf_entry(self@, session_id, from)) by {
                assert(self@[k as int].session_id == session_id && self@[k as int].peer == from);
            }
            assert(buf_entry_at(self@, session_id, from) == k as int) by {
                let j = buf_entry_at(self@, session_id, from);
                assert(self@[j].session_id == session_id && self@[j].peer == from);
            }
            assert(self.packets_received@[k as int]@ == self@[k as int]);
        }
        let e = &self.packets_received[k];
        if fragment_index >= e.packets.len() as u64 {
            return None;
        }
        let i = fragment_index as usize;
        proof {
            assert(self@[k as int].packets[i as int] == (e.packets@[i as int].0,
            e.packets@[i as int].1@));
        }
        if e.packets[i].0 {
            None
        } else {
            Some(e.packets[i].1.duplicate())
        }
    }
}

} // verus!
