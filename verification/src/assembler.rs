//! Reassembles application payloads from wire fragments, keyed by the
//! pair of session id and origin.

use vstd::prelude::*;
use crate::packet::{Fragment, FragmentV};

verus! {

/// Whether a fragment with this index is already stored.
pub open spec fn index_present(rs: Seq<FragmentV>, idx: u64) -> bool {
    exists|i: int| 0 <= i < rs.len() && (#[trigger] rs[i]).fragment_index == idx
}

/// Whether the stored fragments are ordered by their index.
pub open spec fn sorted_by_index(rs: Seq<FragmentV>) -> bool {
    forall|i: int, j: int|
        0 <= i < j < rs.len() ==> (#[trigger] rs[i]).fragment_index <= (#[trigger] rs[j]).fragment_index
}

/// The concatenation of the payloads of the fragments, in sequence order.
pub open spec fn assemble(rs: Seq<FragmentV>) -> Seq<u8>
    decreases rs.len(),
{
    if rs.len() == 0 {
        Seq::empty()
    } else {
        assemble(rs.drop_last()) + rs.last().payload()
    }
}

/// How many fragments a payload splits into: chunks of 128 bytes, the
/// final one possibly shorter.
pub open spec fn n_fragments_of(p: Seq<u8>) -> int {
    (p.len() as int + 127) / 128
}

/// The ith chunk of a payload.
pub open spec fn chunk_of(p: Seq<u8>, i: int) -> Seq<u8> {
    if 128 * (i + 1) <= p.len() {
        p.subrange(128 * i, 128 * (i + 1))
    } else {
        p.subrange(128 * i, p.len() as int)
    }
}

/// Whether `s` holds, in any order, exactly the fragments of payload `p`:
/// one fragment per chunk, each declaring the right total, no index twice.
pub open spec fn covers(p: Seq<u8>, s: Seq<FragmentV>) -> bool {
    &&& s.len() == n_fragments_of(p)
    &&& forall|j: int|
        0 <= j < s.len() ==> (#[trigger] s[j]).wf() && s[j].total_n_fragments
            == n_fragments_of(p) && 0 <= s[j].fragment_index < n_fragments_of(p)
            && s[j].payload() == chunk_of(p, s[j].fragment_index as int)
    &&& forall|j: int, k: int|
        0 <= j < k < s.len() ==> (#[trigger] s[j]).fragment_index != (#[trigger] s[k]).fragment_index
}

/// One reassembly in progress.
#[derive(Debug)]
pub struct AssemblyEntry {
    pub session_id: u64,
    pub origin: u8,
    pub expected: u64,
    pub received: Vec<Fragment>,
}

/// Mathematical view of an `AssemblyEntry`.
#[verifier::ext_equal]
pub struct EntryV {
    pub session_id: u64,
    pub origin: u8,
    pub expected: u64,
    pub received: Seq<FragmentV>,
}

impl View for AssemblyEntry {
    type V = EntryV;

    open spec fn view(&self) -> EntryV {
        EntryV {
            session_id: self.session_id,
            origin: self.origin,
            expected: self.expected,
            received: self.received@.map_values(|f: Fragment| f@),
        }
    }
}

impl EntryV {
    /// Stored fragments are well formed, never two with the same index,
    /// all declaring the entry's expected total, and the entry vanishes
    /// the instant it would be complete.
    pub open spec fn wf(self) -> bool {
        &&& self.received.len() >= 1
        &&& forall|i: int| 0 <= i < self.received.len() ==> (#[trigger] self.received[i]).wf()
        &&& forall|i: int|
            0 <= i < self.received.len() ==> (#[trigger] self.received[i]).total_n_fragments
                == self.expected
        &&& forall|i: int, j: int|
            0 <= i < j < self.received.len() ==> (#[trigger] self.received[i]).fragment_index != (
            #[trigger] self.received[j]).fragment_index
        &&& self.expected > 0 ==> self.received.len() < self.expected
    }
}

/// Whether an entry for this session and origin exists.
pub open spec fn has_entry(es: Seq<EntryV>, sid: u64, origin: u8) -> bool {
    exists|i: int|
        0 <= i < es.len() && (#[trigger] es[i]).session_id == sid && es[i].origin == origin
}

/// The index of the entry for this session and origin, meaningful when
/// `has_entry` holds.
pub open spec fn entry_at(es: Seq<EntryV>, sid: u64, origin: u8) -> int {
    choose|i: int| 0 <= i < es.len() && (#[trigger] es[i]).session_id == sid && es[i].origin == origin
}

/// The stored fragments that one more fragment would join: what the entry
/// holds, or nothing when there is no entry yet.
pub open spec fn stored(es: Seq<EntryV>, sid: u64, origin: u8) -> Seq<FragmentV> {
    if has_entry(es, sid, origin) {
        es[entry_at(es, sid, origin)].received
    } else {
        Seq::empty()
    }
}

/// Whether adding this fragment completes the reassembly.
pub open spec fn completes(es: Seq<EntryV>, f: FragmentV, sid: u64, origin: u8) -> bool {
    if !has_entry(es, sid, origin) {
        f.total_n_fragments == 1
    } else {
        let e = es[entry_at(es, sid, origin)];
        &&& !index_present(e.received, f.fragment_index)
        &&& f.total_n_fragments == e.expected
        &&& e.received.len() + 1 == e.expected
    }
}

/// The entries left behind by `add_fragment`: an absent key grows a fresh
/// entry unless the fragment is alone and complete, a duplicate index or
/// a total that disagrees with the entry's expected count changes
/// nothing, the fragment that fills the expected count destroys the
/// entry, and anything else is stored.
pub open spec fn store_after(es: Seq<EntryV>, f: FragmentV, sid: u64, origin: u8) -> Seq<EntryV> {
    if !has_entry(es, sid, origin) {
        if f.total_n_fragments == 1 {
            es
        } else {
            es.push(
                EntryV {
                    session_id: sid,
                    origin,
                    expected: f.total_n_fragments,
                    received: seq![f],
                },
            )
        }
    } else {
        let k = entry_at(es, sid, origin);
        let e = es[k];
        if index_present(e.received, f.fragment_index) || f.total_n_fragments != e.expected {
            es
        } else if e.received.len() + 1 == e.expected {
            es.remove(k)
        } else {
            es.update(
                k,
                EntryV {
                    session_id: sid,
                    origin,
                    expected: e.expected,
                    received: e.received.push(f),
                },
            )
        }
    }
}

/// Buffers incoming fragments per session and origin and emits the
/// reconstructed payload once every expected fragment has arrived.
#[derive(Debug)]
pub struct FragmentAssembler {
    pub fragments: Vec<AssemblyEntry>,
}

impl View for FragmentAssembler {
    type V = Seq<EntryV>;

    open spec fn view(&self) -> Seq<EntryV> {
        self.fragments@.map_values(|e: AssemblyEntry| e@)
    }
}

impl FragmentAssembler {
    /// Well formed: one entry per key, each entry well formed.
    pub open spec fn wf(&self) -> bool {
        &&& forall|i: int| 0 <= i < self@.len() ==> (#[trigger] self@[i]).wf()
        &&& forall|i: int, j: int|
            0 <= i < j < self@.len() ==> !((#[trigger] self@[i]).session_id == (
            #[trigger] self@[j]).session_id && self@[i].origin == self@[j].origin)
    }

    pub fn new() -> (r: FragmentAssembler)
        ensures
            r@ =~= Seq::<EntryV>::empty(),
            r.wf(),
    {
        FragmentAssembler { fragments: Vec::new() }
    }

    /// The position of the entry for this session and origin, if any.
    fn find_entry_index(&self, sid: u64, origin: u8) -> (r: Option<usize>)
        ensures
            match r {
                Some(i) => i < self@.len() && self@[i as int].session_id == sid
                    && self@[i as int].origin == origin,
                None => !has_entry(self@, sid, origin),
            },
    {
        let mut i: usize = 0;
        while i < self.fragments.len()
            invariant
                i <= self@.len(),
                self@.len() == self.fragments@.len(),
                forall|k: int|
                    0 <= k < i ==> !((#[trigger] self@[k]).session_id == sid && self@[k].origin
                        == origin),
            decreases self@.len() - i,
        {
            if self.fragments[i].session_id == sid && self.fragments[i].origin == origin {
                proof {
                    assert(self.fragments@[i as int]@ == self@[i as int]);
                }
                return Some(i);
            }
            i = i + 1;
        }
        None
    }

    /// Hands one fragment in.  A fresh key starts a reassembly; a repeated
    /// index, like a declared total that disagrees with the entry's
    /// expected count, is ignored; and the fragment that completes the
    /// expected count destroys the entry and returns the payload: the
    /// stored fragments together with this one, ordered by index,
    /// concatenated each to its own declared length.
    pub fn add_fragment(&mut self, fragment: Fragment, session_id: u64, sender: u8) -> (r: Option<
        Vec<u8>,
    >)
        requires
            old(self).wf(),
            fragment@.wf(),
        ensures
            final(self)@ == store_after(old(self)@, fragment@, session_id, sender),
            final(self).wf(),
            r is Some <==> completes(old(self)@, fragment@, session_id, sender),
            r is Some ==> exists|t: Seq<FragmentV>|
                sorted_by_index(t) && t.to_multiset() == stored(
                    old(self)@,
                    session_id,
                    sender,
                ).push(fragment@).to_multiset() && (#[trigger] assemble(t)) == r->0@,
    {
        broadcast use vstd::seq_lib::group_to_multiset_ensures;

        match self.find_entry_index(session_id, sender) {
            None => {
                if fragment.total_n_fragments == 1 {
                    let out = payload_vec(&fragment);
                    proof {
                        let t = seq![fragment@];
                        assert(t.len() == 1);
                        assert(t.drop_last() =~= Seq::<FragmentV>::empty());
                        assert(assemble(t.drop_last()) == Seq::<u8>::empty());
                        assert(assemble(t) =~= fragment@.payload());
                        assert(t =~= Seq::<FragmentV>::empty().push(fragment@));
                        assert(stored(old(self)@, session_id, sender) =~= Seq::<
                            FragmentV,
                        >::empty());
                        assert(sorted_by_index(t) && t.to_multiset() == stored(
                            old(self)@,
                            session_id,
                            sender,
                        ).push(fragment@).to_multiset() && assemble(t) == out@);
                    }
                    Some(out)
                } else {
                    let mut rec: Vec<Fragment> = Vec::new();
                    rec.push(fragment);
                    let entry = AssemblyEntry {
                        session_id,
                        origin: sender,
                        expected: fragment.total_n_fragments,
                        received: rec,
                    };
                    proof {
                        assert(entry@.received =~= seq![fragment@]);
                    }
                    let ghost eold = self@;
                    self.fragments.push(entry);
                    proof {
                        lemma_view_map_push(old(self).fragments@, entry);
                        assert(final(self)@ =~= eold.push(entry@));
                        assert(entry@ =~= (EntryV {
                            session_id,
                            origin: sender,
                            expected: fragment@.total_n_fragments,
                            received: seq![fragment@],
                        }));
                        assert(final(self)@ == store_after(eold, fragment@, session_id, sender));
                        assert forall|i: int| 0 <= i < final(self)@.len() implies (#[trigger] final(self)@[i]).wf() by {
                            if i < eold.len() {
                                assert(final(self)@[i] == eold[i]);
                            } else {
                                assert(final(self)@[i] == entry@);
                            }
                        }
                        assert forall|i: int, j: int|
                            0 <= i < j < final(self)@.len() implies !((#[trigger] final(self)@[i]).session_id
                            == (#[trigger] final(self)@[j]).session_id && final(self)@[i].origin
                            == final(self)@[j].origin) by {
                            if j == eold.len() {
                                assert(final(self)@[j] == entry@);
                                assert(final(self)@[i] == eold[i]);
                                if eold[i].session_id == session_id && eold[i].origin == sender {
                                    assert(has_entry(eold, session_id, sender));
                                }
                            }
                        }
                    }
                    None
                }
            },
            Some(k) => {
                proof {
                    assert(has_entry(self@, session_id, sender)) by {
                        assert(self@[k as int].session_id == session_id && self@[k as int].origin
                            == sender);
                    }
                    assert(entry_at(self@, session_id, sender) == k as int) by {
                        let j = entry_at(self@, session_id, sender);
                        assert(self@[j].session_id == session_id && self@[j].origin == sender);
                    }
                }
                if has_index(&self.fragments[k].received, fragment.fragment_index) {
                    proof {
                        assert(self.fragments@[k as int]@ == self@[k as int]);
                    }
                    return None;
                }
                // A declared total that disagrees with what the entry
                // expects marks a foreign or corrupt fragment: ignored.
                if fragment.total_n_fragments != self.fragments[k].expected {
                    proof {
                        assert(self.fragments@[k as int]@ == self@[k as int]);
                    }
                    return None;
                }
                proof {
                    assert(self.fragments@[k as int]@ == self@[k as int]);
                }
                let ghost eold = self@;
                let ghost ev = self@[k as int];
                let mut e = self.fragments.remove(k);
                e.received.push(fragment);
                proof {
                    lemma_view_map_remove(old(self).fragments@, k as int);
                    assert(self@ =~= eold.remove(k as int));
                    lemma_view_map_push(old(self).fragments@[k as int].received@, fragment);
                    assert(e@.received =~= ev.received.push(fragment@));
                    assert(e@.session_id == session_id && e@.origin == sender && e@.expected
                        == ev.expected);
                }
                if e.received.len() as u64 == e.expected {
                    let full = e.received;
                    proof {
                        assert forall|i: int| 0 <= i < full@.len() implies (#[trigger] full@[i])@.wf() by {
                            if i < ev.received.len() {
                                assert(full@[i]@ == ev.received[i]);
                            } else {
                                assert(full@[i]@ == fragment@);
                            }
                        }
                    }
                    let sorted = sort_by_index_vec(full);
                    proof {
                        let fvs = full@.map_values(|f: Fragment| f@);
                        assert forall|i: int| 0 <= i < sorted@.len() implies (#[trigger] sorted@[i])@.wf() by {
                            assert(fvs.contains(sorted@[i]@));
                            let j = choose|j: int| 0 <= j < fvs.len() && fvs[j] == sorted@[i]@;
                            assert(full@[j]@ == sorted@[i]@);
                        }
                    }
                    let out = concat_payloads(&sorted);
                    proof {
                        let t = sorted@.map_values(|f: Fragment| f@);
                        assert(t.to_multiset() == ev.received.push(fragment@).to_multiset());
                        assert(stored(eold, session_id, sender) == ev.received);
                        assert(final(self)@ == store_after(eold, fragment@, session_id, sender));
                        assert(sorted_by_index(t) && t.to_multiset() == stored(
                            eold,
                            session_id,
                            sender,
                        ).push(fragment@).to_multiset() && assemble(t) == out@);
                        assert forall|i: int, j: int|
                            0 <= i < j < final(self)@.len() implies !((#[trigger] final(self)@[i]).session_id
                            == (#[trigger] final(self)@[j]).session_id && final(self)@[i].origin
                            == final(self)@[j].origin) by {
                            eold.remove_ensures(k as int);
                            let i2: int = if i < k { i } else { i + 1 };
                            let j2: int = if j < k { j } else { j + 1 };
                            assert(final(self)@[i] == eold[i2]);
                            assert(final(self)@[j] == eold[j2]);
                        }
                        assert forall|i: int| 0 <= i < final(self)@.len() implies (#[trigger] final(self)@[i]).wf() by {
                            eold.remove_ensures(k as int);
                            let i2: int = if i < k { i } else { i + 1 };
                            assert(final(self)@[i] == eold[i2]);
                        }
                    }
                    Some(out)
                } else {
                    proof {
                        assert(ev.wf());
                        assert(e@.received.len() == ev.received.len() + 1);
                    }
                    let ghost scrap = self.fragments@;
                    self.fragments.insert(k, e);
                    proof {
                        lemma_view_map_insert(scrap, k as int, e);
                        assert(final(self)@ =~= eold.remove(k as int).insert(k as int, e@));
                        assert(eold.remove(k as int).insert(k as int, e@) =~= eold.update(
                            k as int,
                            e@,
                        ));
                        assert(final(self)@ == store_after(eold, fragment@, session_id, sender));
                        assert(e@.wf()) by {
                            assert forall|i: int| 0 <= i < e@.received.len() implies (
                            #[trigger] e@.received[i]).wf() by {
                                if i < ev.received.len() {
                                    assert(e@.received[i] == ev.received[i]);
                                } else {
                                    assert(e@.received[i] == fragment@);
                                }
                            }
                            assert forall|i: int, j: int|
                                0 <= i < j < e@.received.len() implies (
                            #[trigger] e@.received[i]).fragment_index != (
                            #[trigger] e@.received[j]).fragment_index by {
                                if j == ev.received.len() {
                                    assert(e@.received[j] == fragment@);
                                    assert(e@.received[i] == ev.received[i]);
                                    if ev.received[i].fragment_index == fragment@.fragment_index {
                                        assert(index_present(
                                            ev.received,
                                            fragment@.fragment_index,
                                        ));
                                    }
                                } else {
                                    assert(e@.received[i] == ev.received[i]);
                                    assert(e@.received[j] == ev.received[j]);
                                }
                            }
                        }
                        assert forall|i: int| 0 <= i < final(self)@.len() implies (#[trigger] final(self)@[i]).wf() by {
                            if i != k {
                                assert(final(self)@[i] == eold[i]);
                            }
                        }
                        assert forall|i: int, j: int|
                            0 <= i < j < final(self)@.len() implies !((#[trigger] final(self)@[i]).session_id
                            == (#[trigger] final(self)@[j]).session_id && final(self)@[i].origin
                            == final(self)@[j].origin) by {
                            assert(final(self)@[i] == if i == k { e@ } else { eold[i] });
                            assert(final(self)@[j] == if j == k { e@ } else { eold[j] });
                        }
                    }
                    None
                }
            },
        }
    }
}

/// Holding exactly the fragments of a payload does not depend on the
/// order they sit in: any rearrangement with the same multiset of
/// fragments covers the payload too.
pub proof fn lemma_covers_permutation(p: Seq<u8>, s1: Seq<FragmentV>, s2: Seq<FragmentV>)
    requires
        covers(p, s1),
        s1.to_multiset() == s2.to_multiset(),
    ensures
        covers(p, s2),
{
    broadcast use vstd::seq_lib::group_to_multiset_ensures;

    assert(s2.len() == s1.len()) by {
        assert(s1.to_multiset().len() == s1.len());
        assert(s2.to_multiset().len() == s2.len());
    }
    assert(s1.no_duplicates()) by {
        assert forall|i: int, j: int| 0 <= i < j < s1.len() implies s1[i] != s1[j] by {
            assert(s1[i].fragment_index != s1[j].fragment_index);
        }
    }
    s1.lemma_multiset_has_no_duplicates();
    s2.lemma_multiset_has_no_duplicates_conv();
    assert(s2.no_duplicates());
    assert forall|j: int|
        0 <= j < s2.len() implies (#[trigger] s2[j]).wf() && s2[j].total_n_fragments
        == n_fragments_of(p) && 0 <= s2[j].fragment_index < n_fragments_of(p)
        && s2[j].payload() == chunk_of(p, s2[j].fragment_index as int) by {
        assert(s2.contains(s2[j]));
        assert(s2.to_multiset().count(s2[j]) > 0);
        assert(s1.contains(s2[j]));
        let i = choose|i: int| 0 <= i < s1.len() && s1[i] == s2[j];
        assert(s1[i].wf());
    }
    assert forall|j: int, k: int|
        0 <= j < k < s2.len() implies (#[trigger] s2[j]).fragment_index != (
    #[trigger] s2[k]).fragment_index by {
        if s2[j].fragment_index == s2[k].fragment_index {
            assert(s2[j] != s2[k]);
            assert(s2.contains(s2[j]) && s2.contains(s2[k]));
            assert(s2.to_multiset().count(s2[j]) > 0);
            assert(s2.to_multiset().count(s2[k]) > 0);
            assert(s1.contains(s2[j]) && s1.contains(s2[k]));
            let a = choose|a: int| 0 <= a < s1.len() && s1[a] == s2[j];
            let b = choose|b: int| 0 <= b < s1.len() && s1[b] == s2[k];
            assert(a != b);
            assert(s1[a].fragment_index != s1[b].fragment_index);
        }
    }
}

/// In an index sorted cover every fragment sits at its own index.
proof fn lemma_sorted_cover_lower(t: Seq<FragmentV>, j: int)
    requires
        sorted_by_index(t),
        forall|a: int, b: int|
            0 <= a < b < t.len() ==> (#[trigger] t[a]).fragment_index != (
            #[trigger] t[b]).fragment_index,
        0 <= j < t.len(),
    ensures
        t[j].fragment_index >= j,
    decreases j,
{
    if j > 0 {
        lemma_sorted_cover_lower(t, j - 1);
        assert(t[j - 1].fragment_index <= t[j].fragment_index);
        assert(t[j - 1].fragment_index != t[j].fragment_index);
    }
}

proof fn lemma_sorted_cover_upper(t: Seq<FragmentV>, j: int, n: int)
    requires
        sorted_by_index(t),
        forall|a: int, b: int|
            0 <= a < b < t.len() ==> (#[trigger] t[a]).fragment_index != (
            #[trigger] t[b]).fragment_index,
        forall|a: int| 0 <= a < t.len() ==> (#[trigger] t[a]).fragment_index < n,
        t.len() == n,
        0 <= j < t.len(),
    ensures
        t[j].fragment_index <= j,
    decreases t.len() - j,
{
    if j < t.len() - 1 {
        lemma_sorted_cover_upper(t, j + 1, n);
        assert(t[j].fragment_index <= t[j + 1].fragment_index);
        assert(t[j].fragment_index != t[j + 1].fragment_index);
    } else {
        assert(t[j].fragment_index < n);
    }
}

/// The concatenation of a cover whose fragments sit at their own index
/// restores the payload prefix, chunk by chunk.
proof fn lemma_assemble_prefix(p: Seq<u8>, t: Seq<FragmentV>, j: int)
    requires
        t.len() == n_fragments_of(p),
        forall|a: int|
            0 <= a < t.len() ==> (#[trigger] t[a]).fragment_index == a && t[a].payload()
                == chunk_of(p, a),
        0 <= j <= t.len(),
    ensures
        assemble(t.take(j)) == if 128 * j <= p.len() {
            p.subrange(0, 128 * j)
        } else {
            p.subrange(0, p.len() as int)
        },
    decreases j,
{
    if j == 0 {
        assert(t.take(0) =~= Seq::<FragmentV>::empty());
        assert(p.subrange(0, 0) =~= Seq::<u8>::empty());
    } else {
        lemma_assemble_prefix(p, t, j - 1);
        assert(t.take(j).drop_last() =~= t.take(j - 1));
        assert(t.take(j).last() == t[j - 1]);
        assert(t.take(j).len() == j);
        assert(assemble(t.take(j)) == assemble(t.take(j - 1)) + t[j - 1].payload());
        assert(128 * (j - 1) <= p.len()) by {
            assert(j - 1 < n_fragments_of(p));
            assert(128 * (j - 1) < 128 * n_fragments_of(p) - 127);
        }
        let prev = p.subrange(0, 128 * (j - 1));
        let ch = chunk_of(p, j - 1);
        if 128 * j <= p.len() {
            assert(prev + ch =~= p.subrange(0, 128 * j));
        } else {
            assert(prev + ch =~= p.subrange(0, p.len() as int));
        }
    }
}

/// Assembler correctness: whatever order the fragments of a payload
/// arrived in, once all of them are together, ordering them by index and
/// concatenating each to its declared length restores the payload
/// exactly.  `s` is the gathered multiset in arrival order, `t` any index
/// sorted arrangement of the same fragments, as `add_fragment` produces.
pub proof fn lemma_assembler_reassembles(p: Seq<u8>, s: Seq<FragmentV>, t: Seq<FragmentV>)
    requires
        covers(p, s),
        t.to_multiset() == s.to_multiset(),
        sorted_by_index(t),
    ensures
        assemble(t) == p,
{
    lemma_covers_permutation(p, s, t);
    let n = n_fragments_of(p);
    assert forall|a: int| 0 <= a < t.len() implies (#[trigger] t[a]).fragment_index == a by {
        lemma_sorted_cover_lower(t, a);
        lemma_sorted_cover_upper(t, a, n);
    }
    lemma_assemble_prefix(p, t, t.len() as int);
    assert(t.take(t.len() as int) =~= t);
    assert(128 * n >= p.len());
    if 128 * t.len() as int <= p.len() {
        assert(assemble(t) == p.subrange(0, 128 * t.len() as int));
        assert(p.subrange(0, p.len() as int) =~= p);
        assert(128 * t.len() as int == p.len());
        assert(p.subrange(0, 128 * t.len() as int) =~= p);
    } else {
        assert(assemble(t) == p.subrange(0, p.len() as int));
        assert(p.subrange(0, p.len() as int) =~= p);
    }
}

/// Whether a stored fragment already carries this index.
pub fn has_index(v: &Vec<Fragment>, idx: u64) -> (b: bool)
    ensures
        b == index_present(v@.map_values(|f: Fragment| f@), idx),
{
    let ghost vs = v@.map_values(|f: Fragment| f@);
    let mut i: usize = 0;
    while i < v.len()
        invariant
            vs == v@.map_values(|f: Fragment| f@),
            i <= v@.len(),
            forall|k: int| 0 <= k < i ==> (#[trigger] vs[k]).fragment_index != idx,
        decreases v@.len() - i,
    {
        if v[i].fragment_index == idx {
            proof {
                assert(vs[i as int].fragment_index == idx);
            }
            return true;
        }
        i = i + 1;
    }
    false
}

/// The effective payload bytes of a fragment, as a fresh vector.
pub fn payload_vec(f: &Fragment) -> (r: Vec<u8>)
    requires
        f@.wf(),
    ensures
        r@ == f@.payload(),
{
    let mut r: Vec<u8> = Vec::new();
    let n = f.length as usize;
    let mut i: usize = 0;
    while i < n
        invariant
            n == f@.length as int,
            n <= 128,
            f@.data.len() == 128,
            i <= n,
            r@ == f@.data.subrange(0, i as int),
        decreases n - i,
    {
        r.push(f.data[i]);
        proof {
            assert(r@ =~= f@.data.subrange(0, i + 1));
        }
        i = i + 1;
    }
    r
}

/// Mapping each element to its view commutes with `push`.
pub proof fn lemma_view_map_push<T: View>(s: Seq<T>, x: T)
    ensures
        s.push(x).map_values(|t: T| t@) =~= s.map_values(|t: T| t@).push(x@),
{
}

/// Mapping each element to its view commutes with `remove`.
pub proof fn lemma_view_map_remove<T: View>(s: Seq<T>, i: int)
    requires
        0 <= i < s.len(),
    ensures
        s.remove(i).map_values(|t: T| t@) =~= s.map_values(|t: T| t@).remove(i),
{
    s.remove_ensures(i);
    s.map_values(|t: T| t@).remove_ensures(i);
}

/// Mapping each element to its view commutes with `insert`.
pub proof fn lemma_view_map_insert<T: View>(s: Seq<T>, i: int, x: T)
    requires
        0 <= i <= s.len(),
    ensures
        s.insert(i, x).map_values(|t: T| t@) =~= s.map_values(|t: T| t@).insert(i, x@),
{
    let a = s.insert(i, x).map_values(|t: T| t@);
    let b = s.map_values(|t: T| t@).insert(i, x@);
    assert forall|k: int| 0 <= k < a.len() implies #[trigger] a[k] == b[k] by {
        if k < i {
            assert(s.insert(i, x)[k] == s[k]);
        } else if k == i {
            assert(s.insert(i, x)[k] == x);
        } else {
            assert(s.insert(i, x)[k] == s[k - 1]);
        }
    }
    assert(a =~= b);
}

/// The concatenation of the effective payloads of the fragments, in the
/// order given.
pub fn concat_payloads(v: &Vec<Fragment>) -> (r: Vec<u8>)
    requires
        forall|i: int| 0 <= i < v@.len() ==> (#[trigger] v@[i])@.wf(),
    ensures
        r@ == assemble(v@.map_values(|f: Fragment| f@)),
{
    let ghost vs = v@.map_values(|f: Fragment| f@);
    let mut r: Vec<u8> = Vec::new();
    let mut i: usize = 0;
    proof {
        assert(vs.take(0) =~= Seq::<FragmentV>::empty());
    }
    while i < v.len()
        invariant
            vs == v@.map_values(|f: Fragment| f@),
            forall|k: int| 0 <= k < v@.len() ==> (#[trigger] v@[k])@.wf(),
            i <= v@.len(),
            r@ == assemble(vs.take(i as int)),
        decreases v@.len() - i,
    {
        let mut pv = payload_vec(&v[i]);
        r.append(&mut pv);
        proof {
            assert(vs.take(i + 1).drop_last() =~= vs.take(i as int));
            assert(vs.take(i + 1).last() == vs[i as int]);
            assert(vs[i as int] == v@[i as int]@);
        }
        i = i + 1;
    }
    proof {
        assert(vs.take(vs.len() as int) =~= vs);
    }
    r
}

/// Orders fragments by their index: repeatedly extracts a fragment of
/// smallest index.  The result holds exactly the fragments given.
pub fn sort_by_index_vec(v: Vec<Fragment>) -> (r: Vec<Fragment>)
    ensures
        sorted_by_index(r@.map_values(|f: Fragment| f@)),
        r@.map_values(|f: Fragment| f@).to_multiset() == v@.map_values(
            |f: Fragment| f@,
        ).to_multiset(),
        forall|i: int|
            0 <= i < r@.len() ==> v@.map_values(|f: Fragment| f@).contains((#[trigger] r@[i])@),
{
    broadcast use vstd::seq_lib::group_to_multiset_ensures;

    let ghost orig = v@.map_values(|f: Fragment| f@);
    let mut rest = v;
    let mut out: Vec<Fragment> = Vec::new();
    while rest.len() > 0
        invariant
            out@.map_values(|f: Fragment| f@).to_multiset().add(
                rest@.map_values(|f: Fragment| f@).to_multiset(),
            ) =~= orig.to_multiset(),
            sorted_by_index(out@.map_values(|f: Fragment| f@)),
            forall|a: int, b: int|
                0 <= a < out@.len() && 0 <= b < rest@.len() ==> (#[trigger] out@[a]).fragment_index
                    <= (#[trigger] rest@[b]).fragment_index,
            forall|i: int| 0 <= i < out@.len() ==> orig.contains((#[trigger] out@[i])@),
        decreases rest@.len(),
    {
        broadcast use vstd::seq_lib::group_to_multiset_ensures;

        let ghost oold = out@;
        let ghost rold = rest@;
        let ghost ovs = out@.map_values(|f: Fragment| f@);
        let ghost rvs = rest@.map_values(|f: Fragment| f@);
        let mut mi: usize = 0;
        let mut j: usize = 1;
        while j < rest.len()
            invariant
                rest@ == rold,
                rest@.len() > 0,
                mi < rest@.len(),
                j <= rest@.len(),
                forall|t: int|
                    0 <= t < j ==> (#[trigger] rest@[t]).fragment_index
                        >= rest@[mi as int].fragment_index,
            decreases rest@.len() - j,
        {
            if rest[j].fragment_index < rest[mi].fragment_index {
                mi = j;
            }
            j = j + 1;
        }
        let f = rest.remove(mi);
        out.push(f);
        proof {
            let x = f@;
            let ovs2 = out@.map_values(|g: Fragment| g@);
            let rvs2 = rest@.map_values(|g: Fragment| g@);
            lemma_view_map_push(oold, f);
            lemma_view_map_remove(rold, mi as int);
            assert(out@ == oold.push(f));
            assert(rest@ == rold.remove(mi as int));
            assert(ovs2 =~= ovs.push(x));
            assert(rvs2 =~= rvs.remove(mi as int));
            assert(x == rvs[mi as int]);
            assert(rvs.contains(x)) by {
                assert(rvs[mi as int] == x);
            }
            // The multiset balance is preserved by moving one fragment.
            assert(ovs2.to_multiset() =~= ovs.to_multiset().insert(x));
            assert(rvs2.to_multiset() =~= rvs.to_multiset().remove(x));
            assert(rvs.to_multiset().count(x) > 0);
            assert(ovs2.to_multiset().add(rvs2.to_multiset()) =~= orig.to_multiset());
            // The fragment moved has the smallest index of the rest.
            assert(forall|t: int|
                0 <= t < rold.len() ==> (#[trigger] rold[t]).fragment_index >= f.fragment_index);
            assert forall|a: int, b: int|
                0 <= a < out@.len() && 0 <= b < rest@.len() implies (#[trigger] out@[a]).fragment_index
                <= (#[trigger] rest@[b]).fragment_index by {
                rold.remove_ensures(mi as int);
                let b2: int = if b < mi { b } else { b + 1 };
                assert(rest@[b] == rold[b2]);
                if a < oold.len() {
                    assert(out@[a] == oold[a]);
                } else {
                    assert(out@[a] == f);
                }
            }
            assert(sorted_by_index(ovs2)) by {
                assert forall|a: int, b: int| 0 <= a < b < ovs2.len() implies (
                #[trigger] ovs2[a]).fragment_index <= (#[trigger] ovs2[b]).fragment_index by {
                    if b < ovs.len() {
                        assert(ovs2[a] == ovs[a] && ovs2[b] == ovs[b]);
                    } else {
                        assert(ovs2[b] == x);
                        assert(ovs2[a] == ovs[a]);
                        assert(ovs[a] == oold[a]@);
                        assert(oold[a].fragment_index <= rold[mi as int].fragment_index);
                    }
                }
            }
            assert forall|i: int| 0 <= i < out@.len() implies orig.contains((#[trigger] out@[i])@)
            by {
                if i == oold.len() {
                    assert(orig.to_multiset().count(x) == ovs.to_multiset().count(x)
                        + rvs.to_multiset().count(x));
                    assert(orig.to_multiset().count(x) > 0);
                }
            }
        }
    }
    proof {
        assert(rest@.map_values(|f: Fragment| f@) =~= Seq::<FragmentV>::empty());
        assert(out@.map_values(|f: Fragment| f@).to_multiset().add(
            Seq::<FragmentV>::empty().to_multiset(),
        ) =~= out@.map_values(|f: Fragment| f@).to_multiset());
    }
    out
}

} // verus!
