//! Inbound reassembly state of a session, kept apart for each sending peer, so
//! that transfer ids of different peers never meet.

use crate::codec::Envelope;
use crate::engine::IdentityKey;
use crate::reassembly::{outcome_model, reassemble_step, ProtocolError, ReassemblyModel, Reassembler};
use vstd::prelude::*;

verus! {

pub open spec fn empty_reassembly() -> ReassemblyModel {
    ReassemblyModel { open: Map::empty(), delivered: Set::empty() }
}

/// The reassembly state for sender `k`: nothing open and nothing delivered for
/// a sender never heard from.
pub open spec fn state_of(m: Map<Seq<u8>, ReassemblyModel>, k: Seq<u8>) -> ReassemblyModel {
    if m.contains_key(k) {
        m[k]
    } else {
        empty_reassembly()
    }
}

/// One reassembler per sending peer.
pub struct Inbound {
    peers: Vec<IdentityKey>,
    states: Vec<Reassembler>,
}

impl Inbound {
    pub closed spec fn has(&self, k: Seq<u8>) -> bool {
        exists|i: int| 0 <= i < self.peers@.len() && (#[trigger] self.peers@[i]).bytes@ == k
    }

    pub closed spec fn slot(&self, k: Seq<u8>) -> int {
        choose|i: int| 0 <= i < self.peers@.len() && (#[trigger] self.peers@[i]).bytes@ == k
    }

    /// The reassembly state of each sender heard from, by its key.
    pub closed spec fn model(&self) -> Map<Seq<u8>, ReassemblyModel> {
        Map::new(|k: Seq<u8>| self.has(k), |k: Seq<u8>| self.states@[self.slot(k)].model())
    }

    pub closed spec fn wf(&self) -> bool {
        &&& self.peers@.len() == self.states@.len()
        &&& forall|i: int, j: int|
            0 <= i < j < self.peers@.len() ==> (#[trigger] self.peers@[i]).bytes@ != (#[trigger] self.peers@[j]).bytes@
        &&& forall|i: int| 0 <= i < self.states@.len() ==> (#[trigger] self.states@[i]).wf()
    }

    pub fn new() -> (r: Inbound)
        ensures
            r.wf(),
            r.model() == Map::<Seq<u8>, ReassemblyModel>::empty(),
    {
        let r = Inbound { peers: Vec::new(), states: Vec::new() };
        assert(r.model() =~= Map::<Seq<u8>, ReassemblyModel>::empty());
        r
    }

    fn find(&self, k: &IdentityKey) -> (r: Option<usize>)
        requires
            self.wf(),
        ensures
            match r {
                Some(i) => i < self.peers@.len() && self.peers@[i as int].bytes@ == k.bytes@,
                None => !self.has(k.bytes@),
            },
    {
        let mut i: usize = 0;
        while i < self.peers.len()
            invariant
                i <= self.peers@.len(),
                forall|j: int| 0 <= j < i ==> (#[trigger] self.peers@[j]).bytes@ != k.bytes@,
            decreases self.peers@.len() - i,
        {
            if self.peers[i].same_as(k) {
                return Some(i);
            }
            i += 1;
        }
        None
    }

    /// Takes in one envelope sent by `from`, with the reassembler of that
    /// sender alone.
    pub fn reassemble_from(&mut self, from: &IdentityKey, e: Envelope) -> (r: Result<Option<Vec<u8>>, ProtocolError>)
        requires
            old(self).wf(),
        ensures
            final(self).wf(),
            ({
                let (m, o) = reassemble_step(
                    state_of(old(self).model(), from.bytes@),
                    e.transfer_id,
                    e.index,
                    e.total,
                    e.data@,
                );
                &&& final(self).model() == old(self).model().insert(from.bytes@, m)
                &&& outcome_model(r) == o
            }),
    {
        let ghost key = from.bytes@;
        let i = match self.find(from) {
            Some(i) => {
                assert(self.has(key));
                i
            },
            None => {
                let ghost m0 = self.model();
                self.peers.push(*from);
                self.states.push(Reassembler::new());
                let n = self.peers.len() - 1;
                assert forall|k: Seq<u8>| #![auto] self.has(k) == (m0.contains_key(k) || k == key) by {
                    if self.has(k) && k != key {
                        let j = self.slot(k);
                        assert(j < n);
                        assert(old(self).peers@[j] == self.peers@[j]);
                    }
                    if m0.contains_key(k) {
                        let j = old(self).slot(k);
                        assert(self.peers@[j] == old(self).peers@[j]);
                    }
                    if k == key {
                        assert(self.peers@[n as int].bytes@ == key);
                    }
                }
                assert forall|k: Seq<u8>| #![auto] m0.contains_key(k) implies self.model()[k] == m0[k] by {
                    let j = old(self).slot(k);
                    assert(self.peers@[j] == old(self).peers@[j]);
                    let j2 = self.slot(k);
                    assert(j2 == j);
                }
                assert(self.model()[key].open =~= Map::empty()) by {
                    assert(self.peers@[n as int].bytes@ == key);
                    assert(self.slot(key) == n);
                }
                assert(self.model()[key].delivered =~= Set::empty()) by {
                    assert(self.peers@[n as int].bytes@ == key);
                    assert(self.slot(key) == n);
                }
                assert(self.model() =~= m0.insert(key, empty_reassembly()));
                n
            },
        };
        let ghost m1 = self.model();
        assert(state_of(m1, key) == state_of(old(self).model(), key));
        assert(self.slot(key) == i as int);
        let ghost peers1 = self.peers@;
        let ghost states1 = self.states@;
        let mut st = self.states.remove(i);
        let r = st.reassemble(e);
        let ghost m = st.model();
        self.states.insert(i, st);
        assert(self.states@ =~= states1.update(i as int, st));
        assert forall|k: Seq<u8>| #![auto] m1.contains_key(k) && k != key implies self.model()[k] == m1[k] by {
            let j = self.slot(k);
            assert(j != i);
        }
        assert(self.peers@ == peers1);
        assert forall|k: Seq<u8>| #![auto] self.has(k) == m1.contains_key(k) by {
            if self.has(k) {
                let j = self.slot(k);
                assert(peers1[j].bytes@ == k);
            }
        }
        assert(self.slot(key) == i as int);
        assert(self.model()[key] == m);
        assert(self.model() =~= m1.insert(key, m));
        r
    }

    /// Whether transfer `tid` of sender `from` was already delivered.
    pub fn delivered_from(&self, from: &IdentityKey, tid: u64) -> (r: bool)
        requires
            self.wf(),
        ensures
            r == state_of(self.model(), from.bytes@).delivered.contains(tid),
    {
        match self.find(from) {
            Some(i) => {
                assert(self.has(from.bytes@));
                assert(self.slot(from.bytes@) == i as int);
                self.states[i].has_delivered(tid)
            },
            None => false,
        }
    }
}

} // verus!
