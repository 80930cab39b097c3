//! Putting the envelopes of inbound transfers back together.

use crate::codec::{
    chunk_count, chunk_of, chunks_of, lemma_chunk_count_range, lemma_div_mod, lemma_chunk_start, Envelope, CHUNK_SIZE, MAX_CHUNKS,
    MAX_PAYLOAD_LEN,
};
use std::collections::HashMap;
use std::collections::HashSet;
use vstd::prelude::*;

verus! {

broadcast use vstd::std_specs::hash::group_hash_axioms;

/// What the reassembler holds, in mathematical terms: for each open transfer the
/// chunks that arrived so far, and the transfers that were already delivered.
pub struct ReassemblyModel {
    pub open: Map<u64, Seq<Option<Seq<u8>>>>,
    pub delivered: Set<u64>,
}

#[derive(Debug, Clone, Copy, PartialEq, Eq, Structural)]
pub enum ProtocolError {
    /// The chunk index or the chunk count lies outside its domain.
    BadIndex,
    /// The chunk count differs from the one of the open transfer.
    TotalMismatch,
}

pub open spec fn empty_slots(n: nat) -> Seq<Option<Seq<u8>>> {
    Seq::new(n, |i: int| None)
}

/// Fills slot `i` with `d` unless it is filled already: a duplicate changes nothing.
pub open spec fn store(s: Seq<Option<Seq<u8>>>, i: int, d: Seq<u8>) -> Seq<Option<Seq<u8>>> {
    if s[i] is None {
        s.update(i, Some(d))
    } else {
        s
    }
}

pub open spec fn is_complete(s: Seq<Option<Seq<u8>>>) -> bool {
    forall|i: int| 0 <= i < s.len() ==> (#[trigger] s[i]) is Some
}

/// The contents of the slots, one after the other.
pub open spec fn joined(s: Seq<Option<Seq<u8>>>) -> Seq<u8>
    decreases s.len(),
{
    if s.len() == 0 {
        Seq::empty()
    } else {
        joined(s.drop_last()) + s.last()->Some_0
    }
}

pub open spec fn valid_envelope(index: u8, total: u8) -> bool {
    1 <= total <= MAX_CHUNKS && 1 <= index <= total
}

/// The effect of one envelope of transfer `tid` on the reassembler, and what it
/// yields: a payload when its last missing chunk arrives.
pub open spec fn reassemble_step(m: ReassemblyModel, tid: u64, index: u8, total: u8, data: Seq<u8>) -> (
    ReassemblyModel,
    Result<Option<Seq<u8>>, ProtocolError>,
) {
    if !valid_envelope(index, total) {
        (m, Err(ProtocolError::BadIndex))
    } else if m.delivered.contains(tid) {
        (m, Ok(None))
    } else if m.open.contains_key(tid) && m.open[tid].len() != total {
        (ReassemblyModel { open: m.open.remove(tid), delivered: m.delivered }, Err(ProtocolError::TotalMismatch))
    } else {
        let base = if m.open.contains_key(tid) {
            m.open[tid]
        } else {
            empty_slots(total as nat)
        };
        let next = store(base, index - 1, data);
        if is_complete(next) {
            (
                ReassemblyModel { open: m.open.remove(tid), delivered: m.delivered.insert(tid) },
                Ok(Some(joined(next))),
            )
        } else {
            (ReassemblyModel { open: m.open.insert(tid, next), delivered: m.delivered }, Ok(None))
        }
    }
}

pub open spec fn outcome_model(r: Result<Option<Vec<u8>>, ProtocolError>) -> Result<Option<Seq<u8>>, ProtocolError> {
    match r {
        Ok(Some(v)) => Ok(Some(v@)),
        Ok(None) => Ok(None),
        Err(e) => Err(e),
    }
}

/// The chunks received so far of one transfer.
pub struct Partial {
    slots: Vec<Vec<u8>>,
    filled: Vec<bool>,
}

impl Partial {
    pub closed spec fn model(&self) -> Seq<Option<Seq<u8>>> {
        Seq::new(
            self.slots@.len(),
            |i: int|
                if self.filled@[i] {
                    Some(self.slots@[i]@)
                } else {
                    None
                },
        )
    }

    pub closed spec fn wf(&self) -> bool {
        &&& self.slots@.len() == self.filled@.len()
        &&& 1 <= self.slots@.len() <= MAX_CHUNKS
    }

    fn new(n: usize) -> (r: Partial)
        requires
            1 <= n <= MAX_CHUNKS,
        ensures
            r.wf(),
            r.model() == empty_slots(n as nat),
    {
        let mut slots: Vec<Vec<u8>> = Vec::new();
        let mut filled: Vec<bool> = Vec::new();
        let mut i: usize = 0;
        while i < n
            invariant
                i <= n,
                slots@.len() == i,
                filled@.len() == i,
                forall|j: int| 0 <= j < i ==> !(#[trigger] filled@[j]),
            decreases n - i,
        {
            slots.push(Vec::new());
            filled.push(false);
            i += 1;
        }
        let r = Partial { slots, filled };
        assert(r.model() =~= empty_slots(n as nat));
        r
    }

    fn len(&self) -> (r: usize)
        requires
            self.wf(),
        ensures
            r == self.model().len(),
    {
        self.slots.len()
    }

    fn put(&mut self, i: usize, data: Vec<u8>)
        requires
            old(self).wf(),
            i < old(self).model().len(),
        ensures
            final(self).wf(),
            final(self).model() == store(old(self).model(), i as int, data@),
    {
        if !self.filled[i] {
            self.slots[i] = data;
            self.filled[i] = true;
        }
        assert(self.model() =~= store(old(self).model(), i as int, data@));
    }

    fn complete(&self) -> (r: bool)
        requires
            self.wf(),
        ensures
            r == is_complete(self.model()),
    {
        let mut i: usize = 0;
        while i < self.filled.len()
            invariant
                self.wf(),
                i <= self.filled@.len(),
                forall|j: int| 0 <= j < i ==> self.filled@[j],
            decreases self.filled@.len() - i,
        {
            if !self.filled[i] {
                assert(self.model()[i as int] is None);
                return false;
            }
            i += 1;
        }
        true
    }

    fn join(&self) -> (r: Vec<u8>)
        requires
            self.wf(),
            is_complete(self.model()),
        ensures
            r@ == joined(self.model()),
    {
        let ghost m = self.model();
        let mut out: Vec<u8> = Vec::new();
        let mut i: usize = 0;
        while i < self.slots.len()
            invariant
                self.wf(),
                m == self.model(),
                is_complete(m),
                i <= m.len(),
                out@ == joined(m.take(i as int)),
            decreases m.len() - i,
        {
            assert(m[i as int] is Some);
            out.extend_from_slice(self.slots[i].as_slice());
            assert(m.take(i + 1).drop_last() =~= m.take(i as int));
            assert(out@ =~= joined(m.take(i + 1)));
            i += 1;
        }
        assert(m.take(m.len() as int) =~= m);
        out
    }
}

/// Inbound reassembly state for the transfers of one sending peer.
pub struct Reassembler {
    open: HashMap<u64, Partial>,
    delivered: HashSet<u64>,
}

impl Reassembler {
    pub closed spec fn model(&self) -> ReassemblyModel {
        ReassemblyModel {
            open: Map::new(|k: u64| self.open@.contains_key(k), |k: u64| self.open@[k].model()),
            delivered: self.delivered@,
        }
    }

    pub closed spec fn wf(&self) -> bool {
        forall|k: u64| #[trigger] self.open@.contains_key(k) ==> self.open@[k].wf()
    }

    /// A reassembler with nothing open and nothing delivered.
    pub fn new() -> (r: Reassembler)
        ensures
            r.wf(),
            r.model().open.is_empty(),
            r.model().delivered.is_empty(),
    {
        let r = Reassembler { open: HashMap::new(), delivered: HashSet::new() };
        assert(r.model().open =~= Map::empty());
        r
    }

    /// Whether transfer `tid` was already delivered.
    pub fn has_delivered(&self, tid: u64) -> (r: bool)
        ensures
            r == self.model().delivered.contains(tid),
    {
        self.delivered.contains(&tid)
    }

    /// Takes in one envelope; returns the payload of its transfer when this was
    /// the last chunk missing.
    pub fn reassemble(&mut self, e: Envelope) -> (r: Result<Option<Vec<u8>>, ProtocolError>)
        requires
            old(self).wf(),
        ensures
            final(self).wf(),
            (final(self).model(), outcome_model(r)) == reassemble_step(
                old(self).model(),
                e.transfer_id,
                e.index,
                e.total,
                e.data@,
            ),
    {
        let tid = e.transfer_id;
        if e.total == 0 || e.total as usize > MAX_CHUNKS || e.index == 0 || e.index > e.total {
            return Err(ProtocolError::BadIndex);
        }
        if self.delivered.contains(&tid) {
            return Ok(None);
        }
        let mut part = match self.open.remove(&tid) {
            Some(p) => {
                if p.len() != e.total as usize {
                    assert(self.model().open =~= old(self).model().open.remove(tid));
                    return Err(ProtocolError::TotalMismatch);
                }
                p
            },
            None => Partial::new(e.total as usize),
        };
        let ghost base = part.model();
        part.put((e.index - 1) as usize, e.data);
        if part.complete() {
            self.delivered.insert(tid);
            assert(self.model().open =~= old(self).model().open.remove(tid));
            Ok(Some(part.join()))
        } else {
            self.open.insert(tid, part);
            assert(self.model().open =~= old(self).model().open.insert(tid, part.model()));
            Ok(None)
        }
    }
}

/// Feeds the chunks of transfer `tid`, at the positions listed in `order`
/// (0-based, in delivery order, repeats allowed), and collects the outcomes.
pub open spec fn feed(m: ReassemblyModel, tid: u64, chunks: Seq<Seq<u8>>, order: Seq<int>) -> (
    ReassemblyModel,
    Seq<Result<Option<Seq<u8>>, ProtocolError>>,
)
    decreases order.len(),
{
    if order.len() == 0 {
        (m, Seq::empty())
    } else {
        let (m1, outs) = feed(m, tid, chunks, order.drop_last());
        let k = order.last();
        let (m2, o) = reassemble_step(m1, tid, (k + 1) as u8, chunks.len() as u8, chunks[k]);
        (m2, outs.push(o))
    }
}

/// The slots of a transfer once the positions in `order` have arrived.
pub open spec fn arrived(chunks: Seq<Seq<u8>>, order: Seq<int>) -> Seq<Option<Seq<u8>>> {
    Seq::new(
        chunks.len(),
        |j: int|
            if order.contains(j) {
                Some(chunks[j])
            } else {
                None
            },
    )
}

proof fn lemma_joined_prefix(p: Seq<u8>, size: nat, k: nat)
    requires
        size > 0,
        k <= chunk_count(p.len(), size),
    ensures
        joined(Seq::new(k, |j: int| Some(chunk_of(p, size, j as nat)))) == p.subrange(
            0,
            if k * size <= p.len() { (k * size) as int } else { p.len() as int },
        ),
    decreases k,
{
    let s = Seq::new(k, |j: int| Some(chunk_of(p, size, j as nat)));
    if k == 0 {
        assert(p.subrange(0, 0) =~= Seq::<u8>::empty());
    } else {
        let k1 = (k - 1) as nat;
        lemma_joined_prefix(p, size, k1);
        assert(s.drop_last() =~= Seq::new(k1, |j: int| Some(chunk_of(p, size, j as nat))));
        assert(k * size == k1 * size + size) by (nonlinear_arith)
            requires
                k == k1 + 1,
        ;
        lemma_chunk_start(p.len(), size, k1);
        assert(k1 * size <= p.len());
        assert(joined(s) =~= p.subrange(
            0,
            if k * size <= p.len() { (k * size) as int } else { p.len() as int },
        ));
    }
}

/// Joining all the chunks of a payload, in order, gives the payload back.
pub proof fn lemma_chunks_join(p: Seq<u8>, size: nat)
    requires
        size > 0,
    ensures
        joined(chunks_of(p, size).map_values(|c: Seq<u8>| Some(c))) == p,
{
    let n = chunk_count(p.len(), size);
    lemma_joined_prefix(p, size, n);
    assert(chunks_of(p, size).map_values(|c: Seq<u8>| Some(c)) =~= Seq::new(
        n,
        |j: int| Some(chunk_of(p, size, j as nat)),
    ));
    lemma_div_mod(p.len(), size);
    let q = p.len() / size;
    let r = p.len() % size;
    assert(n * size >= p.len()) by (nonlinear_arith)
        requires
            n == q + if r == 0 { 0nat } else { 1nat },
            p.len() == size * q + r,
            r < size,
    ;
    assert(p.subrange(0, p.len() as int) =~= p);
}

proof fn lemma_arrived_push(chunks: Seq<Seq<u8>>, order: Seq<int>, k: int)
    requires
        0 <= k < chunks.len(),
    ensures
        arrived(chunks, order.push(k)) == store(arrived(chunks, order), k, chunks[k]),
{
    let a = arrived(chunks, order);
    let b = arrived(chunks, order.push(k));
    assert forall|j: int| 0 <= j < chunks.len() implies b[j] == store(a, k, chunks[k])[j] by {
        if order.contains(j) {
            let t = choose|t: int| 0 <= t < order.len() && order[t] == j;
            assert(order.push(k)[t] == j);
        }
        if order.push(k).contains(j) && j != k {
            let t = choose|t: int| 0 <= t < order.len() + 1 && order.push(k)[t] == j;
            assert(order[t] == j);
        }
        assert(order.push(k)[order.len() as int] == k);
    }
    assert(b =~= store(a, k, chunks[k]));
}

proof fn lemma_feed(m: ReassemblyModel, tid: u64, chunks: Seq<Seq<u8>>, order: Seq<int>)
    requires
        1 <= chunks.len() <= MAX_CHUNKS,
        forall|t: int| 0 <= t < order.len() ==> 0 <= #[trigger] order[t] < chunks.len(),
        !m.open.contains_key(tid),
        !m.delivered.contains(tid),
    ensures
        ({
            let (m2, outs) = feed(m, tid, chunks, order);
            &&& outs.len() == order.len()
            &&& if is_complete(arrived(chunks, order)) {
                &&& m2.delivered.contains(tid)
                &&& !m2.open.contains_key(tid)
                &&& exists|t: int|
                    0 <= t < outs.len() && outs[t] == Ok::<Option<Seq<u8>>, ProtocolError>(
                        Some(joined(arrived(chunks, order))),
                    ) && forall|u: int|
                        0 <= u < outs.len() && u != t ==> outs[u] == Ok::<
                            Option<Seq<u8>>,
                            ProtocolError,
                        >(None)
            } else {
                &&& !m2.delivered.contains(tid)
                &&& order.len() == 0 ==> !m2.open.contains_key(tid)
                &&& order.len() > 0 ==> m2.open.contains_key(tid) && m2.open[tid] == arrived(chunks, order)
                &&& forall|u: int| 0 <= u < outs.len() ==> outs[u] == Ok::<Option<Seq<u8>>, ProtocolError>(None)
            }
        }),
    decreases order.len(),
{
    let n = chunks.len();
    if order.len() == 0 {
        assert(!is_complete(arrived(chunks, order))) by {
            assert(arrived(chunks, order)[0] is None);
        }
    } else {
        let prev = order.drop_last();
        let k = order.last();
        assert(prev.push(k) =~= order);
        lemma_feed(m, tid, chunks, prev);
        lemma_arrived_push(chunks, prev, k);
        let (m1, outs1) = feed(m, tid, chunks, prev);
        let (m2, outs) = feed(m, tid, chunks, order);
        assert(outs == outs1.push(reassemble_step(m1, tid, (k + 1) as u8, n as u8, chunks[k]).1));
        if is_complete(arrived(chunks, prev)) {
            assert(is_complete(arrived(chunks, order)));
            assert(arrived(chunks, order) == arrived(chunks, prev));
            let t = choose|t: int|
                0 <= t < outs1.len() && outs1[t] == Ok::<Option<Seq<u8>>, ProtocolError>(
                    Some(joined(arrived(chunks, prev))),
                ) && forall|u: int|
                    0 <= u < outs1.len() && u != t ==> outs1[u] == Ok::<Option<Seq<u8>>, ProtocolError>(None);
            assert(outs[t] == outs1[t]);
        } else {
            if prev.len() == 0 {
                assert(arrived(chunks, prev) =~= empty_slots(n as nat));
            }
            if is_complete(arrived(chunks, order)) {
                assert(outs[prev.len() as int] == Ok::<Option<Seq<u8>>, ProtocolError>(
                    Some(joined(arrived(chunks, order))),
                ));
            }
        }
    }
}

/// Whatever the order of delivery and however many times each envelope of a
/// split payload arrives, once every chunk has arrived the reassembler has
/// yielded the payload that was split exactly once, and nothing else.
pub proof fn lemma_round_trip(m: ReassemblyModel, tid: u64, p: Seq<u8>, order: Seq<int>)
    requires
        1 <= p.len() <= MAX_PAYLOAD_LEN,
        !m.open.contains_key(tid),
        !m.delivered.contains(tid),
        forall|t: int|
            0 <= t < order.len() ==> 0 <= #[trigger] order[t] < chunks_of(p, CHUNK_SIZE as nat).len(),
        forall|j: int| 0 <= j < chunks_of(p, CHUNK_SIZE as nat).len() ==> order.contains(j),
    ensures
        ({
            let (m2, outs) = feed(m, tid, chunks_of(p, CHUNK_SIZE as nat), order);
            &&& m2.delivered.contains(tid)
            &&& !m2.open.contains_key(tid)
            &&& exists|t: int|
                0 <= t < outs.len() && outs[t] == Ok::<Option<Seq<u8>>, ProtocolError>(Some(p))
                    && forall|u: int|
                    0 <= u < outs.len() && u != t ==> outs[u] == Ok::<Option<Seq<u8>>, ProtocolError>(None)
        }),
{
    let chunks = chunks_of(p, CHUNK_SIZE as nat);
    let size = CHUNK_SIZE as nat;
    lemma_chunk_count_range(p.len());
    lemma_feed(m, tid, chunks, order);
    assert(arrived(chunks, order) =~= chunks.map_values(|c: Seq<u8>| Some(c)));
    lemma_chunks_join(p, size);
}

/// Taking in the same envelope twice changes nothing the second time: a
/// successful first call leaves a second one yielding nothing, and a rejected
/// chunk is rejected again.
pub proof fn lemma_duplicate_envelope(m: ReassemblyModel, tid: u64, index: u8, total: u8, data: Seq<u8>)
    ensures
        ({
            let (m1, o1) = reassemble_step(m, tid, index, total, data);
            let (m2, o2) = reassemble_step(m1, tid, index, total, data);
            &&& o1 is Ok ==> m2 == m1 && o2 == Ok::<Option<Seq<u8>>, ProtocolError>(None)
            &&& o1 == Err::<Option<Seq<u8>>, ProtocolError>(ProtocolError::BadIndex) ==> m2 == m1 && o2 == o1
        }),
{
    let (m1, o1) = reassemble_step(m, tid, index, total, data);
    if o1 is Ok && valid_envelope(index, total) && !m.delivered.contains(tid) {
        let base = if m.open.contains_key(tid) {
            m.open[tid]
        } else {
            empty_slots(total as nat)
        };
        let next = store(base, index - 1, data);
        if !is_complete(next) {
            assert(m1.open[tid] == next);
            assert(store(next, index - 1, data) == next);
            assert(m1.open.insert(tid, next) =~= m1.open);
        }
    }
}

} // verus!
