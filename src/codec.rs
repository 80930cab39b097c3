//! Splitting a payload into envelopes.

use vstd::prelude::*;

verus! {

/// Bytes an envelope may carry, the reserved chunk-count byte included.
pub const ENVELOPE_BUDGET: usize = 993;

/// Payload bytes carried by one envelope.
pub const CHUNK_SIZE: usize = 992;

/// Largest chunk count; it fits one byte, with 0, 254 and 255 reserved.
pub const MAX_CHUNKS: usize = 253;

/// Largest payload that one transfer can carry.
pub const MAX_PAYLOAD_LEN: usize = 250975;

/// One chunk of a transfer, as placed into the substrate.
pub struct Envelope {
    pub transfer_id: u64,
    /// 1-based position of this chunk.
    pub index: u8,
    /// Number of chunks of the transfer.
    pub total: u8,
    pub data: Vec<u8>,
}

/// An envelope in mathematical terms.
pub struct EnvelopeModel {
    pub transfer_id: u64,
    pub index: u8,
    pub total: u8,
    pub data: Seq<u8>,
}

impl View for Envelope {
    type V = EnvelopeModel;

    open spec fn view(&self) -> EnvelopeModel {
        EnvelopeModel {
            transfer_id: self.transfer_id,
            index: self.index,
            total: self.total,
            data: self.data@,
        }
    }
}

impl Envelope {
    /// A copy of this envelope.
    pub fn duplicate(&self) -> (r: Envelope)
        ensures
            r@ == self@,
    {
        let data = copy_range(self.data.as_slice(), 0, self.data.len());
        assert(data@ =~= self.data@);
        Envelope { transfer_id: self.transfer_id, index: self.index, total: self.total, data }
    }
}

#[derive(Debug, Clone, Copy, PartialEq, Eq, Structural)]
pub enum SplitError {
    /// Nothing to send.
    Empty,
    /// More chunks would be needed than allowed.
    TooLong,
}

/// Number of chunks of `size` bytes that cover `len` bytes.
pub open spec fn chunk_count(len: nat, size: nat) -> nat {
    if size == 0 {
        0
    } else {
        len / size + if len % size == 0 { 0nat } else { 1nat }
    }
}

/// Largest payload length accepted for the given envelope budget and chunk cap.
pub open spec fn max_payload_len(max_envelope_payload: nat, max_chunks: nat) -> int {
    (max_envelope_payload - 1) * max_chunks - 1
}

/// The `i`-th chunk of `p` when cut in pieces of `size` bytes.
pub open spec fn chunk_of(p: Seq<u8>, size: nat, i: nat) -> Seq<u8> {
    let start: int = (i * size) as int;
    let end: int = if start + size <= p.len() { start + size } else { p.len() as int };
    p.subrange(start, end)
}

/// All chunks of `p`, in order.
pub open spec fn chunks_of(p: Seq<u8>, size: nat) -> Seq<Seq<u8>> {
    Seq::new(chunk_count(p.len(), size), |i: int| chunk_of(p, size, i as nat))
}

/// `es` are the envelopes of transfer `tid` carrying `chunks`, in order.
pub open spec fn envelopes_for(es: Seq<Envelope>, tid: u64, chunks: Seq<Seq<u8>>) -> bool {
    &&& es.len() == chunks.len()
    &&& forall|i: int|
        0 <= i < es.len() ==> {
            &&& (#[trigger] es[i]).transfer_id == tid
            &&& es[i].index == i + 1
            &&& es[i].total == chunks.len()
            &&& es[i].data@ == chunks[i]
        }
}

/// The quotient and remainder of `len` by `size`.
pub proof fn lemma_div_mod(len: nat, size: nat)
    requires
        size > 0,
    ensures
        len == size * (len / size) + len % size,
        0 <= len % size < size,
{
    let q = len / size;
    let r = len % size;
    assert(len == size * q + r && 0 <= r < size) by (nonlinear_arith)
        requires
            size > 0,
            q == len / size,
            r == len % size,
    ;
}

pub(crate) proof fn lemma_chunk_start(len: nat, size: nat, i: nat)
    requires
        size > 0,
        i < chunk_count(len, size),
    ensures
        i * size < len,
{
    lemma_div_mod(len, size);
    let q = len / size;
    let r = len % size;
    if r == 0 {
        assert(i * size < len) by (nonlinear_arith)
            requires
                i < q,
                len == size * q,
                size > 0,
        ;
    } else {
        assert(i * size < len) by (nonlinear_arith)
            requires
                i <= q,
                len == size * q + r,
                r > 0,
        ;
    }
}

proof fn lemma_count_bound(len: nat, size: nat, cap: nat)
    requires
        size > 0,
        len / size < cap,
    ensures
        chunk_count(len, size) <= cap,
        len <= size * cap - 1,
{
    lemma_div_mod(len, size);
    let q = len / size;
    let r = len % size;
    assert(len < size * cap) by (nonlinear_arith)
        requires
            q + 1 <= cap,
            len == size * q + r,
            r < size,
    ;
}

proof fn lemma_too_long(len: nat, size: nat, cap: nat)
    requires
        size > 0,
        len / size >= cap,
    ensures
        len > size * cap - 1,
{
    lemma_div_mod(len, size);
    let q = len / size;
    let r = len % size;
    assert(len >= size * cap) by (nonlinear_arith)
        requires
            q >= cap,
            len == size * q + r,
            r >= 0,
            size > 0,
    ;
}

pub(crate) proof fn lemma_chunk_count_range(len: nat)
    requires
        1 <= len <= MAX_PAYLOAD_LEN,
    ensures
        1 <= chunk_count(len, CHUNK_SIZE as nat) <= MAX_CHUNKS,
{
    let size = CHUNK_SIZE as nat;
    assert(len / size < MAX_CHUNKS);
    if len % size == 0 {
        assert(len / size >= 1);
    }
}

/// The largest payload for the substrate's envelope budget and the one-byte
/// chunk count is 992 * 253 - 1 bytes: `split` takes it, and refuses one byte more.
pub proof fn lemma_max_payload_len()
    ensures
        max_payload_len(ENVELOPE_BUDGET as nat, MAX_CHUNKS as nat) == MAX_PAYLOAD_LEN,
        MAX_PAYLOAD_LEN == CHUNK_SIZE * MAX_CHUNKS - 1,
{
}

/// Copies `payload[start..end]`.
pub(crate) fn copy_range(payload: &[u8], start: usize, end: usize) -> (r: Vec<u8>)
    requires
        start <= end <= payload@.len(),
    ensures
        r@ == payload@.subrange(start as int, end as int),
{
    let mut out: Vec<u8> = Vec::new();
    let mut k: usize = start;
    while k < end
        invariant
            start <= k <= end <= payload@.len(),
            out@ == payload@.subrange(start as int, k as int),
        decreases end - k,
    {
        out.push(payload[k]);
        k += 1;
        assert(out@ =~= payload@.subrange(start as int, k as int));
    }
    out
}

/// Cuts `payload` into envelopes of transfer `transfer_id`, each carrying at
/// most `max_envelope_payload - 1` bytes, numbered from 1.
pub fn split(payload: &[u8], max_envelope_payload: usize, max_chunks: usize, transfer_id: u64) -> (r:
    Result<Vec<Envelope>, SplitError>)
    requires
        2 <= max_envelope_payload,
        1 <= max_chunks <= MAX_CHUNKS,
    ensures
        payload@.len() == 0 <==> r == Err::<Vec<Envelope>, SplitError>(SplitError::Empty),
        payload@.len() > max_payload_len(max_envelope_payload as nat, max_chunks as nat) <==> r
            == Err::<Vec<Envelope>, SplitError>(SplitError::TooLong),
        r is Ok <==> 1 <= payload@.len() <= max_payload_len(max_envelope_payload as nat, max_chunks as nat),
        r is Ok ==> envelopes_for(
            r->Ok_0@,
            transfer_id,
            chunks_of(payload@, (max_envelope_payload - 1) as nat),
        ),
{
    let size = max_envelope_payload - 1;
    let len = payload.len();
    if len == 0 {
        assert(max_payload_len(max_envelope_payload as nat, max_chunks as nat) >= 0) by (nonlinear_arith)
            requires
                max_envelope_payload >= 2,
                max_chunks >= 1,
        ;
        return Err(SplitError::Empty);
    }
    if len / size >= max_chunks {
        proof {
            lemma_too_long(len as nat, size as nat, max_chunks as nat);
        }
        return Err(SplitError::TooLong);
    }
    proof {
        lemma_count_bound(len as nat, size as nat, max_chunks as nat);
    }
    let count: usize = len / size + if len % size == 0 {
        0
    } else {
        1
    };
    let ghost chunks = chunks_of(payload@, size as nat);
    assert(count == chunks.len());
    let mut out: Vec<Envelope> = Vec::new();
    let mut i: usize = 0;
    while i < count
        invariant
            size == max_envelope_payload - 1,
            size > 0,
            len == payload@.len(),
            count == chunks.len(),
            count <= MAX_CHUNKS,
            chunks == chunks_of(payload@, size as nat),
            i <= count,
            out@.len() == i,
            forall|j: int|
                0 <= j < i ==> {
                    &&& (#[trigger] out@[j]).transfer_id == transfer_id
                    &&& out@[j].index == j + 1
                    &&& out@[j].total == count
                    &&& out@[j].data@ == chunks[j]
                },
        decreases count - i,
    {
        proof {
            lemma_chunk_start(len as nat, size as nat, i as nat);
        }
        let start = i * size;
        let end = if len - start >= size {
            start + size
        } else {
            len
        };
        let data = copy_range(payload, start, end);
        out.push(Envelope { transfer_id, index: (i + 1) as u8, total: count as u8, data });
        i += 1;
    }
    Ok(out)
}

} // verus!
