//! Sessions: binding, sending, receiving, and the clock tick that drives them.

use crate::codec::{
    chunks_of, max_payload_len, split, Envelope, EnvelopeModel, SplitError, CHUNK_SIZE,
    ENVELOPE_BUDGET, MAX_CHUNKS,
};
use crate::codec::{lemma_chunk_count_range, lemma_div_mod};
use crate::reassembly::{
    empty_slots, is_complete, joined, valid_envelope, lemma_chunks_join, reassemble_step, store, ProtocolError,
    ReassemblyModel,
};
use crate::inbound::{state_of, Inbound};
use std::collections::HashMap;
use vstd::prelude::*;

verus! {

broadcast use vstd::std_specs::hash::group_hash_axioms;

/// Length of an identity key, in bytes.
pub const KEY_LEN: usize = 32;

/// Default number of transmissions of one transfer before it is given up.
pub const RETRY_LIMIT: u32 = 10;

/// Default milliseconds added to the retry delay with each transmission.
pub const RETRY_INTERVAL_MS: u64 = 1000;

/// Line logged once when the substrate has finished its bootstrap.
pub const BOOTSTRAP_DONE_MARKER: &'static str = "[dht-boot] DHT bootstrap ... Done.";

/// The public key that names a peer.
#[derive(Clone, Copy, Debug)]
pub struct IdentityKey {
    pub bytes: [u8; 32],
}

impl IdentityKey {
    pub fn new(bytes: [u8; 32]) -> (r: IdentityKey)
        ensures
            r.bytes@ == bytes@,
    {
        IdentityKey { bytes }
    }

    /// Byte equality of two keys.
    pub fn same_as(&self, other: &IdentityKey) -> (r: bool)
        ensures
            r == (self.bytes@ == other.bytes@),
    {
        let mut i: usize = 0;
        while i < KEY_LEN
            invariant
                i <= KEY_LEN,
                self.bytes@.len() == KEY_LEN,
                other.bytes@.len() == KEY_LEN,
                forall|j: int| 0 <= j < i ==> self.bytes@[j] == other.bytes@[j],
            decreases KEY_LEN - i,
        {
            if self.bytes[i] != other.bytes[i] {
                return false;
            }
            i += 1;
        }
        assert(self.bytes@ =~= other.bytes@);
        true
    }
}

impl PartialEq for IdentityKey {
    fn eq(&self, other: &IdentityKey) -> (r: bool) {
        self.same_as(other)
    }
}

impl vstd::std_specs::cmp::PartialEqSpecImpl for IdentityKey {
    open spec fn obeys_eq_spec() -> bool {
        true
    }

    open spec fn eq_spec(&self, other: &IdentityKey) -> bool {
        self.bytes@ == other.bytes@
    }
}

/// What a datagram carries.
pub enum Message {
    Chunk(Envelope),
    /// The receiver holds the whole transfer with this id.
    Ack(u64),
}

pub enum MessageModel {
    Chunk(EnvelopeModel),
    Ack(u64),
}

impl View for Message {
    type V = MessageModel;

    open spec fn view(&self) -> MessageModel {
        match self {
            Message::Chunk(e) => MessageModel::Chunk(e@),
            Message::Ack(t) => MessageModel::Ack(*t),
        }
    }
}

/// A unit handed to or taken from the substrate.
pub struct Datagram {
    pub from: IdentityKey,
    pub to: IdentityKey,
    pub session_id: u32,
    pub message: Message,
}

pub struct DatagramModel {
    pub from: Seq<u8>,
    pub to: Seq<u8>,
    pub session_id: u32,
    pub message: MessageModel,
}

impl View for Datagram {
    type V = DatagramModel;

    open spec fn view(&self) -> DatagramModel {
        DatagramModel {
            from: self.from.bytes@,
            to: self.to.bytes@,
            session_id: self.session_id,
            message: self.message@,
        }
    }
}

pub open spec fn datagrams(s: Seq<Datagram>) -> Seq<DatagramModel> {
    s.map_values(|d: Datagram| d@)
}

/// A transfer waiting for its acknowledgement.
pub struct Pending {
    pub transfer_id: u64,
    pub envelopes: Vec<Envelope>,
    /// Time, in milliseconds, at which it is sent again.
    pub deadline: u64,
    /// Transmissions so far.
    pub attempts: u32,
}

pub struct PendingModel {
    pub transfer_id: u64,
    pub envelopes: Seq<EnvelopeModel>,
    pub deadline: u64,
    pub attempts: u32,
}

impl View for Pending {
    type V = PendingModel;

    open spec fn view(&self) -> PendingModel {
        PendingModel {
            transfer_id: self.transfer_id,
            envelopes: self.envelopes@.map_values(|e: Envelope| e@),
            deadline: self.deadline,
            attempts: self.attempts,
        }
    }
}

pub open spec fn pendings(s: Seq<Pending>) -> Seq<PendingModel> {
    s.map_values(|p: Pending| p@)
}

/// What `recv` hands out.
pub enum Received {
    /// The bytes of the oldest completed transfer; the caller now owns them.
    Payload(Vec<u8>),
    /// Nothing completed yet.
    Nothing,
    /// This outbound transfer ran out of retries.
    DeliveryFailed(u64),
}

pub enum ReceivedModel {
    Payload(Seq<u8>),
    Nothing,
    DeliveryFailed(u64),
}

impl View for Received {
    type V = ReceivedModel;

    open spec fn view(&self) -> ReceivedModel {
        match self {
            Received::Payload(v) => ReceivedModel::Payload(v@),
            Received::Nothing => ReceivedModel::Nothing,
            Received::DeliveryFailed(t) => ReceivedModel::DeliveryFailed(*t),
        }
    }
}

#[derive(Debug, Clone, Copy, PartialEq, Eq, Structural)]
pub enum SendError {
    /// No `bind` was made on this session id.
    NotBound,
    /// The payload is empty.
    Empty,
    /// The payload is longer than one transfer can carry.
    TooLong,
    /// Every transfer id was used.
    IdsExhausted,
}

#[derive(Debug, Clone, Copy, PartialEq, Eq, Structural)]
pub enum RecvError {
    /// No `bind` was made on this session id.
    UnknownSession,
}

/// A session in mathematical terms.
pub struct SessionModel {
    pub remote: Seq<u8>,
    pub outbound: Seq<PendingModel>,
    /// Reassembly state for each sending peer, by its key.
    pub inbound: Map<Seq<u8>, ReassemblyModel>,
    /// Completed payloads, oldest first.
    pub ready: Seq<Seq<u8>>,
    /// Outbound transfers given up, oldest first.
    pub failed: Seq<u64>,
    /// Protocol violations seen in inbound chunks, oldest first, for the caller to log.
    pub protocol_errors: Seq<ProtocolError>,
}

/// A context in mathematical terms.
pub struct ContextModel {
    pub key: Seq<u8>,
    pub bootstrapped: bool,
    pub next_transfer_id: u64,
    /// Transmissions of one transfer before it is given up.
    pub retry_limit: u32,
    /// Milliseconds added to the retry delay with each transmission.
    pub retry_interval_ms: u64,
    pub sessions: Map<u32, SessionModel>,
}

pub open spec fn fresh_session(remote: Seq<u8>) -> SessionModel {
    SessionModel {
        remote,
        outbound: Seq::empty(),
        inbound: Map::empty(),
        ready: Seq::empty(),
        failed: Seq::empty(),
        protocol_errors: Seq::empty(),
    }
}

pub open spec fn bind_step(c: ContextModel, sid: u32, remote: Seq<u8>) -> ContextModel {
    let s = if c.sessions.contains_key(sid) {
        let o = c.sessions[sid];
        SessionModel {
            remote,
            outbound: o.outbound,
            inbound: o.inbound,
            ready: o.ready,
            failed: o.failed,
            protocol_errors: o.protocol_errors,
        }
    } else {
        fresh_session(remote)
    };
    ContextModel {
        key: c.key,
        bootstrapped: c.bootstrapped,
        next_transfer_id: c.next_transfer_id,
        retry_limit: c.retry_limit,
        retry_interval_ms: c.retry_interval_ms,
        sessions: c.sessions.insert(sid, s),
    }
}

/// The envelopes of transfer `tid` carrying `chunks`.
pub open spec fn envelope_models(tid: u64, chunks: Seq<Seq<u8>>) -> Seq<EnvelopeModel> {
    Seq::new(
        chunks.len(),
        |i: int|
            EnvelopeModel {
                transfer_id: tid,
                index: (i + 1) as u8,
                total: chunks.len() as u8,
                data: chunks[i],
            },
    )
}

pub open spec fn send_step(c: ContextModel, sid: u32, data: Seq<u8>, now: u64) -> (
    ContextModel,
    Result<u64, SendError>,
) {
    if !c.sessions.contains_key(sid) {
        (c, Err(SendError::NotBound))
    } else if data.len() == 0 {
        (c, Err(SendError::Empty))
    } else if data.len() > max_payload_len(ENVELOPE_BUDGET as nat, MAX_CHUNKS as nat) {
        (c, Err(SendError::TooLong))
    } else if c.next_transfer_id == u64::MAX {
        (c, Err(SendError::IdsExhausted))
    } else {
        let tid = c.next_transfer_id;
        let o = c.sessions[sid];
        let p = PendingModel {
            transfer_id: tid,
            envelopes: envelope_models(tid, chunks_of(data, CHUNK_SIZE as nat)),
            deadline: now,
            attempts: 0,
        };
        let s = SessionModel {
            remote: o.remote,
            outbound: o.outbound.push(p),
            inbound: o.inbound,
            ready: o.ready,
            failed: o.failed,
            protocol_errors: o.protocol_errors,
        };
        (
            ContextModel {
                key: c.key,
                bootstrapped: c.bootstrapped,
                next_transfer_id: (tid + 1) as u64,
                retry_limit: c.retry_limit,
                retry_interval_ms: c.retry_interval_ms,
                sessions: c.sessions.insert(sid, s),
            },
            Ok(tid),
        )
    }
}

pub open spec fn recv_step(c: ContextModel, sid: u32) -> (ContextModel, Result<ReceivedModel, RecvError>) {
    if !c.sessions.contains_key(sid) {
        (c, Err(RecvError::UnknownSession))
    } else {
        let o = c.sessions[sid];
        if o.ready.len() > 0 {
            let s = SessionModel {
                remote: o.remote,
                outbound: o.outbound,
                inbound: o.inbound,
                ready: o.ready.drop_first(),
                failed: o.failed,
                protocol_errors: o.protocol_errors,
            };
            (
                ContextModel {
                    key: c.key,
                    bootstrapped: c.bootstrapped,
                    next_transfer_id: c.next_transfer_id,
                    retry_limit: c.retry_limit,
                    retry_interval_ms: c.retry_interval_ms,
                    sessions: c.sessions.insert(sid, s),
                },
                Ok(ReceivedModel::Payload(o.ready[0])),
            )
        } else if o.failed.len() > 0 {
            let s = SessionModel {
                remote: o.remote,
                outbound: o.outbound,
                inbound: o.inbound,
                ready: o.ready,
                failed: o.failed.drop_first(),
                protocol_errors: o.protocol_errors,
            };
            (
                ContextModel {
                    key: c.key,
                    bootstrapped: c.bootstrapped,
                    next_transfer_id: c.next_transfer_id,
                    retry_limit: c.retry_limit,
                    retry_interval_ms: c.retry_interval_ms,
                    sessions: c.sessions.insert(sid, s),
                },
                Ok(ReceivedModel::DeliveryFailed(o.failed[0])),
            )
        } else {
            (c, Ok(ReceivedModel::Nothing))
        }
    }
}

/// Delay before the next transmission once a transfer was sent `attempts` times.
pub open spec fn retry_delay(interval: u64, attempts: u32) -> int {
    interval * attempts
}

/// `now` plus the retry delay, or the largest time where that does not fit.
pub open spec fn deadline_after(now: u64, interval: u64, attempts: u32) -> u64 {
    if now + retry_delay(interval, attempts) > u64::MAX {
        u64::MAX
    } else {
        (now + retry_delay(interval, attempts)) as u64
    }
}

pub open spec fn retried(p: PendingModel, now: u64, interval: u64) -> PendingModel {
    PendingModel {
        transfer_id: p.transfer_id,
        envelopes: p.envelopes,
        deadline: deadline_after(now, interval, (p.attempts + 1) as u32),
        attempts: (p.attempts + 1) as u32,
    }
}

/// One pass over the outbound queue at time `now`, under a retry cap of
/// `limit` transmissions and a delay growing by `interval`: a transfer that is not due
/// stays as it is; a due one is sent again with a later deadline while its
/// retries last, and given up after that. Yields the queue kept, the ids given
/// up, and the envelopes to send.
pub open spec fn retry_pass(s: Seq<PendingModel>, now: u64, limit: u32, interval: u64) -> (
    Seq<PendingModel>,
    Seq<u64>,
    Seq<EnvelopeModel>,
)
    decreases s.len(),
{
    if s.len() == 0 {
        (Seq::empty(), Seq::empty(), Seq::empty())
    } else {
        let (kept, dropped, sent) = retry_pass(s.drop_last(), now, limit, interval);
        let p = s.last();
        if p.deadline > now {
            (kept.push(p), dropped, sent)
        } else if p.attempts >= limit {
            (kept, dropped.push(p.transfer_id), sent)
        } else {
            (kept.push(retried(p, now, interval)), dropped, sent + p.envelopes)
        }
    }
}

pub open spec fn chunk_datagrams(key: Seq<u8>, remote: Seq<u8>, sid: u32, es: Seq<EnvelopeModel>) -> Seq<DatagramModel> {
    es.map_values(|e: EnvelopeModel| DatagramModel { from: key, to: remote, session_id: sid, message: MessageModel::Chunk(e) })
}

/// The queue without transfer `tid`.
pub open spec fn without(s: Seq<PendingModel>, tid: u64) -> Seq<PendingModel>
    decreases s.len(),
{
    if s.len() == 0 {
        s
    } else {
        let w = without(s.drop_last(), tid);
        if s.last().transfer_id == tid {
            w
        } else {
            w.push(s.last())
        }
    }
}

/// The effect of one inbound datagram on session `sid`, and the replies it calls for.
/// Datagrams for another key, another session or from another peer are ignored.
pub open spec fn absorb_one(s: SessionModel, key: Seq<u8>, sid: u32, d: DatagramModel) -> (SessionModel, Seq<DatagramModel>) {
    if d.to != key || d.session_id != sid || d.from != s.remote {
        (s, Seq::empty())
    } else {
        match d.message {
            MessageModel::Ack(tid) => (
                SessionModel {
                    remote: s.remote,
                    outbound: without(s.outbound, tid),
                    inbound: s.inbound,
                    ready: s.ready,
                    failed: s.failed,
                    protocol_errors: s.protocol_errors,
                },
                Seq::empty(),
            ),
            MessageModel::Chunk(e) => {
                let (inb, o) = reassemble_step(state_of(s.inbound, d.from), e.transfer_id, e.index, e.total, e.data);
                let ready = match o {
                    Ok(Some(p)) => s.ready.push(p),
                    _ => s.ready,
                };
                let errors = match o {
                    Err(x) => s.protocol_errors.push(x),
                    _ => s.protocol_errors,
                };
                let replies = if inb.delivered.contains(e.transfer_id) {
                    seq![DatagramModel { from: key, to: s.remote, session_id: sid, message: MessageModel::Ack(e.transfer_id) }]
                } else {
                    Seq::empty()
                };
                (
                    SessionModel {
                        remote: s.remote,
                        outbound: s.outbound,
                        inbound: s.inbound.insert(d.from, inb),
                        ready,
                        failed: s.failed,
                        protocol_errors: errors,
                    },
                    replies,
                )
            },
        }
    }
}

pub open spec fn absorb(s: SessionModel, key: Seq<u8>, sid: u32, ds: Seq<DatagramModel>) -> (SessionModel, Seq<DatagramModel>)
    decreases ds.len(),
{
    if ds.len() == 0 {
        (s, Seq::empty())
    } else {
        let (s1, r1) = absorb(s, key, sid, ds.drop_last());
        let (s2, r2) = absorb_one(s1, key, sid, ds.last());
        (s2, r1 + r2)
    }
}

/// One tick of session `sid` at time `now` with the datagrams that arrived:
/// nothing happens before bootstrap or on an unbound session; otherwise the
/// outbound queue is passed over, then the arrivals are taken in. Yields the new
/// state and the datagrams to send, retransmissions first, then acknowledgements.
pub open spec fn tick_step(c: ContextModel, sid: u32, now: u64, incoming: Seq<DatagramModel>) -> (
    ContextModel,
    Seq<DatagramModel>,
) {
    if !c.bootstrapped || !c.sessions.contains_key(sid) {
        (c, Seq::empty())
    } else {
        let o = c.sessions[sid];
        let (kept, dropped, sent) = retry_pass(o.outbound, now, c.retry_limit, c.retry_interval_ms);
        let s1 = SessionModel {
            remote: o.remote,
            outbound: kept,
            inbound: o.inbound,
            ready: o.ready,
            failed: o.failed + dropped,
            protocol_errors: o.protocol_errors,
        };
        let (s2, replies) = absorb(s1, c.key, sid, incoming);
        (
            ContextModel {
                key: c.key,
                bootstrapped: c.bootstrapped,
                next_transfer_id: c.next_transfer_id,
                retry_limit: c.retry_limit,
                retry_interval_ms: c.retry_interval_ms,
                sessions: c.sessions.insert(sid, s2),
            },
            chunk_datagrams(c.key, o.remote, sid, sent) + replies,
        )
    }
}

proof fn lemma_product_bound(x: nat, a: nat, m: nat)
    requires
        a > 0,
    ensures
        x > m / a ==> x * a > m,
        x <= m / a ==> x * a <= m,
{
    lemma_div_mod(m, a);
    let q = m / a;
    if x > q {
        assert(x * a >= (q + 1) * a) by (nonlinear_arith)
            requires
                x >= q + 1,
                a > 0,
        ;
        assert((q + 1) * a == a * q + a) by (nonlinear_arith);
        assert(x * a > m);
    } else {
        assert(x * a <= m) by (nonlinear_arith)
            requires
                x <= q,
                m == a * q + m % a,
                m % a >= 0,
                a > 0,
        ;
    }
}

/// Per-session state: the bound peer, the outbound queue, inbound reassembly,
/// and what waits to be handed out.
pub struct Session {
    remote: IdentityKey,
    outbound: Vec<Pending>,
    inbound: Inbound,
    ready: Vec<Vec<u8>>,
    failed: Vec<u64>,
    protocol_errors: Vec<ProtocolError>,
}

impl Session {
    pub closed spec fn model(&self) -> SessionModel {
        SessionModel {
            remote: self.remote.bytes@,
            outbound: pendings(self.outbound@),
            inbound: self.inbound.model(),
            ready: self.ready@.map_values(|v: Vec<u8>| v@),
            failed: self.failed@,
            protocol_errors: self.protocol_errors@,
        }
    }

    pub closed spec fn wf(&self) -> bool {
        self.inbound.wf()
    }

    fn new(remote: IdentityKey) -> (r: Session)
        ensures
            r.wf(),
            r.model() == fresh_session(remote.bytes@),
    {
        let r = Session {
            remote,
            outbound: Vec::new(),
            inbound: Inbound::new(),
            ready: Vec::new(),
            failed: Vec::new(),
            protocol_errors: Vec::new(),
        };
        assert(r.model().outbound =~= Seq::empty());
        assert(r.model().ready =~= Seq::empty());
        r
    }

    /// Appends the chunk datagrams of `p` to `out`.
    fn emit(&self, key: &IdentityKey, sid: u32, p: &Pending, out: &mut Vec<Datagram>)
        ensures
            datagrams(final(out)@) == datagrams(old(out)@) + chunk_datagrams(
                key.bytes@,
                self.remote.bytes@,
                sid,
                p@.envelopes,
            ),
    {
        let ghost start = datagrams(out@);
        let ghost es = p@.envelopes;
        let mut i: usize = 0;
        while i < p.envelopes.len()
            invariant
                i <= p.envelopes@.len(),
                es == p@.envelopes,
                datagrams(out@) == start + chunk_datagrams(key.bytes@, self.remote.bytes@, sid, es.take(i as int)),
            decreases p.envelopes@.len() - i,
        {
            let e = p.envelopes[i].duplicate();
            let ghost before = out@;
            out.push(Datagram { from: *key, to: self.remote, session_id: sid, message: Message::Chunk(e) });
            assert(datagrams(out@) =~= datagrams(before).push(out@.last()@));
            assert(chunk_datagrams(key.bytes@, self.remote.bytes@, sid, es.take(i + 1)) =~= chunk_datagrams(
                key.bytes@,
                self.remote.bytes@,
                sid,
                es.take(i as int),
            ).push(DatagramModel { from: key.bytes@, to: self.remote.bytes@, session_id: sid, message: MessageModel::Chunk(es[i as int]) }));
            i += 1;
        }
        assert(es.take(es.len() as int) =~= es);
    }

    /// Passes over the outbound queue at time `now`, as `retry_pass` says.
    fn retry(&mut self, key: &IdentityKey, sid: u32, now: u64, limit: u32, interval: u64, out: &mut Vec<Datagram>)
        requires
            old(self).wf(),
        ensures
            final(self).wf(),
            ({
                let (kept, dropped, sent) = retry_pass(old(self).model().outbound, now, limit, interval);
                &&& final(self).model() == SessionModel {
                    remote: old(self).model().remote,
                    outbound: kept,
                    inbound: old(self).model().inbound,
                    ready: old(self).model().ready,
                    failed: old(self).model().failed + dropped,
                    protocol_errors: old(self).model().protocol_errors,
                }
                &&& datagrams(final(out)@) == datagrams(old(out)@) + chunk_datagrams(
                    key.bytes@,
                    old(self).model().remote,
                    sid,
                    sent,
                )
            }),
    {
        let ghost q0 = pendings(self.outbound@);
        let ghost out0 = datagrams(out@);
        let ghost failed0 = self.failed@;
        let mut rest: Vec<Pending> = Vec::new();
        std::mem::swap(&mut rest, &mut self.outbound);
        let total = rest.len();
        let ghost n = rest@.len();
        let ghost orig = rest@;
        assert(pendings(orig) == q0);
        let mut i: usize = 0;
        while rest.len() > 0
            invariant
                self.wf(),
                i <= n,
                rest@.len() == n - i,
                rest@ == orig.subrange(i as int, n as int),
                q0 == pendings(orig),
                n == orig.len() == total,
                ({
                    let (kept, dropped, sent) = retry_pass(q0.take(i as int), now, limit, interval);
                    &&& pendings(self.outbound@) == kept
                    &&& self.failed@ == failed0 + dropped
                    &&& datagrams(out@) == out0 + chunk_datagrams(key.bytes@, self.remote.bytes@, sid, sent)
                }),
                self.remote == old(self).remote,
                self.inbound == old(self).inbound,
                self.ready == old(self).ready,
                self.protocol_errors == old(self).protocol_errors,
            decreases rest@.len(),
        {
            let mut p = rest.remove(0);
            assert(p == orig[i as int]);
            assert(q0.take(i + 1).drop_last() =~= q0.take(i as int));
            assert(q0.take(i + 1).last() == p@);
            let ghost kept_before = self.outbound@;
            let ghost failed_before = self.failed@;
            if p.deadline > now {
                self.outbound.push(p);
                assert(pendings(self.outbound@) =~= pendings(kept_before).push(p@));
            } else if p.attempts >= limit {
                self.failed.push(p.transfer_id);
                assert(self.failed@ =~= failed0 + retry_pass(q0.take(i + 1), now, limit, interval).1);
            } else {
                let ghost out_before = datagrams(out@);
                self.emit(key, sid, &p, out);
                let attempts = p.attempts + 1;
                let count = attempts as u64;
                proof {
                    lemma_product_bound(interval as nat, count as nat, u64::MAX as nat);
                }
                let delay: u64 = if interval > u64::MAX / count {
                    u64::MAX
                } else {
                    interval * count
                };
                p.deadline = if now > u64::MAX - delay {
                    u64::MAX
                } else {
                    now + delay
                };
                p.attempts = attempts;
                let ghost pm = p@;
                self.outbound.push(p);
                assert(pendings(self.outbound@) =~= pendings(kept_before).push(pm));
                assert(pm.envelopes == q0[i as int].envelopes);
                assert(chunk_datagrams(key.bytes@, self.remote.bytes@, sid, retry_pass(q0.take(i + 1), now, limit, interval).2)
                    =~= chunk_datagrams(key.bytes@, self.remote.bytes@, sid, retry_pass(q0.take(i as int), now, limit, interval).2)
                    + chunk_datagrams(key.bytes@, self.remote.bytes@, sid, pm.envelopes));
            }
            i += 1;
            assert(rest@ =~= orig.subrange(i as int, n as int));
        }
        assert(q0.take(n as int) =~= q0);
    }

    /// Drops transfer `tid` from the outbound queue.
    fn retire(&mut self, tid: u64)
        requires
            old(self).wf(),
        ensures
            final(self).wf(),
            final(self).model() == (SessionModel {
                remote: old(self).model().remote,
                outbound: without(old(self).model().outbound, tid),
                inbound: old(self).model().inbound,
                ready: old(self).model().ready,
                failed: old(self).model().failed,
                protocol_errors: old(self).model().protocol_errors,
            }),
    {
        let ghost q0 = pendings(self.outbound@);
        let mut rest: Vec<Pending> = Vec::new();
        std::mem::swap(&mut rest, &mut self.outbound);
        let total = rest.len();
        let ghost n = rest@.len();
        let ghost orig = rest@;
        let mut i: usize = 0;
        while rest.len() > 0
            invariant
                self.wf(),
                i <= n,
                rest@.len() == n - i,
                rest@ == orig.subrange(i as int, n as int),
                q0 == pendings(orig),
                n == orig.len() == total,
                pendings(self.outbound@) == without(q0.take(i as int), tid),
                self.remote == old(self).remote,
                self.inbound == old(self).inbound,
                self.ready == old(self).ready,
                self.failed == old(self).failed,
                self.protocol_errors == old(self).protocol_errors,
            decreases rest@.len(),
        {
            let p = rest.remove(0);
            assert(p == orig[i as int]);
            assert(q0.take(i + 1).drop_last() =~= q0.take(i as int));
            let ghost kept_before = self.outbound@;
            if p.transfer_id != tid {
                self.outbound.push(p);
                assert(pendings(self.outbound@) =~= pendings(kept_before).push(p@));
            }
            i += 1;
            assert(rest@ =~= orig.subrange(i as int, n as int));
        }
        assert(q0.take(n as int) =~= q0);
    }

    /// Takes in one datagram, as `absorb_one` says.
    fn absorb_one(&mut self, key: &IdentityKey, sid: u32, d: &Datagram, out: &mut Vec<Datagram>)
        requires
            old(self).wf(),
        ensures
            final(self).wf(),
            ({
                let (s2, replies) = absorb_one(old(self).model(), key.bytes@, sid, d@);
                &&& final(self).model() == s2
                &&& datagrams(final(out)@) == datagrams(old(out)@) + replies
            }),
    {
        if !d.to.same_as(key) || d.session_id != sid || !d.from.same_as(&self.remote) {
            assert(datagrams(out@) =~= datagrams(out@) + Seq::empty());
            return;
        }
        match &d.message {
            Message::Ack(tid) => {
                self.retire(*tid);
                assert(datagrams(out@) =~= datagrams(out@) + Seq::empty());
            },
            Message::Chunk(e) => {
                let tid = e.transfer_id;
                let ghost ready0 = self.ready@;
                let r = self.inbound.reassemble_from(&d.from, e.duplicate());
                match r {
                    Ok(Some(p)) => {
                        self.ready.push(p);
                        assert(self.ready@.map_values(|v: Vec<u8>| v@) =~= ready0.map_values(
                            |v: Vec<u8>| v@,
                        ).push(p@));
                    },
                    Err(x) => {
                        self.protocol_errors.push(x);
                    },
                    Ok(None) => {},
                }
                let ghost out0 = out@;
                if self.inbound.delivered_from(&d.from, tid) {
                    out.push(Datagram { from: *key, to: self.remote, session_id: sid, message: Message::Ack(tid) });
                    assert(datagrams(out@) =~= datagrams(out0) + seq![out@.last()@]);
                } else {
                    assert(datagrams(out@) =~= datagrams(out@) + Seq::empty());
                }
            },
        }
    }

    /// Takes in the datagrams that arrived, in order, as `absorb` says.
    fn absorb(&mut self, key: &IdentityKey, sid: u32, incoming: &Vec<Datagram>, out: &mut Vec<Datagram>)
        requires
            old(self).wf(),
        ensures
            final(self).wf(),
            ({
                let (s2, replies) = absorb(old(self).model(), key.bytes@, sid, datagrams(incoming@));
                &&& final(self).model() == s2
                &&& datagrams(final(out)@) == datagrams(old(out)@) + replies
            }),
    {
        let ghost s0 = self.model();
        let ghost out0 = datagrams(out@);
        let ghost ds = datagrams(incoming@);
        let mut i: usize = 0;
        while i < incoming.len()
            invariant
                self.wf(),
                i <= incoming@.len(),
                ds == datagrams(incoming@),
                ({
                    let (s2, replies) = absorb(s0, key.bytes@, sid, ds.take(i as int));
                    &&& self.model() == s2
                    &&& datagrams(out@) == out0 + replies
                }),
            decreases incoming@.len() - i,
        {
            assert(ds.take(i + 1).drop_last() =~= ds.take(i as int));
            let ghost r_before = absorb(s0, key.bytes@, sid, ds.take(i as int)).1;
            self.absorb_one(key, sid, &incoming[i], out);
            let ghost r_one = absorb_one(absorb(s0, key.bytes@, sid, ds.take(i as int)).0, key.bytes@, sid, ds[i as int]).1;
            assert(out0 + r_before + r_one =~= out0 + (r_before + r_one));
            i += 1;
        }
        assert(ds.take(ds.len() as int) =~= ds);
    }
}

/// One local participant: its identity, whether the substrate has finished its
/// bootstrap, and its sessions.
pub struct Context {
    key: IdentityKey,
    bootstrapped: bool,
    next_transfer_id: u64,
    retry_limit: u32,
    retry_interval_ms: u64,
    sessions: HashMap<u32, Session>,
}

impl Context {
    pub closed spec fn model(&self) -> ContextModel {
        ContextModel {
            key: self.key.bytes@,
            bootstrapped: self.bootstrapped,
            next_transfer_id: self.next_transfer_id,
            retry_limit: self.retry_limit,
            retry_interval_ms: self.retry_interval_ms,
            sessions: Map::new(
                |k: u32| self.sessions@.contains_key(k),
                |k: u32| self.sessions@[k].model(),
            ),
        }
    }

    pub closed spec fn wf(&self) -> bool {
        forall|k: u32| #[trigger] self.sessions@.contains_key(k) ==> self.sessions@[k].wf()
    }

    /// A context for the peer named `key`, with no session, waiting for
    /// bootstrap, under the default retry policy. Its transfers are numbered
    /// from `first_transfer_id`; a peer that may restart under the same key
    /// draws it at random, so that its new transfers are not taken for old ones.
    pub fn initialize(key: IdentityKey, first_transfer_id: u64) -> (r: Context)
        ensures
            r.wf(),
            r.model() == (ContextModel {
                key: key.bytes@,
                bootstrapped: false,
                next_transfer_id: first_transfer_id,
                retry_limit: RETRY_LIMIT,
                retry_interval_ms: RETRY_INTERVAL_MS,
                sessions: Map::empty(),
            }),
    {
        Context::with_policy(key, first_transfer_id, RETRY_LIMIT, RETRY_INTERVAL_MS)
    }

    /// As `initialize`, with a transfer given up after `retry_limit`
    /// transmissions, and the delay before the n-th retransmission being
    /// n times `retry_interval_ms`.
    pub fn with_policy(key: IdentityKey, first_transfer_id: u64, retry_limit: u32, retry_interval_ms: u64) -> (r: Context)
        ensures
            r.wf(),
            r.model() == (ContextModel {
                key: key.bytes@,
                bootstrapped: false,
                next_transfer_id: first_transfer_id,
                retry_limit,
                retry_interval_ms,
                sessions: Map::empty(),
            }),
    {
        let r = Context {
            key,
            bootstrapped: false,
            next_transfer_id: first_transfer_id,
            retry_limit,
            retry_interval_ms,
            sessions: HashMap::new(),
        };
        assert(r.model().sessions =~= Map::empty());
        r
    }

    /// The identity of this context.
    pub fn key(&self) -> (r: IdentityKey)
        ensures
            r.bytes@ == self.model().key,
    {
        self.key
    }

    /// Whether the substrate has finished its bootstrap.
    pub fn is_ready(&self) -> (r: bool)
        ensures
            r == self.model().bootstrapped,
    {
        self.bootstrapped
    }

    /// Records that the substrate finished its bootstrap. Returns true the
    /// first time only, when the completion line is due.
    pub fn mark_bootstrapped(&mut self) -> (first: bool)
        requires
            old(self).wf(),
        ensures
            final(self).wf(),
            first == !old(self).model().bootstrapped,
            final(self).model() == (ContextModel { bootstrapped: true, ..old(self).model() }),
    {
        let first = !self.bootstrapped;
        self.bootstrapped = true;
        first
    }

    /// Binds session `sid` to the peer `remote`; a later bind on the same id
    /// replaces the peer and keeps the session's transfers.
    pub fn bind(&mut self, sid: u32, remote: IdentityKey)
        requires
            old(self).wf(),
        ensures
            final(self).wf(),
            final(self).model() == bind_step(old(self).model(), sid, remote.bytes@),
    {
        let s = match self.sessions.remove(&sid) {
            Some(mut s) => {
                s.remote = remote;
                s
            },
            None => Session::new(remote),
        };
        self.sessions.insert(sid, s);
        assert(self.model().sessions =~= bind_step(old(self).model(), sid, remote.bytes@).sessions);
    }

    /// Queues `data` for session `sid` as a new transfer, due at once; returns
    /// its transfer id.
    pub fn send(&mut self, sid: u32, data: &[u8], now: u64) -> (r: Result<u64, SendError>)
        requires
            old(self).wf(),
        ensures
            final(self).wf(),
            (final(self).model(), r) == send_step(old(self).model(), sid, data@, now),
    {
        if !self.sessions.contains_key(&sid) {
            return Err(SendError::NotBound);
        }
        let tid = self.next_transfer_id;
        let envelopes = match split(data, ENVELOPE_BUDGET, MAX_CHUNKS, tid) {
            Ok(es) => es,
            Err(SplitError::Empty) => {
                return Err(SendError::Empty);
            },
            Err(SplitError::TooLong) => {
                return Err(SendError::TooLong);
            },
        };
        if tid == u64::MAX {
            return Err(SendError::IdsExhausted);
        }
        let ghost chunks = chunks_of(data@, CHUNK_SIZE as nat);
        let p = Pending { transfer_id: tid, envelopes, deadline: now, attempts: 0 };
        assert(p@.envelopes =~= envelope_models(tid, chunks));
        let mut s = match self.sessions.remove(&sid) {
            Some(s) => s,
            None => {
                return Err(SendError::NotBound);
            },
        };
        let ghost q0 = s.outbound@;
        s.outbound.push(p);
        assert(pendings(s.outbound@) =~= pendings(q0).push(p@));
        self.sessions.insert(sid, s);
        self.next_transfer_id = tid + 1;
        assert(self.model().sessions =~= send_step(old(self).model(), sid, data@, now).0.sessions);
        Ok(tid)
    }

    /// Hands out the oldest completed payload of session `sid`, or else the
    /// oldest transfer given up, or `Nothing`. Never blocks.
    pub fn recv(&mut self, sid: u32) -> (r: Result<Received, RecvError>)
        requires
            old(self).wf(),
        ensures
            final(self).wf(),
            (final(self).model(), match r {
                Ok(x) => Ok(x@),
                Err(e) => Err(e),
            }) == recv_step(old(self).model(), sid),
    {
        let mut s = match self.sessions.remove(&sid) {
            Some(s) => s,
            None => {
                assert(self.model().sessions =~= old(self).model().sessions);
                return Err(RecvError::UnknownSession);
            },
        };
        let ghost sm = s.model();
        let r = if s.ready.len() > 0 {
            let ghost q0 = s.ready@;
            let v = s.ready.remove(0);
            assert(s.ready@.map_values(|v: Vec<u8>| v@) =~= q0.map_values(|v: Vec<u8>| v@).drop_first());
            Received::Payload(v)
        } else if s.failed.len() > 0 {
            let t = s.failed.remove(0);
            assert(s.failed@ =~= sm.failed.drop_first());
            Received::DeliveryFailed(t)
        } else {
            Received::Nothing
        };
        self.sessions.insert(sid, s);
        assert(self.model().sessions =~= recv_step(old(self).model(), sid).0.sessions);
        Ok(r)
    }

    /// Hands out, oldest first, the protocol violations seen on session `sid`
    /// since the last call, and forgets them.
    pub fn take_protocol_errors(&mut self, sid: u32) -> (r: Result<Vec<ProtocolError>, RecvError>)
        requires
            old(self).wf(),
        ensures
            final(self).wf(),
            !old(self).model().sessions.contains_key(sid) ==> r == Err::<Vec<ProtocolError>, RecvError>(
                RecvError::UnknownSession,
            ) && final(self).model() == old(self).model(),
            old(self).model().sessions.contains_key(sid) ==> r is Ok && r->Ok_0@
                == old(self).model().sessions[sid].protocol_errors && final(self).model() == (ContextModel {
                sessions: old(self).model().sessions.insert(
                    sid,
                    SessionModel { protocol_errors: Seq::empty(), ..old(self).model().sessions[sid] },
                ),
                ..old(self).model()
            }),
    {
        let mut s = match self.sessions.remove(&sid) {
            Some(s) => s,
            None => {
                assert(self.model().sessions =~= old(self).model().sessions);
                return Err(RecvError::UnknownSession);
            },
        };
        let ghost sm = s.model();
        let mut errors: Vec<ProtocolError> = Vec::new();
        std::mem::swap(&mut errors, &mut s.protocol_errors);
        assert(s.model() == (SessionModel { protocol_errors: Seq::empty(), ..sm }));
        self.sessions.insert(sid, s);
        assert(self.model().sessions =~= old(self).model().sessions.insert(
            sid,
            SessionModel { protocol_errors: Seq::empty(), ..sm },
        ));
        Ok(errors)
    }

    /// Advances session `sid` to time `now` (milliseconds) with the datagrams
    /// that arrived for it; returns the datagrams to send.
    pub fn tick(&mut self, sid: u32, now: u64, incoming: Vec<Datagram>) -> (r: Vec<Datagram>)
        requires
            old(self).wf(),
        ensures
            final(self).wf(),
            (final(self).model(), datagrams(r@)) == tick_step(
                old(self).model(),
                sid,
                now,
                datagrams(incoming@),
            ),
    {
        let mut out: Vec<Datagram> = Vec::new();
        assert(datagrams(out@) =~= Seq::empty());
        if !self.bootstrapped {
            return out;
        }
        let mut s = match self.sessions.remove(&sid) {
            Some(s) => s,
            None => {
                assert(self.model().sessions =~= old(self).model().sessions);
                return out;
            },
        };
        let key = self.key;
        s.retry(&key, sid, now, self.retry_limit, self.retry_interval_ms, &mut out);
        s.absorb(&key, sid, &incoming, &mut out);
        self.sessions.insert(sid, s);
        assert(self.model().sessions =~= tick_step(old(self).model(), sid, now, datagrams(incoming@)).0.sessions);
        out
    }
}

/// Gives back a buffer handed out by `Context::recv`.
pub fn release(buffer: Vec<u8>) {
    let _ = buffer;
}

/// Handing out a payload removes it from the engine: the session's queue loses
/// exactly its head, and a second `recv` yields the next payload, if any, and
/// never the one already handed out from that queue position again.
pub proof fn lemma_recv_hands_over(c: ContextModel, sid: u32)
    requires
        c.sessions.contains_key(sid),
        c.sessions[sid].ready.len() > 0,
    ensures
        ({
            let (c1, r1) = recv_step(c, sid);
            let (c2, r2) = recv_step(c1, sid);
            &&& r1 == Ok::<ReceivedModel, RecvError>(ReceivedModel::Payload(c.sessions[sid].ready[0]))
            &&& c1.sessions[sid].ready == c.sessions[sid].ready.drop_first()
            &&& c1.sessions[sid].ready.len() + 1 == c.sessions[sid].ready.len()
            &&& c1.sessions[sid].inbound == c.sessions[sid].inbound
            &&& c.sessions[sid].ready.len() > 1 ==> r2 == Ok::<ReceivedModel, RecvError>(
                ReceivedModel::Payload(c.sessions[sid].ready[1]),
            )
            &&& c.sessions[sid].ready.len() == 1 ==> !(r2 is Ok && r2->Ok_0 is Payload)
        }),
{
}

/// The slots of a transfer of `chunks` whose first `k` chunks arrived.
pub open spec fn first_slots(chunks: Seq<Seq<u8>>, k: int) -> Seq<Option<Seq<u8>>> {
    Seq::new(
        chunks.len(),
        |j: int|
            if j < k {
                Some(chunks[j])
            } else {
                None
            },
    )
}

proof fn lemma_absorb_in_order(
    s: SessionModel,
    key: Seq<u8>,
    sid: u32,
    tid: u64,
    chunks: Seq<Seq<u8>>,
    k: int,
)
    requires
        1 <= chunks.len() <= MAX_CHUNKS,
        0 <= k <= chunks.len(),
        !state_of(s.inbound, s.remote).open.contains_key(tid),
        !state_of(s.inbound, s.remote).delivered.contains(tid),
    ensures
        ({
            let ds = chunk_datagrams(s.remote, key, sid, envelope_models(tid, chunks));
            let sk = absorb(s, key, sid, ds.take(k)).0;
            &&& k < chunks.len() ==> {
                &&& sk.ready == s.ready
                &&& !state_of(sk.inbound, s.remote).delivered.contains(tid)
                &&& k == 0 ==> !state_of(sk.inbound, s.remote).open.contains_key(tid)
                &&& k > 0 ==> state_of(sk.inbound, s.remote).open.contains_key(tid) && state_of(sk.inbound, s.remote).open[tid] == first_slots(chunks, k)
            }
            &&& k == chunks.len() ==> sk.ready == s.ready.push(joined(first_slots(chunks, k)))
        }),
    decreases k,
{
    let n = chunks.len();
    let ds = chunk_datagrams(s.remote, key, sid, envelope_models(tid, chunks));
    if k == 0 {
        assert(ds.take(0) =~= Seq::<DatagramModel>::empty());
    } else {
        let j = k - 1;
        lemma_absorb_in_order(s, key, sid, tid, chunks, j);
        assert(ds.take(k).drop_last() =~= ds.take(j));
        let sj = absorb(s, key, sid, ds.take(j)).0;
        let d = ds[j];
        assert(d.to == key && d.from == s.remote && d.session_id == sid);
        assert(sj.remote == s.remote) by {
            lemma_absorb_keeps_remote(s, key, sid, ds.take(j));
        }
        let e = envelope_models(tid, chunks)[j];
        assert(d.message == MessageModel::Chunk(e));
        assert(e.total as int == n);
        let base = if state_of(sj.inbound, s.remote).open.contains_key(tid) {
            state_of(sj.inbound, s.remote).open[tid]
        } else {
            empty_slots(n as nat)
        };
        assert(base =~= first_slots(chunks, j));
        assert(store(base, j, chunks[j]) =~= first_slots(chunks, k));
        if k < n {
            assert(first_slots(chunks, k)[n - 1] is None);
        } else {
            assert(is_complete(first_slots(chunks, k)));
        }
    }
}

proof fn lemma_absorb_keeps_remote(s: SessionModel, key: Seq<u8>, sid: u32, ds: Seq<DatagramModel>)
    ensures
        absorb(s, key, sid, ds).0.remote == s.remote,
    decreases ds.len(),
{
    if ds.len() > 0 {
        lemma_absorb_keeps_remote(s, key, sid, ds.drop_last());
    }
}

/// A well-formed chunk from the bound peer, of a transfer never delivered from
/// that peer, is taken in, whatever other peers delivered under the same id:
/// afterwards its transfer is open with that chunk in place, or, when it was
/// the last one missing, delivered from that peer with one more payload queued
/// for `recv`.
pub proof fn lemma_fresh_chunk_taken_in(s: SessionModel, key: Seq<u8>, sid: u32, d: DatagramModel)
    requires
        d.to == key,
        d.session_id == sid,
        d.from == s.remote,
        d.message is Chunk,
        valid_envelope(d.message->Chunk_0.index, d.message->Chunk_0.total),
        !state_of(s.inbound, d.from).delivered.contains(d.message->Chunk_0.transfer_id),
        state_of(s.inbound, d.from).open.contains_key(d.message->Chunk_0.transfer_id) ==> state_of(
            s.inbound,
            d.from,
        ).open[d.message->Chunk_0.transfer_id].len() == d.message->Chunk_0.total,
    ensures
        ({
            let e = d.message->Chunk_0;
            let s2 = absorb_one(s, key, sid, d).0;
            let st = state_of(s2.inbound, d.from);
            ||| st.open.contains_key(e.transfer_id) && st.open[e.transfer_id][e.index - 1] is Some
            ||| st.delivered.contains(e.transfer_id) && s2.ready.len() == s.ready.len() + 1
        }),
{
}

proof fn lemma_absorb_append(s: SessionModel, key: Seq<u8>, sid: u32, ds1: Seq<DatagramModel>, ds2: Seq<DatagramModel>)
    ensures
        absorb(s, key, sid, ds1 + ds2).0 == absorb(absorb(s, key, sid, ds1).0, key, sid, ds2).0,
    decreases ds2.len(),
{
    if ds2.len() == 0 {
        assert(ds1 + ds2 =~= ds1);
    } else {
        assert((ds1 + ds2).drop_last() =~= ds1 + ds2.drop_last());
        assert((ds1 + ds2).last() == ds2.last());
        lemma_absorb_append(s, key, sid, ds1, ds2.drop_last());
    }
}

proof fn lemma_absorb_other_transfers(s: SessionModel, key: Seq<u8>, sid: u32, tid: u64, es: Seq<EnvelopeModel>)
    requires
        forall|k: int| 0 <= k < es.len() ==> (#[trigger] es[k]).transfer_id != tid,
        !state_of(s.inbound, s.remote).open.contains_key(tid),
        !state_of(s.inbound, s.remote).delivered.contains(tid),
    ensures
        ({
            let sk = absorb(s, key, sid, chunk_datagrams(s.remote, key, sid, es)).0;
            &&& sk.remote == s.remote
            &&& !state_of(sk.inbound, s.remote).open.contains_key(tid)
            &&& !state_of(sk.inbound, s.remote).delivered.contains(tid)
        }),
    decreases es.len(),
{
    if es.len() > 0 {
        let ds = chunk_datagrams(s.remote, key, sid, es);
        assert(ds.drop_last() =~= chunk_datagrams(s.remote, key, sid, es.drop_last()));
        lemma_absorb_other_transfers(s, key, sid, tid, es.drop_last());
        assert(es.last().transfer_id != tid);
    } else {
        assert(chunk_datagrams(s.remote, key, sid, es) =~= Seq::<DatagramModel>::empty());
    }
}

proof fn lemma_sent_ids(q: Seq<PendingModel>, now: u64, limit: u32, interval: u64, tid: u64)
    requires
        forall|i: int, j: int|
            0 <= i < q.len() && 0 <= j < q[i].envelopes.len() ==> (#[trigger] q[i].envelopes[j]).transfer_id != tid,
    ensures
        forall|k: int|
            0 <= k < retry_pass(q, now, limit, interval).2.len() ==> (#[trigger] retry_pass(
                q,
                now,
                limit,
                interval,
            ).2[k]).transfer_id != tid,
    decreases q.len(),
{
    if q.len() > 0 {
        lemma_sent_ids(q.drop_last(), now, limit, interval, tid);
        let prev = retry_pass(q.drop_last(), now, limit, interval).2;
        let last = q.last();
        assert forall|j: int| 0 <= j < last.envelopes.len() implies (#[trigger] last.envelopes[j]).transfer_id != tid by {
            assert(q[q.len() - 1].envelopes[j] == last.envelopes[j]);
        }
        assert forall|k: int| 0 <= k < (prev + last.envelopes).len() implies (#[trigger] (prev + last.envelopes)[k]).transfer_id != tid by {
            if k >= prev.len() {
                assert((prev + last.envelopes)[k] == last.envelopes[k - prev.len()]);
            }
        }
    }
}

/// On a link that loses nothing, a payload just sent reaches the receiver after
/// one tick of each side, whatever else waits in the sender's queue: the
/// sender's tick puts out every chunk of the new transfer, after those of any
/// other transfer due, and the receiver's tick on those datagrams completes the
/// new transfer and queues its payload last for `recv`. The new transfer's id
/// must be new to the receiver from this sender and differ from the ids still
/// queued at the sender.
pub proof fn lemma_delivered_after_one_exchange(a: ContextModel, b: ContextModel, sid: u32, data: Seq<u8>, now: u64)
    requires
        a.bootstrapped,
        b.bootstrapped,
        a.sessions.contains_key(sid),
        b.sessions.contains_key(sid),
        a.sessions[sid].remote == b.key,
        b.sessions[sid].remote == a.key,
        send_step(a, sid, data, now).1 is Ok,
        a.retry_limit > 0,
        forall|i: int, j: int|
            0 <= i < a.sessions[sid].outbound.len() && 0 <= j < a.sessions[sid].outbound[i].envelopes.len()
                ==> (#[trigger] a.sessions[sid].outbound[i].envelopes[j]).transfer_id != a.next_transfer_id,
        !state_of(b.sessions[sid].inbound, a.key).open.contains_key(a.next_transfer_id),
        !state_of(b.sessions[sid].inbound, a.key).delivered.contains(a.next_transfer_id),
    ensures
        ({
            let a1 = send_step(a, sid, data, now).0;
            let (a2, out) = tick_step(a1, sid, now, Seq::empty());
            let (b1, replies) = tick_step(b, sid, now, out);
            &&& b1.sessions[sid].ready.len() > 0
            &&& b1.sessions[sid].ready.last() == data
        }),
{
    let tid = a.next_transfer_id;
    let limit = a.retry_limit;
    let interval = a.retry_interval_ms;
    let chunks = chunks_of(data, CHUNK_SIZE as nat);
    lemma_chunk_count_range(data.len());
    let q = a.sessions[sid].outbound;
    let a1 = send_step(a, sid, data, now).0;
    let p = a1.sessions[sid].outbound.last();
    assert(a1.sessions[sid].outbound == q.push(p));
    assert(q.push(p).drop_last() =~= q);
    let envs = envelope_models(tid, chunks);
    assert(p.envelopes == envs && p.deadline == now && p.attempts == 0);
    let sent_q = retry_pass(q, now, limit, interval).2;
    assert(retry_pass(q.push(p), now, limit, interval).2 == sent_q + envs);
    lemma_sent_ids(q, now, limit, interval, tid);
    let (a2, out) = tick_step(a1, sid, now, Seq::empty());
    let ds_q = chunk_datagrams(a.key, b.key, sid, sent_q);
    let ds = chunk_datagrams(a.key, b.key, sid, envs);
    assert(out =~= ds_q + ds);
    let o = b.sessions[sid];
    let (kept, dropped, sent) = retry_pass(o.outbound, now, b.retry_limit, b.retry_interval_ms);
    let s1 = SessionModel {
        remote: o.remote,
        outbound: kept,
        inbound: o.inbound,
        ready: o.ready,
        failed: o.failed + dropped,
        protocol_errors: o.protocol_errors,
    };
    lemma_absorb_append(s1, b.key, sid, ds_q, ds);
    lemma_absorb_other_transfers(s1, b.key, sid, tid, sent_q);
    let s2 = absorb(s1, b.key, sid, ds_q).0;
    lemma_absorb_in_order(s2, b.key, sid, tid, chunks, chunks.len() as int);
    assert(ds.take(chunks.len() as int) =~= ds);
    assert(first_slots(chunks, chunks.len() as int) =~= chunks.map_values(|c: Seq<u8>| Some(c)));
    lemma_chunks_join(data, CHUNK_SIZE as nat);
}

} // verus!
