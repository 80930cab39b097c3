use peers::codec::{Envelope, MAX_PAYLOAD_LEN};
use peers::reassembly::ProtocolError;
use peers::engine::{
    release, Context, Datagram, IdentityKey, Message, Received, RecvError, SendError, RETRY_INTERVAL_MS,
    RETRY_LIMIT,
};

fn key(seed: u8) -> IdentityKey {
    let mut b = [0u8; 32];
    for (i, x) in b.iter_mut().enumerate() {
        *x = seed.wrapping_mul(31).wrapping_add(i as u8);
    }
    IdentityKey::new(b)
}

fn bytes(n: usize, seed: u32) -> Vec<u8> {
    let mut x = seed.wrapping_mul(2654435761).wrapping_add(7);
    (0..n)
        .map(|_| {
            x ^= x << 13;
            x ^= x >> 17;
            x ^= x << 5;
            (x >> 24) as u8
        })
        .collect()
}

fn ready_pair() -> (Context, Context) {
    let mut a = Context::initialize(key(1), 1);
    let mut b = Context::initialize(key(2), 1);
    assert!(a.mark_bootstrapped());
    assert!(b.mark_bootstrapped());
    (a, b)
}

/// Ticks both sides every 200 ms of simulated time, passing each side's
/// datagrams to the other, until `b` hands out a payload; returns it with the
/// time taken.
fn run_until_received(a: &mut Context, b: &mut Context, sid: u32, start: u64, limit: u64) -> (Vec<u8>, u64) {
    let mut to_a: Vec<Datagram> = Vec::new();
    let mut to_b: Vec<Datagram> = Vec::new();
    let mut now = start;
    loop {
        let out_a = a.tick(sid, now, std::mem::take(&mut to_a));
        to_b.extend(out_a);
        let out_b = b.tick(sid, now, std::mem::take(&mut to_b));
        to_a.extend(out_b);
        if let Received::Payload(p) = b.recv(sid).unwrap() {
            return (p, now - start);
        }
        assert!(now - start <= limit, "out of time waiting for the payload");
        now += 200;
    }
}

#[test]
fn test_dht() {
    let (mut a, mut b) = ready_pair();
    let max_length = 992 * 253 - 1;
    let tested_lengths = [1usize, 987, 32 * 1024, 96 * 1024, max_length];
    let mut now = 0u64;
    for &len in tested_lengths.iter() {
        let message = bytes(len, len as u32);
        a.bind(1, b.key());
        a.tick(1, now, Vec::new());
        a.send(1, &message, now).unwrap();
        b.bind(1, a.key());
        let limit = (33 + max_length / 992 * 2) as u64 * 1000;
        let (got, spent) = run_until_received(&mut a, &mut b, 1, now, limit);
        assert_eq!(got, message);
        now += spent + 1000;
    }
}

#[test]
fn one_byte_scenario() {
    let (mut a, mut b) = ready_pair();
    a.bind(1, b.key());
    assert_eq!(a.send(1, &[0xAB], 0), Ok(1));
    b.bind(1, a.key());
    let (got, _) = run_until_received(&mut a, &mut b, 1, 0, 10_000);
    assert_eq!(got, vec![0xABu8]);
    release(got);
}

#[test]
fn largest_payload_scenario() {
    let (mut a, mut b) = ready_pair();
    let message = bytes(MAX_PAYLOAD_LEN, 99);
    a.bind(1, b.key());
    a.send(1, &message, 0).unwrap();
    b.bind(1, a.key());
    let limit = (33 + MAX_PAYLOAD_LEN / 992 * 2) as u64 * 1000;
    let (got, spent) = run_until_received(&mut a, &mut b, 1, 0, limit);
    assert_eq!(got, message);
    assert!(spent <= limit);
}

#[test]
fn delivered_within_one_exchange_on_a_lossless_link() {
    let (mut a, mut b) = ready_pair();
    a.bind(3, b.key());
    b.bind(3, a.key());
    let message = bytes(10_000, 4);
    a.send(3, &message, 500).unwrap();
    let (got, spent) = run_until_received(&mut a, &mut b, 3, 500, 0);
    assert_eq!(got, message);
    assert_eq!(spent, 0);
}

#[test]
fn recv_does_not_hand_out_twice() {
    let (mut a, mut b) = ready_pair();
    a.bind(1, b.key());
    b.bind(1, a.key());
    a.send(1, &[1, 2, 3], 0).unwrap();
    let out = a.tick(1, 0, Vec::new());
    b.tick(1, 0, out);
    match b.recv(1).unwrap() {
        Received::Payload(p) => assert_eq!(p, vec![1, 2, 3]),
        _ => panic!("expected a payload"),
    }
    assert!(matches!(b.recv(1).unwrap(), Received::Nothing));
}

#[test]
fn payloads_come_out_in_completion_order() {
    let (mut a, mut b) = ready_pair();
    a.bind(1, b.key());
    b.bind(1, a.key());
    a.send(1, &[1], 0).unwrap();
    a.send(1, &[2], 0).unwrap();
    let out = a.tick(1, 0, Vec::new());
    assert_eq!(out.len(), 2);
    b.tick(1, 0, out);
    assert!(matches!(b.recv(1).unwrap(), Received::Payload(p) if p == vec![1u8]));
    assert!(matches!(b.recv(1).unwrap(), Received::Payload(p) if p == vec![2u8]));
    assert!(matches!(b.recv(1).unwrap(), Received::Nothing));
}

#[test]
fn retransmitted_chunks_are_not_delivered_twice() {
    let (mut a, mut b) = ready_pair();
    a.bind(1, b.key());
    b.bind(1, a.key());
    a.send(1, &[5, 6], 0).unwrap();
    let first = a.tick(1, 0, Vec::new());
    // The acknowledgement is lost; the transfer goes out again after its delay.
    let _lost = b.tick(1, 0, first);
    assert!(a.tick(1, RETRY_INTERVAL_MS - 1, Vec::new()).is_empty());
    let again = a.tick(1, RETRY_INTERVAL_MS, Vec::new());
    assert_eq!(again.len(), 1);
    let acks = b.tick(1, RETRY_INTERVAL_MS, again);
    assert_eq!(acks.len(), 1);
    assert!(matches!(acks[0].message, Message::Ack(1)));
    assert!(matches!(b.recv(1).unwrap(), Received::Payload(p) if p == vec![5u8, 6]));
    assert!(matches!(b.recv(1).unwrap(), Received::Nothing));
    // The acknowledgement retires the transfer: nothing is sent any more.
    a.tick(1, RETRY_INTERVAL_MS, acks);
    assert!(a.tick(1, 1_000_000, Vec::new()).is_empty());
}

#[test]
fn transfer_given_up_after_retry_limit() {
    let (mut a, b) = ready_pair();
    a.bind(1, b.key());
    let tid = a.send(1, &[9], 0).unwrap();
    let mut now = 0u64;
    let mut sends = 0u32;
    for _ in 0..200 {
        sends += a.tick(1, now, Vec::new()).len() as u32;
        now += 1000;
    }
    assert_eq!(sends, RETRY_LIMIT);
    assert!(matches!(a.recv(1).unwrap(), Received::DeliveryFailed(t) if t == tid));
    assert!(matches!(a.recv(1).unwrap(), Received::Nothing));
}

#[test]
fn nothing_moves_before_bootstrap() {
    let mut a = Context::initialize(key(1), 1);
    assert!(!a.is_ready());
    a.bind(1, key(2));
    a.send(1, &[1], 0).unwrap();
    assert!(a.tick(1, 0, Vec::new()).is_empty());
    assert!(a.mark_bootstrapped());
    assert!(!a.mark_bootstrapped());
    assert!(a.is_ready());
    assert_eq!(a.tick(1, 0, Vec::new()).len(), 1);
}

#[test]
fn send_errors() {
    let (mut a, b) = ready_pair();
    assert_eq!(a.send(1, &[1], 0), Err(SendError::NotBound));
    a.bind(1, b.key());
    assert_eq!(a.send(1, &[], 0), Err(SendError::Empty));
    assert_eq!(a.send(1, &bytes(MAX_PAYLOAD_LEN + 1, 1), 0), Err(SendError::TooLong));
    assert_eq!(a.send(1, &bytes(MAX_PAYLOAD_LEN, 1), 0), Ok(1));
}

#[test]
fn recv_on_unbound_session() {
    let (mut a, _) = ready_pair();
    assert!(matches!(a.recv(4), Err(RecvError::UnknownSession)));
    a.bind(4, key(9));
    assert!(matches!(a.recv(4), Ok(Received::Nothing)));
}

#[test]
fn datagrams_from_strangers_are_ignored() {
    let (mut a, mut b) = ready_pair();
    let mut c = Context::initialize(key(3), 1);
    c.mark_bootstrapped();
    c.bind(1, b.key());
    c.send(1, &[7], 0).unwrap();
    let out = c.tick(1, 0, Vec::new());
    b.bind(1, a.key());
    assert!(b.tick(1, 0, out).is_empty());
    assert!(matches!(b.recv(1).unwrap(), Received::Nothing));
    a.bind(1, b.key());
}

#[test]
fn rebind_keeps_the_queue_and_redirects_it() {
    let (mut a, mut b) = ready_pair();
    a.bind(1, key(50));
    a.send(1, &[3, 4], 0).unwrap();
    a.bind(1, b.key());
    b.bind(1, a.key());
    let (got, _) = run_until_received(&mut a, &mut b, 1, 0, 5000);
    assert_eq!(got, vec![3u8, 4]);
}

#[test]
fn identity_keys_compare_by_bytes() {
    assert!(key(1) == key(1));
    assert!(key(1) != key(2));
    assert!(key(1).same_as(&IdentityKey::new(key(1).bytes)));
}

#[test]
fn same_transfer_id_from_a_new_peer_is_delivered() {
    let (mut a, mut b) = ready_pair();
    a.bind(1, b.key());
    b.bind(1, a.key());
    assert_eq!(a.send(1, &[1, 1], 0), Ok(1));
    let (got, _) = run_until_received(&mut a, &mut b, 1, 0, 5000);
    assert_eq!(got, vec![1u8, 1]);

    // B's session moves to C, whose first transfer also has id 1.
    let mut c = Context::initialize(key(3), 1);
    c.mark_bootstrapped();
    c.bind(1, b.key());
    b.bind(1, c.key());
    assert_eq!(c.send(1, &[2, 2], 0), Ok(1));
    let (got, _) = run_until_received(&mut c, &mut b, 1, 0, 5000);
    assert_eq!(got, vec![2u8, 2]);
}

#[test]
fn restarted_peer_with_fresh_first_id_is_delivered() {
    let (mut a, mut b) = ready_pair();
    a.bind(1, b.key());
    b.bind(1, a.key());
    a.send(1, &[1], 0).unwrap();
    let (got, _) = run_until_received(&mut a, &mut b, 1, 0, 5000);
    assert_eq!(got, vec![1u8]);

    let mut a2 = Context::initialize(key(1), 77_000);
    a2.mark_bootstrapped();
    a2.bind(1, b.key());
    assert_eq!(a2.send(1, &[9], 0), Ok(77_000));
    let (got, _) = run_until_received(&mut a2, &mut b, 1, 0, 5000);
    assert_eq!(got, vec![9u8]);
}

#[test]
fn protocol_errors_are_kept_for_the_caller() {
    let (a, mut b) = ready_pair();
    b.bind(1, a.key());
    let bad = Datagram {
        from: a.key(),
        to: b.key(),
        session_id: 1,
        message: Message::Chunk(Envelope { transfer_id: 4, index: 3, total: 2, data: vec![0] }),
    };
    let first = Datagram {
        from: a.key(),
        to: b.key(),
        session_id: 1,
        message: Message::Chunk(Envelope { transfer_id: 5, index: 1, total: 3, data: vec![0] }),
    };
    let mismatch = Datagram {
        from: a.key(),
        to: b.key(),
        session_id: 1,
        message: Message::Chunk(Envelope { transfer_id: 5, index: 2, total: 4, data: vec![0] }),
    };
    assert!(b.tick(1, 0, vec![bad, first, mismatch]).is_empty());
    assert_eq!(b.take_protocol_errors(1).unwrap(), vec![ProtocolError::BadIndex, ProtocolError::TotalMismatch]);
    assert!(b.take_protocol_errors(1).unwrap().is_empty());
    assert!(matches!(b.take_protocol_errors(2), Err(RecvError::UnknownSession)));
}

#[test]
fn retry_policy_is_tunable() {
    let b = Context::initialize(key(2), 1);
    let mut a = Context::with_policy(key(1), 1, 3, 50);
    a.mark_bootstrapped();
    a.bind(1, b.key());
    let tid = a.send(1, &[9], 0).unwrap();
    assert_eq!(a.tick(1, 0, Vec::new()).len(), 1);
    assert!(a.tick(1, 49, Vec::new()).is_empty());
    assert_eq!(a.tick(1, 50, Vec::new()).len(), 1);
    assert!(a.tick(1, 149, Vec::new()).is_empty());
    assert_eq!(a.tick(1, 150, Vec::new()).len(), 1);
    assert!(a.tick(1, 10_000, Vec::new()).is_empty());
    assert!(matches!(a.recv(1).unwrap(), Received::DeliveryFailed(t) if t == tid));
}
