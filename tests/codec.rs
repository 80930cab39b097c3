use peers::codec::{split, Envelope, SplitError, CHUNK_SIZE, ENVELOPE_BUDGET, MAX_CHUNKS, MAX_PAYLOAD_LEN};
use peers::reassembly::{ProtocolError, Reassembler};

fn bytes(n: usize, seed: u32) -> Vec<u8> {
    let mut x = seed.wrapping_mul(2654435761).wrapping_add(1);
    (0..n)
        .map(|_| {
            x ^= x << 13;
            x ^= x >> 17;
            x ^= x << 5;
            (x >> 24) as u8
        })
        .collect()
}

fn copy(e: &Envelope) -> Envelope {
    e.duplicate()
}

#[test]
fn max_payload_len_is_992_times_253_minus_one() {
    assert_eq!(MAX_PAYLOAD_LEN, 992 * 253 - 1);
    assert_eq!(CHUNK_SIZE, ENVELOPE_BUDGET - 1);
}

#[test]
fn split_one_byte() {
    let es = split(&[7u8], ENVELOPE_BUDGET, MAX_CHUNKS, 5).unwrap();
    assert_eq!(es.len(), 1);
    assert_eq!(es[0].transfer_id, 5);
    assert_eq!(es[0].index, 1);
    assert_eq!(es[0].total, 1);
    assert_eq!(es[0].data, vec![7u8]);
}

#[test]
fn split_exact_chunk_and_one_more() {
    let p = bytes(992, 1);
    let es = split(&p, ENVELOPE_BUDGET, MAX_CHUNKS, 1).unwrap();
    assert_eq!(es.len(), 1);
    assert_eq!(es[0].data, p);

    let p = bytes(993, 2);
    let es = split(&p, ENVELOPE_BUDGET, MAX_CHUNKS, 1).unwrap();
    assert_eq!(es.len(), 2);
    assert_eq!(es[0].data, p[..992].to_vec());
    assert_eq!(es[1].data, p[992..].to_vec());
    assert_eq!(es[1].index, 2);
    assert_eq!(es[1].total, 2);
}

#[test]
fn split_boundary() {
    let p = bytes(MAX_PAYLOAD_LEN, 3);
    let es = split(&p, ENVELOPE_BUDGET, MAX_CHUNKS, 9).unwrap();
    assert_eq!(es.len(), 253);
    assert_eq!(es[252].data.len(), 991);
    assert!(es.iter().all(|e| e.total == 253));

    let p = bytes(MAX_PAYLOAD_LEN + 1, 3);
    assert!(matches!(split(&p, ENVELOPE_BUDGET, MAX_CHUNKS, 9), Err(SplitError::TooLong)));
}

#[test]
fn split_empty_is_refused() {
    assert!(matches!(split(&[], ENVELOPE_BUDGET, MAX_CHUNKS, 9), Err(SplitError::Empty)));
}

#[test]
fn split_small_budget() {
    // 3 payload bytes per envelope, at most 2 chunks: 5 bytes fit, 6 do not.
    let es = split(&[1, 2, 3, 4, 5], 4, 2, 0).unwrap();
    assert_eq!(es.len(), 2);
    assert_eq!(es[0].data, vec![1, 2, 3]);
    assert_eq!(es[1].data, vec![4, 5]);
    assert!(matches!(split(&[1, 2, 3, 4, 5, 6], 4, 2, 0), Err(SplitError::TooLong)));
}

fn feed_all(r: &mut Reassembler, es: &[Envelope], order: &[usize]) -> Vec<Vec<u8>> {
    let mut got = Vec::new();
    for &i in order {
        if let Some(p) = r.reassemble(copy(&es[i])).unwrap() {
            got.push(p);
        }
    }
    got
}

#[test]
fn round_trip_in_order() {
    for &len in [1usize, 987, 992, 993, 32 * 1024, 96 * 1024, MAX_PAYLOAD_LEN].iter() {
        let p = bytes(len, len as u32);
        let es = split(&p, ENVELOPE_BUDGET, MAX_CHUNKS, 3).unwrap();
        let mut r = Reassembler::new();
        let order: Vec<usize> = (0..es.len()).collect();
        let got = feed_all(&mut r, &es, &order);
        assert_eq!(got, vec![p]);
    }
}

#[test]
fn round_trip_reversed_with_duplicates() {
    let p = bytes(5000, 11);
    let es = split(&p, ENVELOPE_BUDGET, MAX_CHUNKS, 4).unwrap();
    assert_eq!(es.len(), 6);
    let order = [5, 5, 3, 4, 3, 1, 0, 0, 2, 5, 1, 0];
    let mut r = Reassembler::new();
    let got = feed_all(&mut r, &es, &order);
    assert_eq!(got, vec![p]);
}

#[test]
fn duplicate_envelope_changes_nothing() {
    let p = bytes(2000, 5);
    let es = split(&p, ENVELOPE_BUDGET, MAX_CHUNKS, 8).unwrap();
    let mut r = Reassembler::new();
    assert_eq!(r.reassemble(copy(&es[0])).unwrap(), None);
    assert_eq!(r.reassemble(copy(&es[0])).unwrap(), None);
    assert_eq!(r.reassemble(copy(&es[1])).unwrap(), None);
    assert_eq!(r.reassemble(copy(&es[2])).unwrap(), Some(p));
    assert!(r.has_delivered(8));
    // A late copy of a delivered transfer yields nothing more.
    assert_eq!(r.reassemble(copy(&es[2])).unwrap(), None);
    assert_eq!(r.reassemble(copy(&es[0])).unwrap(), None);
}

#[test]
fn single_chunk_delivered_once() {
    let es = split(&[42u8], ENVELOPE_BUDGET, MAX_CHUNKS, 1).unwrap();
    let mut r = Reassembler::new();
    assert_eq!(r.reassemble(copy(&es[0])).unwrap(), Some(vec![42u8]));
    assert_eq!(r.reassemble(copy(&es[0])).unwrap(), None);
}

#[test]
fn inconsistent_total_is_an_error() {
    let mut r = Reassembler::new();
    let a = Envelope { transfer_id: 1, index: 1, total: 3, data: vec![1] };
    let b = Envelope { transfer_id: 1, index: 2, total: 4, data: vec![2] };
    assert_eq!(r.reassemble(a).unwrap(), None);
    assert_eq!(r.reassemble(b).unwrap_err(), ProtocolError::TotalMismatch);
}

#[test]
fn out_of_range_index_is_an_error() {
    let mut r = Reassembler::new();
    let cases = [(0u8, 3u8), (4, 3), (1, 0), (1, 254), (255, 255)];
    for &(index, total) in cases.iter() {
        let e = Envelope { transfer_id: 2, index, total, data: vec![1] };
        assert_eq!(r.reassemble(e).unwrap_err(), ProtocolError::BadIndex);
    }
}

#[test]
fn interleaved_transfers() {
    let p = bytes(1500, 1);
    let q = bytes(2500, 2);
    let ep = split(&p, ENVELOPE_BUDGET, MAX_CHUNKS, 1).unwrap();
    let eq = split(&q, ENVELOPE_BUDGET, MAX_CHUNKS, 2).unwrap();
    let mut r = Reassembler::new();
    assert_eq!(r.reassemble(copy(&eq[2])).unwrap(), None);
    assert_eq!(r.reassemble(copy(&ep[1])).unwrap(), None);
    assert_eq!(r.reassemble(copy(&eq[0])).unwrap(), None);
    assert_eq!(r.reassemble(copy(&ep[0])).unwrap(), Some(p));
    assert_eq!(r.reassemble(copy(&eq[1])).unwrap(), Some(q));
}
