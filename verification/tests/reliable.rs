//! The reliable layer: fragments, retransmission, round-trip times.

use soup_engine::error::{Error, ProtocolError};
use soup_engine::protocol::types::{
    MILLISECOND, Nanos, RETRANSMIT_QUEUE_CAP, RTO_MAX, RTO_MIN, SECOND,
};
use soup_engine::reliable::fragment::{
    decode_fragment, encode_fragment, split, FragmentAssembler, COMPLETED_CAP, FRAGMENT_TIMEOUT,
};
use soup_engine::reliable::retransmit::RetransmitQueue;
use soup_engine::reliable::rtt::{RttEstimator, INITIAL_RTO};
use soup_engine::reliable::serial::{seq_ahead, seq_newer, seq_next};

const T0: Nanos = 1_000_000_000_000;

/// A number of milliseconds, as the estimator takes it.
fn millis(ms: f64) -> Nanos {
    (ms * MILLISECOND as f64) as Nanos
}

#[test]
fn split_and_reassemble() {
    let payload: Vec<u8> = (0..3000u16).map(|i| (i % 251) as u8).collect();
    let parts = split(&payload, 7, 100, 1000);
    assert_eq!(parts.len(), 3);
    let mut assembler = FragmentAssembler::new();
    let now = T0;
    let mut complete = None;
    // Out of order.
    for idx in [1usize, 2, 0] {
        let (g, fs, n, t, chunk) = decode_fragment(&parts[idx]).unwrap();
        assert_eq!(g, 7);
        assert_eq!(fs, 100);
        if let Some((seq, full)) = assembler.push(g, fs, n, t, chunk, now) {
            complete = Some((seq, full));
        }
    }
    assert_eq!(complete.as_ref().map(|(_, p)| p.as_slice()), Some(payload.as_slice()));
    // The sequence number is that of the group, whatever came first.
    assert_eq!(complete.map(|(s, _)| s), Some(100));
}

#[test]
fn partial_group_not_complete() {
    let payload = vec![1, 2, 3, 4, 5];
    let parts = split(&payload, 1, 200, 3);
    assert_eq!(parts.len(), 2);
    let mut assembler = FragmentAssembler::new();
    let now = T0;
    let (g, fs, n, t, c) = decode_fragment(&parts[0]).unwrap();
    assert!(assembler.push(g, fs, n, t, c, now).is_none());
    assert_eq!(assembler.pending_count(), 1);
}

#[test]
fn duplicate_fragment_ignored() {
    let payload = vec![1, 2, 3, 4];
    let parts = split(&payload, 2, 300, 2);
    let mut assembler = FragmentAssembler::new();
    let now = T0;
    for idx in [0usize, 0, 1] {
        let (g, fs, n, t, c) = decode_fragment(&parts[idx]).unwrap();
        if let Some((_, full)) = assembler.push(g, fs, n, t, c, now) {
            assert_eq!(full, payload);
        }
    }
    assert_eq!(assembler.pending_count(), 0);
}

#[test]
fn malformed_fragment_rejected() {
    // Too short.
    assert!(decode_fragment(&[0, 0]).is_err());
    // A group of none.
    let body = encode_fragment(1, 2, 0, 0, b"x");
    assert!(decode_fragment(&body).is_err());
    // A number outside the group.
    let body = encode_fragment(1, 2, 2, 2, b"x");
    assert!(decode_fragment(&body).is_err());
    // A group above the limit.
    let body = encode_fragment(1, 2, 0, 65, b"x");
    assert!(decode_fragment(&body).is_err());
}

#[test]
fn cleanup_expired() {
    let payload = vec![1, 2, 3];
    let parts = split(&payload, 3, 400, 2);
    let mut assembler = FragmentAssembler::new();
    let now = T0;
    let (g, fs, n, t, c) = decode_fragment(&parts[0]).unwrap();
    assembler.push(g, fs, n, t, c, now);
    assembler.cleanup(now + FRAGMENT_TIMEOUT + SECOND);
    assert_eq!(assembler.pending_count(), 0);
}

#[test]
fn retransmitted_completed_group_ignored() {
    let payload = vec![1, 2, 3, 4];
    let parts = split(&payload, 5, 500, 2);
    let mut assembler = FragmentAssembler::new();
    let now = T0;
    for idx in [0usize, 1] {
        let (g, fs, n, t, c) = decode_fragment(&parts[idx]).unwrap();
        let _ = assembler.push(g, fs, n, t, c, now);
    }
    // The same fragment once more.
    let (g, fs, n, t, c) = decode_fragment(&parts[0]).unwrap();
    assert!(assembler.push(g, fs, n, t, c, now).is_none());
}

#[test]
fn fragment_bytes_are_exact() {
    assert_eq!(encode_fragment(0x0102, 0x0304, 5, 6, b"ab"), vec![2, 1, 4, 3, 5, 6, b'a', b'b']);
    assert_eq!(
        decode_fragment(&[2, 1, 4, 3, 5, 6, b'a', b'b']),
        Ok((0x0102, 0x0304, 5, 6, b"ab".as_slice()))
    );
    assert_eq!(decode_fragment(&[0, 0]), Err(Error::Protocol(ProtocolError::FragmentTooShort)));
    assert_eq!(
        decode_fragment(&encode_fragment(1, 2, 2, 2, b"x")),
        Err(Error::Protocol(ProtocolError::BadFragment { frag_no: 2, total: 2 }))
    );
}

#[test]
fn an_empty_payload_has_no_fragments() {
    assert!(split(&[], 1, 9, 10).is_empty());
}

#[test]
fn groups_do_not_disturb_each_other() {
    let a = split(b"first payload", 1, 10, 5);
    let b = split(b"second one", 2, 20, 5);
    let mut assembler = FragmentAssembler::new();
    let mut got = Vec::new();
    for part in [&a[0], &b[0], &a[1], &b[1], &a[2]] {
        let (g, fs, n, t, c) = decode_fragment(part).unwrap();
        got.extend(assembler.push(g, fs, n, t, c, T0));
    }
    assert_eq!(got, vec![(20, b"second one".to_vec()), (10, b"first payload".to_vec())]);
    // A group that is not over survives a cleanup in time.
    let third = split(b"third payload", 3, 30, 5);
    let (g, fs, n, t, c) = decode_fragment(&third[0]).unwrap();
    assembler.push(g, fs, n, t, c, T0);
    assembler.cleanup(T0 + FRAGMENT_TIMEOUT - 1);
    assert_eq!(assembler.pending_count(), 1);
    assembler.cleanup(T0 + FRAGMENT_TIMEOUT);
    assert_eq!(assembler.pending_count(), 0);
}

#[test]
fn only_stale_groups_are_given_up() {
    let mut a = FragmentAssembler::new();
    assert_eq!(a.push(9, 90, 0, 1, b"done", T0), Some((90, b"done".to_vec())));
    a.push(1, 10, 0, 2, b"a", T0);
    a.push(2, 20, 0, 2, b"b", T0 + SECOND);
    a.push(3, 30, 0, 2, b"c", T0);
    // A fragment renews its group.
    a.push(3, 30, 0, 2, b"c", T0 + 2 * SECOND);
    assert_eq!(a.pending_count(), 3);
    a.cleanup(T0 + FRAGMENT_TIMEOUT);
    assert_eq!(a.pending_count(), 2);
    // The first group starts again; the others go on.
    let now = T0 + FRAGMENT_TIMEOUT;
    assert_eq!(a.push(1, 10, 1, 2, b"z", now), None);
    assert_eq!(a.push(2, 20, 1, 2, b"y", now), Some((20, b"by".to_vec())));
    assert_eq!(a.push(1, 10, 0, 2, b"a", now), Some((10, b"az".to_vec())));
    // What was completed stays ignored.
    assert_eq!(a.push(9, 90, 0, 1, b"done", now), None);
}

#[test]
fn completed_groups_are_forgotten_in_the_end() {
    let mut assembler = FragmentAssembler::new();
    for g in 0..COMPLETED_CAP as u16 + 1 {
        assert_eq!(assembler.push(g, g, 0, 1, b"x", T0), Some((g, b"x".to_vec())));
    }
    assert_eq!(assembler.push(1, 1, 0, 1, b"x", T0), None);
    assert_eq!(assembler.push(0, 0, 0, 1, b"x", T0), Some((0, b"x".to_vec())));
}

#[test]
fn push_and_ack() {
    let mut q = RetransmitQueue::new();
    let now = T0;
    q.push(1, vec![1], now).unwrap();
    q.push(2, vec![2], now).unwrap();
    q.push(3, vec![3], now).unwrap();
    // 1 and 2 are covered by ack = 2, and 3 by the first bit.
    let (acked, rtt) = q.on_ack(2, 0b1, now);
    assert_eq!(acked, vec![1, 2, 3]);
    assert!(rtt.is_some());
    assert!(q.is_empty());
}

#[test]
fn ack_window_bits() {
    let mut q = RetransmitQueue::new();
    let now = T0;
    for i in 0..10u16 {
        q.push(i, vec![i as u8], now).unwrap();
    }
    let (acked, _) = q.on_ack(7, 0xFFFF_FFFF, now);
    assert_eq!(acked, vec![0, 1, 2, 3, 4, 5, 6, 7, 8, 9]);
    assert!(q.is_empty());
    // Without bits, what follows ack stays.
    for i in 0..10u16 {
        q.push(i, vec![i as u8], now).unwrap();
    }
    let (acked, _) = q.on_ack(7, 0, now);
    assert_eq!(acked, (0..=7).collect::<Vec<u16>>());
    assert_eq!(q.len(), 2);
}

#[test]
fn incremental_ack_confirms_in_window() {
    let mut q = RetransmitQueue::new();
    let now = T0;
    for i in 0..40u16 {
        q.push(i, vec![i as u8], now).unwrap();
    }
    let (acked, _) = q.on_ack(9, 0, now);
    assert_eq!(acked, (0..=9).collect::<Vec<u16>>());
    assert_eq!(q.len(), 30);
    // One packet at a time.
    let mut total = 10;
    for ack in 10..40u16 {
        let (acked, _) = q.on_ack(ack, 0, now);
        assert_eq!(acked, vec![ack], "ack={ack}");
        total += 1;
    }
    assert_eq!(total, 40);
    assert!(q.is_empty());
    for i in 0..40u16 {
        q.push(i, vec![i as u8], now).unwrap();
    }
    let (acked, _) = q.on_ack(39, 0, now);
    assert_eq!(acked.len(), 40);
    assert!(q.is_empty());
}

#[test]
fn overflow_rejected() {
    let mut q = RetransmitQueue::new();
    let now = T0;
    let mut err = None;
    for i in 0..RETRANSMIT_QUEUE_CAP as u16 + 5 {
        if q.push(i, vec![i as u8], now).is_err() {
            err = Some(());
            break;
        }
    }
    assert!(err.is_some(), "a full queue takes nothing");
    assert_eq!(q.len(), RETRANSMIT_QUEUE_CAP);
}

#[test]
fn retransmit_due_only_expired() {
    let mut q = RetransmitQueue::new();
    let now = T0;
    q.push(1, vec![1], now).unwrap();
    q.push(2, vec![2], now).unwrap();
    let due = q.retransmit_due(now + SECOND, 100 * MILLISECOND);
    assert_eq!(due.len(), 2);
    // Sending starts the clock anew.
    let due2 = q.retransmit_due(now + SECOND + 50 * MILLISECOND, 100 * MILLISECOND);
    assert!(due2.is_empty());
}

#[test]
fn seq_wraparound_ack() {
    let mut q = RetransmitQueue::new();
    let now = T0;
    for i in [65534u16, 65535, 0, 1] {
        q.push(i, vec![], now).unwrap();
    }
    let (acked, _) = q.on_ack(1, 0xFFFF_FFFF, now);
    assert_eq!(acked, vec![65534, 65535, 0, 1]);
}

#[test]
fn a_full_queue_says_so() {
    let mut q = RetransmitQueue::new();
    for i in 0..RETRANSMIT_QUEUE_CAP as u16 {
        assert_eq!(q.push(i, vec![], T0), Ok(()));
    }
    assert_eq!(
        q.push(64, vec![], T0),
        Err(Error::Protocol(ProtocolError::RetransmitOverflow))
    );
}

#[test]
fn due_packets_come_back_as_they_were_sent() {
    let mut q = RetransmitQueue::new();
    q.push(1, vec![1, 1], T0).unwrap();
    q.push(2, vec![2, 2], T0 + 50 * MILLISECOND).unwrap();
    assert_eq!(q.retransmit_due(T0 + 100 * MILLISECOND, 100 * MILLISECOND), vec![(1, vec![1, 1])]);
    assert_eq!(q.len(), 2);
    let (acked, _) = q.on_ack(2, 0, T0 + SECOND);
    assert_eq!(acked, vec![1, 2]);
}

#[test]
fn samples_start_at_the_last_transmission() {
    let mut q = RetransmitQueue::new();
    q.push(1, vec![1], T0).unwrap();
    let (_, rtt) = q.on_ack(1, 0, T0 + 80 * MILLISECOND);
    assert_eq!(rtt, Some(80 * MILLISECOND));
    q.push(2, vec![2], T0).unwrap();
    assert_eq!(q.retransmit_due(T0 + SECOND, 100 * MILLISECOND).len(), 1);
    let (acked, rtt) = q.on_ack(2, 0, T0 + SECOND + 30 * MILLISECOND);
    assert_eq!(acked, vec![2]);
    assert_eq!(rtt, Some(30 * MILLISECOND));
    assert_eq!(q.on_ack(2, 0, T0 + SECOND), (vec![], None));
    assert_eq!(q.sample_rtt(2, T0), None);
}

#[test]
fn initial_rto_is_sane() {
    let r = RttEstimator::new();
    assert_eq!(r.rto(), INITIAL_RTO);
}

#[test]
fn converges_to_real_rtt() {
    let mut r = RttEstimator::new();
    for _ in 0..20 {
        r.update(millis(100.0));
    }
    let rto = r.rto();
    assert!(rto >= 50 * MILLISECOND);
    assert!(rto <= 1000 * MILLISECOND);
    assert!(rto / MILLISECOND >= 100, "{rto}");
    assert!(rto / MILLISECOND <= 400, "{rto}");
}

#[test]
fn clamped_after_spike() {
    let mut r = RttEstimator::new();
    for _ in 0..10 {
        r.update(millis(50.0));
    }
    r.update(millis(5000.0));
    assert!(r.rto() <= RTO_MAX);
}

#[test]
fn zero_samples_ignored() {
    let mut r = RttEstimator::new();
    r.update(millis(0.0));
    assert_eq!(r.sample_count(), 0);
}

#[test]
fn the_estimate_follows_the_formula() {
    let mut r = RttEstimator::new();
    // 100 + 4 * 50
    assert_eq!(r.update(100 * MILLISECOND), 300 * MILLISECOND);
    assert_eq!(r.srtt_ms(), 100);
    // The average moves an eighth of the way, to 110; the deviation is (150 + 70) / 4 = 55.
    assert_eq!(r.update(180 * MILLISECOND), 330 * MILLISECOND);
    assert_eq!(r.srtt_ms(), 110);
    assert_eq!(r.sample_count(), 2);
    // The limits.
    let mut low = RttEstimator::new();
    assert_eq!(low.update(MILLISECOND), RTO_MIN);
    let mut high = RttEstimator::new();
    assert_eq!(high.update(900 * MILLISECOND), RTO_MAX);
}

#[test]
fn sequence_numbers_wrap_around() {
    assert!(seq_newer(1, 0));
    assert!(seq_newer(0, 0xFFFF));
    assert!(!seq_newer(0xFFFF, 0));
    assert!(!seq_newer(5, 5));
    assert_eq!(seq_ahead(1, 0xFFFF), 2);
    assert_eq!(seq_next(0xFFFF), 0);
}
