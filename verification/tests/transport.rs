use gridiron::coder::{Coder, NullCoder, PairCoder};
use gridiron::message::{Communicator, NullCommunicator, QueueCommunicator};
use gridiron::stamp::StampQueue;
use gridiron::util::{ceil_log2, encode_frame, parse_frames};

#[test]
fn frame_layout() {
    // One record with a one-byte body is framed as 8 | 8 | 1.
    let frame = encode_frame(vec![b'x'], 3);
    assert_eq!(frame.len(), 17);
    assert_eq!(&frame[0..8], &1u64.to_le_bytes());
    assert_eq!(&frame[8..16], &3u64.to_le_bytes());
    assert_eq!(frame[16], b'x');
}

#[test]
fn frames_round_trip_in_order() {
    let mut wire = encode_frame(vec![1, 2, 3], 0);
    wire.extend(encode_frame(vec![], 1));
    wire.extend(encode_frame(vec![9; 40], 7));
    let records = parse_frames(&wire).unwrap();
    assert_eq!(records.len(), 3);
    assert_eq!(records[0], (vec![1, 2, 3], 0));
    assert_eq!(records[1], (vec![], 1));
    assert_eq!(records[2], (vec![9; 40], 7));
}

#[test]
fn truncated_frame_is_rejected() {
    let mut wire = encode_frame(vec![1, 2, 3], 0);
    wire.pop();
    assert!(parse_frames(&wire).is_none());
    assert!(parse_frames(&vec![0u8; 15]).is_none());
    assert_eq!(parse_frames(&Vec::new()).unwrap(), vec![]);
}

#[test]
fn pair_coder_round_trip() {
    let code = PairCoder::new();
    for pair in [(0u64, 0u64), (1, 2), (u64::MAX, 7), (123456789, u64::MAX)] {
        let bytes = code.encode(pair);
        assert_eq!(bytes.len(), 16);
        assert_eq!(code.decode(bytes), pair);
    }
}

#[test]
fn null_coder_constructs() {
    let _ = NullCoder::<(u64, u64)>::new();
}

#[test]
fn stamp_queue_parks_until_stamp_matches() {
    // A record of the next stage arrives early; it must not surface while
    // the current stamp differs, and must surface once the stamp advances.
    let mut parked = StampQueue::new();
    parked.park(vec![2, 2], 1);
    assert_eq!(parked.take_matching(0), None);
    parked.park(vec![1, 1], 0);
    assert_eq!(parked.take_matching(0), Some(vec![1, 1]));
    assert_eq!(parked.take_matching(0), None);
    // Stage 2 consumes the parked record with no further traffic.
    assert_eq!(parked.take_matching(1), Some(vec![2, 2]));
    assert_eq!(parked.take_matching(1), None);
}

#[test]
fn stamp_queue_hands_out_earliest_match_first() {
    let mut parked = StampQueue::new();
    parked.park(vec![1], 4);
    parked.park(vec![2], 4);
    assert_eq!(parked.take_matching(4), Some(vec![1]));
    assert_eq!(parked.take_matching(4), Some(vec![2]));
}

#[test]
fn null_communicator_identity() {
    let comm = NullCommunicator::new();
    assert_eq!(comm.rank(), 0);
    assert_eq!(comm.size(), 1);
    assert!(!comm.can_recv());
}

#[test]
fn queue_communicator_records_sends_with_stamps() {
    let mut comm = QueueCommunicator::new(0, 3, vec![vec![8]]);
    assert_eq!(comm.rank(), 0);
    assert_eq!(comm.size(), 3);
    comm.send(1, vec![10]);
    comm.next_time_stamp();
    comm.send(2, vec![20]);
    assert!(comm.can_recv());
    assert_eq!(comm.recv(), vec![8]);
    assert!(!comm.can_recv());
    let sent = comm.take_outgoing();
    assert_eq!(sent, vec![(1, vec![10], 0), (2, vec![20], 1)]);
}

#[test]
fn ceil_log2_examples() {
    assert_eq!(ceil_log2(0), 0);
    assert_eq!(ceil_log2(1), 0);
    assert_eq!(ceil_log2(2), 1);
    assert_eq!(ceil_log2(8), 3);
    assert_eq!(ceil_log2(9), 4);
    assert_eq!(ceil_log2(1025), 11);
}
