use gridiron::automaton::{
    execute, execute_comm, execute_thread_pool, CoordinationError, ModuloWork, Sink, Status,
    VecSink,
};
use gridiron::coder::{Coder, PairCoder};
use gridiron::message::QueueCommunicator;
use gridiron::tasks::SimpleAutomaton;

fn ring(n: u64, payload_base: u64) -> Vec<SimpleAutomaton> {
    (0..n)
        .map(|k| SimpleAutomaton::new(k, vec![((k + 1) % n, payload_base + k)], 1, false, None))
        .collect()
}

#[test]
fn status_helpers() {
    assert!(Status::eligible_if(true).is_eligible());
    assert!(!Status::eligible_if(false).is_eligible());
}

#[test]
fn ring_of_four_serial() {
    let tasks = ring(4, 1000);
    let vals = execute(tasks).unwrap();
    assert_eq!(vals.len(), 4);
    for task in &vals {
        // Each task received exactly one message: the one its predecessor
        // sent it.
        let predecessor = (task.id() + 3) % 4;
        assert_eq!(task.received(), &vec![1000 + predecessor]);
    }
    let mut ids: Vec<u64> = vals.iter().map(|t| t.id()).collect();
    ids.sort();
    assert_eq!(ids, vec![0, 1, 2, 3]);
}

#[test]
fn independent_only_group() {
    let tasks: Vec<SimpleAutomaton> =
        (0..8).map(|k| SimpleAutomaton::new(k, vec![], 0, true, None)).collect();
    let vals = execute(tasks).unwrap();
    assert_eq!(vals.len(), 8);
    let mut ids: Vec<u64> = vals.iter().map(|t| t.id()).collect();
    ids.sort();
    assert_eq!(ids, (0..8).collect::<Vec<u64>>());
}

#[test]
fn single_independent_task() {
    let tasks = vec![SimpleAutomaton::new(7, vec![], 0, true, None)];
    let vals = execute(tasks).unwrap();
    assert_eq!(vals.len(), 1);
    assert_eq!(vals[0].id(), 7);
    assert!(vals[0].received().is_empty());
}

#[test]
fn two_tasks_mutual_either_order() {
    for flip in [false, true] {
        let a = SimpleAutomaton::new(0, vec![(1, 10)], 1, false, None);
        let b = SimpleAutomaton::new(1, vec![(0, 20)], 1, false, None);
        let tasks = if flip { vec![b, a] } else { vec![a, b] };
        let vals = execute(tasks).unwrap();
        assert_eq!(vals.len(), 2);
        for task in &vals {
            if task.id() == 0 {
                assert_eq!(task.received(), &vec![20]);
            } else {
                assert_eq!(task.received(), &vec![10]);
            }
        }
    }
}

#[test]
fn three_task_cycle() {
    let tasks = ring(3, 300);
    let vals = execute(tasks).unwrap();
    assert_eq!(vals.len(), 3);
    for task in &vals {
        let predecessor = (task.id() + 2) % 3;
        assert_eq!(task.received(), &vec![300 + predecessor]);
    }
}

#[test]
fn empty_flow_completes_immediately() {
    let vals = execute(Vec::<SimpleAutomaton>::new()).unwrap();
    assert!(vals.is_empty());
}

#[test]
fn peer_without_tasks_terminates() {
    // A peer of a two-peer group that owns no task of this stage: it must
    // finish the stage at once, receiving nothing.
    let mut comm = QueueCommunicator::new(1, 2, vec![]);
    let code = PairCoder::new();
    let work = ModuloWork::new(2);
    let mut sink: VecSink<SimpleAutomaton> = VecSink::new();
    let r = execute_comm(&mut comm, &code, &work, &mut sink, vec![]);
    assert_eq!(r, Ok(()));
    assert!(sink.into_items().is_empty());
    assert!(comm.take_outgoing().is_empty());
}

#[test]
fn two_peer_stage_on_rank_zero() {
    // Four tasks in a ring, keys dealt out modulo two. Peer 0 owns tasks 0
    // and 2; each sends one message to its successor, who lives on peer 1.
    // The messages from peer 1 are loaded as incoming traffic.
    let code = PairCoder::new();
    let incoming = vec![code.encode((0, 77)), code.encode((2, 77))];
    let mut comm = QueueCommunicator::new(0, 2, incoming);
    let work = ModuloWork::new(2);
    let mut sink: VecSink<SimpleAutomaton> = VecSink::new();
    let tasks = vec![
        SimpleAutomaton::new(0, vec![(1, 77)], 1, false, None),
        SimpleAutomaton::new(2, vec![(3, 77)], 1, false, None),
    ];
    let r = execute_comm(&mut comm, &code, &work, &mut sink, tasks);
    assert_eq!(r, Ok(()));
    let done = sink.into_items();
    assert_eq!(done.len(), 2);
    for task in &done {
        assert_eq!(task.received(), &vec![77]);
    }
    // Exactly the two off-peer messages were sent, to rank 1, at stamp 0.
    let sent = comm.take_outgoing();
    assert_eq!(sent.len(), 2);
    assert_eq!(sent[0].0, 1);
    assert_eq!(sent[0].1, code.encode((1, 77)));
    assert_eq!(sent[0].2, 0);
    assert_eq!(sent[1].0, 1);
    assert_eq!(sent[1].1, code.encode((3, 77)));
    assert_eq!(sent[1].2, 0);
}

#[test]
fn two_peer_stage_on_rank_one() {
    // The mirror image of the rank-0 stage: peer 1 owns tasks 1 and 3,
    // whose successors 2 and 0 live on peer 0.
    let code = PairCoder::new();
    let incoming = vec![code.encode((1, 77)), code.encode((3, 77))];
    let mut comm = QueueCommunicator::new(1, 2, incoming);
    let work = ModuloWork::new(2);
    let mut sink: VecSink<SimpleAutomaton> = VecSink::new();
    let tasks = vec![
        SimpleAutomaton::new(1, vec![(2, 77)], 1, false, None),
        SimpleAutomaton::new(3, vec![(0, 77)], 1, false, None),
    ];
    let r = execute_comm(&mut comm, &code, &work, &mut sink, tasks);
    assert_eq!(r, Ok(()));
    assert_eq!(sink.into_items().len(), 2);
    let sent = comm.take_outgoing();
    assert_eq!(sent.len(), 2);
    assert!(sent.iter().all(|record| record.0 == 0 && record.2 == 0));
}

#[test]
fn outgoing_records_survive_the_wire() {
    // What a stage hands to the transport, framed and concatenated as the
    // TCP transport writes it, parses back to the same records in order.
    let code = PairCoder::new();
    let mut comm = QueueCommunicator::new(0, 2, vec![code.encode((0, 9))]);
    let work = ModuloWork::new(2);
    let mut sink: VecSink<SimpleAutomaton> = VecSink::new();
    let tasks = vec![
        SimpleAutomaton::new(0, vec![(1, 5)], 1, false, None),
        SimpleAutomaton::new(2, vec![(3, 6)], 0, true, None),
    ];
    execute_comm(&mut comm, &code, &work, &mut sink, tasks).unwrap();
    let sent = comm.take_outgoing();
    assert_eq!(sent.len(), 2);
    let mut wire = Vec::new();
    for (_, payload, stamp) in &sent {
        let frame = gridiron::util::encode_frame(payload.clone(), *stamp as u64);
        assert_eq!(frame.len(), 8 + 8 + 16);
        wire.extend(frame);
    }
    let records = gridiron::util::parse_frames(&wire).unwrap();
    assert_eq!(records.len(), 2);
    assert_eq!(records[0], (code.encode((1, 5)), 0));
    assert_eq!(records[1], (code.encode((3, 6)), 0));
}

#[test]
fn message_for_unknown_key_is_undelivered() {
    // A task sends to a key that no task of the flow claims; the stage
    // reports it instead of completing.
    let tasks = vec![SimpleAutomaton::new(0, vec![(99, 5)], 0, true, None)];
    let r = execute(tasks);
    assert_eq!(r.unwrap_err(), CoordinationError::Undelivered);
}

#[test]
fn starved_task_stalls_without_transport() {
    // A task waits for a message nobody sends; with no transport to
    // receive from, the stage reports the stall.
    let tasks = vec![SimpleAutomaton::new(0, vec![], 1, false, None)];
    let r = execute(tasks);
    assert_eq!(r.unwrap_err(), CoordinationError::Stalled);
}

#[test]
fn message_for_finished_task_is_unknown_recipient() {
    // The incoming traffic names a task that was never part of this
    // peer's flow.
    let code = PairCoder::new();
    let incoming = vec![code.encode((5, 1))];
    let mut comm = QueueCommunicator::new(0, 2, incoming);
    let work = ModuloWork::new(2);
    let mut sink: VecSink<SimpleAutomaton> = VecSink::new();
    let tasks = vec![SimpleAutomaton::new(0, vec![], 1, false, None)];
    let r = execute_comm(&mut comm, &code, &work, &mut sink, tasks);
    assert_eq!(r.unwrap_err(), CoordinationError::UnknownRecipient);
}

#[test]
fn pooled_executor_hands_over_every_task() {
    let mut sink: VecSink<SimpleAutomaton> = VecSink::new();
    let tasks = ring(5, 500);
    let r = execute_thread_pool(&mut sink, tasks);
    assert_eq!(r, Ok(()));
    let done = sink.into_items();
    assert_eq!(done.len(), 5);
    let mut ids: Vec<u64> = done.iter().map(|t| t.id()).collect();
    ids.sort();
    assert_eq!(ids, (0..5).collect::<Vec<u64>>());
}

#[test]
fn self_message_is_delivered() {
    // A task may address itself; the message is boxed and handed back to
    // it when it enters the stage.
    let tasks = vec![SimpleAutomaton::new(4, vec![(4, 44)], 1, false, None)];
    let vals = execute(tasks).unwrap();
    assert_eq!(vals.len(), 1);
    assert_eq!(vals[0].received(), &vec![44]);
}
