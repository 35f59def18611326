//! Task-based parallelism: the [`Automaton`] contract and the coordinator
//! that drives a group of automata through one stage.
//!
//! A computation consists of an ensemble of recurring, semi-independent
//! tasks which must exchange messages with a subset of their peers to
//! complete each stage. The [`coordinate`] function routes every message a
//! task produces: messages for co-located tasks are delivered in process,
//! and messages for tasks owned by another peer are encoded and handed to a
//! [`Communicator`]. Tasks that have absorbed all their messages are passed
//! to a [`Sink`], which an executor connects to an output channel or a pool
//! of worker threads.

use crate::coder::{Coder, NullCoder};
use crate::message::{Communicator, NullCommunicator};
use vstd::prelude::*;

verus! {

/// Returned by [`Automaton::receive`] to indicate whether a task is
/// eligible to be evaluated.
#[derive(Clone, Copy, PartialEq, Eq, Structural)]
pub enum Status {
    Eligible,
    Ineligible,
}

impl Status {
    /// `Eligible` exactly when the condition holds.
    pub fn eligible_if(condition: bool) -> (s: Self)
        ensures
            s == (if condition {
                Status::Eligible
            } else {
                Status::Ineligible
            }),
    {
        if condition {
            Self::Eligible
        } else {
            Self::Ineligible
        }
    }

    /// Whether this status is `Eligible`.
    pub fn is_eligible(&self) -> (r: bool)
        ensures
            r == (*self == Status::Eligible),
    {
        match self {
            Self::Eligible => true,
            Self::Ineligible => false,
        }
    }
}

/// An agent in a group of compute tasks that can communicate with its
/// peers and yields a computationally intensive data product.
///
/// The specification side of the contract models the task as a key, a
/// fixed batch of outgoing messages, and a count of messages still to be
/// absorbed (`pending`). The coordinator relies on three promises: a
/// task's key survives `receive`, each received message (while any is
/// still owed) lowers `pending` by one, and `receive` answers `Eligible`
/// exactly when nothing more is owed.
pub trait Automaton: Sized {
    /// The type of the key that uniquely identifies this automaton within
    /// a group.
    type Key;

    /// The type of a message passed between the automata.
    type Message;

    /// The type of the value yielded by this automaton.
    type Value;

    /// The key identifying the task in its group. A task implemented
    /// beyond the verifier's reach may leave the model functions at
    /// their unspecified defaults.
    open spec fn spec_key(&self) -> Self::Key {
        arbitrary()
    }

    /// The outgoing messages the task offers for the current stage.
    open spec fn spec_messages(&self) -> Seq<(Self::Key, Self::Message)> {
        arbitrary()
    }

    /// How many incoming messages the task still has to absorb before it
    /// is eligible.
    open spec fn pending(&self) -> nat {
        arbitrary()
    }

    /// Whether the task is eligible immediately, with no messages.
    open spec fn spec_independent(&self) -> bool {
        arbitrary()
    }

    /// The value the task will yield.
    open spec fn spec_value(self) -> Self::Value {
        arbitrary()
    }

    /// Return the key to uniquely identify this automaton within the
    /// group.
    fn key(&self) -> (k: Self::Key)
        ensures
            k == self.spec_key(),
    ;

    /// Decide whether two keys are the same key. Executors use this to
    /// store tasks and messages under their keys.
    fn key_eq(a: &Self::Key, b: &Self::Key) -> (r: bool)
        ensures
            r == (a == b),
    ;

    /// Return the list of messages to be sent to peers. Called exactly
    /// once per stage by the coordinator; the result is a pure function of
    /// the task's state.
    fn messages(&self) -> (m: Vec<(Self::Key, Self::Message)>)
        ensures
            m@ == self.spec_messages(),
    ;

    /// Receive and store one message from another task, reporting whether
    /// the receiver now holds everything it needs and is ready to
    /// compute its value.
    fn receive(&mut self, message: Self::Message) -> (s: Status)
        ensures
            final(self).spec_key() == old(self).spec_key(),
            final(self).spec_independent() == old(self).spec_independent(),
            final(self).pending() == if old(self).pending() > 0 {
                (old(self).pending() - 1) as nat
            } else {
                0nat
            },
            (s == Status::Eligible) <==> final(self).pending() == 0,
    ;

    /// Run the task, consuming it. CPU-intensive work belongs here; the
    /// executor may run it on a worker thread.
    fn value(self) -> (v: Self::Value)
        ensures
            v == self.spec_value(),
    ;

    /// Hint the executor which worker thread the task prefers. The
    /// executor is allowed to ignore the hint.
    fn worker_hint(&self) -> Option<usize>;

    /// Whether the task is eligible immediately and receives no
    /// messages.
    fn independent(&self) -> (r: bool)
        ensures
            r == self.spec_independent(),
    ;
}

/// Where eligible tasks go. An executor supplies one; the coordinator's
/// contract speaks of `pushed()`, the tasks handed over so far in order.
pub trait Sink<A>: Sized {
    /// The tasks pushed into this sink so far. A sink implemented beyond
    /// the verifier's reach may leave this model at its unspecified
    /// default.
    open spec fn pushed(&self) -> Seq<A> {
        arbitrary()
    }

    /// Hand one eligible task over for evaluation.
    fn push(&mut self, task: A)
        ensures
            final(self).pushed() == old(self).pushed().push(task),
    ;
}

/// A sink that simply collects the eligible tasks in a vector, in the
/// order they were handed over. The serial executor evaluates them after
/// coordination; tests inspect them directly.
pub struct VecSink<A> {
    items: Vec<A>,
}

impl<A> VecSink<A> {
    pub fn new() -> (r: Self)
        ensures
            r.pushed() == Seq::<A>::empty(),
    {
        Self { items: Vec::new() }
    }

    /// The collected tasks, in push order.
    pub fn into_items(self) -> (r: Vec<A>)
        ensures
            r@ == self.pushed(),
    {
        let VecSink { items } = self;
        items
    }
}

impl<A> Sink<A> for VecSink<A> {
    closed spec fn pushed(&self) -> Seq<A> {
        self.items@
    }

    fn push(&mut self, task: A) {
        self.items.push(task);
    }
}

/// The work-assignment function: a pure mapping from a task key to the
/// rank of the peer that owns the task. All peers of a group must agree on
/// this mapping.
pub trait Work<K>: Sized {
    /// The rank that owns `key`. An assignment implemented beyond the
    /// verifier's reach may leave this model at its unspecified default.
    open spec fn spec_rank_of(&self, key: K) -> usize {
        arbitrary()
    }

    /// Compute the owning rank of `key`.
    fn rank_of(&self, key: &K) -> (r: usize)
        ensures
            r == self.spec_rank_of(*key),
    ;
}

/// The work assignment of a single-process group: every key is owned by
/// rank 0.
pub struct LocalWork {}

impl LocalWork {
    pub fn new() -> (r: Self) {
        Self {}
    }
}

impl<K> Work<K> for LocalWork {
    open spec fn spec_rank_of(&self, key: K) -> usize {
        0
    }

    fn rank_of(&self, key: &K) -> (r: usize) {
        0
    }
}

/// A work assignment for integer keys that deals keys out modulo the
/// group size.
pub struct ModuloWork {
    size: usize,
}

impl ModuloWork {
    pub fn new(size: usize) -> (r: Self)
        requires
            1 <= size,
        ensures
            r.spec_size() == size,
    {
        Self { size }
    }

    /// The number of peers the keys are dealt out over.
    pub closed spec fn spec_size(&self) -> usize {
        self.size
    }
}

impl Work<u64> for ModuloWork {
    open spec fn spec_rank_of(&self, key: u64) -> usize {
        if self.spec_size() == 0 {
            0
        } else {
            (key % (self.spec_size() as u64)) as usize
        }
    }

    fn rank_of(&self, key: &u64) -> (r: usize) {
        if self.size == 0 {
            0
        } else {
            (*key % (self.size as u64)) as usize
        }
    }
}

/// How a coordination stage can fail. The conditions are programmer
/// errors in the sense of the framework's contract — a malformed group or
/// a transport that cannot supply the messages the group still needs —
/// and the stage reports them instead of completing.
#[derive(Clone, Copy, PartialEq, Eq, Debug, Structural)]
pub enum CoordinationError {
    /// At the end of the intake phase, some delivered message was
    /// addressed to a key that no task of the flow claimed.
    Undelivered,
    /// A message arrived for a task that was never seen or was already
    /// evaluated.
    UnknownRecipient,
    /// Tasks still wait for messages, but the communicator cannot
    /// receive any.
    Stalled,
}

/// Find the position of `key` in an association vector.
fn tbl_position<A: Automaton, V>(table: &Vec<(A::Key, V)>, key: &A::Key) -> (r: Option<usize>)
    ensures
        match r {
            Some(i) => 0 <= i < table@.len() && table@[i as int].0 == *key,
            None => forall|j: int| 0 <= j < table@.len() ==> (#[trigger] table@[j]).0 != *key,
        },
{
    let mut i: usize = 0;
    while i < table.len()
        invariant
            i <= table@.len(),
            forall|j: int| 0 <= j < i as int ==> (#[trigger] table@[j]).0 != *key,
        decreases table@.len() - i,
    {
        if A::key_eq(&table[i].0, key) {
            return Some(i);
        }
        i = i + 1;
    }
    None
}

/// The keys of the tasks, in task order.
pub open spec fn keys_of<A: Automaton>(tasks: Seq<A>) -> Seq<A::Key> {
    tasks.map_values(|a: A| a.spec_key())
}

/// No two tasks share a key.
pub open spec fn distinct_keys<A: Automaton>(tasks: Seq<A>) -> bool {
    forall|i: int, j: int|
        0 <= i < j < tasks.len() ==> tasks[i].spec_key() != tasks[j].spec_key()
}

/// Some task among `tasks` has the key `k`.
pub open spec fn tasks_have_key<A: Automaton>(tasks: Seq<A>, k: A::Key) -> bool {
    exists|t: int| 0 <= t < tasks.len() && tasks[t].spec_key() == k
}

/// Some entry of the association vector carries the key `k`.
pub open spec fn table_has_key<K, V>(table: Seq<(K, V)>, k: K) -> bool {
    exists|j: int| 0 <= j < table.len() && table[j].0 == k
}

/// A task that is ready to be evaluated: it owes no more receives, or it
/// declared itself independent.
pub open spec fn settled<A: Automaton>(a: A) -> bool {
    a.pending() == 0 || a.spec_independent()
}

/// Every destination a batch of messages names is owned by some peer of
/// the group, and destinations owned by another peer can actually be
/// shipped: the communicator accepts sends and the coder encodes.
pub open spec fn batch_routable<A: Automaton, W: Work<A::Key>>(
    msgs: Seq<(A::Key, A::Message)>,
    work: W,
    rank: usize,
    size: usize,
    sends: bool,
    codes: bool,
) -> bool {
    forall|j: int|
        0 <= j < msgs.len() ==> {
            &&& work.spec_rank_of((#[trigger] msgs[j]).0) < size
            &&& (work.spec_rank_of(msgs[j].0) != rank ==> sends && codes)
        }
}

/// `batch_routable` for the messages of every task of the flow.
pub open spec fn routable<A: Automaton, W: Work<A::Key>>(
    flow: Seq<A>,
    work: W,
    rank: usize,
    size: usize,
    sends: bool,
    codes: bool,
) -> bool {
    forall|i: int|
        0 <= i < flow.len() ==> batch_routable::<A, W>(
            (#[trigger] flow[i]).spec_messages(), work, rank, size, sends, codes)
}

/// The records that routing one batch of messages hands to the
/// communicator: one encoded record per message whose destination lives on
/// another peer, in message order, each tagged with the current stamp.
pub open spec fn batch_offloaded<A, W, Code>(
    msgs: Seq<(A::Key, A::Message)>,
    work: W,
    code: Code,
    rank: usize,
    stamp: usize,
) -> Seq<(usize, Seq<u8>, usize)>
    where
        A: Automaton,
        W: Work<A::Key>,
        Code: Coder<Type = (A::Key, A::Message)>,
    decreases msgs.len(),
{
    if msgs.len() == 0 {
        Seq::empty()
    } else {
        let dest = msgs[0].0;
        let rest = batch_offloaded::<A, W, Code>(msgs.drop_first(), work, code, rank, stamp);
        if work.spec_rank_of(dest) != rank {
            seq![(work.spec_rank_of(dest), code.spec_encode(msgs[0]), stamp)] + rest
        } else {
            rest
        }
    }
}

/// The records that one coordination stage hands to the communicator: the
/// offloaded messages of every task, in flow order.
pub open spec fn offloaded<A, W, Code>(
    flow: Seq<A>,
    work: W,
    code: Code,
    rank: usize,
    stamp: usize,
) -> Seq<(usize, Seq<u8>, usize)>
    where
        A: Automaton,
        W: Work<A::Key>,
        Code: Coder<Type = (A::Key, A::Message)>,
    decreases flow.len(),
{
    if flow.len() == 0 {
        Seq::empty()
    } else {
        batch_offloaded::<A, W, Code>(flow[0].spec_messages(), work, code, rank, stamp)
            + offloaded::<A, W, Code>(flow.drop_first(), work, code, rank, stamp)
    }
}

/// `batch_offloaded` distributes over splitting the batch at `q`.
proof fn lemma_batch_offloaded_split<A, W, Code>(
    msgs: Seq<(A::Key, A::Message)>,
    q: int,
    work: W,
    code: Code,
    rank: usize,
    stamp: usize,
)
    where
        A: Automaton,
        W: Work<A::Key>,
        Code: Coder<Type = (A::Key, A::Message)>,
    requires
        0 <= q <= msgs.len(),
    ensures
        batch_offloaded::<A, W, Code>(msgs, work, code, rank, stamp) == batch_offloaded::<A, W,
            Code>(msgs.take(q), work, code, rank, stamp) + batch_offloaded::<A, W, Code>(
            msgs.skip(q), work, code, rank, stamp),
    decreases q,
{
    if q == 0 {
        assert(msgs.take(0) =~= Seq::<(A::Key, A::Message)>::empty());
        assert(msgs.skip(0) =~= msgs);
        assert(batch_offloaded::<A, W, Code>(msgs.take(0), work, code, rank, stamp)
            + batch_offloaded::<A, W, Code>(msgs, work, code, rank, stamp)
            =~= batch_offloaded::<A, W, Code>(msgs, work, code, rank, stamp));
    } else {
        let head = msgs[0];
        let tail = msgs.drop_first();
        lemma_batch_offloaded_split::<A, W, Code>(tail, q - 1, work, code, rank, stamp);
        assert(msgs.take(q).drop_first() =~= tail.take(q - 1));
        assert(msgs.take(q)[0] == head);
        assert(msgs.take(q).len() == q);
        assert(msgs.skip(q) =~= tail.skip(q - 1));
        if work.spec_rank_of(head.0) != rank {
            let rec = seq![(work.spec_rank_of(head.0), code.spec_encode(head), stamp)];
            assert(rec + (batch_offloaded::<A, W, Code>(tail.take(q - 1), work, code, rank,
                stamp) + batch_offloaded::<A, W, Code>(tail.skip(q - 1), work, code, rank,
                stamp)) =~= (rec + batch_offloaded::<A, W, Code>(tail.take(q - 1), work, code,
                rank, stamp)) + batch_offloaded::<A, W, Code>(tail.skip(q - 1), work, code,
                rank, stamp));
        }
    }
}

/// `offloaded` distributes over splitting the flow at `p`.
proof fn lemma_offloaded_split<A, W, Code>(
    flow: Seq<A>,
    p: int,
    work: W,
    code: Code,
    rank: usize,
    stamp: usize,
)
    where
        A: Automaton,
        W: Work<A::Key>,
        Code: Coder<Type = (A::Key, A::Message)>,
    requires
        0 <= p <= flow.len(),
    ensures
        offloaded::<A, W, Code>(flow, work, code, rank, stamp) == offloaded::<A, W, Code>(
            flow.take(p), work, code, rank, stamp) + offloaded::<A, W, Code>(flow.skip(p),
            work, code, rank, stamp),
    decreases p,
{
    if p == 0 {
        assert(flow.take(0) =~= Seq::<A>::empty());
        assert(flow.skip(0) =~= flow);
        assert(offloaded::<A, W, Code>(flow.take(0), work, code, rank, stamp) + offloaded::<A,
            W, Code>(flow, work, code, rank, stamp) =~= offloaded::<A, W, Code>(flow, work,
            code, rank, stamp));
    } else {
        let tail = flow.drop_first();
        lemma_offloaded_split::<A, W, Code>(tail, p - 1, work, code, rank, stamp);
        assert(flow.take(p).drop_first() =~= tail.take(p - 1));
        assert(flow.take(p)[0] == flow[0]);
        assert(flow.take(p).len() == p);
        assert(flow.skip(p) =~= tail.skip(p - 1));
        let head_batch = batch_offloaded::<A, W, Code>(flow[0].spec_messages(), work, code,
            rank, stamp);
        assert(head_batch + (offloaded::<A, W, Code>(tail.take(p - 1), work, code, rank, stamp)
            + offloaded::<A, W, Code>(tail.skip(p - 1), work, code, rank, stamp)) =~= (
        head_batch + offloaded::<A, W, Code>(tail.take(p - 1), work, code, rank, stamp))
            + offloaded::<A, W, Code>(tail.skip(p - 1), work, code, rank, stamp));
    }
}

/// Routing a single message offloads one record when its destination is
/// remote, and nothing when it is local.
proof fn lemma_batch_offloaded_singleton<A, W, Code>(
    m: (A::Key, A::Message),
    work: W,
    code: Code,
    rank: usize,
    stamp: usize,
)
    where
        A: Automaton,
        W: Work<A::Key>,
        Code: Coder<Type = (A::Key, A::Message)>,
    ensures
        work.spec_rank_of(m.0) != rank ==> batch_offloaded::<A, W, Code>(seq![m], work, code,
            rank, stamp) == seq![(work.spec_rank_of(m.0), code.spec_encode(m), stamp)],
        work.spec_rank_of(m.0) == rank ==> batch_offloaded::<A, W, Code>(seq![m], work, code,
            rank, stamp) == Seq::<(usize, Seq<u8>, usize)>::empty(),
{
    let single = seq![m];
    assert(single.drop_first() =~= Seq::<(A::Key, A::Message)>::empty());
    assert(batch_offloaded::<A, W, Code>(Seq::<(A::Key, A::Message)>::empty(), work, code,
        rank, stamp) == Seq::<(usize, Seq<u8>, usize)>::empty());
    assert(single[0] == m);
    if work.spec_rank_of(m.0) != rank {
        assert(batch_offloaded::<A, W, Code>(single, work, code, rank, stamp)
            =~= seq![(work.spec_rank_of(m.0), code.spec_encode(m), stamp)]);
    }
}

/// The records offloaded by a flow of one task are the records offloaded
/// by that task's messages.
proof fn lemma_offloaded_singleton<A, W, Code>(a: A, work: W, code: Code, rank: usize,
    stamp: usize)
    where
        A: Automaton,
        W: Work<A::Key>,
        Code: Coder<Type = (A::Key, A::Message)>,
    ensures
        offloaded::<A, W, Code>(seq![a], work, code, rank, stamp) == batch_offloaded::<A, W,
            Code>(a.spec_messages(), work, code, rank, stamp),
{
    let single = seq![a];
    assert(single.drop_first() =~= Seq::<A>::empty());
    assert(offloaded::<A, W, Code>(Seq::<A>::empty(), work, code, rank, stamp)
        == Seq::<(usize, Seq<u8>, usize)>::empty());
    assert(single[0] == a);
    assert(offloaded::<A, W, Code>(single, work, code, rank, stamp) =~= batch_offloaded::<A,
        W, Code>(a.spec_messages(), work, code, rank, stamp));
}

/// The number of receives the waiting tasks still owe, summed over an
/// association vector of tasks.
pub open spec fn pending_total<A: Automaton>(table: Seq<(A::Key, A)>) -> nat
    decreases table.len(),
{
    if table.len() == 0 {
        0
    } else {
        table[0].1.pending() + pending_total(table.drop_first())
    }
}

proof fn lemma_pending_total_push<A: Automaton>(table: Seq<(A::Key, A)>, x: (A::Key, A))
    ensures
        pending_total(table.push(x)) == pending_total(table) + x.1.pending(),
    decreases table.len(),
{
    if table.len() == 0 {
        assert(table.push(x).drop_first() =~= Seq::<(A::Key, A)>::empty());
        assert(table.push(x)[0] == x);
        assert(pending_total(table.push(x)) == x.1.pending() + pending_total(
            Seq::<(A::Key, A)>::empty()));
    } else {
        assert(table.push(x).drop_first() =~= table.drop_first().push(x));
        lemma_pending_total_push(table.drop_first(), x);
        assert(table.push(x)[0] == table[0]);
    }
}

proof fn lemma_pending_total_remove<A: Automaton>(table: Seq<(A::Key, A)>, i: int)
    requires
        0 <= i < table.len(),
    ensures
        pending_total(table.remove(i)) + table[i].1.pending() == pending_total(table),
    decreases table.len(),
{
    if i == 0 {
        assert(table.remove(0) =~= table.drop_first());
    } else {
        assert(table.remove(i).drop_first() =~= table.drop_first().remove(i - 1));
        assert(table.remove(i)[0] == table[0]);
        lemma_pending_total_remove(table.drop_first(), i - 1);
    }
}

/// Taking one more task extends the prefix by that task.
proof fn lemma_take_snoc<A>(s: Seq<A>, p: int)
    requires
        0 <= p < s.len(),
    ensures
        s.take(p + 1) == s.take(p).push(s[p]),
{
    assert(s.take(p + 1) =~= s.take(p).push(s[p]));
}

/// Some task among the first `p` of the flow has the key `k`.
pub open spec fn prefix_has_key<A: Automaton>(flow: Seq<A>, p: int, k: A::Key) -> bool {
    exists|i: int| 0 <= i < p && i < flow.len() && (#[trigger] flow[i]).spec_key() == k
}

/// Some task pushed at position `from` or later has the key `k`.
pub open spec fn delta_has_key<A: Automaton>(s: Seq<A>, from: int, k: A::Key) -> bool {
    exists|t: int| from <= t < s.len() && (#[trigger] s[t]).spec_key() == k
}

/// No two entries of the association vector share a key.
pub open spec fn table_distinct<K, V>(table: Seq<(K, V)>) -> bool {
    forall|j1: int, j2: int| 0 <= j1 < j2 < table.len() ==> table[j1].0 != table[j2].0
}

/// The tasks handed to the sink beyond the first `from` are ready, carry
/// keys of the first `p` flow tasks, and no key appears twice.
spec fn sink_ok<A: Automaton, S: Sink<A>>(sink: S, from: int, flow: Seq<A>, p: int) -> bool {
    &&& sink.pushed().len() >= from
    &&& forall|t: int|
        from <= t < sink.pushed().len() ==> settled(#[trigger] sink.pushed()[t])
            && prefix_has_key(flow, p, sink.pushed()[t].spec_key())
    &&& forall|t1: int, t2: int|
        from <= t1 < t2 < sink.pushed().len() ==> sink.pushed()[t1].spec_key()
            != sink.pushed()[t2].spec_key()
}

/// The waiting tasks are stored under their own keys, those keys belong to
/// the first `p` flow tasks, and no key appears twice.
spec fn seen_ok<A: Automaton>(seen: Seq<(A::Key, A)>, flow: Seq<A>, p: int) -> bool {
    &&& forall|j: int|
        0 <= j < seen.len() ==> (#[trigger] seen[j]).1.spec_key() == seen[j].0
    &&& forall|j: int|
        0 <= j < seen.len() ==> prefix_has_key(flow, p, (#[trigger] seen[j]).0)
    &&& table_distinct(seen)
}

/// Each of the first `p` flow tasks is either finished (its key is among
/// the newly pushed tasks) or waiting (its key is in `seen`), never both;
/// and the counts add up.
spec fn partition_ok<A: Automaton, S: Sink<A>>(
    sink: S,
    from: int,
    seen: Seq<(A::Key, A)>,
    flow: Seq<A>,
    p: int,
) -> bool {
    &&& forall|i: int|
        0 <= i < p && i < flow.len() ==> (table_has_key(seen, (#[trigger] flow[i]).spec_key())
            != delta_has_key(sink.pushed(), from, flow[i].spec_key()))
    &&& sink.pushed().len() - from + seen.len() == p
}

/// How many messages of one batch are addressed to the key `k`.
pub open spec fn batch_count<A: Automaton>(msgs: Seq<(A::Key, A::Message)>, k: A::Key) -> nat
    decreases msgs.len(),
{
    if msgs.len() == 0 {
        0
    } else {
        (if msgs[0].0 == k {
            1nat
        } else {
            0nat
        }) + batch_count::<A>(msgs.drop_first(), k)
    }
}

/// How many messages of the whole flow are addressed to the key `k`.
pub open spec fn flow_count<A: Automaton>(flow: Seq<A>, k: A::Key) -> nat
    decreases flow.len(),
{
    if flow.len() == 0 {
        0
    } else {
        batch_count::<A>(flow[0].spec_messages(), k) + flow_count(flow.drop_first(), k)
    }
}

/// A flow forms a closed, satisfiable group for the peer `rank`: keys are
/// distinct, every message is addressed to a key of the flow and owned by
/// this peer, independent tasks receive nothing, and every other task
/// expects exactly the messages addressed to it — at least one.
pub open spec fn self_contained<A: Automaton, W: Work<A::Key>>(
    flow: Seq<A>,
    work: W,
    rank: usize,
) -> bool {
    &&& distinct_keys(flow)
    &&& forall|i: int, j: int|
        0 <= i < flow.len() && 0 <= j < flow[i].spec_messages().len() ==> {
            let dest = (#[trigger] flow[i].spec_messages()[j]).0;
            work.spec_rank_of(dest) == rank && tasks_have_key(flow, dest)
        }
    &&& forall|i: int|
        0 <= i < flow.len() && (#[trigger] flow[i]).spec_independent() ==> flow_count(flow,
            flow[i].spec_key()) == 0
    &&& forall|i: int|
        0 <= i < flow.len() && !(#[trigger] flow[i]).spec_independent() ==> flow[i].pending()
            == flow_count(flow, flow[i].spec_key()) && flow[i].pending() > 0
}

/// Counting one more message of a batch.
proof fn lemma_batch_count_snoc<A: Automaton>(msgs: Seq<(A::Key, A::Message)>, q: int,
    k: A::Key)
    requires
        0 <= q < msgs.len(),
    ensures
        batch_count::<A>(msgs.take(q + 1), k) == batch_count::<A>(msgs.take(q), k) + (
        if msgs[q].0 == k {
            1nat
        } else {
            0nat
        }),
    decreases q,
{
    if q == 0 {
        assert(msgs.take(1).drop_first() =~= Seq::<(A::Key, A::Message)>::empty());
        assert(msgs.take(1)[0] == msgs[0]);
        assert(msgs.take(0) =~= Seq::<(A::Key, A::Message)>::empty());
    } else {
        let tail = msgs.drop_first();
        lemma_batch_count_snoc::<A>(tail, q - 1, k);
        assert(msgs.take(q + 1).drop_first() =~= tail.take(q));
        assert(msgs.take(q).drop_first() =~= tail.take(q - 1));
        assert(msgs.take(q + 1)[0] == msgs[0]);
        assert(msgs.take(q)[0] == msgs[0]);
        assert(tail[q - 1] == msgs[q]);
    }
}

/// A prefix of a batch addresses at most as many messages to `k` as the
/// whole batch.
proof fn lemma_batch_count_prefix_le<A: Automaton>(msgs: Seq<(A::Key, A::Message)>, q: int,
    k: A::Key)
    requires
        0 <= q <= msgs.len(),
    ensures
        batch_count::<A>(msgs.take(q), k) <= batch_count::<A>(msgs, k),
    decreases msgs.len() - q,
{
    if q == msgs.len() {
        assert(msgs.take(q) =~= msgs);
    } else {
        lemma_batch_count_snoc::<A>(msgs, q, k);
        lemma_batch_count_prefix_le::<A>(msgs, q + 1, k);
    }
}

/// Counting the messages of one more task of the flow.
proof fn lemma_flow_count_snoc<A: Automaton>(flow: Seq<A>, p: int, k: A::Key)
    requires
        0 <= p < flow.len(),
    ensures
        flow_count(flow.take(p + 1), k) == flow_count(flow.take(p), k) + batch_count::<A>(
            flow[p].spec_messages(), k),
    decreases p,
{
    if p == 0 {
        assert(flow.take(1).drop_first() =~= Seq::<A>::empty());
        assert(flow.take(1)[0] == flow[0]);
        assert(flow.take(0) =~= Seq::<A>::empty());
    } else {
        let tail = flow.drop_first();
        lemma_flow_count_snoc::<A>(tail, p - 1, k);
        assert(flow.take(p + 1).drop_first() =~= tail.take(p));
        assert(flow.take(p).drop_first() =~= tail.take(p - 1));
        assert(flow.take(p + 1)[0] == flow[0]);
        assert(flow.take(p)[0] == flow[0]);
        assert(tail[p - 1] == flow[p]);
    }
}

/// A prefix of the flow addresses at most as many messages to `k` as the
/// whole flow.
proof fn lemma_flow_count_prefix_le<A: Automaton>(flow: Seq<A>, p: int, k: A::Key)
    requires
        0 <= p <= flow.len(),
    ensures
        flow_count(flow.take(p), k) <= flow_count(flow, k),
    decreases flow.len() - p,
{
    if p == flow.len() {
        assert(flow.take(p) =~= flow);
    } else {
        lemma_flow_count_snoc::<A>(flow, p, k);
        lemma_flow_count_prefix_le::<A>(flow, p + 1, k);
    }
}

/// How many messages addressed to `k` the coordinator has taken up so
/// far: all messages of the first `p` tasks, plus the first `q` messages
/// of the task currently being processed.
spec fn sc_delivered<A: Automaton>(
    flow: Seq<A>,
    p: int,
    inner: Seq<(A::Key, A::Message)>,
    q: int,
    k: A::Key,
) -> nat {
    flow_count(flow.take(p), k) + batch_count::<A>(inner.take(q), k)
}

/// In a self-contained group, every waiting task has received exactly the
/// messages addressed to it so far, and still waits for more.
spec fn sc_seen_ok<A: Automaton>(
    seen: Seq<(A::Key, A)>,
    flow: Seq<A>,
    p: int,
    inner: Seq<(A::Key, A::Message)>,
    q: int,
) -> bool {
    forall|j: int|
        0 <= j < seen.len() ==> {
            let k = (#[trigger] seen[j]).0;
            &&& seen[j].1.pending() + sc_delivered(flow, p, inner, q, k) == flow_count(flow, k)
            &&& seen[j].1.pending() > 0
        }
}

/// In a self-contained group, a task is finished only if it was
/// independent or all messages addressed to it have been taken up.
spec fn sc_pushed_ok<A: Automaton, S: Sink<A>>(
    sink: S,
    from: int,
    flow: Seq<A>,
    p: int,
    inner: Seq<(A::Key, A::Message)>,
    q: int,
) -> bool {
    forall|i: int|
        0 <= i < p && i < flow.len() && delta_has_key(sink.pushed(), from,
            (#[trigger] flow[i]).spec_key()) ==> flow[i].spec_independent() || sc_delivered(
            flow, p, inner, q, flow[i].spec_key()) == flow_count(flow, flow[i].spec_key())
}

/// In a self-contained group, the undelivered box holds, for each task not
/// yet entered, exactly the messages taken up for it so far — and nothing
/// else.
spec fn sc_box_ok<A: Automaton>(
    undelivered: Seq<(A::Key, Vec<A::Message>)>,
    flow: Seq<A>,
    p: int,
    inner: Seq<(A::Key, A::Message)>,
    q: int,
) -> bool {
    &&& forall|j: int|
        0 <= j < undelivered.len() ==> {
            let k = (#[trigger] undelivered[j]).0;
            &&& exists|i: int| p <= i < flow.len() && (#[trigger] flow[i]).spec_key() == k
            &&& undelivered[j].1@.len() == sc_delivered(flow, p, inner, q, k)
        }
    &&& forall|i: int|
        p <= i < flow.len() && !table_has_key(undelivered, (#[trigger] flow[i]).spec_key())
            ==> sc_delivered(flow, p, inner, q, flow[i].spec_key()) == 0
    &&& table_distinct(undelivered)
}

/// Drives a group of tasks through one coordination stage.
///
/// Every message a task produces is routed: to its co-located recipient if
/// `work` maps the destination key to this peer's rank — immediately when
/// the recipient has been seen, or via the `undelivered` box otherwise —
/// and through the communicator as an encoded record if it does not.
/// Tasks that have absorbed all their messages, and independent tasks, go
/// to the sink. After the intake phase the coordinator drains the
/// communicator until no local task is waiting, then advances the time
/// stamp.
///
/// On success every task of the flow was handed to the sink exactly once,
/// ready to be evaluated. The stage reports an error instead of completing
/// when a delivered message names a key no task of the flow claims
/// (`Undelivered`, `UnknownRecipient`), or when tasks still wait for
/// messages that the communicator cannot supply (`Stalled`).
#[verifier::rlimit(100)]
#[verifier::spinoff_prover]
pub fn coordinate<A, K, Comm, Code, W, S>(
    flow: Vec<A>,
    comm: &mut Comm,
    code: &Code,
    work: &W,
    sink: &mut S,
) -> (r: Result<(), CoordinationError>) where
    A: Automaton<Key = K>,
    Comm: Communicator,
    Code: Coder<Type = (K, A::Message)>,
    W: Work<K>,
    S: Sink<A>,

    requires
        distinct_keys(flow@),
        routable::<A, W>(flow@, *work, old(comm).spec_rank(), old(comm).spec_size(),
            old(comm).sends_allowed(), code.codes()),
        !code.codes() ==> !old(comm).recv_allowed(),
        old(comm).spec_stamp() < usize::MAX,
    ensures
        final(comm).spec_rank() == old(comm).spec_rank(),
        final(comm).spec_size() == old(comm).spec_size(),
        final(comm).spec_sent() == old(comm).spec_sent() + offloaded::<A, W, Code>(flow@,
            *work, *code, old(comm).spec_rank(), old(comm).spec_stamp()),
        r == Ok::<(), CoordinationError>(()) ==> final(comm).spec_stamp() == old(
            comm).spec_stamp() + 1,
        r != Ok::<(), CoordinationError>(()) ==> final(comm).spec_stamp() == old(
            comm).spec_stamp(),
        final(sink).pushed().len() >= old(sink).pushed().len(),
        final(sink).pushed().take(old(sink).pushed().len() as int) == old(sink).pushed(),
        forall|t: int|
            old(sink).pushed().len() <= t < final(sink).pushed().len() ==> settled(
                #[trigger] final(sink).pushed()[t]) && tasks_have_key(flow@,
                final(sink).pushed()[t].spec_key()),
        forall|t1: int, t2: int|
            old(sink).pushed().len() <= t1 < t2 < final(sink).pushed().len() ==> final(
                sink).pushed()[t1].spec_key() != final(sink).pushed()[t2].spec_key(),
        r == Ok::<(), CoordinationError>(()) ==> {
            &&& final(sink).pushed().len() == old(sink).pushed().len() + flow@.len()
            &&& forall|i: int|
                0 <= i < flow@.len() ==> delta_has_key(final(sink).pushed(),
                    old(sink).pushed().len() as int, (#[trigger] flow@[i]).spec_key())
        },
        self_contained::<A, W>(flow@, *work, old(comm).spec_rank()) ==> r == Ok::<(),
            CoordinationError>(()),
{
    let ghost flow0 = flow@;
    let ghost rank0 = comm.spec_rank();
    let ghost size0 = comm.spec_size();
    let ghost stamp0 = comm.spec_stamp();
    let ghost sends0 = comm.sends_allowed();
    let ghost recv0 = comm.recv_allowed();
    let ghost sent0 = comm.spec_sent();
    let ghost from = sink.pushed().len() as int;

    let self_rank = comm.rank();
    let mut remaining = flow;
    let mut seen: Vec<(K, A)> = Vec::new();
    let mut undelivered: Vec<(K, Vec<A::Message>)> = Vec::new();
    let ghost mut p: int = 0;
    let ghost sc = self_contained::<A, W>(flow0, *work, rank0);
    let ghost no_msgs: Seq<(K, A::Message)> = Seq::empty();

    proof {
        assert(flow0.skip(0) =~= flow0);
        assert(flow0.take(0) =~= Seq::<A>::empty());
        assert forall|k: K| sc_delivered(flow0, 0, no_msgs, 0, k) == 0 by {
            assert(no_msgs.take(0) =~= Seq::<(K, A::Message)>::empty());
            assert(batch_count::<A>(Seq::<(K, A::Message)>::empty(), k) == 0);
            assert(flow0.take(0) =~= Seq::<A>::empty());
            assert(flow_count(Seq::<A>::empty(), k) == 0);
        }
    }

    while remaining.len() > 0
        invariant
            rank0 == old(comm).spec_rank(),
            size0 == old(comm).spec_size(),
            stamp0 == old(comm).spec_stamp(),
            sends0 == old(comm).sends_allowed(),
            recv0 == old(comm).recv_allowed(),
            sent0 == old(comm).spec_sent(),
            from == old(sink).pushed().len(),
            flow0 == flow@,
            comm.spec_rank() == rank0,
            comm.spec_size() == size0,
            comm.spec_stamp() == stamp0,
            comm.sends_allowed() == sends0,
            comm.recv_allowed() == recv0,
            self_rank == rank0,
            stamp0 < usize::MAX,
            0 <= p <= flow0.len(),
            remaining@ == flow0.skip(p),
            distinct_keys(flow0),
            routable::<A, W>(flow0, *work, rank0, size0, sends0, code.codes()),
            !code.codes() ==> !recv0,
            comm.spec_sent() == sent0 + offloaded::<A, W, Code>(flow0.take(p), *work, *code,
                rank0, stamp0),
            sink.pushed().take(from) == old(sink).pushed(),
            sink_ok(*sink, from, flow0, p),
            seen_ok(seen@, flow0, p),
            partition_ok(*sink, from, seen@, flow0, p),
            sc == self_contained::<A, W>(flow0, *work, rank0),
            no_msgs == Seq::<(K, A::Message)>::empty(),
            sc ==> sc_seen_ok::<A>(seen@, flow0, p, no_msgs, 0),
            sc ==> sc_pushed_ok::<A, S>(*sink, from, flow0, p, no_msgs, 0),
            sc ==> sc_box_ok::<A>(undelivered@, flow0, p, no_msgs, 0),
        decreases remaining@.len(),
    {
        let mut a = remaining.remove(0);
        proof {
            assert(flow0.skip(p)[0] == flow0[p]);
            assert(remaining@ =~= flow0.skip(p + 1));
        }
        let ghost task = flow0[p];
        let ghost msgs0 = task.spec_messages();
        let mut msgs = a.messages();
        let ghost mut q: int = 0;
        proof {
            assert(batch_routable::<A, W>(msgs0, *work, rank0, size0, sends0, code.codes()));
            assert(msgs0.skip(0) =~= msgs0);
            assert(msgs0.take(0) =~= Seq::<(K, A::Message)>::empty());
            assert(comm.spec_sent() + batch_offloaded::<A, W, Code>(msgs0.take(0), *work,
                *code, rank0, stamp0) =~= comm.spec_sent());
            assert forall|k: K| sc_delivered(flow0, p, msgs0, 0, k) == sc_delivered(flow0, p,
                no_msgs, 0, k) by {
                assert(msgs0.take(0) =~= Seq::<(K, A::Message)>::empty());
                assert(no_msgs.take(0) =~= Seq::<(K, A::Message)>::empty());
                assert(batch_count::<A>(Seq::<(K, A::Message)>::empty(), k) == 0);
            }
        }

        while msgs.len() > 0
            invariant
                rank0 == old(comm).spec_rank(),
                stamp0 == old(comm).spec_stamp(),
                sent0 == old(comm).spec_sent(),
                from == old(sink).pushed().len(),
                comm.spec_rank() == rank0,
                comm.spec_size() == size0,
                comm.spec_stamp() == stamp0,
                comm.sends_allowed() == sends0,
                comm.recv_allowed() == recv0,
                self_rank == rank0,
                0 <= p < flow0.len(),
                distinct_keys(flow0),
                0 <= q <= msgs0.len(),
                msgs@ == msgs0.skip(q),
                batch_routable::<A, W>(msgs0, *work, rank0, size0, sends0, code.codes()),
                comm.spec_sent() == sent0 + offloaded::<A, W, Code>(flow0.take(p), *work,
                    *code, rank0, stamp0) + batch_offloaded::<A, W, Code>(msgs0.take(q),
                    *work, *code, rank0, stamp0),
                sink.pushed().take(from) == old(sink).pushed(),
                sink_ok(*sink, from, flow0, p),
                seen_ok(seen@, flow0, p),
                partition_ok(*sink, from, seen@, flow0, p),
                sc == self_contained::<A, W>(flow0, *work, rank0),
                msgs0 == flow0[p as int].spec_messages(),
                sc ==> sc_seen_ok::<A>(seen@, flow0, p, msgs0, q),
                sc ==> sc_pushed_ok::<A, S>(*sink, from, flow0, p, msgs0, q),
                sc ==> sc_box_ok::<A>(undelivered@, flow0, p, msgs0, q),
            decreases msgs@.len(),
        {
            let (dest, data) = msgs.remove(0);
            proof {
                assert(msgs0.skip(q)[0] == msgs0[q]);
                assert(msgs@ =~= msgs0.skip(q + 1));
                assert(dest == msgs0[q].0 && data == msgs0[q].1);
                lemma_take_snoc(msgs0, q);
                lemma_batch_offloaded_split::<A, W, Code>(msgs0.take(q + 1), q, *work, *code,
                    rank0, stamp0);
                assert(msgs0.take(q + 1).take(q) =~= msgs0.take(q));
                assert(msgs0.take(q + 1).skip(q) =~= seq![msgs0[q]]);
                assert(seq![msgs0[q]].drop_first() =~= Seq::<(K, A::Message)>::empty());
            }
            let dest_rank = work.rank_of(&dest);
            if dest_rank == self_rank {
                proof {
                    lemma_batch_offloaded_singleton::<A, W, Code>(msgs0[q], *work, *code,
                        rank0, stamp0);
                    assert(batch_offloaded::<A, W, Code>(msgs0.take(q + 1), *work, *code,
                        rank0, stamp0) =~= batch_offloaded::<A, W, Code>(msgs0.take(q), *work,
                        *code, rank0, stamp0));
                }
                match tbl_position::<A, A>(&seen, &dest) {
                    Some(i) => {
                        let ghost seen_before = seen@;
                        let ghost sink_before = *sink;
                        let (k_dest, mut target) = seen.remove(i);
                        let st = target.receive(data);
                        if st.is_eligible() {
                            sink.push(target);
                            proof {
                                assert(sink.pushed() == sink_before.pushed().push(target));
                                assert(sink.pushed().take(from) =~= sink_before.pushed().take(
                                    from));
                                assert(seen@ == seen_before.remove(i as int));
                                assert(settled(target));
                                assert(prefix_has_key(flow0, p, k_dest));
                                assert forall|k: A::Key| table_has_key(seen@, k) implies
                                    table_has_key(seen_before, k) && k != k_dest by {
                                    let j = choose|j: int| 0 <= j < seen@.len() && seen@[j].0
                                        == k;
                                    if j < i {
                                        assert(seen_before[j].0 == k);
                                    } else {
                                        assert(seen_before[j + 1].0 == k);
                                    }
                                }
                                assert forall|k: A::Key| table_has_key(seen_before, k) && k
                                    != k_dest implies table_has_key(seen@, k) by {
                                    let j = choose|j: int| 0 <= j < seen_before.len()
                                        && seen_before[j].0 == k;
                                    if j < i {
                                        assert(seen@[j].0 == k);
                                    } else {
                                        assert(j > i);
                                        assert(seen@[j - 1].0 == k);
                                    }
                                }
                                assert forall|k: A::Key| delta_has_key(sink.pushed(), from, k)
                                    implies delta_has_key(sink_before.pushed(), from, k) || k
                                    == k_dest by {
                                    let t = choose|t: int| from <= t < sink.pushed().len()
                                        && sink.pushed()[t].spec_key() == k;
                                    if t < sink_before.pushed().len() {
                                        assert(sink_before.pushed()[t].spec_key() == k);
                                    }
                                }
                                assert(target.spec_key() == k_dest);
                                assert(delta_has_key(sink.pushed(), from, k_dest)) by {
                                    assert(sink.pushed()[sink.pushed().len() - 1]
                                        == target);
                                }
                                assert forall|k: A::Key| delta_has_key(
                                    sink_before.pushed(), from, k) implies delta_has_key(
                                    sink.pushed(), from, k) by {
                                    let t = choose|t: int| from <= t
                                        < sink_before.pushed().len()
                                        && sink_before.pushed()[t].spec_key() == k;
                                    assert(sink.pushed()[t].spec_key() == k);
                                }
                                assert(table_has_key(seen_before, k_dest)) by {
                                    assert(seen_before[i as int].0 == k_dest);
                                }
                                assert forall|i2: int| 0 <= i2 < p && i2 < flow0.len()
                                    implies (table_has_key(seen@,
                                    (#[trigger] flow0[i2]).spec_key()) != delta_has_key(
                                    sink.pushed(), from, flow0[i2].spec_key())) by {
                                    let k = flow0[i2].spec_key();
                                    assert(table_has_key(seen_before, k) != delta_has_key(
                                        sink_before.pushed(), from, k));
                                    if k == k_dest {
                                        assert(!table_has_key(seen@, k));
                                        assert(delta_has_key(sink.pushed(), from, k));
                                    } else {
                                        assert(table_has_key(seen@, k) == table_has_key(
                                            seen_before, k));
                                        assert(delta_has_key(sink.pushed(), from, k)
                                            == delta_has_key(sink_before.pushed(), from,
                                            k));
                                    }
                                }
                                assert(partition_ok(*sink, from, seen@, flow0, p));
                                if sc {
                                    lemma_batch_count_snoc::<A>(msgs0, q, dest);
                                    assert forall|k: K| k != dest implies sc_delivered(flow0,
                                        p, msgs0, q + 1, k) == sc_delivered(flow0, p, msgs0,
                                        q, k) by {
                                        lemma_batch_count_snoc::<A>(msgs0, q, k);
                                    }
                                    assert(sc_delivered(flow0, p, msgs0, q + 1, dest)
                                        == sc_delivered(flow0, p, msgs0, q, dest) + 1);
                                    assert(seen_before[i as int].1.pending()
                                        + sc_delivered(flow0, p, msgs0, q, dest)
                                        == flow_count(flow0, dest));
                                    assert(sc_seen_ok::<A>(seen@, flow0, p, msgs0, q + 1)) by {
                                        assert forall|j: int| 0 <= j < seen@.len() implies {
                                            let k = (#[trigger] seen@[j]).0;
                                            seen@[j].1.pending() + sc_delivered(flow0, p,
                                                msgs0, q + 1, k) == flow_count(flow0, k)
                                                && seen@[j].1.pending() > 0
                                        } by {
                                            if j < i {
                                                assert(seen@[j] == seen_before[j]);
                                                assert(seen_before[j].0 != k_dest);
                                            } else {
                                                assert(seen@[j] == seen_before[j + 1]);
                                                assert(seen_before[j + 1].0 != k_dest);
                                            }
                                        }
                                    }
                                    assert(sc_pushed_ok::<A, S>(*sink, from, flow0, p, msgs0,
                                        q + 1)) by {
                                        assert forall|i2: int| 0 <= i2 < p && i2 < flow0.len()
                                            && delta_has_key(sink.pushed(), from,
                                            (#[trigger] flow0[i2]).spec_key()) implies
                                            flow0[i2].spec_independent() || sc_delivered(
                                            flow0, p, msgs0, q + 1, flow0[i2].spec_key())
                                            == flow_count(flow0, flow0[i2].spec_key()) by {
                                            let k = flow0[i2].spec_key();
                                            if k == k_dest {
                                                assert(sc_delivered(flow0, p, msgs0, q + 1, k)
                                                    == flow_count(flow0, k));
                                            } else {
                                                assert(delta_has_key(sink_before.pushed(),
                                                    from, k));
                                            }
                                        }
                                    }
                                    assert(sc_box_ok::<A>(undelivered@, flow0, p, msgs0,
                                        q + 1)) by {
                                        assert forall|j: int| 0 <= j < undelivered@.len()
                                            implies (#[trigger] undelivered@[j]).0 != dest by {
                                            let k = undelivered@[j].0;
                                            let ib = choose|ib: int| p <= ib < flow0.len()
                                                && flow0[ib].spec_key() == k;
                                            let idp = choose|idp: int| 0 <= idp < p
                                                && idp < flow0.len() && flow0[idp].spec_key()
                                                == k_dest;
                                            assert(prefix_has_key(flow0, p, k_dest));
                                        }
                                        assert forall|i2: int| p <= i2 < flow0.len() implies
                                            (#[trigger] flow0[i2]).spec_key() != dest by {
                                            let idp = choose|idp: int| 0 <= idp < p
                                                && idp < flow0.len() && flow0[idp].spec_key()
                                                == k_dest;
                                            assert(prefix_has_key(flow0, p, k_dest));
                                        }
                                    }
                                }
                            }
                        } else {
                            seen.push((k_dest, target));
                            proof {
                                assert(seen@ == seen_before.remove(i as int).push(
                                    (k_dest, target)));
                                assert(target.spec_key() == k_dest);
                                assert forall|k: A::Key| table_has_key(seen@, k) implies
                                    table_has_key(seen_before, k) by {
                                    let j = choose|j: int| 0 <= j < seen@.len() && seen@[j].0
                                        == k;
                                    if j == seen@.len() - 1 {
                                        assert(seen_before[i as int].0 == k);
                                    } else if j < i {
                                        assert(seen_before[j].0 == k);
                                    } else {
                                        assert(seen_before[j + 1].0 == k);
                                    }
                                }
                                assert forall|k: A::Key| table_has_key(seen_before, k)
                                    implies table_has_key(seen@, k) by {
                                    let j = choose|j: int| 0 <= j < seen_before.len()
                                        && seen_before[j].0 == k;
                                    if j == i {
                                        assert(seen@[seen@.len() - 1].0 == k);
                                    } else if j < i {
                                        assert(seen@[j].0 == k);
                                    } else {
                                        assert(seen@[j - 1].0 == k);
                                    }
                                }
                                assert(seen_ok(seen@, flow0, p)) by {
                                    assert forall|j1: int, j2: int| 0 <= j1 < j2 < seen@.len()
                                        implies seen@[j1].0 != seen@[j2].0 by {
                                        if j2 == seen@.len() - 1 {
                                            if j1 < i {
                                                assert(seen_before[j1].0 != seen_before[
                                                    i as int].0);
                                            } else {
                                                assert(seen_before[j1 + 1].0 != seen_before[
                                                    i as int].0);
                                            }
                                        }
                                    }
                                }
                                assert(partition_ok(*sink, from, seen@, flow0, p));
                                if sc {
                                    lemma_batch_count_snoc::<A>(msgs0, q, dest);
                                    assert forall|k: K| k != dest implies sc_delivered(flow0,
                                        p, msgs0, q + 1, k) == sc_delivered(flow0, p, msgs0,
                                        q, k) by {
                                        lemma_batch_count_snoc::<A>(msgs0, q, k);
                                    }
                                    assert(seen_before[i as int].1.pending()
                                        + sc_delivered(flow0, p, msgs0, q, dest)
                                        == flow_count(flow0, dest));
                                    assert(sc_seen_ok::<A>(seen@, flow0, p, msgs0, q + 1)) by {
                                        assert forall|j: int| 0 <= j < seen@.len() implies {
                                            let k = (#[trigger] seen@[j]).0;
                                            seen@[j].1.pending() + sc_delivered(flow0, p,
                                                msgs0, q + 1, k) == flow_count(flow0, k)
                                                && seen@[j].1.pending() > 0
                                        } by {
                                            let mid = seen_before.remove(i as int);
                                            if j == seen@.len() - 1 {
                                                assert(seen@[j] == (k_dest, target));
                                            } else if j < i {
                                                assert(seen@[j] == seen_before[j]);
                                                assert(seen_before[j].0 != k_dest);
                                            } else {
                                                assert(seen@[j] == seen_before[j + 1]);
                                                assert(seen_before[j + 1].0 != k_dest);
                                            }
                                        }
                                    }
                                    assert(sc_pushed_ok::<A, S>(*sink, from, flow0, p, msgs0,
                                        q + 1)) by {
                                        assert forall|i2: int| 0 <= i2 < p && i2 < flow0.len()
                                            && delta_has_key(sink.pushed(), from,
                                            (#[trigger] flow0[i2]).spec_key()) implies
                                            flow0[i2].spec_independent() || sc_delivered(
                                            flow0, p, msgs0, q + 1, flow0[i2].spec_key())
                                            == flow_count(flow0, flow0[i2].spec_key()) by {
                                            let k = flow0[i2].spec_key();
                                            assert(table_has_key(seen@, k)
                                                != delta_has_key(sink.pushed(), from, k));
                                            if k == dest {
                                                assert(table_has_key(seen@, dest)) by {
                                                    assert(seen@[seen@.len() - 1].0 == dest);
                                                }
                                            }
                                        }
                                    }
                                    assert(sc_box_ok::<A>(undelivered@, flow0, p, msgs0,
                                        q + 1)) by {
                                        assert forall|i2: int| p <= i2 < flow0.len() implies
                                            (#[trigger] flow0[i2]).spec_key() != dest by {
                                            let idp = choose|idp: int| 0 <= idp < p
                                                && idp < flow0.len() && flow0[idp].spec_key()
                                                == k_dest;
                                            assert(prefix_has_key(flow0, p, k_dest));
                                        }
                                        assert forall|j: int| 0 <= j < undelivered@.len()
                                            implies (#[trigger] undelivered@[j]).0 != dest by {
                                            let k = undelivered@[j].0;
                                            let ib = choose|ib: int| p <= ib < flow0.len()
                                                && flow0[ib].spec_key() == k;
                                        }
                                    }
                                }
                            }
                        }
                    }
                    None => {
                        let ghost undel_before = undelivered@;
                        proof {
                            if sc {
                                assert(flow0[p as int].spec_messages()[q] == msgs0[q]);
                                assert(tasks_have_key(flow0, dest));
                                lemma_batch_count_snoc::<A>(msgs0, q, dest);
                                assert forall|k: K| k != dest implies sc_delivered(flow0, p,
                                    msgs0, q + 1, k) == sc_delivered(flow0, p, msgs0, q, k)
                                    by {
                                    lemma_batch_count_snoc::<A>(msgs0, q, k);
                                }
                                lemma_batch_count_prefix_le::<A>(msgs0, q + 1, dest);
                                lemma_flow_count_snoc::<A>(flow0, p, dest);
                                lemma_flow_count_prefix_le::<A>(flow0, p + 1, dest);
                                assert(msgs0.take(msgs0.len() as int) =~= msgs0);
                                assert(sc_delivered(flow0, p, msgs0, q + 1, dest)
                                    <= flow_count(flow0, dest));
                                let id = choose|id: int| 0 <= id < flow0.len()
                                    && flow0[id].spec_key() == dest;
                                if id < p {
                                    assert(!table_has_key(seen@, dest));
                                    assert(table_has_key(seen@, dest) != delta_has_key(
                                        sink.pushed(), from, dest));
                                    assert(delta_has_key(sink.pushed(), from, dest));
                                    if flow0[id].spec_independent() {
                                        assert(flow_count(flow0, dest) == 0);
                                        assert(false);
                                    } else {
                                        assert(sc_delivered(flow0, p, msgs0, q, dest)
                                            == flow_count(flow0, dest));
                                        assert(false);
                                    }
                                }
                                assert(p <= id < flow0.len());
                                assert(!prefix_has_key(flow0, p, dest)) by {
                                    if prefix_has_key(flow0, p, dest) {
                                        let i3 = choose|i3: int| 0 <= i3 < p
                                            && i3 < flow0.len() && flow0[i3].spec_key()
                                            == dest;
                                        assert(flow0[i3].spec_key()
                                            != flow0[id].spec_key());
                                    }
                                }
                                assert(exists|iw: int| p <= iw < flow0.len()
                                    && (#[trigger] flow0[iw]).spec_key() == dest);
                            }
                        }
                        match tbl_position::<A, Vec<A::Message>>(&undelivered, &dest) {
                            Some(i) => {
                                let (k_box, mut box_msgs) = undelivered.remove(i);
                                box_msgs.push(data);
                                undelivered.push((k_box, box_msgs));
                                proof {
                                    if sc {
                                        let u = undelivered@;
                                        assert(u == undel_before.remove(i as int).push(
                                            (k_box, box_msgs)));
                                        assert(k_box == dest);
                                        assert forall|j: int| 0 <= j < u.len() implies {
                                            let k = (#[trigger] u[j]).0;
                                            (exists|i2: int| p <= i2 < flow0.len()
                                                && (#[trigger] flow0[i2]).spec_key() == k)
                                                && u[j].1@.len() == sc_delivered(flow0, p,
                                                msgs0, q + 1, k)
                                        } by {
                                            if j == u.len() - 1 {
                                                assert(u[j] == (k_box, box_msgs));
                                                assert(undel_before[i as int].1@.len()
                                                    == sc_delivered(flow0, p, msgs0, q,
                                                    dest));
                                            } else if j < i {
                                                assert(u[j] == undel_before[j]);
                                                assert(undel_before[j].0
                                                    != undel_before[i as int].0);
                                            } else {
                                                assert(u[j] == undel_before[j + 1]);
                                                assert(undel_before[j + 1].0
                                                    != undel_before[i as int].0);
                                            }
                                        }
                                        assert forall|i2: int| p <= i2 < flow0.len()
                                            && !table_has_key(u,
                                            (#[trigger] flow0[i2]).spec_key()) implies
                                            sc_delivered(flow0, p, msgs0, q + 1,
                                            flow0[i2].spec_key()) == 0 by {
                                            let k = flow0[i2].spec_key();
                                            assert(k != dest) by {
                                                if k == dest {
                                                    assert(u[u.len() - 1].0 == dest);
                                                }
                                            }
                                            assert(!table_has_key(undel_before, k)) by {
                                                if table_has_key(undel_before, k) {
                                                    let j = choose|j: int| 0 <= j
                                                        < undel_before.len()
                                                        && undel_before[j].0 == k;
                                                    if j < i {
                                                        assert(u[j].0 == k);
                                                    } else if j == i {
                                                        assert(k == dest);
                                                    } else {
                                                        assert(u[j - 1].0 == k);
                                                    }
                                                }
                                            }
                                        }
                                        assert(table_distinct(u)) by {
                                            assert forall|j1: int, j2: int| 0 <= j1 < j2
                                                < u.len() implies u[j1].0 != u[j2].0 by {
                                                if j2 == u.len() - 1 {
                                                    if j1 < i {
                                                        assert(u[j1] == undel_before[j1]);
                                                    } else {
                                                        assert(u[j1] == undel_before[j1 + 1]);
                                                    }
                                                }
                                            }
                                        }
                                        assert(sc_box_ok::<A>(undelivered@, flow0, p, msgs0,
                                            q + 1));
                                    }
                                }
                            }
                            None => {
                                let mut box_msgs: Vec<A::Message> = Vec::new();
                                box_msgs.push(data);
                                undelivered.push((dest, box_msgs));
                                proof {
                                    if sc {
                                        let u = undelivered@;
                                        assert(u == undel_before.push((dest, box_msgs)));
                                        let iw = choose|iw: int| p <= iw < flow0.len()
                                            && (#[trigger] flow0[iw]).spec_key() == dest;
                                        assert(!table_has_key(undel_before, dest));
                                        assert(sc_delivered(flow0, p, msgs0, q, dest) == 0);
                                        assert forall|j: int| 0 <= j < u.len() implies {
                                            let k = (#[trigger] u[j]).0;
                                            (exists|i2: int| p <= i2 < flow0.len()
                                                && (#[trigger] flow0[i2]).spec_key() == k)
                                                && u[j].1@.len() == sc_delivered(flow0, p,
                                                msgs0, q + 1, k)
                                        } by {
                                            if j < undel_before.len() {
                                                assert(u[j] == undel_before[j]);
                                                assert(undel_before[j].0 != dest);
                                            } else {
                                                assert(u[j] == (dest, box_msgs));
                                                assert(box_msgs@.len() == 1);
                                            }
                                        }
                                        assert forall|i2: int| p <= i2 < flow0.len()
                                            && !table_has_key(u,
                                            (#[trigger] flow0[i2]).spec_key()) implies
                                            sc_delivered(flow0, p, msgs0, q + 1,
                                            flow0[i2].spec_key()) == 0 by {
                                            let k = flow0[i2].spec_key();
                                            assert(k != dest) by {
                                                if k == dest {
                                                    assert(u[u.len() - 1].0 == dest);
                                                }
                                            }
                                            assert(!table_has_key(undel_before, k)) by {
                                                if table_has_key(undel_before, k) {
                                                    let j = choose|j: int| 0 <= j
                                                        < undel_before.len()
                                                        && undel_before[j].0 == k;
                                                    assert(u[j].0 == k);
                                                }
                                            }
                                        }
                                        assert(table_distinct(u)) by {
                                            assert forall|j1: int, j2: int| 0 <= j1 < j2
                                                < u.len() implies u[j1].0 != u[j2].0 by {
                                                if j2 == u.len() - 1 {
                                                    assert(u[j1] == undel_before[j1]);
                                                }
                                            }
                                        }
                                        assert(sc_box_ok::<A>(undelivered@, flow0, p, msgs0,
                                            q + 1));
                                    }
                                }
                            }
                        }
                        proof {
                            if sc {
                                assert(sc_seen_ok::<A>(seen@, flow0, p, msgs0, q + 1)) by {
                                    assert forall|j: int| 0 <= j < seen@.len() implies {
                                        let k = (#[trigger] seen@[j]).0;
                                        seen@[j].1.pending() + sc_delivered(flow0, p, msgs0,
                                            q + 1, k) == flow_count(flow0, k)
                                            && seen@[j].1.pending() > 0
                                    } by {
                                        assert(seen@[j].0 != dest);
                                    }
                                }
                                assert(sc_pushed_ok::<A, S>(*sink, from, flow0, p, msgs0,
                                    q + 1)) by {
                                    assert forall|i2: int| 0 <= i2 < p && i2 < flow0.len()
                                        && delta_has_key(sink.pushed(), from,
                                        (#[trigger] flow0[i2]).spec_key()) implies
                                        flow0[i2].spec_independent() || sc_delivered(flow0,
                                        p, msgs0, q + 1, flow0[i2].spec_key()) == flow_count(
                                        flow0, flow0[i2].spec_key()) by {
                                        assert(flow0[i2].spec_key() != dest);
                                    }
                                }
                            }
                        }
                    }
                }
            } else {
                proof {
                    if sc {
                        assert(flow0[p as int].spec_messages()[q] == msgs0[q]);
                        assert(work.spec_rank_of(dest) == rank0);
                        assert(false);
                    }
                }
                let bytes = code.encode((dest, data));
                comm.send(dest_rank, bytes);
                proof {
                    lemma_batch_offloaded_singleton::<A, W, Code>(msgs0[q], *work, *code,
                        rank0, stamp0);
                    assert(comm.spec_sent() =~= sent0 + offloaded::<A, W, Code>(flow0.take(p),
                        *work, *code, rank0, stamp0) + batch_offloaded::<A, W, Code>(
                        msgs0.take(q + 1), *work, *code, rank0, stamp0));
                }
            }
            proof {
                q = q + 1;
            }
        }

        proof {
            assert(msgs0.take(q) =~= msgs0);
            lemma_take_snoc(flow0, p);
            lemma_offloaded_split::<A, W, Code>(flow0.take(p + 1), p, *work, *code, rank0,
                stamp0);
            assert(flow0.take(p + 1).take(p) =~= flow0.take(p));
            assert(flow0.take(p + 1).skip(p) =~= seq![flow0[p]]);
            lemma_offloaded_singleton::<A, W, Code>(flow0[p], *work, *code, rank0, stamp0);
            assert(comm.spec_sent() =~= sent0 + offloaded::<A, W, Code>(flow0.take(p + 1),
                *work, *code, rank0, stamp0));
            if sc {
                assert forall|k: K| sc_delivered(flow0, p, msgs0, q, k) == sc_delivered(
                    flow0, p + 1, no_msgs, 0, k) && sc_delivered(flow0, p + 1, no_msgs, 0, k)
                    == flow_count(flow0.take(p + 1), k) by {
                    assert(msgs0.take(q) =~= msgs0);
                    lemma_flow_count_snoc::<A>(flow0, p, k);
                    assert(no_msgs.take(0) =~= Seq::<(K, A::Message)>::empty());
                    assert(batch_count::<A>(Seq::<(K, A::Message)>::empty(), k) == 0);
                }
                assert forall|k: K| sc_delivered(flow0, p + 1, no_msgs, 0, k) <= flow_count(
                    flow0, k) by {
                    lemma_flow_count_prefix_le::<A>(flow0, p + 1, k);
                }
            }
        }

        // Deliver any messages addressed to the entering task that arrived
        // before it entered the stage.
        let key_a = a.key();
        let ghost key_p = flow0[p as int].spec_key();
        let ghost total_p = flow_count(flow0, key_p);
        let ghost undel_entry = undelivered@;
        let mut eligible = false;
        match tbl_position::<A, Vec<A::Message>>(&undelivered, &key_a) {
            Some(i) => {
                let (k_box, mut box_msgs) = undelivered.remove(i);
                let ghost b0 = box_msgs@.len() as int;
                proof {
                    if sc {
                        assert(b0 == sc_delivered(flow0, p + 1, no_msgs, 0, key_p));
                        assert(b0 <= total_p);
                        if flow0[p as int].spec_independent() {
                            assert(total_p == 0);
                        } else {
                            assert(a.pending() == total_p);
                        }
                    }
                }
                while box_msgs.len() > 0 && !eligible
                    invariant
                        a.spec_key() == flow0[p as int].spec_key(),
                        a.spec_independent() == flow0[p as int].spec_independent(),
                        0 <= p < flow0.len(),
                        key_p == flow0[p as int].spec_key(),
                        total_p == flow_count(flow0, key_p),
                        eligible ==> a.pending() == 0,
                        sc ==> box_msgs@.len() <= b0,
                        sc ==> b0 <= total_p,
                        sc && flow0[p as int].spec_independent() ==> box_msgs@.len() == 0
                            && b0 == 0,
                        sc && !flow0[p as int].spec_independent() ==> a.pending() + (b0
                            - box_msgs@.len()) == total_p,
                        sc && !flow0[p as int].spec_independent() ==> (eligible <==>
                            a.pending() == 0),
                        sc && eligible ==> box_msgs@.len() == 0,
                    decreases box_msgs@.len(),
                {
                    let m = box_msgs.remove(0);
                    let st = a.receive(m);
                    if st.is_eligible() {
                        eligible = true;
                    }
                }
                proof {
                    if sc {
                        assert(box_msgs@.len() == 0);
                        if !flow0[p as int].spec_independent() {
                            assert(a.pending() + b0 == total_p);
                        }
                        // The box entry for the entering task is gone; the rest is
                        // the state of the tasks still to enter.
                        assert(sc_box_ok::<A>(undelivered@, flow0, p + 1, no_msgs, 0)) by {
                            let u = undelivered@;
                            assert(u == undel_entry.remove(i as int));
                            assert forall|j: int| 0 <= j < u.len() implies {
                                let k = (#[trigger] u[j]).0;
                                (exists|i2: int| p + 1 <= i2 < flow0.len()
                                    && (#[trigger] flow0[i2]).spec_key() == k)
                                    && u[j].1@.len() == sc_delivered(flow0, p + 1, no_msgs, 0,
                                    k)
                            } by {
                                if j < i {
                                    assert(u[j] == undel_entry[j]);
                                } else {
                                    assert(u[j] == undel_entry[j + 1]);
                                }
                                let k = u[j].0;
                                assert(k != key_a) by {
                                    if j < i {
                                        assert(undel_entry[j].0 != undel_entry[i as int].0);
                                    } else {
                                        assert(undel_entry[j + 1].0
                                            != undel_entry[i as int].0);
                                    }
                                }
                                let i2 = choose|i2: int| p <= i2 < flow0.len()
                                    && (#[trigger] flow0[i2]).spec_key() == k;
                                assert(i2 != p);
                            }
                            assert forall|i2: int| p + 1 <= i2 < flow0.len()
                                && !table_has_key(undelivered@,
                                (#[trigger] flow0[i2]).spec_key()) implies sc_delivered(
                                flow0, p + 1, no_msgs, 0, flow0[i2].spec_key()) == 0 by {
                                let k = flow0[i2].spec_key();
                                assert(k != key_p);
                                assert(!table_has_key(undel_entry, k)) by {
                                    if table_has_key(undel_entry, k) {
                                        let j = choose|j: int| 0 <= j < undel_entry.len()
                                            && undel_entry[j].0 == k;
                                        if j < i {
                                            assert(undelivered@[j].0 == k);
                                        } else if j == i {
                                            assert(k == key_a);
                                        } else {
                                            assert(undelivered@[j - 1].0 == k);
                                        }
                                    }
                                }
                            }
                            assert forall|j1: int, j2: int| 0 <= j1 < j2
                                < undelivered@.len() implies undelivered@[j1].0
                                != undelivered@[j2].0 by {
                                let ja = if j1 < i { j1 } else { j1 + 1 };
                                let jb = if j2 < i { j2 } else { j2 + 1 };
                                assert(undelivered@[j1] == undel_entry[ja]);
                                assert(undelivered@[j2] == undel_entry[jb]);
                            }
                        }
                    }
                }
            }
            None => {
                proof {
                    if sc {
                        assert(!table_has_key(undel_entry, key_a));
                        assert(sc_delivered(flow0, p + 1, no_msgs, 0, key_p) == 0);
                        if !flow0[p as int].spec_independent() {
                            assert(a.pending() == total_p);
                        }
                        assert(sc_box_ok::<A>(undelivered@, flow0, p + 1, no_msgs, 0)) by {
                            assert forall|j: int| 0 <= j < undelivered@.len() implies {
                                let k = (#[trigger] undelivered@[j]).0;
                                (exists|i2: int| p + 1 <= i2 < flow0.len()
                                    && (#[trigger] flow0[i2]).spec_key() == k)
                                    && undelivered@[j].1@.len() == sc_delivered(flow0,
                                    p + 1, no_msgs, 0, k)
                            } by {
                                let k = undelivered@[j].0;
                                assert(k != key_a);
                                let i2 = choose|i2: int| p <= i2 < flow0.len()
                                    && (#[trigger] flow0[i2]).spec_key() == k;
                                assert(i2 != p);
                            }
                            assert forall|i2: int| p + 1 <= i2 < flow0.len()
                                && !table_has_key(undelivered@,
                                (#[trigger] flow0[i2]).spec_key()) implies sc_delivered(
                                flow0, p + 1, no_msgs, 0, flow0[i2].spec_key()) == 0 by {
                                let k = flow0[i2].spec_key();
                                assert(k != key_p);
                            }
                        }
                    }
                }
            },
        }

        let ghost sink_before = *sink;
        let ghost seen_before = seen@;
        if eligible || a.independent() {
            sink.push(a);
            proof {
                assert(sink.pushed() == sink_before.pushed().push(a));
                assert(sink.pushed().take(from) =~= sink_before.pushed().take(from));
                assert(settled(a));
                assert forall|k: A::Key| delta_has_key(sink.pushed(), from, k) implies
                    delta_has_key(sink_before.pushed(), from, k) || k == key_a by {
                    let t = choose|t: int| from <= t < sink.pushed().len()
                        && sink.pushed()[t].spec_key() == k;
                    if t < sink_before.pushed().len() {
                        assert(sink_before.pushed()[t].spec_key() == k);
                    }
                }
                assert forall|k: A::Key| delta_has_key(sink_before.pushed(), from, k)
                    implies delta_has_key(sink.pushed(), from, k) by {
                    let t = choose|t: int| from <= t < sink_before.pushed().len()
                        && sink_before.pushed()[t].spec_key() == k;
                    assert(sink.pushed()[t].spec_key() == k);
                }
                assert(!delta_has_key(sink_before.pushed(), from, key_a)) by {
                    if delta_has_key(sink_before.pushed(), from, key_a) {
                        let t = choose|t: int| from <= t < sink_before.pushed().len()
                            && sink_before.pushed()[t].spec_key() == key_a;
                        assert(prefix_has_key(flow0, p, key_a));
                        let i = choose|i: int| 0 <= i < p && i < flow0.len()
                            && flow0[i].spec_key() == key_a;
                        assert(flow0[i].spec_key() != flow0[p as int].spec_key());
                    }
                }
                assert(!table_has_key(seen@, key_a)) by {
                    if table_has_key(seen@, key_a) {
                        let j = choose|j: int| 0 <= j < seen@.len() && seen@[j].0 == key_a;
                        assert(prefix_has_key(flow0, p, key_a));
                        let i = choose|i: int| 0 <= i < p && i < flow0.len()
                            && flow0[i].spec_key() == key_a;
                        assert(flow0[i].spec_key() != flow0[p as int].spec_key());
                    }
                }
                assert(sink_ok(*sink, from, flow0, p + 1)) by {
                    assert(prefix_has_key(flow0, p + 1, key_a));
                    assert forall|t: int| from <= t < sink.pushed().len() implies settled(
                        #[trigger] sink.pushed()[t]) && prefix_has_key(flow0, p + 1,
                        sink.pushed()[t].spec_key()) by {
                        if t < sink_before.pushed().len() {
                            assert(settled(sink_before.pushed()[t]));
                            assert(prefix_has_key(flow0, p, sink_before.pushed(
                            )[t].spec_key()));
                        }
                    }
                    assert forall|t1: int, t2: int| from <= t1 < t2 < sink.pushed().len()
                        implies sink.pushed()[t1].spec_key() != sink.pushed()[t2].spec_key()
                        by {
                        if t2 == sink.pushed().len() - 1 {
                            assert(!delta_has_key(sink_before.pushed(), from, key_a));
                            assert(sink_before.pushed()[t1].spec_key() != key_a);
                        }
                    }
                }
                assert(partition_ok(*sink, from, seen@, flow0, p + 1)) by {
                    assert(delta_has_key(sink.pushed(), from, key_a)) by {
                        assert(sink.pushed()[sink.pushed().len() - 1].spec_key() == key_a);
                    }
                    assert forall|i: int| 0 <= i < p + 1 && i < flow0.len() implies (
                        table_has_key(seen@, (#[trigger] flow0[i]).spec_key())
                        != delta_has_key(sink.pushed(), from, flow0[i].spec_key())) by {
                        if i < p {
                            let k = flow0[i].spec_key();
                            assert(k != key_a);
                            assert(table_has_key(seen@, k) != delta_has_key(
                                sink_before.pushed(), from, k));
                            assert(delta_has_key(sink.pushed(), from, k) == delta_has_key(
                                sink_before.pushed(), from, k));
                        }
                    }
                }
                assert(seen_ok(seen@, flow0, p + 1)) by {
                    assert forall|j: int| 0 <= j < seen@.len() implies prefix_has_key(flow0,
                        p + 1, (#[trigger] seen@[j]).0) by {
                        assert(prefix_has_key(flow0, p, seen@[j].0));
                    }
                }
                if sc {
                    assert(sc_seen_ok::<A>(seen@, flow0, p + 1, no_msgs, 0)) by {
                        assert forall|j: int| 0 <= j < seen@.len() implies {
                            let k = (#[trigger] seen@[j]).0;
                            seen@[j].1.pending() + sc_delivered(flow0, p + 1, no_msgs, 0, k)
                                == flow_count(flow0, k) && seen@[j].1.pending() > 0
                        } by {
                            assert(seen@[j].1.pending() + sc_delivered(flow0, p, msgs0, q,
                                seen@[j].0) == flow_count(flow0, seen@[j].0));
                        }
                    }
                    assert(sc_pushed_ok::<A, S>(*sink, from, flow0, p + 1, no_msgs, 0)) by {
                        assert forall|i2: int| 0 <= i2 < p + 1 && i2 < flow0.len()
                            && delta_has_key(sink.pushed(), from,
                            (#[trigger] flow0[i2]).spec_key()) implies
                            flow0[i2].spec_independent() || sc_delivered(flow0, p + 1, no_msgs,
                            0, flow0[i2].spec_key()) == flow_count(flow0,
                            flow0[i2].spec_key()) by {
                            let k = flow0[i2].spec_key();
                            if i2 == p {
                                if !flow0[p as int].spec_independent() {
                                    assert(a.pending() == 0);
                                    assert(sc_delivered(flow0, p + 1, no_msgs, 0, key_p)
                                        == flow_count(flow0, key_p));
                                }
                            } else {
                                assert(k != key_a);
                                assert(delta_has_key(sink_before.pushed(), from, k));
                                assert(flow0[i2].spec_independent() || sc_delivered(flow0,
                                    p, msgs0, q, k) == flow_count(flow0, k));
                            }
                        }
                    }
                }
            }
        } else {
            seen.push((key_a, a));
            proof {
                assert(seen@ == seen_before.push((key_a, a)));
                assert(a.spec_key() == key_a);
                assert(!table_has_key(seen_before, key_a)) by {
                    if table_has_key(seen_before, key_a) {
                        let j = choose|j: int| 0 <= j < seen_before.len() && seen_before[j].0
                            == key_a;
                        assert(prefix_has_key(flow0, p, key_a));
                        let i = choose|i: int| 0 <= i < p && i < flow0.len()
                            && flow0[i].spec_key() == key_a;
                        assert(flow0[i].spec_key() != flow0[p as int].spec_key());
                    }
                }
                assert(!delta_has_key(sink.pushed(), from, key_a)) by {
                    if delta_has_key(sink.pushed(), from, key_a) {
                        let t = choose|t: int| from <= t < sink.pushed().len()
                            && sink.pushed()[t].spec_key() == key_a;
                        assert(prefix_has_key(flow0, p, key_a));
                        let i = choose|i: int| 0 <= i < p && i < flow0.len()
                            && flow0[i].spec_key() == key_a;
                        assert(flow0[i].spec_key() != flow0[p as int].spec_key());
                    }
                }
                assert(seen_ok(seen@, flow0, p + 1)) by {
                    assert(prefix_has_key(flow0, p + 1, key_a));
                    assert forall|j: int| 0 <= j < seen@.len() implies prefix_has_key(flow0,
                        p + 1, (#[trigger] seen@[j]).0) && seen@[j].1.spec_key() == seen@[j].0
                        by {
                        if j < seen_before.len() {
                            assert(prefix_has_key(flow0, p, seen_before[j].0));
                        }
                    }
                    assert forall|j1: int, j2: int| 0 <= j1 < j2 < seen@.len() implies
                        seen@[j1].0 != seen@[j2].0 by {
                        if j2 == seen@.len() - 1 {
                            assert(seen_before[j1].0 != key_a);
                        }
                    }
                }
                assert(partition_ok(*sink, from, seen@, flow0, p + 1)) by {
                    assert(table_has_key(seen@, key_a)) by {
                        assert(seen@[seen@.len() - 1].0 == key_a);
                    }
                    assert forall|i: int| 0 <= i < p + 1 && i < flow0.len() implies (
                        table_has_key(seen@, (#[trigger] flow0[i]).spec_key())
                        != delta_has_key(sink.pushed(), from, flow0[i].spec_key())) by {
                        if i < p {
                            assert(flow0[i].spec_key() != key_a);
                            assert(table_has_key(seen_before, flow0[i].spec_key())
                                != delta_has_key(sink.pushed(), from, flow0[i].spec_key()));
                            if table_has_key(seen_before, flow0[i].spec_key()) {
                                let j = choose|j: int| 0 <= j < seen_before.len()
                                    && seen_before[j].0 == flow0[i].spec_key();
                                assert(seen@[j].0 == flow0[i].spec_key());
                            } else {
                                if table_has_key(seen@, flow0[i].spec_key()) {
                                    let j = choose|j: int| 0 <= j < seen@.len() && seen@[j].0
                                        == flow0[i].spec_key();
                                    assert(j == seen@.len() - 1);
                                }
                            }
                        }
                    }
                }
                assert(sink_ok(*sink, from, flow0, p + 1)) by {
                    assert forall|t: int| from <= t < sink.pushed().len() implies settled(
                        #[trigger] sink.pushed()[t]) && prefix_has_key(flow0, p + 1,
                        sink.pushed()[t].spec_key()) by {
                        assert(prefix_has_key(flow0, p, sink.pushed()[t].spec_key()));
                    }
                }
                if sc {
                    assert(!flow0[p as int].spec_independent());
                    assert(a.pending() > 0);
                    assert(sc_seen_ok::<A>(seen@, flow0, p + 1, no_msgs, 0)) by {
                        assert forall|j: int| 0 <= j < seen@.len() implies {
                            let k = (#[trigger] seen@[j]).0;
                            seen@[j].1.pending() + sc_delivered(flow0, p + 1, no_msgs, 0, k)
                                == flow_count(flow0, k) && seen@[j].1.pending() > 0
                        } by {
                            if j < seen_before.len() {
                                assert(seen@[j] == seen_before[j]);
                                assert(seen_before[j].1.pending() + sc_delivered(flow0, p,
                                    msgs0, q, seen_before[j].0) == flow_count(flow0,
                                    seen_before[j].0));
                            } else {
                                assert(seen@[j] == (key_a, a));
                                assert(a.pending() + sc_delivered(flow0, p + 1, no_msgs, 0,
                                    key_p) == total_p);
                            }
                        }
                    }
                    assert(sc_pushed_ok::<A, S>(*sink, from, flow0, p + 1, no_msgs, 0)) by {
                        assert forall|i2: int| 0 <= i2 < p + 1 && i2 < flow0.len()
                            && delta_has_key(sink.pushed(), from,
                            (#[trigger] flow0[i2]).spec_key()) implies
                            flow0[i2].spec_independent() || sc_delivered(flow0, p + 1, no_msgs,
                            0, flow0[i2].spec_key()) == flow_count(flow0,
                            flow0[i2].spec_key()) by {
                            let k = flow0[i2].spec_key();
                            if i2 == p {
                                assert(!delta_has_key(sink.pushed(), from, key_a));
                            } else {
                                assert(flow0[i2].spec_independent() || sc_delivered(flow0,
                                    p, msgs0, q, k) == flow_count(flow0, k));
                            }
                        }
                    }
                }
            }
        }
        proof {
            p = p + 1;
        }
    }

    proof {
        assert(flow0.take(p) =~= flow0);
    }

    if undelivered.len() > 0 {
        proof {
            if sc {
                let k0 = undelivered@[0].0;
                let i2 = choose|i2: int| p <= i2 < flow0.len()
                    && (#[trigger] flow0[i2]).spec_key() == k0;
                assert(false);
            }
        }
        return Err(CoordinationError::Undelivered);
    }

    proof {
        if sc && seen@.len() > 0 {
            assert(seen@[0].1.pending() + sc_delivered(flow0, p, no_msgs, 0, seen@[0].0)
                == flow_count(flow0, seen@[0].0));
            assert(sc_delivered(flow0, p, no_msgs, 0, seen@[0].0) == flow_count(flow0,
                seen@[0].0)) by {
                assert(flow0.take(p) =~= flow0);
                assert(no_msgs.take(0) =~= Seq::<(K, A::Message)>::empty());
                assert(batch_count::<A>(Seq::<(K, A::Message)>::empty(), seen@[0].0) == 0);
            }
            assert(false);
        }
    }

    // Receive messages from peers until all local tasks have been
    // evaluated.
    while seen.len() > 0
        invariant
            rank0 == old(comm).spec_rank(),
            size0 == old(comm).spec_size(),
            stamp0 == old(comm).spec_stamp(),
            sent0 == old(comm).spec_sent(),
            from == old(sink).pushed().len(),
            flow0 == flow@,
            distinct_keys(flow0),
            comm.spec_rank() == rank0,
            comm.spec_size() == size0,
            comm.spec_stamp() == stamp0,
            stamp0 < usize::MAX,
            comm.spec_sent() == sent0 + offloaded::<A, W, Code>(flow0, *work, *code, rank0,
                stamp0),
            !code.codes() ==> !comm.recv_allowed(),
            sink.pushed().take(from) == old(sink).pushed(),
            sink_ok(*sink, from, flow0, flow0.len() as int),
            seen_ok(seen@, flow0, flow0.len() as int),
            partition_ok(*sink, from, seen@, flow0, flow0.len() as int),
            sc == self_contained::<A, W>(flow0, *work, rank0),
            sc ==> seen@.len() == 0,
        decreases pending_total::<A>(seen@) + seen@.len(),
    {
        if !comm.can_recv() {
            return Err(CoordinationError::Stalled);
        }
        let bytes = comm.recv();
        let (dest, data) = code.decode(bytes);
        match tbl_position::<A, A>(&seen, &dest) {
            Some(i) => {
                let ghost seen_before = seen@;
                let ghost sink_before = *sink;
                let ghost pend_before = seen_before[i as int].1.pending();
                let (k_dest, mut target) = seen.remove(i);
                proof {
                    lemma_pending_total_remove::<A>(seen_before, i as int);
                }
                let st = target.receive(data);
                if st.is_eligible() {
                    sink.push(target);
                    proof {
                        assert(sink.pushed() == sink_before.pushed().push(target));
                        assert(sink.pushed().take(from) =~= sink_before.pushed().take(from));
                        assert(settled(target));
                        assert forall|k: A::Key| table_has_key(seen@, k) implies
                            table_has_key(seen_before, k) && k != k_dest by {
                            let j = choose|j: int| 0 <= j < seen@.len() && seen@[j].0 == k;
                            if j < i {
                                assert(seen_before[j].0 == k);
                            } else {
                                assert(seen_before[j + 1].0 == k);
                            }
                        }
                        assert forall|k: A::Key| table_has_key(seen_before, k) && k != k_dest
                            implies table_has_key(seen@, k) by {
                            let j = choose|j: int| 0 <= j < seen_before.len()
                                && seen_before[j].0 == k;
                            if j < i {
                                assert(seen@[j].0 == k);
                            } else {
                                assert(j > i);
                                assert(seen@[j - 1].0 == k);
                            }
                        }
                        assert forall|k: A::Key| delta_has_key(sink.pushed(), from, k) implies
                            delta_has_key(sink_before.pushed(), from, k) || k == k_dest by {
                            let t = choose|t: int| from <= t < sink.pushed().len()
                                && sink.pushed()[t].spec_key() == k;
                            if t < sink_before.pushed().len() {
                                assert(sink_before.pushed()[t].spec_key() == k);
                            }
                        }
                        assert(target.spec_key() == k_dest);
                        assert(delta_has_key(sink.pushed(), from, k_dest)) by {
                            assert(sink.pushed()[sink.pushed().len() - 1] == target);
                        }
                        assert forall|k: A::Key| delta_has_key(sink_before.pushed(), from,
                            k) implies delta_has_key(sink.pushed(), from, k) by {
                            let t = choose|t: int| from <= t < sink_before.pushed().len()
                                && sink_before.pushed()[t].spec_key() == k;
                            assert(sink.pushed()[t].spec_key() == k);
                        }
                        assert(table_has_key(seen_before, k_dest)) by {
                            assert(seen_before[i as int].0 == k_dest);
                        }
                        assert forall|i2: int| 0 <= i2 < flow0.len() implies (table_has_key(
                            seen@, (#[trigger] flow0[i2]).spec_key()) != delta_has_key(
                            sink.pushed(), from, flow0[i2].spec_key())) by {
                            let k = flow0[i2].spec_key();
                            assert(table_has_key(seen_before, k) != delta_has_key(
                                sink_before.pushed(), from, k));
                            if k == k_dest {
                                assert(!table_has_key(seen@, k));
                                assert(delta_has_key(sink.pushed(), from, k));
                            } else {
                                assert(table_has_key(seen@, k) == table_has_key(seen_before,
                                    k));
                                assert(delta_has_key(sink.pushed(), from, k)
                                    == delta_has_key(sink_before.pushed(), from, k));
                            }
                        }
                        assert(partition_ok(*sink, from, seen@, flow0, flow0.len() as int));
                        assert(pending_total::<A>(seen@) + seen@.len() < pending_total::<A>(
                            seen_before) + seen_before.len());
                    }
                } else {
                    seen.push((k_dest, target));
                    proof {
                        let mid = seen_before.remove(i as int);
                        assert(seen@ == mid.push((k_dest, target)));
                        lemma_pending_total_push::<A>(mid, (k_dest, target));
                        assert(pend_before > 0);
                        assert(target.pending() == pend_before - 1);
                        assert forall|k: A::Key| table_has_key(seen@, k) implies
                            table_has_key(seen_before, k) by {
                            let j = choose|j: int| 0 <= j < seen@.len() && seen@[j].0 == k;
                            if j == seen@.len() - 1 {
                                assert(seen_before[i as int].0 == k);
                            } else if j < i {
                                assert(seen_before[j].0 == k);
                            } else {
                                assert(seen_before[j + 1].0 == k);
                            }
                        }
                        assert forall|k: A::Key| table_has_key(seen_before, k) implies
                            table_has_key(seen@, k) by {
                            let j = choose|j: int| 0 <= j < seen_before.len()
                                && seen_before[j].0 == k;
                            if j == i {
                                assert(seen@[seen@.len() - 1].0 == k);
                            } else if j < i {
                                assert(seen@[j].0 == k);
                            } else {
                                assert(seen@[j - 1].0 == k);
                            }
                        }
                        assert(seen_ok(seen@, flow0, flow0.len() as int)) by {
                            assert forall|j1: int, j2: int| 0 <= j1 < j2 < seen@.len()
                                implies seen@[j1].0 != seen@[j2].0 by {
                                if j2 == seen@.len() - 1 {
                                    if j1 < i {
                                        assert(seen_before[j1].0 != seen_before[i as int].0);
                                    } else {
                                        assert(seen_before[j1 + 1].0 != seen_before[
                                            i as int].0);
                                    }
                                }
                            }
                        }
                        assert forall|i2: int| 0 <= i2 < flow0.len() implies (table_has_key(
                            seen@, (#[trigger] flow0[i2]).spec_key()) != delta_has_key(
                            sink.pushed(), from, flow0[i2].spec_key())) by {
                            let k = flow0[i2].spec_key();
                            assert(table_has_key(seen@, k) == table_has_key(seen_before, k));
                        }
                        assert(partition_ok(*sink, from, seen@, flow0, flow0.len() as int));
                        assert(pending_total::<A>(seen@) + seen@.len() < pending_total::<A>(
                            seen_before) + seen_before.len());
                    }
                }
            }
            None => {
                return Err(CoordinationError::UnknownRecipient);
            }
        }
    }

    comm.next_time_stamp();
    proof {
        assert forall|i: int| 0 <= i < flow0.len() implies delta_has_key(sink.pushed(), from,
            (#[trigger] flow0[i]).spec_key()) by {
            assert(!table_has_key(seen@, flow0[i].spec_key()));
        }
        assert forall|t: int| from <= t < sink.pushed().len() implies tasks_have_key(flow0,
            (#[trigger] sink.pushed()[t]).spec_key()) by {
            assert(prefix_has_key(flow0, flow0.len() as int, sink.pushed()[t].spec_key()));
        }
    }
    Ok(())
}

/// The outcome of a completed stage: `done` is the final state of every
/// task of the flow, each ready to be evaluated and each key appearing
/// exactly once, and `vals` are their values in that order.
pub open spec fn stage_outputs<A: Automaton>(flow: Seq<A>, done: Seq<A>, vals: Seq<A::Value>)
    -> bool {
    &&& done.len() == flow.len()
    &&& vals == done.map_values(|a: A| a.spec_value())
    &&& forall|t: int|
        0 <= t < done.len() ==> settled(#[trigger] done[t]) && tasks_have_key(flow,
            done[t].spec_key())
    &&& forall|t1: int, t2: int|
        0 <= t1 < t2 < done.len() ==> done[t1].spec_key() != done[t2].spec_key()
    &&& forall|i: int|
        0 <= i < flow.len() ==> tasks_have_key(done, (#[trigger] flow[i]).spec_key())
}

/// A successful serial execution yields the values of some final task
/// states that complete the flow (see [`stage_outputs`]); a failed one
/// promises nothing.
pub open spec fn execute_post<A: Automaton>(
    flow: Seq<A>,
    r: Result<Vec<A::Value>, CoordinationError>,
) -> bool {
    match r {
        Ok(vals) => exists|done: Seq<A>| stage_outputs(flow, done, vals@),
        Err(e) => true,
    }
}

/// Execute a group of tasks in serial: coordinate them with no transport
/// at all, then evaluate each task in place and collect the values.
///
/// Success is owed whenever the group is self-contained — every message
/// stays on this single peer, is addressed to a task of the group, and
/// matches what its recipient expects.
#[verifier::rlimit(60)]
pub fn execute<A, K>(flow: Vec<A>) -> (r: Result<Vec<A::Value>, CoordinationError>) where
    A: Automaton<Key = K>,

    requires
        distinct_keys(flow@),
    ensures
        self_contained::<A, LocalWork>(flow@, (LocalWork {}), 0) ==> (match r {
            Ok(vals) => true,
            Err(e) => false,
        }),
        execute_post(flow@, r),
{
    let ghost flow0 = flow@;
    let mut comm = NullCommunicator::new();
    let code = NullCoder::<(K, A::Message)>::new();
    let work = LocalWork::new();
    let mut sink: VecSink<A> = VecSink::new();
    proof {
        assert(work == (LocalWork {}));
        assert(routable::<A, LocalWork>(flow0, work, 0, 1, false, false)) by {
            assert forall|i: int| 0 <= i < flow0.len() implies batch_routable::<A, LocalWork>(
                (#[trigger] flow0[i]).spec_messages(), work, 0, 1, false, false) by {}
        }
    }
    let outcome = coordinate(flow, &mut comm, &code, &work, &mut sink);
    match outcome {
        Ok(u) => {
            let ghost done = sink.pushed();
            let mut items = sink.into_items();
            let ghost n = items@.len() as int;
            let mut vals: Vec<A::Value> = Vec::new();
            proof {
                assert(items@.skip(0) =~= items@);
                assert(done.take(0).map_values(|a: A| a.spec_value()) =~= Seq::<
                    A::Value>::empty());
            }
            let ghost mut c: int = 0;
            while items.len() > 0
                invariant
                    0 <= c <= n,
                    n == done.len(),
                    items@ == done.skip(c),
                    vals@ == done.take(c).map_values(|a: A| a.spec_value()),
                decreases items@.len(),
            {
                let a = items.remove(0);
                proof {
                    assert(done.skip(c)[0] == done[c]);
                    assert(items@ =~= done.skip(c + 1));
                }
                let v = a.value();
                vals.push(v);
                proof {
                    lemma_take_snoc(done, c);
                    assert(vals@ =~= done.take(c + 1).map_values(|a2: A| a2.spec_value()));
                    c = c + 1;
                }
            }
            proof {
                assert(done.take(c) =~= done);
                assert(outcome == Ok::<(), CoordinationError>(()));
                assert(stage_outputs(flow0, done, vals@)) by {
                    assert forall|i: int| 0 <= i < flow0.len() implies tasks_have_key(done,
                        (#[trigger] flow0[i]).spec_key()) by {
                        assert(delta_has_key(done, 0, flow0[i].spec_key()));
                        let t = choose|t: int| 0 <= t < done.len() && done[t].spec_key()
                            == flow0[i].spec_key();
                    }
                    assert forall|t: int| 0 <= t < done.len() implies settled(
                        #[trigger] done[t]) && tasks_have_key(flow0, done[t].spec_key())
                        by {}
                }
                assert(stage_outputs(flow@, done, vals@));
            }
            let result: Result<Vec<A::Value>, CoordinationError> = Ok(vals);
            proof {
                assert(execute_post(flow@, result)) by {
                    assert(stage_outputs(flow@, done, (match result {
                        Ok(v2) => v2,
                        Err(e2) => vstd::pervasive::arbitrary(),
                    })@));
                }
            }
            result
        },
        Err(e) => Err(e),
    }
}

/// Execute a group of tasks whose eligible members are handed to the
/// given sink, typically one that dispatches each task to a pool of
/// worker threads. Coordination itself uses no transport: the group must
/// be self-contained for the stage to complete, exactly as in
/// [`execute`].
pub fn execute_thread_pool<A, K, S>(sink: &mut S, flow: Vec<A>) -> (r: Result<(),
    CoordinationError>) where
    A: Automaton<Key = K>,
    S: Sink<A>,

    requires
        distinct_keys(flow@),
    ensures
        self_contained::<A, LocalWork>(flow@, (LocalWork {}), 0) ==> r == Ok::<(),
            CoordinationError>(()),
        final(sink).pushed().len() >= old(sink).pushed().len(),
        final(sink).pushed().take(old(sink).pushed().len() as int) == old(sink).pushed(),
        forall|t: int|
            old(sink).pushed().len() <= t < final(sink).pushed().len() ==> settled(
                #[trigger] final(sink).pushed()[t]) && tasks_have_key(flow@,
                final(sink).pushed()[t].spec_key()),
        forall|t1: int, t2: int|
            old(sink).pushed().len() <= t1 < t2 < final(sink).pushed().len() ==> final(
                sink).pushed()[t1].spec_key() != final(sink).pushed()[t2].spec_key(),
        r == Ok::<(), CoordinationError>(()) ==> {
            &&& final(sink).pushed().len() == old(sink).pushed().len() + flow@.len()
            &&& forall|i: int|
                0 <= i < flow@.len() ==> delta_has_key(final(sink).pushed(),
                    old(sink).pushed().len() as int, (#[trigger] flow@[i]).spec_key())
        },
{
    let ghost flow0 = flow@;
    let mut comm = NullCommunicator::new();
    let code = NullCoder::<(K, A::Message)>::new();
    let work = LocalWork::new();
    proof {
        assert(work == (LocalWork {}));
        assert(routable::<A, LocalWork>(flow0, work, 0, 1, false, false)) by {
            assert forall|i: int| 0 <= i < flow0.len() implies batch_routable::<A, LocalWork>(
                (#[trigger] flow0[i]).spec_messages(), work, 0, 1, false, false) by {}
        }
    }
    coordinate(flow, &mut comm, &code, &work, sink)
}

/// Execute a group of compute tasks using a distributed communicator and
/// a coder. Messages for tasks owned by other peers are encoded and sent;
/// eligible local tasks go to the sink, which may evaluate them inline or
/// on worker threads. The contract is that of [`coordinate`].
pub fn execute_comm<A, K, Comm, Code, W, S>(
    comm: &mut Comm,
    code: &Code,
    work: &W,
    sink: &mut S,
    flow: Vec<A>,
) -> (r: Result<(), CoordinationError>) where
    A: Automaton<Key = K>,
    Comm: Communicator,
    Code: Coder<Type = (K, A::Message)>,
    W: Work<K>,
    S: Sink<A>,

    requires
        distinct_keys(flow@),
        routable::<A, W>(flow@, *work, old(comm).spec_rank(), old(comm).spec_size(),
            old(comm).sends_allowed(), code.codes()),
        !code.codes() ==> !old(comm).recv_allowed(),
        old(comm).spec_stamp() < usize::MAX,
    ensures
        final(comm).spec_rank() == old(comm).spec_rank(),
        final(comm).spec_size() == old(comm).spec_size(),
        final(comm).spec_sent() == old(comm).spec_sent() + offloaded::<A, W, Code>(flow@,
            *work, *code, old(comm).spec_rank(), old(comm).spec_stamp()),
        r == Ok::<(), CoordinationError>(()) ==> final(comm).spec_stamp() == old(
            comm).spec_stamp() + 1,
        r != Ok::<(), CoordinationError>(()) ==> final(comm).spec_stamp() == old(
            comm).spec_stamp(),
        final(sink).pushed().len() >= old(sink).pushed().len(),
        final(sink).pushed().take(old(sink).pushed().len() as int) == old(sink).pushed(),
        forall|t: int|
            old(sink).pushed().len() <= t < final(sink).pushed().len() ==> settled(
                #[trigger] final(sink).pushed()[t]) && tasks_have_key(flow@,
                final(sink).pushed()[t].spec_key()),
        forall|t1: int, t2: int|
            old(sink).pushed().len() <= t1 < t2 < final(sink).pushed().len() ==> final(
                sink).pushed()[t1].spec_key() != final(sink).pushed()[t2].spec_key(),
        r == Ok::<(), CoordinationError>(()) ==> {
            &&& final(sink).pushed().len() == old(sink).pushed().len() + flow@.len()
            &&& forall|i: int|
                0 <= i < flow@.len() ==> delta_has_key(final(sink).pushed(),
                    old(sink).pushed().len() as int, (#[trigger] flow@[i]).spec_key())
        },
        self_contained::<A, W>(flow@, *work, old(comm).spec_rank()) ==> r == Ok::<(),
            CoordinationError>(()),
{
    coordinate(flow, comm, code, work, sink)
}

/// In a flow whose tasks send nothing, no key is addressed at all.
proof fn lemma_flow_count_no_messages<A: Automaton>(flow: Seq<A>, k: A::Key)
    requires
        forall|i: int| 0 <= i < flow.len() ==> (#[trigger] flow[i]).spec_messages().len()
            == 0,
    ensures
        flow_count(flow, k) == 0,
    decreases flow.len(),
{
    if flow.len() > 0 {
        let tail = flow.drop_first();
        assert forall|i: int| 0 <= i < tail.len() implies (
        #[trigger] tail[i]).spec_messages().len() == 0 by {
            assert(tail[i] == flow[i + 1]);
        }
        lemma_flow_count_no_messages(tail, k);
    }
}

/// A group of independent tasks that send no messages completes without
/// any messaging: it is self-contained on a single peer, so a stage over
/// it is guaranteed to succeed with no sends and no receives.
pub proof fn lemma_independent_group_self_contained<A: Automaton>(flow: Seq<A>)
    requires
        distinct_keys(flow),
        forall|i: int| 0 <= i < flow.len() ==> (#[trigger] flow[i]).spec_independent(),
        forall|i: int| 0 <= i < flow.len() ==> (#[trigger] flow[i]).spec_messages().len()
            == 0,
    ensures
        self_contained::<A, LocalWork>(flow, (LocalWork {}), 0),
{
    assert forall|i: int| 0 <= i < flow.len() && (#[trigger] flow[i]).spec_independent()
        implies flow_count(flow, flow[i].spec_key()) == 0 by {
        lemma_flow_count_no_messages(flow, flow[i].spec_key());
    }
}

/// A peer that owns no task of the current stage is done at once: the
/// empty flow is self-contained for any work assignment, so its stage
/// terminates without receiving anything.
pub proof fn lemma_empty_flow_self_contained<A: Automaton, W: Work<A::Key>>(work: W,
    rank: usize)
    ensures
        self_contained::<A, W>(Seq::<A>::empty(), work, rank),
{
}

} // verus!
