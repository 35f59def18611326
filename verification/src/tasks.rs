//! A small concrete automaton over integer keys and integer messages.
//!
//! It gives the [`Automaton`](crate::automaton::Automaton) contract a
//! verified implementation that executors and tests can instantiate: the
//! task sends a fixed batch of messages, waits for a declared number of
//! incoming ones, and yields itself — carrying what it received — as its
//! value.

use crate::automaton::{Automaton, Status};
use vstd::prelude::*;

verus! {

/// A task with key and messages of type `u64`. It is eligible after
/// absorbing `needed` messages (or immediately, if `standalone`), and its
/// value is the task itself, with the received messages kept in arrival
/// order.
#[derive(Debug)]
pub struct SimpleAutomaton {
    key: u64,
    outgoing: Vec<(u64, u64)>,
    needed: usize,
    received: Vec<u64>,
    standalone: bool,
    hint: Option<usize>,
}

impl SimpleAutomaton {
    /// A task that will send `outgoing` and become eligible after
    /// `needed` received messages; a `standalone` task is eligible at
    /// once. `hint` names the worker thread the task prefers, if any.
    pub fn new(
        key: u64,
        outgoing: Vec<(u64, u64)>,
        needed: usize,
        standalone: bool,
        hint: Option<usize>,
    ) -> (r: Self)
        ensures
            r.spec_key() == key,
            r.spec_messages() == outgoing@,
            r.pending() == needed,
            r.spec_independent() == standalone,
            r.spec_received() == Seq::<u64>::empty(),
    {
        Self { key, outgoing, needed, received: Vec::new(), standalone, hint }
    }

    /// The messages the task has absorbed, in arrival order.
    pub closed spec fn spec_received(&self) -> Seq<u64> {
        self.received@
    }

    /// Read the messages the task has absorbed, in arrival order.
    pub fn received(&self) -> (r: &Vec<u64>)
        ensures
            r@ == self.spec_received(),
    {
        &self.received
    }

    /// Read the key without consuming the task.
    pub fn id(&self) -> (r: u64)
        ensures
            r == self.spec_key(),
    {
        self.key
    }
}

impl Automaton for SimpleAutomaton {
    type Key = u64;

    type Message = u64;

    type Value = SimpleAutomaton;

    closed spec fn spec_key(&self) -> u64 {
        self.key
    }

    closed spec fn spec_messages(&self) -> Seq<(u64, u64)> {
        self.outgoing@
    }

    closed spec fn pending(&self) -> nat {
        self.needed as nat
    }

    closed spec fn spec_independent(&self) -> bool {
        self.standalone
    }

    closed spec fn spec_value(self) -> SimpleAutomaton {
        self
    }

    fn key(&self) -> (k: u64) {
        self.key
    }

    fn key_eq(a: &u64, b: &u64) -> (r: bool) {
        *a == *b
    }

    fn messages(&self) -> (m: Vec<(u64, u64)>) {
        let mut m: Vec<(u64, u64)> = Vec::new();
        let mut i: usize = 0;
        while i < self.outgoing.len()
            invariant
                i <= self.outgoing@.len(),
                m@ == self.outgoing@.take(i as int),
            decreases self.outgoing@.len() - i,
        {
            m.push(self.outgoing[i]);
            proof {
                assert(m@ =~= self.outgoing@.take(i + 1));
            }
            i = i + 1;
        }
        proof {
            assert(m@ =~= self.outgoing@);
        }
        m
    }

    fn receive(&mut self, message: u64) -> (s: Status) {
        if self.needed > 0 {
            self.needed = self.needed - 1;
            self.received.push(message);
        }
        Status::eligible_if(self.needed == 0)
    }

    fn value(self) -> (v: SimpleAutomaton) {
        self
    }

    fn worker_hint(&self) -> Option<usize> {
        self.hint
    }

    fn independent(&self) -> (r: bool) {
        self.standalone
    }
}

} // verus!
