//! A minimal point-to-point message-passing interface.
//!
//! The [`Communicator`] trait is the byte transport used by the distributed
//! executors: non-blocking sends to a peer rank, blocking receives of
//! messages addressed to this rank at the current time stamp, and a
//! monotonic stamp that separates the stages of the computation. The
//! in-process implementations here are fully verified; transports that own
//! sockets or threads are assembled outside the crate from the verified
//! framing and stamp-matching pieces in [`crate::util`] and
//! [`crate::stamp`].

use vstd::prelude::*;

verus! {

/// Point-to-point byte transfer between the peers of a process group.
///
/// A peer has a fixed `rank` in `[0, size)` and a monotonic `time_stamp`.
/// `send` forwards a payload to a peer without blocking; the record it
/// hands to the wire carries the current stamp, and `spec_sent` is the
/// history of those records in order. `recv` blocks until a payload
/// addressed to this peer at the current stamp arrives; nothing is promised
/// about its content, since it depends on what the peers sent.
pub trait Communicator: Sized {
    /// This peer's index within the group. A transport implemented
    /// beyond the verifier's reach may leave the model functions at
    /// their unspecified defaults.
    open spec fn spec_rank(&self) -> usize {
        arbitrary()
    }

    /// The number of peers in the group.
    open spec fn spec_size(&self) -> usize {
        arbitrary()
    }

    /// The current time stamp.
    open spec fn spec_stamp(&self) -> usize {
        arbitrary()
    }

    /// Every record handed to the transport so far: destination rank,
    /// payload, and the stamp it was sent at, in submission order.
    open spec fn spec_sent(&self) -> Seq<(usize, Seq<u8>, usize)> {
        arbitrary()
    }

    /// Whether this communicator accepts outgoing messages at all.
    open spec fn sends_allowed(&self) -> bool {
        arbitrary()
    }

    /// Whether a call to `recv` is currently permitted.
    open spec fn recv_allowed(&self) -> bool {
        arbitrary()
    }

    /// Return the rank of this peer.
    fn rank(&self) -> (r: usize)
        ensures
            r == self.spec_rank(),
    ;

    /// Return the number of peers in the group.
    fn size(&self) -> (r: usize)
        ensures
            r == self.spec_size(),
    ;

    /// Enqueue `message` for asynchronous delivery to peer `rank`, tagged
    /// with the current time stamp.
    fn send(&mut self, rank: usize, message: Vec<u8>)
        requires
            old(self).sends_allowed(),
            rank < old(self).spec_size(),
        ensures
            final(self).spec_sent() == old(self).spec_sent().push(
                (rank, message@, old(self).spec_stamp())),
            final(self).spec_rank() == old(self).spec_rank(),
            final(self).spec_size() == old(self).spec_size(),
            final(self).spec_stamp() == old(self).spec_stamp(),
            final(self).sends_allowed() == old(self).sends_allowed(),
            final(self).recv_allowed() == old(self).recv_allowed(),
    ;

    /// Whether `recv` may be called in the current state.
    fn can_recv(&self) -> (b: bool)
        ensures
            b == self.recv_allowed(),
    ;

    /// Block until a payload addressed to this peer at the current stamp
    /// arrives, and return its body.
    fn recv(&mut self) -> (r: Vec<u8>)
        requires
            old(self).recv_allowed(),
        ensures
            final(self).spec_sent() == old(self).spec_sent(),
            final(self).spec_rank() == old(self).spec_rank(),
            final(self).spec_size() == old(self).spec_size(),
            final(self).spec_stamp() == old(self).spec_stamp(),
            final(self).sends_allowed() == old(self).sends_allowed(),
    ;

    /// Advance the time stamp; subsequent sends carry the new stamp.
    fn next_time_stamp(&mut self)
        requires
            old(self).spec_stamp() < usize::MAX,
        ensures
            final(self).spec_stamp() == old(self).spec_stamp() + 1,
            final(self).spec_sent() == old(self).spec_sent(),
            final(self).spec_rank() == old(self).spec_rank(),
            final(self).spec_size() == old(self).spec_size(),
            final(self).sends_allowed() == old(self).sends_allowed(),
            final(self).recv_allowed() == old(self).recv_allowed(),
    ;
}

/// A communicator for a group of one. `rank` and `size` function; `send`
/// and `recv` are programmer errors in single-peer usage, and their
/// contracts rule the calls out.
pub struct NullCommunicator {
    time_stamp: usize,
}

impl NullCommunicator {
    pub fn new() -> (r: Self)
        ensures
            r.spec_rank() == 0,
            r.spec_size() == 1,
            r.spec_stamp() == 0,
            r.spec_sent() == Seq::<(usize, Seq<u8>, usize)>::empty(),
            !r.sends_allowed(),
            !r.recv_allowed(),
    {
        Self { time_stamp: 0 }
    }
}

impl Communicator for NullCommunicator {
    open spec fn spec_rank(&self) -> usize {
        0
    }

    open spec fn spec_size(&self) -> usize {
        1
    }

    closed spec fn spec_stamp(&self) -> usize {
        self.time_stamp
    }

    open spec fn spec_sent(&self) -> Seq<(usize, Seq<u8>, usize)> {
        Seq::empty()
    }

    open spec fn sends_allowed(&self) -> bool {
        false
    }

    open spec fn recv_allowed(&self) -> bool {
        false
    }

    fn rank(&self) -> (r: usize) {
        0
    }

    fn size(&self) -> (r: usize) {
        1
    }

    fn send(&mut self, rank: usize, message: Vec<u8>) {
        vstd::pervasive::unreached()
    }

    fn can_recv(&self) -> (b: bool) {
        false
    }

    fn recv(&mut self) -> (r: Vec<u8>) {
        vstd::pervasive::unreached()
    }

    fn next_time_stamp(&mut self) {
        self.time_stamp = self.time_stamp + 1;
    }
}

/// An in-process communicator whose incoming traffic is a queue loaded in
/// advance, and whose outgoing records accumulate in a vector.
///
/// It gives a distributed stage a verified transport: a test or a driver
/// loads the payloads this peer is due to receive, runs the stage, and
/// inspects what was sent. `recv` is permitted exactly while the queue is
/// non-empty and returns the next payload in load order.
pub struct QueueCommunicator {
    rank: usize,
    size: usize,
    time_stamp: usize,
    incoming: Vec<Vec<u8>>,
    outgoing: Vec<(usize, Vec<u8>, usize)>,
}

impl QueueCommunicator {
    /// A peer of the given rank in a group of `size`, with the payloads it
    /// will be handed by `recv`, in order.
    pub fn new(rank: usize, size: usize, incoming: Vec<Vec<u8>>) -> (r: Self)
        requires
            rank < size,
        ensures
            r.spec_rank() == rank,
            r.spec_size() == size,
            r.spec_stamp() == 0,
            r.spec_sent() == Seq::<(usize, Seq<u8>, usize)>::empty(),
            r.sends_allowed(),
            r.recv_allowed() == (incoming@.len() > 0),
            r.spec_pending_in() == incoming@.map_values(|v: Vec<u8>| v@),
    {
        Self { rank, size, time_stamp: 0, incoming, outgoing: Vec::new() }
    }

    /// The payloads still queued for delivery to this peer.
    pub closed spec fn spec_pending_in(&self) -> Seq<Seq<u8>> {
        self.incoming@.map_values(|v: Vec<u8>| v@)
    }


    /// Receiving is permitted exactly while payloads are still queued.
    pub proof fn lemma_recv_allowed(&self)
        ensures
            self.recv_allowed() == (self.spec_pending_in().len() > 0),
    {
    }

    /// Hand back the records sent through this communicator, in order.
    pub fn take_outgoing(self) -> (r: Vec<(usize, Vec<u8>, usize)>)
        ensures
            r@.map_values(|t: (usize, Vec<u8>, usize)| (t.0, t.1@, t.2)) == self.spec_sent(),
    {
        let QueueCommunicator { outgoing, .. } = self;
        outgoing
    }
}

impl Communicator for QueueCommunicator {
    closed spec fn spec_rank(&self) -> usize {
        self.rank
    }

    closed spec fn spec_size(&self) -> usize {
        self.size
    }

    closed spec fn spec_stamp(&self) -> usize {
        self.time_stamp
    }

    closed spec fn spec_sent(&self) -> Seq<(usize, Seq<u8>, usize)> {
        self.outgoing@.map_values(|t: (usize, Vec<u8>, usize)| (t.0, t.1@, t.2))
    }

    open spec fn sends_allowed(&self) -> bool {
        true
    }

    closed spec fn recv_allowed(&self) -> bool {
        self.incoming@.len() > 0
    }

    fn rank(&self) -> (r: usize) {
        self.rank
    }

    fn size(&self) -> (r: usize) {
        self.size
    }

    fn send(&mut self, rank: usize, message: Vec<u8>)
        ensures
            final(self).spec_pending_in() == old(self).spec_pending_in(),
    {
        let stamp = self.time_stamp;
        let ghost old_out = self.outgoing@;
        let ghost msg_view = message@;
        self.outgoing.push((rank, message, stamp));
        proof {
            assert(self.outgoing@.map_values(|t: (usize, Vec<u8>, usize)| (t.0, t.1@, t.2))
                =~= old_out.map_values(|t: (usize, Vec<u8>, usize)| (t.0, t.1@, t.2)).push(
                (rank, msg_view, stamp)));
        }
    }

    fn can_recv(&self) -> (b: bool) {
        self.incoming.len() > 0
    }

    fn recv(&mut self) -> (r: Vec<u8>)
        ensures
            r@ == old(self).spec_pending_in()[0],
            final(self).spec_pending_in() == old(self).spec_pending_in().drop_first(),
    {
        self.incoming.remove(0)
    }

    fn next_time_stamp(&mut self)
        ensures
            final(self).spec_pending_in() == old(self).spec_pending_in(),
    {
        self.time_stamp = self.time_stamp + 1;
    }
}

} // verus!
