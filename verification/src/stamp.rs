//! Parking of records that arrive ahead of their stage.
//!
//! A transport that multiplexes several stages over one connection may
//! receive a record whose stamp is not yet current. The [`StampQueue`]
//! holds such records; its contract guarantees stage isolation: a record
//! is handed out only while the receiver's stamp equals the stamp the
//! record was sent at.

use vstd::prelude::*;

verus! {

/// The position of the first parked record carrying `stamp`, or -1 when
/// none does.
pub open spec fn first_with_stamp(parked: Seq<(Seq<u8>, usize)>, stamp: usize) -> int
    decreases parked.len(),
{
    if parked.len() == 0 {
        -1
    } else if parked[0].1 == stamp {
        0
    } else {
        let r = first_with_stamp(parked.drop_first(), stamp);
        if r == -1 {
            -1
        } else {
            r + 1
        }
    }
}

/// What `first_with_stamp` finds is the earliest match.
pub proof fn lemma_first_with_stamp(parked: Seq<(Seq<u8>, usize)>, stamp: usize)
    ensures
        ({
            let r = first_with_stamp(parked, stamp);
            &&& r == -1 ==> forall|j: int| 0 <= j < parked.len() ==> (#[trigger] parked[j]).1
                != stamp
            &&& r != -1 ==> 0 <= r < parked.len() && parked[r].1 == stamp && forall|j: int|
                0 <= j < r ==> (#[trigger] parked[j]).1 != stamp
        }),
    decreases parked.len(),
{
    if parked.len() == 0 {
    } else {
        lemma_first_with_stamp(parked.drop_first(), stamp);
        let tail = parked.drop_first();
        assert forall|j: int| 1 <= j < parked.len() implies parked[j] == tail[j - 1] by {}
    }
}

/// Records parked because they arrived before their stage.
///
/// A transport pushes each out-of-stage `(payload, stamp)` record here and
/// asks for a parked record again whenever its own stamp advances.
pub struct StampQueue {
    parked: Vec<(Vec<u8>, usize)>,
}

impl StampQueue {
    /// The parked records, in arrival order.
    pub closed spec fn view_parked(&self) -> Seq<(Seq<u8>, usize)> {
        self.parked@.map_values(|t: (Vec<u8>, usize)| (t.0@, t.1))
    }

    pub fn new() -> (r: Self)
        ensures
            r.view_parked() == Seq::<(Seq<u8>, usize)>::empty(),
    {
        let r = Self { parked: Vec::new() };
        proof {
            assert(r.view_parked() =~= Seq::<(Seq<u8>, usize)>::empty());
        }
        r
    }

    /// Park one record that arrived ahead of its stage.
    pub fn park(&mut self, payload: Vec<u8>, stamp: usize)
        ensures
            final(self).view_parked() == old(self).view_parked().push((payload@, stamp)),
    {
        let ghost old_view = self.view_parked();
        let ghost payload_view = payload@;
        self.parked.push((payload, stamp));
        proof {
            assert(self.view_parked() =~= old_view.push((payload_view, stamp)));
        }
    }

    /// Remove and return the earliest parked record sent at `stamp`, if
    /// one is waiting. A record with any other stamp is never handed out:
    /// this is the transport's stage isolation.
    pub fn take_matching(&mut self, stamp: usize) -> (r: Option<Vec<u8>>)
        ensures
            ({
                let idx = first_with_stamp(old(self).view_parked(), stamp);
                match r {
                    Some(payload) => idx != -1 && payload@ == old(self).view_parked()[idx].0
                        && old(self).view_parked()[idx].1 == stamp && final(
                        self).view_parked() == old(self).view_parked().remove(idx),
                    None => idx == -1 && final(self).view_parked() == old(
                        self).view_parked(),
                }
            }),
    {
        let ghost old_view = self.view_parked();
        proof {
            lemma_first_with_stamp(old_view, stamp);
        }
        let mut i: usize = 0;
        while i < self.parked.len()
            invariant
                i <= self.parked@.len(),
                old_view == self.view_parked(),
                old_view == old(self).view_parked(),
                old_view.len() == self.parked@.len(),
                forall|j: int| 0 <= j < i as int ==> (#[trigger] old_view[j]).1 != stamp,
                forall|j: int|
                    0 <= j < old_view.len() ==> (#[trigger] old_view[j]) == (
                    self.parked@[j].0@, self.parked@[j].1),
            decreases self.parked@.len() - i,
        {
            if self.parked[i].1 == stamp {
                let ghost idx = first_with_stamp(old_view, stamp);
                proof {
                    lemma_first_with_stamp(old_view, stamp);
                    assert(old_view[i as int].1 == stamp);
                    assert(idx != -1);
                    assert(idx == i as int) by {
                        if idx < i as int {
                            assert(old_view[idx].1 != stamp);
                        }
                    }
                }
                let (payload, tag) = self.parked.remove(i);
                proof {
                    assert(self.view_parked() =~= old_view.remove(i as int));
                }
                return Some(payload);
            }
            i = i + 1;
        }
        proof {
            assert(first_with_stamp(old_view, stamp) == -1) by {
                lemma_first_with_stamp(old_view, stamp);
                let idx = first_with_stamp(old_view, stamp);
                if idx != -1 {
                    assert(old_view[idx].1 != stamp);
                }
            }
        }
        None
    }
}

} // verus!
