//! A first-in, first-out queue of passengers.
use vstd::prelude::*;
use std::collections::VecDeque;
use crate::passenger::{Passenger, passenger_text};

verus! {

/// Riders in the order they joined: added at the tail, taken from the head.
#[derive(Clone)]
pub struct PassengerQueue {
    queue: VecDeque<Passenger>,
}

impl View for PassengerQueue {
    type V = Seq<Passenger>;

    closed spec fn view(&self) -> Seq<Passenger> {
        self.queue@
    }
}

/// The compact forms of the passengers of `q`, in order, with no separator.
pub open spec fn queue_text(q: Seq<Passenger>) -> Seq<char>
    decreases q.len(),
{
    if q.len() == 0 {
        Seq::empty()
    } else {
        queue_text(q.drop_last()) + passenger_text(q.last())
    }
}

impl PassengerQueue {
    /// An empty queue.
    pub fn new() -> (r: PassengerQueue)
        ensures
            r@ == Seq::<Passenger>::empty(),
    {
        PassengerQueue { queue: VecDeque::new() }
    }

    /// The passenger at the head, if any, left in place.
    pub fn front(&self) -> (r: Option<&Passenger>)
        ensures
            self@.len() == 0 ==> r is None,
            self@.len() > 0 ==> r == Some(&self@[0]),
    {
        if self.queue.len() == 0 {
            None
        } else {
            Some(&self.queue[0])
        }
    }

    /// Adds `passenger` at the tail.
    pub fn enqueue(&mut self, passenger: Passenger)
        ensures
            final(self)@ == old(self)@.push(passenger),
    {
        self.queue.push_back(passenger)
    }

    /// Removes and returns the passenger at the head, if any.
    pub fn dequeue(&mut self) -> (r: Option<Passenger>)
        ensures
            old(self)@.len() == 0 ==> r is None && final(self)@ == old(self)@,
            old(self)@.len() > 0 ==> r == Some(old(self)@[0]) && final(self)@ == old(
                self,
            )@.drop_first(),
    {
        let r = self.queue.pop_front();
        proof {
            if old(self)@.len() > 0 {
                assert(final(self)@ =~= old(self)@.drop_first());
            }
        }
        r
    }

    /// The number of passengers in the queue.
    pub fn size(&self) -> (r: usize)
        ensures
            r == self@.len(),
    {
        self.queue.len()
    }

    /// Appends the compact forms of the passengers, head first, to `out`.
    pub fn write_text(&self, out: &mut String)
        ensures
            final(out)@ == old(out)@ + queue_text(self@),
    {
        let n = self.queue.len();
        let mut i: usize = 0;
        while i < n
            invariant
                n == self@.len(),
                i <= n,
                out@ == old(out)@ + queue_text(self@.take(i as int)),
            decreases n - i,
        {
            let p = self.queue[i];
            p.write_text(out);
            proof {
                let t = self@.take(i + 1);
                assert(t.drop_last() =~= self@.take(i as int));
                assert(t.last() == self@[i as int]);
            }
            i = i + 1;
        }
        assert(self@.take(n as int) =~= self@);
    }

    /// The compact forms of the passengers, head first, with no separator.
    pub fn to_text(&self) -> (r: String)
        ensures
            r@ == queue_text(self@),
    {
        let mut out = String::new();
        self.write_text(&mut out);
        assert(out@ =~= queue_text(self@));
        out
    }
}

} // verus!
