//! Riders and the allocator that hands out their identifiers.
use vstd::prelude::*;
use crate::text::{decimal, push_decimal};

verus! {

/// Hands out passenger identifiers: each one once, in increasing order,
/// starting at 1. One allocator is shared by every simulator of a program.
pub struct PassengerIds {
    next: u32,
}

impl PassengerIds {
    /// The identifier that the next allocation returns.
    pub closed spec fn next_spec(&self) -> nat {
        self.next as nat
    }

    /// The allocator can still hand out an identifier that fits in `u32`.
    pub open spec fn can_allocate(&self) -> bool {
        self.next_spec() < u32::MAX
    }

    /// Identifiers are positive.
    pub open spec fn wf(&self) -> bool {
        self.next_spec() >= 1
    }

    /// A fresh allocator, whose first identifier is 1.
    pub fn new() -> (r: PassengerIds)
        ensures
            r.wf(),
            r.next_spec() == 1,
    {
        PassengerIds { next: 1 }
    }

    /// Whether another identifier can be handed out.
    pub fn has_next(&self) -> (r: bool)
        ensures
            r == self.can_allocate(),
    {
        self.next < u32::MAX
    }

    /// Hands out the next identifier.
    pub fn allocate(&mut self) -> (id: u32)
        requires
            old(self).wf(),
            old(self).can_allocate(),
        ensures
            final(self).wf(),
            id as nat == old(self).next_spec(),
            final(self).next_spec() == old(self).next_spec() + 1,
    {
        let id = self.next;
        self.next = self.next + 1;
        id
    }
}

/// One rider: a unique identifier, the station where they board and the
/// station where they alight.
#[derive(Clone, Copy, PartialEq, Eq, Structural)]
pub struct Passenger {
    pub id: u32,
    pub arrival: u32,
    pub departure: u32,
}

/// The compact form `[id, arrival->departure]` of a passenger.
pub open spec fn passenger_text(p: Passenger) -> Seq<char> {
    "["@ + decimal(p.id as nat) + ", "@ + decimal(p.arrival as nat) + "->"@ + decimal(
        p.departure as nat,
    ) + "]"@
}

impl Passenger {
    /// A passenger from `arrival` to `departure`, with the next identifier
    /// of `ids`.
    pub fn new(ids: &mut PassengerIds, arrival: u32, departure: u32) -> (p: Passenger)
        requires
            old(ids).wf(),
            old(ids).can_allocate(),
        ensures
            final(ids).wf(),
            p.id as nat == old(ids).next_spec(),
            final(ids).next_spec() == old(ids).next_spec() + 1,
            p.arrival == arrival,
            p.departure == departure,
    {
        let id = ids.allocate();
        Passenger { id, arrival, departure }
    }

    /// Appends the compact form of this passenger to `out`.
    pub fn write_text(&self, out: &mut String)
        ensures
            final(out)@ == old(out)@ + passenger_text(*self),
    {
        out.append("[");
        push_decimal(out, self.id as u64);
        out.append(", ");
        push_decimal(out, self.arrival as u64);
        out.append("->");
        push_decimal(out, self.departure as u64);
        out.append("]");
        assert(final(out)@ =~= old(out)@ + passenger_text(*self));
    }

    /// The compact form `[id, arrival->departure]`.
    pub fn to_text(&self) -> (r: String)
        ensures
            r@ == passenger_text(*self),
    {
        let mut out = String::new();
        self.write_text(&mut out);
        assert(out@ =~= passenger_text(*self));
        out
    }
}

} // verus!
