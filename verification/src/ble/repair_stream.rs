//! The repair lane as one end of a carrier.

use vstd::prelude::*;

verus! {

/// An application-demultiplexed repair lane, held for a repair session. What the
/// lane's frames travel over is the endpoint's own concern.
pub struct BleRepairStream<I> {
    io: I,
}

impl<I> View for BleRepairStream<I> {
    type V = I;

    closed spec fn view(&self) -> I {
        self.io
    }
}

impl<I> BleRepairStream<I> {
    pub fn new(io: I) -> (stream: Self)
        ensures
            stream@ == io,
    {
        BleRepairStream { io }
    }

    pub fn inner(&self) -> (io: &I)
        ensures
            *io == self@,
    {
        &self.io
    }

    /// The endpoint, to be changed in place.
    pub fn inner_mut(&mut self) -> (io: &mut I)
        ensures
            *io == old(self)@,
            final(self)@ == *final(io),
    {
        &mut self.io
    }

    pub fn into_inner(self) -> (io: I)
        ensures
            io == self@,
    {
        self.io
    }
}

} // verus!
