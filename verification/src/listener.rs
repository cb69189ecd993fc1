//! The listener's admission rule: one peer per listener.

use vstd::prelude::*;

verus! {

/// Keeps count for a listening socket that serves a single peer: the first
/// connection that arrives is let in and every later one is turned away.
pub struct AcceptOnce {
    taken: bool,
}

impl View for AcceptOnce {
    type V = bool;

    /// Whether a connection has been let in already.
    closed spec fn view(&self) -> bool {
        self.taken
    }
}

impl AcceptOnce {
    /// A listener that has let nobody in yet.
    pub fn new() -> (door: AcceptOnce)
        ensures
            !door@,
    {
        AcceptOnce { taken: false }
    }

    /// Whether a connection has been let in already.
    pub fn is_taken(&self) -> (taken: bool)
        ensures
            taken == self@,
    {
        self.taken
    }

    /// Decides on a connection that has just arrived: `true` lets it in.
    ///
    /// Only the first call on a listener accepts; from then on the listener is
    /// taken and stays so.
    pub fn accept(&mut self) -> (accepted: bool)
        ensures
            accepted == !old(self)@,
            final(self)@,
    {
        let accepted = !self.taken;
        self.taken = true;
        accepted
    }
}

} // verus!
