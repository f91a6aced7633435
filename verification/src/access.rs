//! What a system declares: the resources it reads and the resources it
//! writes, and when two declarations conflict.
use vstd::prelude::*;

verus! {

/// The declared access of a system or of a whole stage.
pub struct Access {
    pub reads: Seq<usize>,
    pub writes: Seq<usize>,
}

impl Access {
    /// No resource is declared both read and written.
    pub open spec fn disjoint(self) -> bool {
        forall|x: usize| !(self.reads.contains(x) && self.writes.contains(x))
    }

    /// The declaration touches `x` in either mode.
    pub open spec fn touches(self, x: usize) -> bool {
        self.reads.contains(x) || self.writes.contains(x)
    }
}

/// `a` writes something that `b` reads or writes.
pub open spec fn writes_into(a: Access, b: Access) -> bool {
    exists|x: usize| a.writes.contains(x) && b.touches(x)
}

/// Two declarations conflict when a write of one aliases any access of the
/// other.
pub open spec fn conflict(a: Access, b: Access) -> bool {
    writes_into(a, b) || writes_into(b, a)
}

} // verus!
