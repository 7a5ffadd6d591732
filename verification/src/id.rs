//! Identities of blocks and ports.

use vstd::prelude::*;

verus! {

/// The identity of a block or of a port.
#[derive(Clone, Copy, Debug, PartialEq, Eq, Hash, Structural)]
pub struct Id(pub usize);

/// Hands out identities, each one once, in rising order.
pub struct IdAllocator {
    next: usize,
}

impl IdAllocator {
    /// The number of the identity that is handed out next.
    pub closed spec fn next_id(&self) -> usize {
        self.next
    }

    /// An allocator whose first identity is zero.
    pub fn new() -> (ids: IdAllocator)
        ensures
            ids.next_id() == 0,
    {
        IdAllocator { next: 0 }
    }

    /// No identity is left to hand out.
    pub fn is_exhausted(&self) -> (exhausted: bool)
        ensures
            exhausted == (self.next_id() == usize::MAX),
    {
        self.next == usize::MAX
    }

    /// The number of identities that are left to hand out.
    pub fn remaining(&self) -> (left: usize)
        ensures
            left == usize::MAX - self.next_id(),
    {
        usize::MAX - self.next
    }

    /// Hands out the next identity.
    pub fn get_id(&mut self) -> (id: Id)
        requires
            old(self).next_id() < usize::MAX,
        ensures
            id == Id(old(self).next_id()),
            final(self).next_id() == old(self).next_id() + 1,
    {
        let id = Id(self.next);
        self.next = self.next + 1;
        id
    }
}

} // verus!
