//! The identity allocator.
use vstd::prelude::*;

verus! {

/// Source of unique identities. One value is owned by whoever builds graphs
/// (usually an `Engine`) and threaded through construction calls, so there is
/// no global state and no unsynchronized sharing.
pub struct IdCounter {
    next: usize,
}

impl IdCounter {
    /// The identity that the next call of `next_id` hands out.
    pub closed spec fn peek(&self) -> nat {
        self.next as nat
    }

    /// Whether the counter can hand out one more identity.
    pub open spec fn can_issue(&self) -> bool {
        self.peek() < usize::MAX
    }
}

impl IdCounter {
    /// Whether the counter can hand out one more identity.
    pub fn has_next(&self) -> (r: bool)
        ensures
            r == self.can_issue(),
    {
        self.next < usize::MAX
    }

    /// How many identities the counter can still hand out.
    pub fn remaining(&self) -> (r: usize)
        ensures
            r == usize::MAX - self.peek(),
    {
        usize::MAX - self.next
    }
}

/// First identity handed out by a fresh counter.
pub const ID_BASE: usize = 0;

/// Create the identity allocator, starting at `ID_BASE`.
pub fn initialize() -> (c: IdCounter)
    ensures
        c.peek() == ID_BASE,
{
    IdCounter { next: ID_BASE }
}

/// Hand out the next identity: the counter's value, which then grows by one.
pub fn next_id(c: &mut IdCounter) -> (r: usize)
    requires
        old(c).can_issue(),
    ensures
        r == old(c).peek(),
        final(c).peek() == old(c).peek() + 1,
{
    let r = c.next;
    c.next = c.next + 1;
    r
}

/// Two identities drawn one after the other from a counter are distinct and
/// strictly increasing.
pub proof fn next_id_strictly_increasing(
    c0: IdCounter,
    c1: IdCounter,
    c2: IdCounter,
    a: usize,
    b: usize,
)
    requires
        a == c0.peek() && c1.peek() == c0.peek() + 1,
        b == c1.peek() && c2.peek() == c1.peek() + 1,
    ensures
        a < b,
        a != b,
{
}

} // verus!
