use vstd::prelude::*;

verus! {

/// Runtime accounting of the accesses made to one cell: any number of shared
/// accesses, or exactly one exclusive access, never both.
#[derive(Clone, Copy, Debug)]
pub struct BorrowCounts {
    pub immutable: usize,
    pub mutable: bool,
}

impl BorrowCounts {
    /// The accounting is consistent: an exclusive access excludes every shared one.
    pub open spec fn wf(&self) -> bool {
        self.mutable ==> self.immutable == 0
    }

    /// No access of either kind is outstanding.
    pub open spec fn is_free(&self) -> bool {
        self.immutable == 0 && !self.mutable
    }

    pub fn new() -> (r: BorrowCounts)
        ensures
            r.is_free(),
            r.wf(),
    {
        BorrowCounts { immutable: 0, mutable: false }
    }

    /// Whether a shared access may be taken now.
    pub fn can_borrow(&self) -> (r: bool)
        ensures
            r == (!self.mutable && self.immutable < usize::MAX),
    {
        !self.mutable && self.immutable < usize::MAX
    }

    /// Whether an exclusive access may be taken now.
    pub fn can_borrow_mut(&self) -> (r: bool)
        ensures
            r == self.is_free(),
    {
        !self.mutable && self.immutable == 0
    }

    /// Record one more shared access.
    pub fn count_borrow(&mut self)
        requires
            !old(self).mutable,
            old(self).immutable < usize::MAX,
        ensures
            final(self).immutable == old(self).immutable + 1,
            !final(self).mutable,
    {
        self.immutable = self.immutable + 1;
    }

    /// Record the one exclusive access.
    pub fn count_borrow_mut(&mut self)
        requires
            old(self).is_free(),
        ensures
            final(self).immutable == 0,
            final(self).mutable,
    {
        self.mutable = true;
    }

    /// Release one shared access.
    pub fn count_unborrow(&mut self)
        requires
            old(self).immutable > 0,
        ensures
            final(self).immutable == old(self).immutable - 1,
            final(self).mutable == old(self).mutable,
    {
        self.immutable = self.immutable - 1;
    }

    /// Release the exclusive access.
    pub fn count_unborrow_mut(&mut self)
        requires
            old(self).mutable,
        ensures
            final(self).immutable == old(self).immutable,
            !final(self).mutable,
    {
        self.mutable = false;
    }
}

} // verus!
