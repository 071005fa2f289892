//! A single owner of one value, with an arena block reserved for it.
use vstd::prelude::*;
use vstd::layout::{size_of, align_of, layout_for_type_is_valid};
use crate::heap::HeapModel;
use crate::manager::{AllocError, Manager, my_alloc, my_free};
use crate::my_vec::keeps_others;

verus! {

/// One value owned alone, with an arena block the size of the value.
pub struct MyBox<T> {
    value: T,
    block: usize,
}

impl<T> MyBox<T> {
    /// The boxed value.
    pub closed spec fn inner(&self) -> T {
        self.value
    }

    /// Offset of the arena block.
    pub closed spec fn spec_block(&self) -> nat {
        self.block as nat
    }

    /// The block is live in `m` and sized for one value.
    pub open spec fn backed_by(&self, m: HeapModel) -> bool {
        &&& m.live.contains_key(self.spec_block())
        &&& m.live[self.spec_block()].len == size_of::<T>()
    }

    /// Box `value` in a block of its size and alignment.
    pub fn new(value: T, m: &mut Manager) -> (r: Result<MyBox<T>, AllocError>)
        requires
            old(m).wf(),
        ensures
            final(m).wf(),
            keeps_others(old(m)@, final(m)@, None),
            match old(m)@.allocate(size_of::<T>(), align_of::<T>()) {
                Some((m2, p)) => r matches Ok(b) && b.inner() == value && b.spec_block() == p && final(m)@
                    == m2,
                None => r matches Err(e) && e == AllocError::OutOfMemory && final(m)@ == old(m)@,
            },
            r matches Ok(b) ==> b.backed_by(final(m)@),
    {
        layout_for_type_is_valid::<T>();
        match my_alloc(m, core::mem::size_of::<T>(), core::mem::align_of::<T>()) {
            Ok(block) => Ok(MyBox { value, block }),
            Err(e) => Err(e),
        }
    }

    /// The boxed value.
    pub fn get(&self) -> (r: &T)
        ensures
            *r == self.inner(),
    {
        &self.value
    }

    /// The boxed value, to change in place.
    pub fn get_mut(&mut self) -> (r: &mut T)
        ensures
            *r == old(self).inner(),
            final(self).inner() == *final(r),
            final(self).spec_block() == old(self).spec_block(),
    {
        &mut self.value
    }

    /// Drop the value and give the block back.
    pub fn release(self, m: &mut Manager)
        requires
            old(m).wf(),
            self.backed_by(old(m)@),
        ensures
            final(m).wf(),
            final(m)@ == old(m)@.free_at(self.spec_block()),
    {
        my_free(m, self.block);
    }
}

} // verus!
