//! A growable array whose storage is reserved from a [`Manager`].
//!
//! The container owns zero or one arena block, sized for its capacity. Element
//! values are kept in an owned buffer beside it, so that moving, dropping and
//! handing them out follows the language's own ownership rules.
use vstd::prelude::*;
use vstd::layout::{size_of, align_of, layout_for_type_is_valid};
use crate::heap::HeapModel;
use crate::manager::{AllocError, Manager, my_alloc, my_free};

verus! {

/// Capacity of the first block a container takes.
pub const FIRST_CAPACITY: usize = 4;

/// Up to this capacity a container doubles when it grows; beyond it, it grows by half.
pub const DOUBLING_LIMIT: usize = 16;

/// Bytes of arena storage for `cap` elements of `T`.
pub open spec fn storage_bytes<T>(cap: nat) -> nat {
    cap * size_of::<T>()
}

/// The capacity after one growth step from `cap`, raised to `min` when that is larger.
pub open spec fn grown_capacity(cap: nat, min: Option<nat>) -> nat {
    let g = if cap == 0 {
        FIRST_CAPACITY as nat
    } else if cap <= DOUBLING_LIMIT {
        cap * 2
    } else {
        cap + cap / 2
    };
    match min {
        Some(c) => if c > g {
            c
        } else {
            g
        },
        None => g,
    }
}

/// Allocations other than `except` are still live in `m1`, unchanged.
pub open spec fn keeps_others(m0: HeapModel, m1: HeapModel, except: Option<nat>) -> bool {
    forall|q: nat|
        #[trigger] m0.live.contains_key(q) && Some(q) != except ==> m1.live.contains_key(q) && m1.live[q]
            == m0.live[q]
}

/// `m` after giving back the block `block`, if there is one.
pub open spec fn released(m: HeapModel, block: Option<nat>) -> HeapModel {
    match block {
        Some(p) => m.free_at(p),
        None => m,
    }
}

/// The result of an operation that first makes room for `target` elements:
/// on success the allocator moved as `room_for` says and the contents became
/// `after`; on failure nothing changed.
pub open spec fn grew_then<T>(
    v0: MyVec<T>,
    v1: MyVec<T>,
    m0: HeapModel,
    m1: HeapModel,
    target: nat,
    min: Option<nat>,
    r: Result<(), AllocError>,
    after: Seq<T>,
) -> bool {
    match v0.room_for(m0, target, min) {
        Some((m2, c, b)) => {
            &&& r == Ok::<(), AllocError>(())
            &&& m1 == m2
            &&& v1.spec_capacity() == c
            &&& v1.spec_block() == b
            &&& v1@ == after
        },
        None => {
            &&& r == Err::<(), AllocError>(AllocError::OutOfMemory)
            &&& m1 == m0
            &&& v1.spec_capacity() == v0.spec_capacity()
            &&& v1.spec_block() == v0.spec_block()
            &&& v1@ == v0@
        },
    }
}

/// A growable array whose storage is an arena block.
pub struct MyVec<T> {
    items: Vec<T>,
    cap: usize,
    block: Option<usize>,
}

impl<T> View for MyVec<T> {
    type V = Seq<T>;

    closed spec fn view(&self) -> Seq<T> {
        self.items@
    }
}

impl<T> MyVec<T> {
    /// Number of elements the current block has room for.
    pub closed spec fn spec_capacity(&self) -> nat {
        self.cap as nat
    }

    /// Offset of the arena block, if the container has one.
    pub closed spec fn spec_block(&self) -> Option<nat> {
        match self.block {
            Some(p) => Some(p as nat),
            None => None,
        }
    }

    /// Length within capacity; a block exactly when the capacity is not zero.
    pub closed spec fn wf(&self) -> bool {
        &&& self.items@.len() <= self.cap
        &&& (self.cap == 0 <==> self.block is None)
    }

    /// The container is well formed and its block is live in `m`, sized for its capacity.
    pub open spec fn backed_by(&self, m: HeapModel) -> bool {
        &&& self.wf()
        &&& match self.spec_block() {
            Some(p) => m.live.contains_key(p) && m.live[p].len == storage_bytes::<T>(self.spec_capacity()),
            None => true,
        }
    }

    /// Growing the block: the allocator's next state and the new block, when
    /// the allocator can serve the larger block. The old block is given back
    /// after the new one is taken.
    pub open spec fn grow(&self, m: HeapModel, min: Option<nat>) -> Option<(HeapModel, nat)> {
        let nc = grown_capacity(self.spec_capacity(), min);
        let bytes = storage_bytes::<T>(nc);
        if nc > usize::MAX || bytes > usize::MAX {
            None
        } else {
            match m.allocate(bytes, align_of::<T>()) {
                Some((m2, p)) => Some((released(m2, self.spec_block()), p)),
                None => None,
            }
        }
    }

    /// Making room for `target` elements: the allocator's next state, the
    /// capacity and the block afterwards. Nothing changes when the capacity
    /// suffices; `None` when a needed growth cannot be served.
    pub open spec fn room_for(&self, m: HeapModel, target: nat, min: Option<nat>) -> Option<
        (HeapModel, nat, Option<nat>),
    > {
        if target <= self.spec_capacity() {
            Some((m, self.spec_capacity(), self.spec_block()))
        } else if target > usize::MAX {
            None
        } else {
            match self.grow(m, min) {
                Some((m2, p)) => Some((m2, grown_capacity(self.spec_capacity(), min), Some(p))),
                None => None,
            }
        }
    }

    /// An empty container without a block.
    pub fn new() -> (r: MyVec<T>)
        ensures
            r.wf(),
            r@ == Seq::<T>::empty(),
            r.spec_capacity() == 0,
            r.spec_block() is None,
    {
        MyVec { items: Vec::new(), cap: 0, block: None }
    }

    /// Number of elements.
    pub fn len(&self) -> (r: usize)
        ensures
            r == self@.len(),
    {
        self.items.len()
    }

    /// Number of elements the current block has room for.
    pub fn capacity(&self) -> (r: usize)
        ensures
            r == self.spec_capacity(),
    {
        self.cap
    }

    /// Whether there are no elements.
    pub fn is_empty(&self) -> (r: bool)
        ensures
            r == (self@.len() == 0),
    {
        self.items.len() == 0
    }

    /// Move the storage to a larger block: take the new block, then give the
    /// old one back. The element values do not move.
    fn reallocate(&mut self, min: Option<usize>, m: &mut Manager) -> (r: Result<(), AllocError>)
        requires
            old(m).wf(),
            old(self).backed_by(old(m)@),
        ensures
            final(m).wf(),
            final(self)@ == old(self)@,
            final(self).backed_by(final(m)@),
            keeps_others(old(m)@, final(m)@, old(self).spec_block()),
            (final(self).spec_block() matches Some(p) && old(m)@.live.contains_key(p))
                ==> final(self).spec_block() == old(self).spec_block(),
            match old(self).grow(
                old(m)@,
                match min {
                    Some(c) => Some(c as nat),
                    None => None,
                },
            ) {
                Some((m2, p)) => {
                    &&& r == Ok::<(), AllocError>(())
                    &&& final(m)@ == m2
                    &&& final(self).spec_block() == Some(p)
                    &&& final(self).spec_capacity() == grown_capacity(
                        old(self).spec_capacity(),
                        match min {
                            Some(c) => Some(c as nat),
                            None => None,
                        },
                    )
                },
                None => {
                    &&& r == Err::<(), AllocError>(AllocError::OutOfMemory)
                    &&& final(m)@ == old(m)@
                    &&& final(self).spec_block() == old(self).spec_block()
                    &&& final(self).spec_capacity() == old(self).spec_capacity()
                },
            },
    {
        layout_for_type_is_valid::<T>();
        let elem = core::mem::size_of::<T>();
        let align = core::mem::align_of::<T>();
        let grown = if self.cap == 0 {
            Some(FIRST_CAPACITY)
        } else if self.cap <= DOUBLING_LIMIT {
            Some(self.cap * 2)
        } else {
            self.cap.checked_add(self.cap / 2)
        };
        let g = match grown {
            Some(g) => g,
            None => {
                return Err(AllocError::OutOfMemory);
            },
        };
        let new_cap = match min {
            Some(c) => if c > g {
                c
            } else {
                g
            },
            None => g,
        };
        let bytes = match new_cap.checked_mul(elem) {
            Some(b) => b,
            None => {
                return Err(AllocError::OutOfMemory);
            },
        };
        let p = match my_alloc(m, bytes, align) {
            Ok(p) => p,
            Err(e) => {
                return Err(e);
            },
        };
        match self.block {
            Some(q) => {
                my_free(m, q);
            },
            None => {},
        }
        self.block = Some(p);
        self.cap = new_cap;
        Ok(())
    }

    /// Make room for `additional` more elements, growing to at least `min`
    /// elements when a growth is needed.
    fn reserve(&mut self, additional: usize, min: Option<usize>, m: &mut Manager) -> (r: Result<(), AllocError>)
        requires
            old(m).wf(),
            old(self).backed_by(old(m)@),
            min matches Some(c) ==> c == old(self)@.len() + additional,
            min is None ==> additional <= 1,
        ensures
            final(m).wf(),
            final(self)@ == old(self)@,
            keeps_others(old(m)@, final(m)@, old(self).spec_block()),
            match old(self).room_for(
                old(m)@,
                (old(self)@.len() + additional) as nat,
                match min {
                    Some(c) => Some(c as nat),
                    None => None,
                },
            ) {
                Some((m2, c, b)) => {
                    &&& r == Ok::<(), AllocError>(())
                    &&& final(m)@ == m2
                    &&& final(self).spec_capacity() == c
                    &&& final(self).spec_block() == b
                    &&& final(self)@.len() + additional <= c
                },
                None => {
                    &&& r == Err::<(), AllocError>(AllocError::OutOfMemory)
                    &&& final(m)@ == old(m)@
                    &&& final(self).spec_capacity() == old(self).spec_capacity()
                    &&& final(self).spec_block() == old(self).spec_block()
                },
            },
            final(self).backed_by(final(m)@),
            (final(self).spec_block() matches Some(p) && old(m)@.live.contains_key(p))
                ==> final(self).spec_block() == old(self).spec_block(),
    {
        let target = match self.items.len().checked_add(additional) {
            Some(t) => t,
            None => {
                return Err(AllocError::OutOfMemory);
            },
        };
        if target <= self.cap {
            return Ok(());
        }
        self.reallocate(min, m)
    }

    /// A container with room for `capacity` elements. A zero capacity takes no block.
    pub fn with_capacity(capacity: usize, m: &mut Manager) -> (r: Result<MyVec<T>, AllocError>)
        requires
            old(m).wf(),
        ensures
            final(m).wf(),
            keeps_others(old(m)@, final(m)@, None),
            capacity == 0 ==> (r matches Ok(v) && v@ == Seq::<T>::empty() && v.spec_capacity() == 0
                && v.spec_block() is None && final(m)@ == old(m)@),
            capacity > 0 ==> match old(m)@.allocate(storage_bytes::<T>(capacity as nat), align_of::<T>()) {
                Some((m2, p)) => storage_bytes::<T>(capacity as nat) <= usize::MAX ==> (r matches Ok(v)
                    && v@ == Seq::<T>::empty() && v.spec_capacity() == capacity && v.spec_block() == Some(p)
                    && final(m)@ == m2),
                None => r == Err::<MyVec<T>, AllocError>(AllocError::OutOfMemory) && final(m)@ == old(m)@,
            },
            storage_bytes::<T>(capacity as nat) > usize::MAX ==> r == Err::<MyVec<T>, AllocError>(
                AllocError::OutOfMemory,
            ) && final(m)@ == old(m)@,
            r matches Ok(v) ==> v.backed_by(final(m)@),
    {
        if capacity == 0 {
            return Ok(MyVec::new());
        }
        layout_for_type_is_valid::<T>();
        let bytes = match capacity.checked_mul(core::mem::size_of::<T>()) {
            Some(b) => b,
            None => {
                return Err(AllocError::OutOfMemory);
            },
        };
        match my_alloc(m, bytes, core::mem::align_of::<T>()) {
            Ok(p) => Ok(MyVec { items: Vec::new(), cap: capacity, block: Some(p) }),
            Err(e) => Err(e),
        }
    }

    /// Append `value`, growing first when the container is full.
    pub fn push(&mut self, value: T, m: &mut Manager) -> (r: Result<(), AllocError>)
        requires
            old(m).wf(),
            old(self).backed_by(old(m)@),
        ensures
            final(m).wf(),
            final(self).backed_by(final(m)@),
            keeps_others(old(m)@, final(m)@, old(self).spec_block()),
            grew_then(
                *old(self),
                *final(self),
                old(m)@,
                final(m)@,
                (old(self)@.len() + 1) as nat,
                None,
                r,
                old(self)@.push(value),
            ),
    {
        match self.reserve(1, None, m) {
            Ok(()) => {},
            Err(e) => {
                return Err(e);
            },
        }
        self.items.push(value);
        Ok(())
    }

    /// Put `value` at `index`, shifting the elements from there one place right.
    pub fn insert(&mut self, index: usize, value: T, m: &mut Manager) -> (r: Result<(), AllocError>)
        requires
            old(m).wf(),
            old(self).backed_by(old(m)@),
            index <= old(self)@.len(),
        ensures
            final(m).wf(),
            final(self).backed_by(final(m)@),
            keeps_others(old(m)@, final(m)@, old(self).spec_block()),
            grew_then(
                *old(self),
                *final(self),
                old(m)@,
                final(m)@,
                (old(self)@.len() + 1) as nat,
                None,
                r,
                old(self)@.insert(index as int, value),
            ),
    {
        match self.reserve(1, None, m) {
            Ok(()) => {},
            Err(e) => {
                return Err(e);
            },
        }
        self.items.insert(index, value);
        Ok(())
    }

    /// Remove every element; the block stays.
    pub fn clear(&mut self)
        requires
            old(self).wf(),
        ensures
            final(self).wf(),
            final(self)@ == Seq::<T>::empty(),
            final(self).spec_capacity() == old(self).spec_capacity(),
            final(self).spec_block() == old(self).spec_block(),
    {
        self.items.clear();
    }

    /// Remove and return the last element, or `None` when there is none.
    pub fn pop(&mut self) -> (r: Option<T>)
        requires
            old(self).wf(),
        ensures
            final(self).wf(),
            final(self).spec_capacity() == old(self).spec_capacity(),
            final(self).spec_block() == old(self).spec_block(),
            old(self)@.len() == 0 ==> r is None && final(self)@ == old(self)@,
            old(self)@.len() > 0 ==> r == Some(old(self)@.last()) && final(self)@ == old(self)@.drop_last(),
    {
        self.items.pop()
    }

    /// Remove and return the element at `index`, shifting the rest one place left.
    pub fn remove(&mut self, index: usize) -> (r: T)
        requires
            old(self).wf(),
            index < old(self)@.len(),
        ensures
            final(self).wf(),
            final(self).spec_capacity() == old(self).spec_capacity(),
            final(self).spec_block() == old(self).spec_block(),
            r == old(self)@[index as int],
            final(self)@ == old(self)@.remove(index as int),
    {
        self.items.remove(index)
    }

    /// Keep the first `len` elements and drop the rest.
    pub fn truncate(&mut self, len: usize)
        requires
            old(self).wf(),
            len <= old(self)@.len(),
        ensures
            final(self).wf(),
            final(self).spec_capacity() == old(self).spec_capacity(),
            final(self).spec_block() == old(self).spec_block(),
            final(self)@ == old(self)@.subrange(0, len as int),
    {
        self.items.truncate(len);
    }

    /// The element at `index`.
    pub fn index(&self, index: usize) -> (r: &T)
        requires
            index < self@.len(),
        ensures
            *r == self@[index as int],
    {
        &self.items[index]
    }

    /// The element at `index`, to change in place.
    pub fn index_mut(&mut self, index: usize) -> (r: &mut T)
        requires
            index < old(self)@.len(),
        ensures
            *r == old(self)@[index as int],
            final(self)@ == old(self)@.update(index as int, *final(r)),
            final(self).spec_capacity() == old(self).spec_capacity(),
            final(self).spec_block() == old(self).spec_block(),
            old(self).wf() ==> final(self).wf(),
    {
        &mut self.items[index]
    }

    /// The elements as a slice.
    pub fn as_slice(&self) -> (r: &[T])
        ensures
            r@ == self@,
    {
        self.items.as_slice()
    }

    /// Destroy the container: drop its elements and give its block back.
    pub fn release(self, m: &mut Manager)
        requires
            old(m).wf(),
            self.backed_by(old(m)@),
        ensures
            final(m).wf(),
            final(m)@ == released(old(m)@, self.spec_block()),
    {
        match self.block {
            Some(p) => {
                my_free(m, p);
            },
            None => {},
        }
    }
}

/// Copy every element of `slice` onto the end of `items`.
fn push_all<T: Copy>(items: &mut Vec<T>, slice: &[T])
    ensures
        final(items)@ == old(items)@ + slice@,
{
    let ghost start = items@;
    let mut i: usize = 0;
    while i < slice.len()
        invariant
            i <= slice@.len(),
            items@ == start + slice@.subrange(0, i as int),
        decreases slice@.len() - i,
    {
        let x = slice[i];
        items.push(x);
        i = i + 1;
        proof {
            assert(slice@.subrange(0, i as int) =~= slice@.subrange(0, i - 1 as int).push(x));
        }
    }
    proof {
        assert(slice@.subrange(0, i as int) =~= slice@);
    }
}

impl<T: Copy> MyVec<T> {
    /// A container holding a copy of `slice`, with exactly its length as capacity.
    pub fn from_slice(slice: &[T], m: &mut Manager) -> (r: Result<MyVec<T>, AllocError>)
        requires
            old(m).wf(),
        ensures
            final(m).wf(),
            keeps_others(old(m)@, final(m)@, None),
            r matches Ok(v) ==> v.backed_by(final(m)@) && v@ == slice@ && v.spec_capacity() == slice@.len(),
            slice@.len() == 0 ==> r is Ok && final(m)@ == old(m)@,
            slice@.len() > 0 ==> match old(m)@.allocate(storage_bytes::<T>(slice@.len()), align_of::<T>()) {
                Some((m2, p)) => storage_bytes::<T>(slice@.len()) <= usize::MAX ==> (r matches Ok(v)
                    && v.spec_block() == Some(p) && final(m)@ == m2),
                None => r == Err::<MyVec<T>, AllocError>(AllocError::OutOfMemory) && final(m)@ == old(m)@,
            },
            storage_bytes::<T>(slice@.len()) > usize::MAX ==> r == Err::<MyVec<T>, AllocError>(
                AllocError::OutOfMemory,
            ) && final(m)@ == old(m)@,
    {
        let mut v = match MyVec::with_capacity(slice.len(), m) {
            Ok(v) => v,
            Err(e) => {
                return Err(e);
            },
        };
        push_all(&mut v.items, slice);
        Ok(v)
    }

    /// Append a copy of `slice`. When it does not fit, grow to at least the
    /// combined length first.
    pub fn extend_from_slice(&mut self, slice: &[T], m: &mut Manager) -> (r: Result<(), AllocError>)
        requires
            old(m).wf(),
            old(self).backed_by(old(m)@),
        ensures
            final(m).wf(),
            final(self).backed_by(final(m)@),
            keeps_others(old(m)@, final(m)@, old(self).spec_block()),
            grew_then(
                *old(self),
                *final(self),
                old(m)@,
                final(m)@,
                old(self)@.len() + slice@.len(),
                Some(old(self)@.len() + slice@.len()),
                r,
                old(self)@ + slice@,
            ),
    {
        let target = match self.items.len().checked_add(slice.len()) {
            Some(t) => t,
            None => {
                return Err(AllocError::OutOfMemory);
            },
        };
        match self.reserve(slice.len(), Some(target), m) {
            Ok(()) => {},
            Err(e) => {
                return Err(e);
            },
        }
        push_all(&mut self.items, slice);
        Ok(())
    }

    /// Put a copy of `slice` at `index`, shifting the elements from there
    /// right. When it does not fit, grow to at least the combined length first.
    pub fn insert_slice(&mut self, index: usize, slice: &[T], m: &mut Manager) -> (r: Result<(), AllocError>)
        requires
            old(m).wf(),
            old(self).backed_by(old(m)@),
            index <= old(self)@.len(),
        ensures
            final(m).wf(),
            final(self).backed_by(final(m)@),
            keeps_others(old(m)@, final(m)@, old(self).spec_block()),
            grew_then(
                *old(self),
                *final(self),
                old(m)@,
                final(m)@,
                old(self)@.len() + slice@.len(),
                Some(old(self)@.len() + slice@.len()),
                r,
                old(self)@.subrange(0, index as int) + slice@ + old(self)@.subrange(
                    index as int,
                    old(self)@.len() as int,
                ),
            ),
    {
        let target = match self.items.len().checked_add(slice.len()) {
            Some(t) => t,
            None => {
                return Err(AllocError::OutOfMemory);
            },
        };
        match self.reserve(slice.len(), Some(target), m) {
            Ok(()) => {},
            Err(e) => {
                return Err(e);
            },
        }
        let mut tail = self.items.split_off(index);
        push_all(&mut self.items, slice);
        self.items.append(&mut tail);
        Ok(())
    }
}

/// `rev` read back to front.
pub open spec fn reversed<T>(rev: Seq<T>) -> Seq<T> {
    Seq::new(rev.len(), |i: int| rev[rev.len() - 1 - i])
}

/// The elements taken out of a container by `drain`, handed out front to back.
/// Those not taken are dropped with it.
pub struct MyDrain<T> {
    rev: Vec<T>,
}

impl<T> View for MyDrain<T> {
    type V = Seq<T>;

    /// The elements not yet handed out, in order.
    closed spec fn view(&self) -> Seq<T> {
        reversed(self.rev@)
    }
}

impl<T> MyDrain<T> {
    /// The next element, or `None` when all have been handed out.
    pub fn next(&mut self) -> (r: Option<T>)
        ensures
            old(self)@.len() == 0 ==> r is None && final(self)@ == old(self)@,
            old(self)@.len() > 0 ==> r == Some(old(self)@[0]) && final(self)@ == old(self)@.drop_first(),
    {
        let r = self.rev.pop();
        proof {
            if old(self)@.len() > 0 {
                assert(self@ =~= old(self)@.drop_first());
            }
        }
        r
    }

    /// Lower and upper bound of the number of elements left: both exact.
    pub fn size_hint(&self) -> (r: (usize, Option<usize>))
        ensures
            r.0 == self@.len(),
            r.1 == Some(self@.len() as usize),
    {
        (self.rev.len(), Some(self.rev.len()))
    }
}

/// A consuming walk over a container's elements. It keeps the container's
/// block until `release` gives it back.
pub struct MyVecIntoIter<T> {
    rev: Vec<T>,
    block: Option<usize>,
}

impl<T> View for MyVecIntoIter<T> {
    type V = Seq<T>;

    /// The elements not yet handed out, in order.
    closed spec fn view(&self) -> Seq<T> {
        reversed(self.rev@)
    }
}

impl<T> MyVecIntoIter<T> {
    /// Offset of the block taken over from the container, if any.
    pub closed spec fn spec_block(&self) -> Option<nat> {
        match self.block {
            Some(p) => Some(p as nat),
            None => None,
        }
    }

    /// The block taken over from the container is live in `m`.
    pub open spec fn backed_by(&self, m: HeapModel) -> bool {
        self.spec_block() matches Some(p) ==> m.live.contains_key(p)
    }

    /// The next element, or `None` when all have been handed out.
    pub fn next(&mut self) -> (r: Option<T>)
        ensures
            final(self).spec_block() == old(self).spec_block(),
            old(self)@.len() == 0 ==> r is None && final(self)@ == old(self)@,
            old(self)@.len() > 0 ==> r == Some(old(self)@[0]) && final(self)@ == old(self)@.drop_first(),
    {
        let r = self.rev.pop();
        proof {
            if old(self)@.len() > 0 {
                assert(self@ =~= old(self)@.drop_first());
            }
        }
        r
    }

    /// Lower and upper bound of the number of elements left: both exact.
    pub fn size_hint(&self) -> (r: (usize, Option<usize>))
        ensures
            r.0 == self@.len(),
            r.1 == Some(self@.len() as usize),
    {
        (self.rev.len(), Some(self.rev.len()))
    }

    /// End the walk: drop the elements not handed out and give the block back.
    pub fn release(self, m: &mut Manager)
        requires
            old(m).wf(),
            self.backed_by(old(m)@),
        ensures
            final(m).wf(),
            final(m)@ == released(old(m)@, self.spec_block()),
    {
        match self.block {
            Some(p) => {
                my_free(m, p);
            },
            None => {},
        }
    }
}

/// A shared walk over a container's elements.
pub struct MyVecIter<'a, T> {
    vec: &'a MyVec<T>,
    index: usize,
}

impl<'a, T> MyVecIter<'a, T> {
    /// The elements not yet handed out, in order.
    pub closed spec fn remaining(&self) -> Seq<T> {
        self.vec@.subrange(self.index as int, self.vec@.len() as int)
    }

    /// Well formed: the position is inside the container.
    pub closed spec fn wf(&self) -> bool {
        self.index <= self.vec@.len()
    }

    /// The next element, or `None` when all have been handed out.
    pub fn next(&mut self) -> (r: Option<&'a T>)
        requires
            old(self).wf(),
        ensures
            final(self).wf(),
            old(self).remaining().len() == 0 ==> r is None && final(self).remaining() == old(self).remaining(),
            old(self).remaining().len() > 0 ==> (r matches Some(x) && *x == old(self).remaining()[0]
                && final(self).remaining() == old(self).remaining().drop_first()),
    {
        if self.index < self.vec.items.len() {
            let x = &self.vec.items[self.index];
            self.index = self.index + 1;
            proof {
                assert(self.remaining() =~= old(self).remaining().drop_first());
            }
            Some(x)
        } else {
            None
        }
    }

    /// Lower and upper bound of the number of elements left: both exact.
    pub fn size_hint(&self) -> (r: (usize, Option<usize>))
        requires
            self.wf(),
        ensures
            r.0 == self.remaining().len(),
            r.1 == Some(self.remaining().len() as usize),
    {
        let n = self.vec.items.len() - self.index;
        (n, Some(n))
    }
}

/// A walk over a container's elements that lends each one out to be changed.
pub struct MyVecIterMut<'a, T> {
    /// The container being walked.
    pub vec: &'a mut MyVec<T>,
    /// How many elements have been handed out.
    pub index: usize,
}

impl<'a, T> MyVecIterMut<'a, T> {
    /// The container being walked, as it stands.
    pub open spec fn target(&self) -> MyVec<T> {
        *self.vec
    }

    /// How many elements have been handed out.
    pub open spec fn position(&self) -> nat {
        self.index as nat
    }

    /// Well formed: the position is inside the container.
    pub open spec fn wf(&self) -> bool {
        self.index <= self.vec@.len()
    }

    /// The next element, to change in place, or `None` when all have been handed out.
    pub fn next(&mut self) -> (r: Option<&mut T>)
        requires
            old(self).wf(),
        ensures
            final(self).wf(),
            final(self).target().spec_capacity() == old(self).target().spec_capacity(),
            final(self).target().spec_block() == old(self).target().spec_block(),
            old(self).target().wf() ==> final(self).target().wf(),
            old(self).position() == old(self).target()@.len() ==> r is None && final(self).target()@
                == old(self).target()@ && final(self).position() == old(self).position(),
            old(self).position() < old(self).target()@.len() ==> (r matches Some(x) && *x == old(
                self,
            ).target()@[old(self).position() as int] && final(self).position() == old(self).position()
                + 1 && final(self).target()@ == old(self).target()@.update(
                old(self).position() as int,
                *final(x),
            )),
    {
        if self.index < self.vec.items.len() {
            let i = self.index;
            self.index = i + 1;
            Some(self.vec.index_mut(i))
        } else {
            None
        }
    }
}

impl<T> MyVec<T> {
    /// Walk the elements, each lent out to be changed.
    pub fn iter_mut(&mut self) -> (r: MyVecIterMut<'_, T>)
        ensures
            r.wf(),
            r.position() == 0,
            r.target() == *old(self),
            *final(self) == *final(r.vec),
    {
        MyVecIterMut { vec: self, index: 0 }
    }

    /// Move all elements of `other` to the end, then give `other`'s block back.
    /// When they do not fit, grow to at least the combined length first; if
    /// that fails, `other` is dropped and its block given back.
    pub fn append(&mut self, other: MyVec<T>, m: &mut Manager) -> (r: Result<(), AllocError>)
        requires
            old(m).wf(),
            old(self).backed_by(old(m)@),
            other.backed_by(old(m)@),
            other.spec_block() is None || other.spec_block() != old(self).spec_block(),
        ensures
            final(m).wf(),
            final(self).backed_by(final(m)@),
            forall|q: nat|
                #[trigger] old(m)@.live.contains_key(q) && Some(q) != old(self).spec_block() && Some(q)
                    != other.spec_block() ==> final(m)@.live.contains_key(q) && final(m)@.live[q] == old(
                    m,
                )@.live[q],
            match old(self).room_for(
                old(m)@,
                old(self)@.len() + other@.len(),
                Some(old(self)@.len() + other@.len()),
            ) {
                Some((m2, c, b)) => {
                    &&& r == Ok::<(), AllocError>(())
                    &&& final(m)@ == released(m2, other.spec_block())
                    &&& final(self).spec_capacity() == c
                    &&& final(self).spec_block() == b
                    &&& final(self)@ == old(self)@ + other@
                },
                None => {
                    &&& r == Err::<(), AllocError>(AllocError::OutOfMemory)
                    &&& final(m)@ == released(old(m)@, other.spec_block())
                    &&& final(self).spec_capacity() == old(self).spec_capacity()
                    &&& final(self).spec_block() == old(self).spec_block()
                    &&& final(self)@ == old(self)@
                },
            },
    {
        let mut other = other;
        let reserved = match self.items.len().checked_add(other.items.len()) {
            Some(target) => self.reserve(other.items.len(), Some(target), m),
            None => Err(AllocError::OutOfMemory),
        };
        let r = match reserved {
            Ok(()) => {
                self.items.append(&mut other.items);
                Ok(())
            },
            Err(e) => Err(e),
        };
        match other.block {
            Some(q) => {
                my_free(m, q);
            },
            None => {},
        }
        r
    }

    /// Take the elements `range.start..range.end` out, closing the gap; they
    /// are handed out by the returned value, front to back.
    pub fn drain(&mut self, range: core::ops::Range<usize>) -> (r: MyDrain<T>)
        requires
            old(self).wf(),
            range.start <= range.end <= old(self)@.len(),
        ensures
            final(self).wf(),
            final(self).spec_capacity() == old(self).spec_capacity(),
            final(self).spec_block() == old(self).spec_block(),
            final(self)@ == old(self)@.subrange(0, range.start as int) + old(self)@.subrange(
                range.end as int,
                old(self)@.len() as int,
            ),
            r@ == old(self)@.subrange(range.start as int, range.end as int),
    {
        let start = range.start;
        let end = range.end;
        let ghost before = self.items@;
        let mut tail = self.items.split_off(end);
        let mut rev: Vec<T> = Vec::new();
        while self.items.len() > start
            invariant
                start <= self.items@.len() <= end,
                end <= before.len(),
                self.cap == old(self).cap,
                self.block == old(self).block,
                self.items@ == before.subrange(0, self.items@.len() as int),
                tail@ == before.subrange(end as int, before.len() as int),
                rev@.len() == end - self.items@.len(),
                forall|j: int| 0 <= j < rev@.len() ==> #[trigger] rev@[j] == before[end - 1 - j],
            decreases self.items@.len(),
        {
            match self.items.pop() {
                Some(x) => {
                    rev.push(x);
                },
                None => {},
            }
        }
        self.items.append(&mut tail);
        let r = MyDrain { rev };
        proof {
            assert(r@ =~= before.subrange(start as int, end as int));
            assert(self.items@ =~= before.subrange(0, start as int) + before.subrange(end as int, before.len() as int));
        }
        r
    }

    /// Walk the elements without taking them.
    pub fn iter(&self) -> (r: MyVecIter<'_, T>)
        ensures
            r.wf(),
            r.remaining() == self@,
    {
        let r = MyVecIter { vec: self, index: 0 };
        proof {
            assert(r.remaining() =~= self@);
        }
        r
    }

    /// Walk the elements, taking them and the block with the walk.
    pub fn into_iter(self) -> (r: MyVecIntoIter<T>)
        ensures
            r@ == self@,
            r.spec_block() == self.spec_block(),
    {
        let mut items = self.items;
        let ghost before = items@;
        let mut rev: Vec<T> = Vec::new();
        while items.len() > 0
            invariant
                items@ == before.subrange(0, items@.len() as int),
                rev@.len() == before.len() - items@.len(),
                forall|j: int| 0 <= j < rev@.len() ==> #[trigger] rev@[j] == before[before.len() - 1 - j],
            decreases items@.len(),
        {
            match items.pop() {
                Some(x) => {
                    rev.push(x);
                },
                None => {},
            }
        }
        let r = MyVecIntoIter { rev, block: self.block };
        proof {
            assert(r@ =~= before);
        }
        r
    }
}

} // verus!
