//! A growable raw buffer: tracks one block of storage for values of a fixed
//! type, with amortised growth, and never touches the values themselves.
use core::marker::PhantomData;
use vstd::prelude::*;

use crate::allocator::{
    array_layout_spec, max_object_size, AllocError, Allocator, Block, Error, Global, Layout,
    LayoutError,
};

verus! {

/// Whether the buffer's element type takes no space.
pub open spec fn is_zst<T>() -> bool {
    size_of::<T>() == 0
}

/// The smallest capacity a growing buffer jumps to: 8 for one-byte
/// elements, 4 for elements of at most 1 KiB, else 1.
pub open spec fn min_non_zero_cap_spec<T>() -> nat {
    if size_of::<T>() == 1 {
        8
    } else if size_of::<T>() <= 1024 {
        4
    } else {
        1
    }
}

/// The capacity amortised growth asks for: at least twice the old capacity,
/// at least what is required, and at least the minimum non-zero capacity.
pub open spec fn amortized_cap(old_cap: nat, required: nat, min_cap: nat) -> nat {
    let doubled = 2 * old_cap;
    let c = if doubled >= required {
        doubled
    } else {
        required
    };
    if min_cap >= c {
        min_cap
    } else {
        c
    }
}

/// `cap - len` computed with wrap-around on `usize`.
pub open spec fn wrapping_room(cap: usize, len: usize) -> int {
    if len <= cap {
        cap - len
    } else {
        cap - len + usize::MAX + 1
    }
}

/// Capacity growth from an empty request: reserving `k` more slots on a
/// buffer of capacity `cap < k` (with nothing stored) yields at least `k`
/// slots; exactly `max(2 * cap, k)` when that reaches the minimum non-zero
/// capacity, and `max(min, k)` otherwise.
pub proof fn lemma_reserve_from_empty(cap: nat, k: nat, min_cap: nat)
    requires
        k > cap,
    ensures
        amortized_cap(cap, k, min_cap) >= k,
        amortized_cap(cap, k, min_cap) >= 2 * cap,
        (if 2 * cap >= k { 2 * cap } else { k }) >= min_cap ==> amortized_cap(cap, k, min_cap) == (
        if 2 * cap >= k {
            2 * cap
        } else {
            k
        }),
        (if 2 * cap >= k { 2 * cap } else { k }) < min_cap ==> amortized_cap(cap, k, min_cap) == (
        if min_cap >= k {
            min_cap
        } else {
            k
        }),
{
}

enum AllocInit {
    /// The contents of the new memory are uninitialized.
    Uninitialized,
    /// The new memory is guaranteed to be zeroed.
    Zeroed,
}

/// Owns a block of storage for `capacity()` values of `T`, obtained from the
/// allocator `A`. Capacity 0 means nothing is allocated; a zero-sized `T`
/// never allocates and reports `usize::MAX`. It never creates or destroys
/// values: whoever stores values in it manages them. Its block goes back to
/// the allocator through `free`; a buffer that is simply dropped gives it
/// back to no one.
#[derive(Debug)]
pub struct RawVec<T, A: Allocator = Global> {
    ptr: Option<Block>,
    cap: usize,
    alloc: A,
    _marker: PhantomData<T>,
}

impl<T> RawVec<T, Global> {
    /// An empty buffer on the default allocator; allocates nothing.
    pub fn new() -> (r: Self)
        ensures
            r.wf(),
            r.capacity() == (if is_zst::<T>() {
                usize::MAX
            } else {
                0
            }),
            r.current_block() is None,
    {
        Self::new_in(Global)
    }
}

impl<T, A: Allocator> RawVec<T, A> {
    /// The buffer's internal consistency: a tracked capacity of 0 exactly
    /// when nothing is allocated, a block laid out for exactly `cap` values,
    /// and a total size within the largest object size.
    pub closed spec fn wf(&self) -> bool {
        &&& is_zst::<T>() ==> self.ptr is None && self.cap == 0
        &&& !is_zst::<T>() ==> (self.ptr is None <==> self.cap == 0)
        &&& self.cap * size_of::<T>() <= max_object_size()
        &&& (self.ptr matches Some(b) ==> b.layout == array_layout_spec::<T>(self.cap as nat))
    }

    /// The capacity the buffer reports.
    pub closed spec fn spec_capacity(&self) -> usize {
        if is_zst::<T>() {
            usize::MAX
        } else {
            self.cap
        }
    }

    /// The block the buffer currently owns, if any.
    pub closed spec fn current_block(&self) -> Option<Block> {
        self.ptr
    }

    /// The allocator the buffer draws from.
    pub closed spec fn spec_allocator(&self) -> A {
        self.alloc
    }

    fn min_non_zero_cap() -> (r: usize)
        ensures
            r == min_non_zero_cap_spec::<T>(),
    {
        let size = core::mem::size_of::<T>();
        if size == 1 {
            8
        } else if size <= 1024 {
            4
        } else {
            1
        }
    }

    /// An empty buffer on `alloc`; allocates nothing.
    pub fn new_in(alloc: A) -> (r: Self)
        ensures
            r.wf(),
            r.capacity() == (if is_zst::<T>() {
                usize::MAX
            } else {
                0
            }),
            r.current_block() is None,
            r.spec_allocator() == alloc,
    {
        RawVec { ptr: None, cap: 0, alloc, _marker: PhantomData }
    }

    /// A buffer with room for exactly `capacity` values, allocated through
    /// `alloc`. A zero capacity or a zero-sized `T` allocates nothing.
    pub fn try_with_capacity_in(capacity: usize, alloc: A) -> (r: Result<Self, Error>)
        ensures
            Self::allocate_outcome(capacity, alloc, r),
    {
        Self::try_allocate_in(capacity, AllocInit::Uninitialized, alloc)
    }

    /// As `try_with_capacity_in`, with the new block zeroed.
    pub fn try_with_capacity_zeroed_in(capacity: usize, alloc: A) -> (r: Result<Self, Error>)
        ensures
            Self::allocate_outcome(capacity, alloc, r),
    {
        Self::try_allocate_in(capacity, AllocInit::Zeroed, alloc)
    }

    /// What creating a buffer of `capacity` values on `alloc` may return.
    pub open spec fn allocate_outcome(capacity: usize, alloc: A, r: Result<Self, Error>) -> bool {
        &&& (r matches Ok(v) ==> v.wf() && v.spec_allocator() == alloc)
        &&& (is_zst::<T>() || capacity == 0) ==> (r matches Ok(v) && v.current_block() is None
            && v.capacity() == (if is_zst::<T>() {
            usize::MAX
        } else {
            0
        }))
        &&& (!is_zst::<T>() && capacity > 0 && capacity * size_of::<T>() > max_object_size())
            ==> r == Err::<Self, Error>(Error::CapacityOverflow)
        &&& (!is_zst::<T>() && capacity > 0 && capacity * size_of::<T>() <= max_object_size())
            ==> match r {
            Ok(v) => v.capacity() == capacity && v.current_block() is Some,
            Err(e) => e == Error::AllocError { layout: array_layout_spec::<T>(capacity as nat) },
        }
        &&& (!is_zst::<T>() && capacity > 0 && capacity * size_of::<T>() <= max_object_size()
            && alloc.grants_every_request()) ==> r is Ok
    }

    fn try_allocate_in(capacity: usize, init: AllocInit, alloc: A) -> (r: Result<Self, Error>)
        ensures
            Self::allocate_outcome(capacity, alloc, r),
    {
        vstd::layout::layout_for_type_is_valid::<T>();
        if core::mem::size_of::<T>() == 0 || capacity == 0 {
            Ok(Self::new_in(alloc))
        } else {
            let layout = match Layout::array::<T>(capacity) {
                Ok(layout) => layout,
                Err(_) => return Err(Error::CapacityOverflow),
            };
            match alloc_guard(layout.size) {
                Ok(_) => {},
                Err(_) => return Err(Error::CapacityOverflow),
            }
            let res = match init {
                AllocInit::Uninitialized => alloc.allocate(layout),
                AllocInit::Zeroed => alloc.allocate_zeroed(layout),
            };
            match res {
                Ok(block) => Ok(RawVec { ptr: Some(block), cap: capacity, alloc, _marker: PhantomData }),
                Err(e) => Err(e.into_error()),
            }
        }
    }

    /// Reassembles a buffer from the block it owns (none for capacity 0),
    /// its capacity, and the allocator the block came from.
    pub fn from_raw_parts_in(block: Option<Block>, capacity: usize, alloc: A) -> (r: Self)
        requires
            is_zst::<T>() ==> block is None,
            !is_zst::<T>() ==> (block is None <==> capacity == 0),
            capacity * size_of::<T>() <= max_object_size(),
            block matches Some(b) ==> b.layout == array_layout_spec::<T>(capacity as nat),
        ensures
            r.wf(),
            r.capacity() == (if is_zst::<T>() {
                usize::MAX
            } else {
                capacity
            }),
            r.current_block() == block,
            r.spec_allocator() == alloc,
    {
        let cap = if core::mem::size_of::<T>() == 0 {
            0
        } else {
            capacity
        };
        RawVec { ptr: block, cap, alloc, _marker: PhantomData }
    }

    /// The address of the start of the storage; the aligned placeholder
    /// `align_of::<T>()` while nothing is allocated.
    pub fn ptr(&self) -> (r: usize)
        ensures
            r == match self.current_block() {
                Some(b) => b.addr,
                None => align_of::<T>() as usize,
            },
    {
        match self.ptr {
            Some(b) => b.addr,
            None => core::mem::align_of::<T>(),
        }
    }

    /// How many values the buffer has room for; `usize::MAX` for a
    /// zero-sized `T`.
    #[verifier::when_used_as_spec(spec_capacity)]
    pub fn capacity(&self) -> (r: usize)
        ensures
            r == self.spec_capacity(),
    {
        if core::mem::size_of::<T>() == 0 {
            usize::MAX
        } else {
            self.cap
        }
    }

    /// The allocator backing this buffer.
    pub fn allocator(&self) -> (r: &A)
        ensures
            *r == self.spec_allocator(),
    {
        &self.alloc
    }

    fn current_memory(&self) -> (r: Option<Block>)
        requires
            self.wf(),
        ensures
            r == self.current_block(),
            (r matches Some(b) ==> !is_zst::<T>() && self.cap > 0 && b.layout
                == array_layout_spec::<T>(self.cap as nat)),
    {
        if core::mem::size_of::<T>() == 0 || self.cap == 0 {
            None
        } else {
            self.ptr
        }
    }

    /// Makes room for `len + additional` values, growing amortised (see
    /// `amortized_cap`) when `additional` exceeds `capacity() - len`. On any
    /// failure the buffer is left unchanged.
    pub fn try_reserve(&mut self, len: usize, additional: usize) -> (r: Result<(), Error>)
        requires
            old(self).wf(),
        ensures
            final(self).wf(),
            additional <= wrapping_room(old(self).capacity(), len) ==> r is Ok && *final(self)
                == *old(self),
            additional > wrapping_room(old(self).capacity(), len) ==> Self::grow_amortized_outcome(
                *old(self),
                len,
                additional,
                *final(self),
                r,
            ),
    {
        if self.needs_to_grow(len, additional) {
            self.grow_amortized(len, additional)?;
        }
        Ok(())
    }

    /// Grows for one more value after `len`, amortised.
    pub fn try_reserve_for_push(&mut self, len: usize) -> (r: Result<(), Error>)
        requires
            old(self).wf(),
        ensures
            final(self).wf(),
            Self::grow_amortized_outcome(*old(self), len, 1, *final(self), r),
    {
        self.grow_amortized(len, 1)
    }

    /// Makes room for exactly `len + additional` values when `additional`
    /// exceeds `capacity() - len`. On any failure the buffer is left
    /// unchanged.
    pub fn try_reserve_exact(&mut self, len: usize, additional: usize) -> (r: Result<(), Error>)
        requires
            old(self).wf(),
        ensures
            final(self).wf(),
            additional <= wrapping_room(old(self).capacity(), len) ==> r is Ok && *final(self)
                == *old(self),
            additional > wrapping_room(old(self).capacity(), len) ==> Self::grow_exact_outcome(
                *old(self),
                len,
                additional,
                *final(self),
                r,
            ),
    {
        if self.needs_to_grow(len, additional) {
            self.grow_exact(len, additional)
        } else {
            Ok(())
        }
    }

    /// Shrinks the storage to `cap` values; a `cap` of 0 releases it
    /// entirely. On failure the buffer is left unchanged.
    pub fn try_shrink_to_fit(&mut self, cap: usize) -> (r: Result<(), AllocError>)
        requires
            old(self).wf(),
            cap <= old(self).capacity(),
        ensures
            final(self).wf(),
            Self::shrink_outcome(*old(self), cap, *final(self), r),
    {
        self.shrink(cap)
    }

    /// Ends the buffer: hands the block it owns, if any, back to the
    /// allocator with the layout it was obtained with. The values that were
    /// stored in it are not touched.
    pub fn free(self)
        requires
            self.wf(),
    {
        if let Some(block) = self.ptr {
            self.alloc.deallocate(block, block.layout);
        }
    }

    fn needs_to_grow(&self, len: usize, additional: usize) -> (r: bool)
        ensures
            r == (additional > wrapping_room(self.capacity(), len)),
    {
        additional > self.capacity().wrapping_sub(len)
    }

    fn set_ptr_and_cap(&mut self, block: Block, cap: usize)
        ensures
            final(self).ptr == Some(block),
            final(self).cap == cap,
            final(self).alloc == old(self).alloc,
    {
        self.ptr = Some(block);
        self.cap = cap;
    }

    /// What amortised growth by `additional` after `len` may do to `old`.
    pub open spec fn grow_amortized_outcome(
        old: Self,
        len: usize,
        additional: usize,
        new: Self,
        r: Result<(), Error>,
    ) -> bool {
        let required = len + additional;
        let target = amortized_cap(old.capacity() as nat, required as nat, min_non_zero_cap_spec::<T>());
        &&& r is Err ==> new == old
        &&& is_zst::<T>() ==> r == Err::<(), Error>(Error::CapacityOverflow)
        &&& (!is_zst::<T>() && required > usize::MAX) ==> r == Err::<(), Error>(
            Error::CapacityOverflow,
        )
        &&& (!is_zst::<T>() && required <= usize::MAX && target * size_of::<T>() > max_object_size())
            ==> r == Err::<(), Error>(Error::CapacityOverflow)
        &&& (!is_zst::<T>() && required <= usize::MAX && target * size_of::<T>()
            <= max_object_size()) ==> match r {
            Ok(_) => new.capacity() == target && new.current_block() is Some
                && new.spec_allocator() == old.spec_allocator(),
            Err(e) => e == Error::AllocError { layout: array_layout_spec::<T>(target) },
        }
        &&& (!is_zst::<T>() && required <= usize::MAX && target * size_of::<T>()
            <= max_object_size() && old.spec_allocator().grants_every_request()) ==> r is Ok
    }

    /// What exact growth to `len + additional` may do to `old`.
    pub open spec fn grow_exact_outcome(
        old: Self,
        len: usize,
        additional: usize,
        new: Self,
        r: Result<(), Error>,
    ) -> bool {
        let required = len + additional;
        &&& r is Err ==> new == old
        &&& is_zst::<T>() ==> r == Err::<(), Error>(Error::CapacityOverflow)
        &&& (!is_zst::<T>() && required > usize::MAX) ==> r == Err::<(), Error>(
            Error::CapacityOverflow,
        )
        &&& (!is_zst::<T>() && required <= usize::MAX && required * size_of::<T>()
            > max_object_size()) ==> r == Err::<(), Error>(Error::CapacityOverflow)
        &&& (!is_zst::<T>() && required <= usize::MAX && required * size_of::<T>()
            <= max_object_size()) ==> match r {
            Ok(_) => new.capacity() == required && new.spec_allocator() == old.spec_allocator(),
            Err(e) => e == Error::AllocError { layout: array_layout_spec::<T>(required as nat) },
        }
        &&& (!is_zst::<T>() && required <= usize::MAX && required * size_of::<T>()
            <= max_object_size() && old.spec_allocator().grants_every_request()) ==> r is Ok
    }

    /// What shrinking `old` to `cap` values may do.
    pub open spec fn shrink_outcome(old: Self, cap: usize, new: Self, r: Result<(), AllocError>) -> bool {
        &&& r is Err ==> new == old
        &&& old.current_block() is None ==> r is Ok && new == old
        &&& (old.current_block() is Some && cap == 0) ==> r is Ok && new.current_block() is None
            && new.capacity() == 0 && new.spec_allocator() == old.spec_allocator()
        &&& (old.current_block() is Some && cap > 0) ==> match r {
            Ok(_) => new.capacity() == cap && new.current_block() is Some
                && new.spec_allocator() == old.spec_allocator(),
            Err(e) => e.layout == array_layout_spec::<T>(cap as nat),
        }
        &&& old.spec_allocator().grants_every_request() ==> r is Ok
    }

    fn grow_amortized(&mut self, len: usize, additional: usize) -> (r: Result<(), Error>)
        requires
            old(self).wf(),
        ensures
            final(self).wf(),
            Self::grow_amortized_outcome(*old(self), len, additional, *final(self), r),
    {
        vstd::layout::layout_for_type_is_valid::<T>();
        if core::mem::size_of::<T>() == 0 {
            return Err(Error::CapacityOverflow);
        }
        let required_cap = match len.checked_add(additional) {
            Some(c) => c,
            None => return Err(Error::CapacityOverflow),
        };
        proof {
            assert(self.cap <= self.cap * size_of::<T>()) by (nonlinear_arith)
                requires
                    size_of::<T>() >= 1,
            ;
        }
        let doubled = self.cap * 2;
        let cap = if doubled >= required_cap {
            doubled
        } else {
            required_cap
        };
        let min_cap = Self::min_non_zero_cap();
        let cap = if min_cap >= cap {
            min_cap
        } else {
            cap
        };
        proof {
            assert(self.cap * size_of::<T>() <= cap * size_of::<T>()) by (nonlinear_arith)
                requires
                    self.cap <= cap,
            ;
        }
        let new_layout = Layout::array::<T>(cap);
        let block = finish_grow(new_layout, self.current_memory(), &self.alloc)?;
        self.set_ptr_and_cap(block, cap);
        Ok(())
    }

    fn grow_exact(&mut self, len: usize, additional: usize) -> (r: Result<(), Error>)
        requires
            old(self).wf(),
            additional > wrapping_room(old(self).capacity(), len),
        ensures
            final(self).wf(),
            Self::grow_exact_outcome(*old(self), len, additional, *final(self), r),
    {
        vstd::layout::layout_for_type_is_valid::<T>();
        if core::mem::size_of::<T>() == 0 {
            return Err(Error::CapacityOverflow);
        }
        let cap = match len.checked_add(additional) {
            Some(c) => c,
            None => return Err(Error::CapacityOverflow),
        };
        proof {
            assert(self.cap * size_of::<T>() <= cap * size_of::<T>()) by (nonlinear_arith)
                requires
                    self.cap <= cap,
            ;
        }
        let new_layout = Layout::array::<T>(cap);
        let block = finish_grow(new_layout, self.current_memory(), &self.alloc)?;
        self.set_ptr_and_cap(block, cap);
        Ok(())
    }

    fn shrink(&mut self, cap: usize) -> (r: Result<(), AllocError>)
        requires
            old(self).wf(),
            cap <= old(self).capacity(),
        ensures
            final(self).wf(),
            Self::shrink_outcome(*old(self), cap, *final(self), r),
    {
        vstd::layout::layout_for_type_is_valid::<T>();
        let block = match self.current_memory() {
            Some(b) => b,
            None => return Ok(()),
        };
        let layout = block.layout;
        if cap == 0 {
            self.alloc.deallocate(block, layout);
            self.ptr = None;
            self.cap = 0;
        } else {
            proof {
                assert(cap * size_of::<T>() <= self.cap * size_of::<T>()) by (nonlinear_arith)
                    requires
                        cap <= self.cap,
                ;
            }
            let new_size = core::mem::size_of::<T>() * cap;
            let new_layout = Layout { size: new_size, align: layout.align };
            let shrunk = match self.alloc.shrink(block, layout, new_layout) {
                Ok(b) => b,
                Err(_) => return Err(AllocError { layout: new_layout }),
            };
            self.set_ptr_and_cap(shrunk, cap);
        }
        Ok(())
    }
}

/// Obtains the block for a grown buffer: checks the new layout, then grows
/// the current block or allocates a first one.
fn finish_grow<A: Allocator>(
    new_layout: Result<Layout, LayoutError>,
    current_memory: Option<Block>,
    alloc: &A,
) -> (r: Result<Block, Error>)
    requires
        (new_layout matches Ok(l) ==> (current_memory matches Some(b) ==> b.layout.align == l.align
            && b.layout.size <= l.size)),
    ensures
        match new_layout {
            Err(_) => r == Err::<Block, Error>(Error::CapacityOverflow),
            Ok(l) => if l.size > max_object_size() {
                r == Err::<Block, Error>(Error::CapacityOverflow)
            } else {
                match r {
                    Ok(b) => b.layout == l,
                    Err(e) => e == Error::AllocError { layout: l },
                }
            },
        },
        (new_layout matches Ok(l) && l.size <= max_object_size() && alloc.grants_every_request())
            ==> r is Ok,
{
    let new_layout = match new_layout {
        Ok(l) => l,
        Err(_) => return Err(Error::CapacityOverflow),
    };
    alloc_guard(new_layout.size)?;
    let memory = match current_memory {
        Some(block) => alloc.grow(block, block.layout, new_layout),
        None => alloc.allocate(new_layout),
    };
    match memory {
        Ok(b) => Ok(b),
        Err(_) => Err(Error::AllocError { layout: new_layout }),
    }
}

/// Refuses sizes beyond the largest object size, so that no request can
/// span more than `isize::MAX` bytes on any platform.
fn alloc_guard(alloc_size: usize) -> (r: Result<(), Error>)
    ensures
        alloc_size <= max_object_size() ==> r is Ok,
        alloc_size > max_object_size() ==> r == Err::<(), Error>(Error::CapacityOverflow),
{
    if alloc_size > isize::MAX as usize {
        Err(Error::CapacityOverflow)
    } else {
        Ok(())
    }
}

} // verus!
