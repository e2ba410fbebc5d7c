//! The allocation contract: layouts, blocks, the two error kinds, and the
//! `Allocator` capability that every collection of this crate is built on.
use vstd::prelude::*;

verus! {

/// Size and alignment of a memory request.
#[derive(Clone, Copy, Debug, PartialEq, Eq, Structural)]
pub struct Layout {
    pub size: usize,
    pub align: usize,
}

/// A size computation for a layout went past what one object may span.
#[derive(Clone, Copy, Debug, PartialEq, Eq, Structural)]
pub struct LayoutError;

/// The largest size, in bytes, that one object may span (`isize::MAX`).
pub open spec fn max_object_size() -> int {
    isize::MAX as int
}

/// The layout of an array of `n` values of type `T`.
pub open spec fn array_layout_spec<T>(n: nat) -> Layout {
    Layout { size: (n * size_of::<T>()) as usize, align: align_of::<T>() as usize }
}

impl Layout {
    /// The layout of an array of `n` values of type `T`; fails when the
    /// total size would exceed the largest object size.
    pub fn array<T>(n: usize) -> (r: Result<Layout, LayoutError>)
        ensures
            r is Ok <==> n * size_of::<T>() <= max_object_size(),
            r is Ok ==> r->Ok_0 == array_layout_spec::<T>(n as nat),
    {
        let size = core::mem::size_of::<T>();
        let align = core::mem::align_of::<T>();
        match n.checked_mul(size) {
            Some(total) => {
                if total <= isize::MAX as usize {
                    Ok(Layout { size: total, align })
                } else {
                    Err(LayoutError)
                }
            },
            None => {
                proof {
                    assert(n * size_of::<T>() > usize::MAX);
                }
                Err(LayoutError)
            },
        }
    }
}

/// A memory block handed out by an allocator: where it starts and the layout
/// it was requested with.
#[derive(Clone, Copy, Debug, PartialEq, Eq, Structural)]
pub struct Block {
    pub addr: usize,
    pub layout: Layout,
}

/// The allocator declined a request for `layout`.
#[derive(Clone, Copy, Debug, PartialEq, Eq, Structural)]
pub struct AllocError {
    pub layout: Layout,
}

/// The two ways an allocating operation can fail.
#[derive(Clone, Copy, Debug, PartialEq, Eq, Structural)]
pub enum Error {
    /// A size or capacity computation would exceed what can be represented
    /// or addressed; detected before the allocator is consulted.
    CapacityOverflow,
    /// The allocator declined the request.
    AllocError { layout: Layout },
}

impl AllocError {
    /// The same failure as an `Error`.
    pub fn into_error(self) -> (r: Error)
        ensures
            r == (Error::AllocError { layout: self.layout }),
    {
        Error::AllocError { layout: self.layout }
    }
}

/// A capability for obtaining, resizing and releasing memory blocks.
///
/// Every request may be declined; a declined request is reported as an
/// `AllocError` naming the layout that was asked for, never by aborting.
/// A block must be released through the instance that produced it, with the
/// layout it currently has.
pub trait Allocator {
    /// Whether this allocator grants every request it is given.
    spec fn grants_every_request(&self) -> bool;

    /// Requests a block for `layout`.
    fn allocate(&self, layout: Layout) -> (r: Result<Block, AllocError>)
        ensures
            match r {
                Ok(b) => b.layout == layout,
                Err(e) => e.layout == layout,
            },
            self.grants_every_request() ==> r is Ok,
    ;

    /// Requests a block for `layout` whose bytes are all zero.
    fn allocate_zeroed(&self, layout: Layout) -> (r: Result<Block, AllocError>)
        ensures
            match r {
                Ok(b) => b.layout == layout,
                Err(e) => e.layout == layout,
            },
            self.grants_every_request() ==> r is Ok,
    ;

    /// Enlarges `block`, which has `old_layout`, to `new_layout`. On failure
    /// the old block is left as it was.
    fn grow(&self, block: Block, old_layout: Layout, new_layout: Layout) -> (r: Result<
        Block,
        AllocError,
    >)
        requires
            block.layout == old_layout,
            new_layout.size >= old_layout.size,
            new_layout.align == old_layout.align,
        ensures
            match r {
                Ok(b) => b.layout == new_layout,
                Err(e) => e.layout == new_layout,
            },
            self.grants_every_request() ==> r is Ok,
    ;

    /// Reduces `block`, which has `old_layout`, to `new_layout`. On failure
    /// the old block is left as it was.
    fn shrink(&self, block: Block, old_layout: Layout, new_layout: Layout) -> (r: Result<
        Block,
        AllocError,
    >)
        requires
            block.layout == old_layout,
            new_layout.size <= old_layout.size,
            new_layout.align == old_layout.align,
        ensures
            match r {
                Ok(b) => b.layout == new_layout,
                Err(e) => e.layout == new_layout,
            },
            self.grants_every_request() ==> r is Ok,
    ;

    /// Releases `block`, which has `layout`. Always succeeds.
    fn deallocate(&self, block: Block, layout: Layout)
        requires
            block.layout == layout,
    ;
}

/// The process-wide default allocator. It grants every request; the storage
/// of this crate's collections is held in their own vectors, so the address
/// it reports is the aligned placeholder of the layout.
#[derive(Clone, Copy, Debug, PartialEq, Eq, Structural)]
pub struct Global;

impl Allocator for Global {
    open spec fn grants_every_request(&self) -> bool {
        true
    }

    fn allocate(&self, layout: Layout) -> (r: Result<Block, AllocError>) {
        Ok(Block { addr: layout.align, layout })
    }

    fn allocate_zeroed(&self, layout: Layout) -> (r: Result<Block, AllocError>) {
        Ok(Block { addr: layout.align, layout })
    }

    fn grow(&self, block: Block, old_layout: Layout, new_layout: Layout) -> (r: Result<
        Block,
        AllocError,
    >) {
        Ok(Block { addr: block.addr, layout: new_layout })
    }

    fn shrink(&self, block: Block, old_layout: Layout, new_layout: Layout) -> (r: Result<
        Block,
        AllocError,
    >) {
        Ok(Block { addr: block.addr, layout: new_layout })
    }

    fn deallocate(&self, block: Block, layout: Layout) {
    }
}

/// A shared allocator serves many collections through a reference.
impl<'s, A: Allocator> Allocator for &'s A {
    open spec fn grants_every_request(&self) -> bool {
        (**self).grants_every_request()
    }

    fn allocate(&self, layout: Layout) -> (r: Result<Block, AllocError>) {
        (**self).allocate(layout)
    }

    fn allocate_zeroed(&self, layout: Layout) -> (r: Result<Block, AllocError>) {
        (**self).allocate_zeroed(layout)
    }

    fn grow(&self, block: Block, old_layout: Layout, new_layout: Layout) -> (r: Result<
        Block,
        AllocError,
    >) {
        (**self).grow(block, old_layout, new_layout)
    }

    fn shrink(&self, block: Block, old_layout: Layout, new_layout: Layout) -> (r: Result<
        Block,
        AllocError,
    >) {
        (**self).shrink(block, old_layout, new_layout)
    }

    fn deallocate(&self, block: Block, layout: Layout) {
        (**self).deallocate(block, layout)
    }
}

} // verus!
