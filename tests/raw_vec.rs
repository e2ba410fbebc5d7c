use rune_alloc::allocator::{AllocError, Allocator, Block, Error, Global, Layout};
use rune_alloc::raw_vec::RawVec;

struct Refusing;

impl Allocator for Refusing {
    fn grants_every_request(&self) -> bool {
        false
    }

    fn allocate(&self, layout: Layout) -> Result<Block, AllocError> {
        Err(AllocError { layout })
    }

    fn allocate_zeroed(&self, layout: Layout) -> Result<Block, AllocError> {
        Err(AllocError { layout })
    }

    fn grow(&self, _block: Block, _old: Layout, new_layout: Layout) -> Result<Block, AllocError> {
        Err(AllocError { layout: new_layout })
    }

    fn shrink(&self, _block: Block, _old: Layout, new_layout: Layout) -> Result<Block, AllocError> {
        Err(AllocError { layout: new_layout })
    }

    fn deallocate(&self, _block: Block, _layout: Layout) {}
}

#[test]
fn new_buffer_has_no_capacity() {
    let v: RawVec<u64> = RawVec::new();
    assert_eq!(v.capacity(), 0);
    assert_eq!(v.ptr(), std::mem::align_of::<u64>());
}

#[test]
fn zero_sized_elements_report_max_capacity() {
    let v: RawVec<()> = RawVec::new();
    assert_eq!(v.capacity(), usize::MAX);
    let w: RawVec<(), Global> = RawVec::try_with_capacity_in(100, Global).unwrap();
    assert_eq!(w.capacity(), usize::MAX);
}

#[test]
fn with_capacity_allocates_exactly() {
    let v: RawVec<u32> = RawVec::try_with_capacity_in(10, Global).unwrap();
    assert_eq!(v.capacity(), 10);
    let z: RawVec<u32> = RawVec::try_with_capacity_zeroed_in(3, Global).unwrap();
    assert_eq!(z.capacity(), 3);
    let e: RawVec<u32> = RawVec::try_with_capacity_in(0, Global).unwrap();
    assert_eq!(e.capacity(), 0);
}

#[test]
fn with_capacity_overflow_is_reported() {
    let r: Result<RawVec<u64>, Error> = RawVec::try_with_capacity_in(usize::MAX, Global);
    assert!(matches!(r, Err(Error::CapacityOverflow)));
    let r: Result<RawVec<u64>, Error> = RawVec::try_with_capacity_in(usize::MAX / 8, Global);
    assert!(matches!(r, Err(Error::CapacityOverflow)));
}

#[test]
fn with_capacity_refused_is_alloc_error() {
    let r: Result<RawVec<u64, Refusing>, Error> = RawVec::try_with_capacity_in(4, Refusing);
    match r {
        Err(Error::AllocError { layout }) => {
            assert_eq!(layout.size, 32);
            assert_eq!(layout.align, std::mem::align_of::<u64>());
        }
        _ => panic!("expected an allocation error"),
    }
}

#[test]
fn reserve_from_empty_uses_minimum_capacity() {
    let mut v: RawVec<u64> = RawVec::new();
    v.try_reserve(0, 1).unwrap();
    assert_eq!(v.capacity(), 4);
    let mut b: RawVec<u8> = RawVec::new();
    b.try_reserve(0, 3).unwrap();
    assert_eq!(b.capacity(), 8);
    let mut big: RawVec<[u8; 2048]> = RawVec::new();
    big.try_reserve(0, 1).unwrap();
    assert_eq!(big.capacity(), 1);
}

#[test]
fn reserve_doubles_or_takes_what_is_required() {
    let mut v: RawVec<u64> = RawVec::new();
    v.try_reserve(0, 5).unwrap();
    assert_eq!(v.capacity(), 5);
    v.try_reserve(5, 1).unwrap();
    assert_eq!(v.capacity(), 10);
    v.try_reserve(10, 30).unwrap();
    assert_eq!(v.capacity(), 40);
}

#[test]
fn reserve_with_room_does_nothing() {
    let mut v: RawVec<u64> = RawVec::try_with_capacity_in(16, Global).unwrap();
    v.try_reserve(10, 6).unwrap();
    assert_eq!(v.capacity(), 16);
}

#[test]
fn reserve_zero_len_matches_formula() {
    for prev in [0usize, 1, 3, 4, 9] {
        for k in [1usize, 2, 5, 8, 20] {
            let mut v: RawVec<u32> = RawVec::try_with_capacity_in(prev, Global).unwrap();
            let before = v.capacity();
            v.try_reserve(0, k).unwrap();
            if k > before {
                let grown = std::cmp::max(2 * before, k);
                let expected = if grown >= 4 { grown } else { std::cmp::max(4, k) };
                assert_eq!(v.capacity(), expected);
            } else {
                assert_eq!(v.capacity(), before);
            }
            assert!(v.capacity() >= k);
        }
    }
}

#[test]
fn reserve_for_push_grows() {
    let mut v: RawVec<u16> = RawVec::new();
    v.try_reserve_for_push(0).unwrap();
    assert_eq!(v.capacity(), 4);
    v.try_reserve_for_push(4).unwrap();
    assert_eq!(v.capacity(), 8);
}

#[test]
fn reserve_exact_takes_exactly() {
    let mut v: RawVec<u64> = RawVec::new();
    v.try_reserve_exact(0, 7).unwrap();
    assert_eq!(v.capacity(), 7);
    v.try_reserve_exact(7, 1).unwrap();
    assert_eq!(v.capacity(), 8);
}

#[test]
fn reserve_overflow_is_reported() {
    let mut v: RawVec<u64> = RawVec::new();
    assert_eq!(v.try_reserve(0, usize::MAX / 4), Err(Error::CapacityOverflow));
    assert_eq!(v.capacity(), 0);
    v.try_reserve(0, 4).unwrap();
    assert_eq!(v.try_reserve(4, usize::MAX), Err(Error::CapacityOverflow));
    assert_eq!(v.capacity(), 4);
    let mut z: RawVec<()> = RawVec::new();
    assert_eq!(z.try_reserve_for_push(usize::MAX), Err(Error::CapacityOverflow));
    assert_eq!(v.try_reserve_exact(4, usize::MAX), Err(Error::CapacityOverflow));
    assert_eq!(v.try_reserve_exact(0, usize::MAX / 2), Err(Error::CapacityOverflow));
}

#[test]
fn refused_growth_leaves_buffer_unchanged() {
    let mut v: RawVec<u64, Refusing> = RawVec::new_in(Refusing);
    let r = v.try_reserve(0, 3);
    assert_eq!(
        r,
        Err(Error::AllocError { layout: Layout { size: 32, align: std::mem::align_of::<u64>() } })
    );
    assert_eq!(v.capacity(), 0);
    assert_eq!(v.try_reserve_exact(0, 3), Err(Error::AllocError { layout: Layout { size: 24, align: std::mem::align_of::<u64>() } }));
}

#[test]
fn shrink_to_smaller_and_to_zero() {
    let mut v: RawVec<u64> = RawVec::try_with_capacity_in(10, Global).unwrap();
    v.try_shrink_to_fit(4).unwrap();
    assert_eq!(v.capacity(), 4);
    v.try_shrink_to_fit(0).unwrap();
    assert_eq!(v.capacity(), 0);
    assert_eq!(v.ptr(), std::mem::align_of::<u64>());
    v.free();
}

#[test]
fn allocator_is_kept() {
    let v: RawVec<u8, Refusing> = RawVec::new_in(Refusing);
    let a: &Refusing = v.allocator();
    assert!(a.allocate(Layout { size: 1, align: 1 }).is_err());
}

#[test]
fn layout_array_checks_size() {
    assert_eq!(Layout::array::<u32>(3), Ok(Layout { size: 12, align: std::mem::align_of::<u32>() }));
    assert!(Layout::array::<u32>(usize::MAX / 2).is_err());
    assert_eq!(AllocError { layout: Layout { size: 1, align: 1 } }.into_error(), Error::AllocError { layout: Layout { size: 1, align: 1 } });
}

#[test]
fn from_raw_parts_keeps_block_and_capacity() {
    let layout = Layout::array::<u64>(6).unwrap();
    let block = Global.allocate(layout).unwrap();
    let v: RawVec<u64> = RawVec::from_raw_parts_in(Some(block), 6, Global);
    assert_eq!(v.capacity(), 6);
    assert_eq!(v.ptr(), block.addr);
    let e: RawVec<u64> = RawVec::from_raw_parts_in(None, 0, Global);
    assert_eq!(e.capacity(), 0);
    let z: RawVec<()> = RawVec::from_raw_parts_in(None, 5, Global);
    assert_eq!(z.capacity(), usize::MAX);
}
