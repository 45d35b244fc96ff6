use picofw::allocator::{FirstFitAllocator, SizeError, HEADER_SIZE};
use picofw::allocator::{round_up_to_nearest_4bytes, round_up_to_nearest_pow2};

const BASE: usize = 0x10000;
const REGION: usize = 4096;

fn fresh_heap() -> FirstFitAllocator {
    let mut a = FirstFitAllocator::new();
    a.init_heap(BASE, REGION);
    a
}

#[test]
fn pow2_rounding_exact_values() {
    assert_eq!(round_up_to_nearest_pow2(1), Ok(1));
    assert_eq!(round_up_to_nearest_pow2(2), Ok(2));
    assert_eq!(round_up_to_nearest_pow2(3), Ok(4));
    assert_eq!(round_up_to_nearest_pow2(100), Ok(128));
    assert_eq!(round_up_to_nearest_pow2(4096), Ok(4096));
    assert_eq!(round_up_to_nearest_pow2(5000), Ok(8192));
    assert_eq!(round_up_to_nearest_pow2(1 << 62), Ok(1 << 62));
    assert_eq!(round_up_to_nearest_pow2((1 << 62) + 1), Ok(1 << 63));
}

#[test]
fn pow2_rounding_out_of_range() {
    assert_eq!(round_up_to_nearest_pow2(0), Err(SizeError::OutOfRange));
    assert_eq!(round_up_to_nearest_pow2((1 << 63) + 1), Err(SizeError::OutOfRange));
    assert_eq!(round_up_to_nearest_pow2(usize::MAX), Err(SizeError::OutOfRange));
}

#[test]
fn four_byte_rounding() {
    assert_eq!(round_up_to_nearest_4bytes(0), Err(SizeError::ZeroSize));
    assert_eq!(round_up_to_nearest_4bytes(1), Ok(4));
    assert_eq!(round_up_to_nearest_4bytes(4), Ok(4));
    assert_eq!(round_up_to_nearest_4bytes(9), Ok(12));
    assert_eq!(round_up_to_nearest_4bytes(usize::MAX), Err(SizeError::OutOfRange));
    assert_eq!(round_up_to_nearest_4bytes(usize::MAX - 3), Ok(usize::MAX - 3));
}

#[test]
fn init_establishes_single_free_block() {
    let a = fresh_heap();
    assert_eq!(a.base(), BASE);
    assert_eq!(a.region_size(), REGION);
    assert_eq!(a.header_count(), 1);
    let h = a.header_at(0);
    assert_eq!(h.addr, BASE);
    assert_eq!(h.size, REGION);
    assert!(!h.is_allocated);
}

#[test]
fn alloc_before_init_fails() {
    let mut a = FirstFitAllocator::new();
    assert_eq!(a.alloc_with_options(16, 8), None);
}

#[test]
fn scenario_small_alloc_carves_top() {
    // 4096-byte region: a 100-byte request rounds to 128 and is carved
    // from the top of the only free block.
    let mut a = fresh_heap();
    let p = a.alloc_with_options(100, 8).expect("allocation must succeed");
    assert_eq!(p % 8, 0);
    assert_eq!(p % 16, 0);
    assert_eq!(p, BASE + REGION - 128);
    // Two or three headers whose sizes sum to the whole region.
    let n = a.header_count();
    assert!(n == 2 || n == 3);
    let mut total = 0;
    for i in 0..n {
        total += a.header_at(i).size;
    }
    assert_eq!(total, REGION);
    // Here the allocation ends exactly at the region end: two headers.
    assert_eq!(n, 2);
    let free = a.header_at(0);
    let used = a.header_at(1);
    assert!(!free.is_allocated);
    assert!(used.is_allocated);
    assert_eq!(free.size, REGION - 144);
    assert_eq!(used.size, 128 + HEADER_SIZE);
    assert_eq!(used.addr, p - HEADER_SIZE);
}

#[test]
fn scenario_oversized_alloc_fails() {
    // A 5000-byte request exceeds the 4096-byte region entirely.
    let mut a = fresh_heap();
    assert_eq!(a.alloc_with_options(5000, 8), None);
    // Nothing changed.
    assert_eq!(a.header_count(), 1);
    assert_eq!(a.header_at(0).size, REGION);
}

#[test]
fn scenario_no_overlap_with_live_block() {
    // Allocate A and B, free A, allocate C: C must not overlap B.
    let mut a = fresh_heap();
    let pa = a.alloc_with_options(128, 8).expect("A must fit");
    let pb = a.alloc_with_options(128, 8).expect("B must fit");
    a.dealloc(pa);
    let pc = a.alloc_with_options(64, 8).expect("C must fit");
    let b_block = (pb - HEADER_SIZE, pb + 128);
    let c_payload = (pc, pc + 64);
    assert!(c_payload.1 <= b_block.0 || b_block.1 <= c_payload.0);
}

#[test]
fn alignment_is_honored() {
    let mut a = fresh_heap();
    let p = a.alloc_with_options(50, 64).expect("aligned allocation must fit");
    assert_eq!(p % 64, 0);
    let q = a.alloc_with_options(10, 1).expect("byte-aligned allocation must fit");
    // Alignment is raised to the header size, so every payload is
    // header-aligned.
    assert_eq!(q % HEADER_SIZE, 0);
}

#[test]
fn dealloc_marks_block_free_and_keeps_topology() {
    let mut a = fresh_heap();
    let p = a.alloc_with_options(100, 8).unwrap();
    let before: Vec<_> = (0..a.header_count()).map(|i| a.header_at(i)).collect();
    a.dealloc(p);
    assert_eq!(a.header_count(), before.len());
    for (i, old) in before.iter().enumerate() {
        let now = a.header_at(i);
        assert_eq!(now.addr, old.addr);
        assert_eq!(now.size, old.size);
        if old.addr + HEADER_SIZE == p {
            assert!(!now.is_allocated);
        } else {
            assert_eq!(now.is_allocated, old.is_allocated);
        }
    }
}

#[test]
fn dealloc_alloc_round_trip_succeeds() {
    // Free a roomy block and an equal-or-smaller request succeeds again.
    let mut a = fresh_heap();
    let p = a.alloc_with_options(512, 8).expect("first allocation");
    a.dealloc(p);
    assert!(a.alloc_with_options(512, 8).is_some());
    let mut b = fresh_heap();
    let q = b.alloc_with_options(512, 8).expect("first allocation");
    b.dealloc(q);
    assert!(b.alloc_with_options(100, 8).is_some());
}

#[test]
fn chain_tiles_region_through_arbitrary_traffic() {
    // The headers tile [base, base+size) after every call.
    let mut a = fresh_heap();
    let mut live: Vec<usize> = Vec::new();
    let check_tiling = |a: &FirstFitAllocator| {
        let n = a.header_count();
        let mut addr = BASE;
        for i in 0..n {
            let h = a.header_at(i);
            assert_eq!(h.addr, addr, "block {} must start where its predecessor ends", i);
            assert!(h.size >= HEADER_SIZE);
            addr += h.size;
        }
        assert_eq!(addr, BASE + REGION, "last block must end at the region end");
    };
    check_tiling(&a);
    for size in [100, 32, 700, 16, 64] {
        if let Some(p) = a.alloc_with_options(size, 8) {
            live.push(p);
        }
        check_tiling(&a);
    }
    live.reverse();
    for p in live {
        a.dealloc(p);
        check_tiling(&a);
    }
}

#[test]
fn exhaustion_yields_failure_without_aliasing() {
    // Repeated allocation must eventually fail, and until then no two
    // live payloads may overlap.
    let mut a = fresh_heap();
    let mut ptrs: Vec<usize> = Vec::new();
    let mut failed = false;
    for _ in 0..(REGION / (2 * HEADER_SIZE) + 2) {
        match a.alloc_with_options(100, 8) {
            Some(p) => ptrs.push(p),
            None => {
                failed = true;
                break;
            },
        }
    }
    assert!(failed, "allocation must eventually fail");
    assert!(!ptrs.is_empty());
    for (i, &p) in ptrs.iter().enumerate() {
        assert!(p >= BASE && p + 128 <= BASE + REGION);
        for &q in &ptrs[i + 1..] {
            assert!(p + 128 <= q || q + 128 <= p, "live payloads must not alias");
        }
    }
}
