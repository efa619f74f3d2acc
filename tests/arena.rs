use arena_alloc::allocator::{find_first_fit, Allocator, ARENA_SIZE, MAX_SUPPORTED_ALIGN};
use arena_alloc::block::{align_down, Block};

fn overlaps(a: usize, n: usize, b: usize, m: usize) -> bool {
    n > 0 && m > 0 && a < b + m && b < a + n
}

#[test]
fn reuse_then_large_request_from_fresh_space() {
    let mut al = Allocator::new(1024, 64);
    let a = al.acquire(100, 8).unwrap();
    assert_eq!(a, 920);
    assert!(a + 100 <= 1024);
    al.release(Some(a), 100);
    assert_eq!(al.acquire(50, 8), Some(a));
    assert!(al.free_blocks().is_empty());
    // 920 bytes are still untouched below A, so 900 of them can be carved.
    let b = al.acquire(900, 8).unwrap();
    assert_eq!(b, 16);
    assert!(!overlaps(b, 900, a, 50));
    assert_eq!(al.remaining(), 16);
    // Nothing is left for another large block.
    assert_eq!(al.acquire(900, 8), None);
}

#[test]
fn fitting_requests_all_succeed_and_are_disjoint() {
    let mut al = Allocator::new(1024, 64);
    let reqs = [(256usize, 8usize), (128, 64), (512, 1), (128, 4)];
    let mut got: Vec<(usize, usize)> = Vec::new();
    for &(size, align) in reqs.iter() {
        let a = al.acquire(size, align).unwrap();
        assert_eq!(a % align, 0);
        assert!(a + size <= 1024);
        got.push((a, size));
    }
    for i in 0..got.len() {
        for j in 0..got.len() {
            if i != j {
                assert!(!overlaps(got[i].0, got[i].1, got[j].0, got[j].1));
            }
        }
    }
    assert_eq!(got, vec![(768, 256), (640, 128), (128, 512), (0, 128)]);
    assert_eq!(al.remaining(), 0);
}

#[test]
fn overaligned_request_fails_and_changes_nothing() {
    let mut al = Allocator::new(1024, 64);
    assert_eq!(al.acquire(1, 128), None);
    assert_eq!(al.remaining(), 1024);
    let a = al.acquire(100, 8).unwrap();
    al.release(Some(a), 100);
    assert_eq!(al.acquire(10, 128), None);
    assert_eq!(al.free_blocks(), vec![Block { addr: a, size: 100 }]);
    assert_eq!(al.remaining(), 920);
    let mut big = Allocator::new(ARENA_SIZE, MAX_SUPPORTED_ALIGN);
    assert_eq!(big.acquire(8, MAX_SUPPORTED_ALIGN * 2), None);
    assert_eq!(big.acquire(8, MAX_SUPPORTED_ALIGN), Some(ARENA_SIZE - MAX_SUPPORTED_ALIGN));
}

#[test]
fn oversized_request_fails() {
    let mut al = Allocator::new(1024, 64);
    assert_eq!(al.acquire(1025, 1), None);
    assert_eq!(al.remaining(), 1024);
    let a = al.acquire(1024, 1).unwrap();
    assert_eq!(a, 0);
    al.release(Some(a), 1024);
    assert_eq!(al.acquire(1025, 1), None);
    assert_eq!(al.free_blocks(), vec![Block { addr: 0, size: 1024 }]);
}

#[test]
fn release_then_acquire_reuses_address() {
    let mut al = Allocator::new(1024, 64);
    let a = al.acquire(64, 16).unwrap();
    let _b = al.acquire(32, 16).unwrap();
    let before = al.remaining();
    al.release(Some(a), 64);
    assert_eq!(al.acquire(64, 16), Some(a));
    assert_eq!(al.remaining(), before);
    al.release(Some(a), 64);
    assert_eq!(al.acquire(1, 1), Some(a));
    assert!(al.free_blocks().is_empty());
}

#[test]
fn exhaustion_then_release_allows_again() {
    let mut al = Allocator::new(256, 8);
    let a = al.acquire(128, 1).unwrap();
    let b = al.acquire(100, 1).unwrap();
    assert_eq!((a, b), (128, 28));
    assert_eq!(al.acquire(64, 1), None);
    assert_eq!(al.remaining(), 28);
    al.release(Some(a), 128);
    assert_eq!(al.acquire(64, 1), Some(a));
}

#[test]
fn release_of_nothing_changes_nothing() {
    let mut al = Allocator::new(1024, 64);
    let a = al.acquire(40, 8).unwrap();
    al.release(Some(a), 40);
    let free = al.free_blocks();
    let rem = al.remaining();
    al.release(None, 40);
    al.release(None, 0);
    assert_eq!(al.free_blocks(), free);
    assert_eq!(al.remaining(), rem);
}

#[test]
fn first_fit_skips_small_head() {
    let mut al = Allocator::new(1024, 64);
    let a = al.acquire(100, 1).unwrap();
    let b = al.acquire(10, 1).unwrap();
    let _c = al.acquire(200, 1).unwrap();
    assert_eq!((a, b), (924, 914));
    al.release(Some(a), 100);
    al.release(Some(b), 10);
    assert_eq!(
        al.free_blocks(),
        vec![Block { addr: 914, size: 10 }, Block { addr: 924, size: 100 }]
    );
    assert_eq!(al.acquire(50, 1), Some(924));
    assert_eq!(al.free_blocks(), vec![Block { addr: 914, size: 10 }]);
    assert_eq!(al.acquire(5, 1), Some(914));
    assert!(al.free_blocks().is_empty());
}

#[test]
fn most_recent_release_is_reused_first() {
    let mut al = Allocator::new(1024, 64);
    let a = al.acquire(32, 1).unwrap();
    let b = al.acquire(32, 1).unwrap();
    al.release(Some(a), 32);
    al.release(Some(b), 32);
    assert_eq!(al.acquire(16, 1), Some(b));
    assert_eq!(al.acquire(16, 1), Some(a));
}

#[test]
fn adjacent_releases_are_not_merged() {
    let mut al = Allocator::new(1024, 64);
    let a = al.acquire(50, 1).unwrap();
    let b = al.acquire(50, 1).unwrap();
    assert_eq!(a, b + 50);
    al.release(Some(a), 50);
    al.release(Some(b), 50);
    // The two free neighbours could hold 100 bytes together, but are not joined.
    assert_eq!(al.acquire(100, 1), Some(824));
    assert_eq!(al.free_blocks().len(), 2);
}

#[test]
fn alignment_padding_is_lost() {
    let mut al = Allocator::new(1024, 64);
    assert_eq!(al.acquire(1, 64), Some(960));
    assert_eq!(al.remaining(), 960);
    assert_eq!(al.acquire(10, 1), Some(950));
    assert_eq!(al.acquire(1, 8), Some(944));
}

#[test]
fn default_arena_reports_bytes_consumed() {
    let mut al = Allocator::new(ARENA_SIZE, MAX_SUPPORTED_ALIGN);
    assert_eq!(al.capacity(), 131072);
    assert_eq!(al.max_align(), 4096);
    let n = "allocating a string!".len();
    assert_eq!(al.acquire(n, 1), Some(ARENA_SIZE - n));
    assert_eq!(ARENA_SIZE - al.remaining(), 20);
}

#[test]
fn zero_capacity_arena_serves_only_empty_blocks() {
    let mut al = Allocator::new(0, 64);
    assert_eq!(al.acquire(1, 1), None);
    assert_eq!(al.acquire(0, 1), Some(0));
}

#[test]
fn first_fit_search_results() {
    let list = vec![
        Block { addr: 0, size: 4 },
        Block { addr: 10, size: 16 },
        Block { addr: 40, size: 64 },
    ];
    assert_eq!(find_first_fit(&list, 3), 0);
    assert_eq!(find_first_fit(&list, 5), 1);
    assert_eq!(find_first_fit(&list, 17), 2);
    assert_eq!(find_first_fit(&list, 65), 3);
    assert_eq!(find_first_fit(&Vec::new(), 0), 0);
}

#[test]
fn align_down_values() {
    assert_eq!(align_down(1023, 64), 960);
    assert_eq!(align_down(924, 8), 920);
    assert_eq!(align_down(960, 64), 960);
    assert_eq!(align_down(7, 8), 0);
    assert_eq!(align_down(5, 1), 5);
}
