use kernel_heap::allocator::{align_up, checked_align_up};

#[test]
fn align_up_keeps_a_multiple() {
    assert_eq!(align_up(0, 8), 0);
    assert_eq!(align_up(8, 8), 8);
    assert_eq!(align_up(4096, 4096), 4096);
    assert_eq!(align_up(5, 1), 5);
}

#[test]
fn align_up_rounds_to_the_next_multiple() {
    assert_eq!(align_up(1, 8), 8);
    assert_eq!(align_up(9, 8), 16);
    assert_eq!(align_up(100, 16), 112);
    assert_eq!(align_up(0x1001, 4096), 0x2000);
    assert_eq!(align_up(7, 2), 8);
}

#[test]
fn align_up_yields_the_least_multiple_at_or_above() {
    let aligns: [usize; 6] = [1, 2, 4, 8, 64, 4096];
    for align in aligns {
        for addr in 0usize..10_000 {
            let aligned = align_up(addr, align);
            assert!(aligned >= addr);
            assert_eq!(aligned % align, 0);
            assert!(aligned - addr < align);
        }
    }
}

#[test]
fn align_up_at_the_top_of_the_address_space() {
    assert_eq!(align_up(usize::MAX - 7, 8), usize::MAX - 7);
    assert_eq!(align_up(usize::MAX - 8, 8), usize::MAX - 7);
    assert_eq!(align_up(usize::MAX, 1), usize::MAX);
}

#[test]
fn checked_align_up_agrees_with_align_up() {
    assert_eq!(checked_align_up(0, 8), Some(0));
    assert_eq!(checked_align_up(13, 4), Some(16));
    assert_eq!(checked_align_up(usize::MAX - 7, 8), Some(usize::MAX - 7));
    assert_eq!(checked_align_up(usize::MAX - 8, 8), Some(usize::MAX - 7));
}

#[test]
fn checked_align_up_reports_overflow() {
    assert_eq!(checked_align_up(usize::MAX, 8), None);
    assert_eq!(checked_align_up(usize::MAX - 6, 8), None);
    assert_eq!(checked_align_up(1, 1 << (usize::BITS - 1)), Some(1 << (usize::BITS - 1)));
    assert_eq!(checked_align_up((1 << (usize::BITS - 1)) + 1, 1 << (usize::BITS - 1)), None);
}
