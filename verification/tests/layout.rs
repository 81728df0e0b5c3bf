use archetype_storage::{align, Layout};

#[test]
fn align_keeps_multiples() {
    assert_eq!(align(0, 1), 0);
    assert_eq!(align(0, 4), 0);
    assert_eq!(align(8, 8), 8);
    assert_eq!(align(64, 16), 64);
    assert_eq!(align(13, 1), 13);
}

#[test]
fn align_rounds_up_to_the_next_multiple() {
    assert_eq!(align(1, 4), 4);
    assert_eq!(align(5, 4), 8);
    assert_eq!(align(5, 8), 8);
    assert_eq!(align(9, 8), 16);
    assert_eq!(align(255, 2), 256);
    assert_eq!(align(257, 256), 512);
}

#[test]
fn align_result_is_the_least_multiple_not_below() {
    for alignment in [1usize, 2, 4, 8, 16, 32, 64] {
        for x in 0..200usize {
            let r = align(x, alignment);
            assert_eq!(r % alignment, 0);
            assert!(x <= r);
            assert!(r < x + alignment);
            assert_eq!(r, (x + alignment - 1) / alignment * alignment);
        }
    }
}

#[test]
fn align_near_the_top_of_the_range() {
    let top = usize::MAX - 7;
    assert_eq!(align(top, 8), top);
    assert_eq!(align(top - 1, 8), top);
    assert_eq!(align(usize::MAX, 1), usize::MAX);
    let half = usize::MAX / 2 + 1;
    assert_eq!(align(1, half), half);
    assert_eq!(align(half, half), half);
}

#[test]
fn layout_of_size_and_alignment() {
    let layout = Layout::from_size_align(12, 4).unwrap();
    assert_eq!(layout.size(), 12);
    assert_eq!(layout.align(), 4);
    let empty = Layout::from_size_align(0, 1).unwrap();
    assert_eq!(empty.size(), 0);
    assert_eq!(empty.align(), 1);
    assert_eq!(Layout::from_size_align(12, 4), Some(layout));
}

#[test]
fn layout_wants_a_power_of_two() {
    assert_eq!(Layout::from_size_align(4, 0), None);
    assert_eq!(Layout::from_size_align(6, 3), None);
    assert_eq!(Layout::from_size_align(12, 6), None);
    assert_eq!(Layout::from_size_align(0, 12), None);
    assert!(Layout::from_size_align(0, usize::MAX / 2 + 1).is_some());
    assert_eq!(Layout::from_size_align(0, usize::MAX), None);
}

#[test]
fn layout_wants_the_size_to_be_a_multiple_of_the_alignment() {
    assert_eq!(Layout::from_size_align(1, 2), None);
    assert_eq!(Layout::from_size_align(6, 4), None);
    assert_eq!(Layout::from_size_align(9, 8), None);
    assert!(Layout::from_size_align(16, 8).is_some());
    assert!(Layout::from_size_align(7, 1).is_some());
}

#[test]
fn layout_of_a_type() {
    let word = Layout::of::<u32>();
    assert_eq!(word.size(), 4);
    assert_eq!(word.align(), 4);
    let byte = Layout::of::<u8>();
    assert_eq!(byte.size(), 1);
    assert_eq!(byte.align(), 1);
    let pair = Layout::of::<(u64, u8)>();
    assert_eq!(pair.size(), std::mem::size_of::<(u64, u8)>());
    assert_eq!(pair.align(), std::mem::align_of::<(u64, u8)>());
    let unit = Layout::of::<()>();
    assert_eq!(unit.size(), 0);
    assert_eq!(unit.align(), 1);
}
