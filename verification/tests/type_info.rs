use archetype_storage::{Layout, TypeInfo};
use std::cell::{Cell, RefCell};
use std::cmp::Ordering;

type Thunk<'a> = &'a dyn Fn(&[u8]);

fn layout(size: usize, align: usize) -> Layout {
    Layout::from_size_align(size, align).unwrap()
}

fn nothing(_: &[u8]) {}

#[test]
fn descriptor_keeps_its_parts() {
    let info = TypeInfo::new(42, layout(8, 4), nothing as fn(&[u8]));
    assert_eq!(info.id(), 42);
    assert_eq!(info.layout(), layout(8, 4));
    assert_eq!(info.layout().size(), 8);
    assert_eq!(info.layout().align(), 4);
}

#[test]
fn descriptor_of_a_type() {
    let info = TypeInfo::of::<u64>(7, nothing as fn(&[u8]));
    assert_eq!(info.id(), 7);
    assert_eq!(info.layout().size(), 8);
    assert_eq!(info.layout().align(), std::mem::align_of::<u64>());
    let info = TypeInfo::of::<[u16; 3]>(8, nothing as fn(&[u8]));
    assert_eq!(info.layout().size(), 6);
    assert_eq!(info.layout().align(), 2);
}

#[test]
fn drop_runs_the_destructor_on_the_value() {
    let seen: RefCell<Vec<Vec<u8>>> = RefCell::new(Vec::new());
    let record = |data: &[u8]| seen.borrow_mut().push(data.to_vec());
    let info = TypeInfo::new(1, layout(2, 2), &record as Thunk);
    info.drop(&[5, 6]);
    info.drop(&[7, 8]);
    assert_eq!(*seen.borrow(), vec![vec![5u8, 6], vec![7u8, 8]]);
}

#[test]
fn greater_alignment_comes_first() {
    let wide = TypeInfo::new(9, layout(8, 8), nothing as fn(&[u8]));
    let narrow = TypeInfo::new(1, layout(8, 4), nothing as fn(&[u8]));
    assert_eq!(wide.cmp(&narrow), Ordering::Less);
    assert_eq!(narrow.cmp(&wide), Ordering::Greater);
    assert_eq!(wide.partial_cmp(&narrow), Some(Ordering::Less));
    assert!(wide < narrow);
    assert!(narrow > wide);
    assert!(!(narrow < wide));
}

#[test]
fn identity_breaks_ties() {
    let first = TypeInfo::new(3, layout(4, 4), nothing as fn(&[u8]));
    let second = TypeInfo::new(5, layout(16, 4), nothing as fn(&[u8]));
    assert_eq!(first.cmp(&second), Ordering::Less);
    assert_eq!(second.cmp(&first), Ordering::Greater);
    assert!(first < second);
    assert!(first <= second);
    assert!(second >= first);
}

#[test]
fn same_alignment_and_identity_rank_equal() {
    let a = TypeInfo::new(3, layout(4, 4), nothing as fn(&[u8]));
    let b = TypeInfo::new(3, layout(8, 4), nothing as fn(&[u8]));
    assert_eq!(a.cmp(&b), Ordering::Equal);
    assert_eq!(a.partial_cmp(&b), Some(Ordering::Equal));
    assert!(a <= b);
    assert!(a >= b);
    assert!(!(a < b));
}

#[test]
fn equality_goes_by_identity() {
    let counted = Cell::new(0usize);
    let count = |_: &[u8]| counted.set(counted.get() + 1);
    let a = TypeInfo::new(3, layout(4, 4), &count as Thunk);
    let b = TypeInfo::new(3, layout(4, 4), &nothing as Thunk);
    let c = TypeInfo::new(4, layout(4, 4), &count as Thunk);
    assert!(a == b);
    assert!(a != c);
    assert_eq!(counted.get(), 0);
}

#[test]
fn sorting_gives_descending_alignment_then_ascending_identity() {
    let mut types = vec![
        TypeInfo::new(4, layout(1, 1), nothing as fn(&[u8])),
        TypeInfo::new(2, layout(8, 8), nothing as fn(&[u8])),
        TypeInfo::new(3, layout(4, 4), nothing as fn(&[u8])),
        TypeInfo::new(1, layout(4, 4), nothing as fn(&[u8])),
    ];
    types.sort_by(|a, b| a.cmp(b));
    let ids: Vec<u64> = types.iter().map(|info| info.id()).collect();
    assert_eq!(ids, vec![2, 1, 3, 4]);
    assert!(types.windows(2).all(|pair| pair[0] < pair[1]));
}
