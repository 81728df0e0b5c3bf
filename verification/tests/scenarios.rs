use archetype_storage::{Archetype, Layout, TypeInfo};
use std::cell::Cell;

type Thunk<'a> = &'a dyn Fn(&[u8]);

const A: u64 = 1;
const B: u64 = 2;

fn layout(size: usize, align: usize) -> Layout {
    Layout::from_size_align(size, align).unwrap()
}

fn nothing(_: &[u8]) {}

#[test]
fn empty_archetype_drop() {
    let drops = Cell::new(0usize);
    let count = |_: &[u8]| drops.set(drops.get() + 1);
    let types = vec![TypeInfo::new(A, layout(4, 4), &count as Thunk)];
    let archetype = Archetype::new(types);
    assert_eq!(archetype.len(), 0);
    archetype.drop();
    assert_eq!(drops.get(), 0);
}

#[test]
fn insert_read() {
    let types = vec![
        TypeInfo::new(A, layout(4, 4), &nothing as Thunk),
        TypeInfo::new(B, layout(1, 1), &nothing as Thunk),
    ];
    let mut archetype = Archetype::new(types);
    assert!(archetype.can_allocate());
    assert_eq!(archetype.allocate(7), 0);
    // The capacity has grown to 64 rows: column B starts behind 64 values of A.
    assert_eq!(archetype.offset(A), Some(0));
    assert_eq!(archetype.offset(B), Some(4 * 64));
    archetype.put_dynamic(&[0x11, 0x22, 0x33, 0x44], A, 4, 0);
    archetype.put_dynamic(&[0xAB], B, 1, 0);
    assert_eq!(archetype.len(), 1);
    assert_eq!(archetype.entity_id(0), 7);
    assert_eq!(archetype.entities(), &[7]);
    assert_eq!(archetype.get_dynamic(A, 4, 0), Some(&[0x11u8, 0x22, 0x33, 0x44][..]));
    assert_eq!(archetype.get_dynamic(B, 1, 0), Some(&[0xABu8][..]));
    assert_eq!(archetype.get::<u32>(A, 0), Some(&[0x11u8, 0x22, 0x33, 0x44][..]));
    assert_eq!(archetype.get::<u8>(B, 0), Some(&[0xABu8][..]));
    assert_eq!(archetype.data::<u32>(A), Some(&[0x11u8, 0x22, 0x33, 0x44][..]));
    assert_eq!(archetype.data::<u8>(B), Some(&[0xABu8][..]));
}

#[test]
fn swap_remove() {
    let types = vec![TypeInfo::new(A, layout(4, 4), &nothing as Thunk)];
    let mut archetype = Archetype::new(types);
    for (row, id) in [10u32, 20, 30].into_iter().enumerate() {
        assert_eq!(archetype.allocate(id), row as u32);
        archetype.put_dynamic(&id.to_le_bytes(), A, 4, row as u32);
    }
    assert_eq!(archetype.remove(0), Some(30));
    assert_eq!(archetype.len(), 2);
    assert_eq!(archetype.entity_id(0), 30);
    assert_eq!(archetype.entity_id(1), 20);
    assert_eq!(archetype.get_dynamic(A, 4, 0), Some(&30u32.to_le_bytes()[..]));
    assert_eq!(archetype.get_dynamic(A, 4, 1), Some(&20u32.to_le_bytes()[..]));
}

#[test]
fn growth_preserves_data() {
    let types = vec![TypeInfo::new(A, layout(8, 8), &nothing as Thunk)];
    let mut archetype = Archetype::new(types);
    for row in 0..64u32 {
        assert_eq!(archetype.allocate(1000 + row), row);
        let pattern = 0xA5A5_0000_0000_0000u64 | row as u64;
        archetype.put_dynamic(&pattern.to_le_bytes(), A, 8, row);
    }
    assert_eq!(archetype.len(), 64);
    assert_eq!(archetype.allocate(1064), 64);
    let pattern = 0xA5A5_0000_0000_0000u64 | 64;
    archetype.put_dynamic(&pattern.to_le_bytes(), A, 8, 64);
    assert_eq!(archetype.len(), 65);
    for row in 0..65u32 {
        let pattern = 0xA5A5_0000_0000_0000u64 | row as u64;
        assert_eq!(archetype.get_dynamic(A, 8, row), Some(&pattern.to_le_bytes()[..]));
        assert_eq!(archetype.entity_id(row), 1000 + row);
    }
    let column = archetype.data::<u64>(A).unwrap();
    assert_eq!(column.len(), 65 * 8);
    assert_eq!(&column[8 * 64..], &pattern.to_le_bytes()[..]);
}

#[test]
fn destructor_count_under_clear() {
    let drops = Cell::new(0usize);
    let count = |_: &[u8]| drops.set(drops.get() + 1);
    let types = vec![TypeInfo::new(A, layout(4, 4), &count as Thunk)];
    let mut archetype = Archetype::new(types);
    for row in 0..10u32 {
        assert_eq!(archetype.allocate(row), row);
        archetype.put_dynamic(&row.to_le_bytes(), A, 4, row);
    }
    archetype.clear();
    assert_eq!(drops.get(), 10);
    assert_eq!(archetype.len(), 0);
    archetype.drop();
    assert_eq!(drops.get(), 10);
}

#[test]
fn cross_archetype_move() {
    let drops_of_b = Cell::new(0usize);
    let count_b = |_: &[u8]| drops_of_b.set(drops_of_b.get() + 1);
    let info_a = TypeInfo::new(A, layout(4, 4), &nothing as Thunk);
    let info_b = TypeInfo::new(B, layout(1, 1), &count_b as Thunk);
    let mut source = Archetype::new(vec![info_a, info_b]);
    let mut destination = Archetype::new(vec![info_a]);

    assert_eq!(source.allocate(5), 0);
    source.put_dynamic(&[1, 2, 3, 4], A, 4, 0);
    source.put_dynamic(&[9], B, 1, 0);

    let row = destination.allocate(5);
    let moved = source.move_to(0, |bytes: &[u8], ty: u64, size: usize| {
        if destination.offset(ty).is_some() {
            destination.put_dynamic(bytes, ty, size, row);
        } else {
            assert_eq!(ty, B);
            info_b.drop(bytes);
        }
    });

    assert_eq!(destination.get_dynamic(A, 4, row), Some(&[1u8, 2, 3, 4][..]));
    assert_eq!(destination.entity_id(row), 5);
    assert_eq!(drops_of_b.get(), 1);
    assert_eq!(source.len(), 0);
    assert_eq!(moved, None);
}
