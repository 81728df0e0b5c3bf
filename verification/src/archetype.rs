//! The archetype: rows of components, stored column by column.
use crate::buffer::{copy_from, copy_within};
use crate::columns::{
    cell_bytes, cell_start, column_offset, columns_moved, layouts_wf, lemma_cell_bounds,
    lemma_cells_disjoint, lemma_column_bounds, lemma_column_end_monotonic, lemma_column_moved,
    lemma_column_room, lemma_no_rows, lemma_overwrite_cell, total_size,
};
use crate::offsets;
use crate::placement::{lemma_table_lookup, place_columns, table_matches};
use crate::type_info::{has_id, is_type_set, layouts_of, lemma_layouts_wf, TypeInfo};
use crate::view::{fits, grown_capacity, swap_removed, visited, ArchetypeView};
use fxhash::FxHashMap;
use vstd::prelude::*;
use vstd::slice::slice_subrange;

verus! {

/// A collection of entities that have the same component types.
///
/// Every component type has a column of its own in one shared buffer; row
/// `i` of every column belongs to the entity of row `i`.
pub struct Archetype<D> {
    types: Vec<TypeInfo<D>>,
    offsets: FxHashMap<u64, usize>,
    len: u32,
    entities: Vec<u32>,
    data: Vec<u8>,
}

impl<D> View for Archetype<D> {
    type V = ArchetypeView<D>;

    closed spec fn view(&self) -> ArchetypeView<D> {
        ArchetypeView {
            types: self.types@,
            capacity: self.entities@.len(),
            entities: self.entities@.take(self.len as int),
            columns: Seq::new(
                self.types@.len(),
                |k: int|
                    Seq::new(
                        self.len as nat,
                        |i: int|
                            cell_bytes(
                                self.data@,
                                layouts_of(self.types@),
                                self.entities@.len(),
                                k,
                                i,
                            ),
                    ),
            ),
        }
    }
}

impl<D: Fn(&[u8])> Archetype<D> {
    /// What holds of the representation: the rows fit the capacity, the
    /// buffer has the size that the columns need, and the table holds the
    /// offset of every column.
    pub closed spec fn inv(&self) -> bool {
        &&& self.len <= self.entities@.len()
        &&& self.data@.len() == total_size(layouts_of(self.types@), self.entities@.len())
        &&& table_matches(
            self.offsets@,
            self.types@,
            self.entities@.len(),
            self.types@.len() as int,
        )
    }

    /// Well-formedness of an archetype.
    pub open spec fn wf(&self) -> bool {
        self.inv() && self@.wf()
    }

    /// The bytes of row `i` of column `k`, whether the row is in use or not.
    closed spec fn raw_cell(&self, k: int, i: int) -> Seq<u8> {
        cell_bytes(self.data@, layouts_of(self.types@), self.entities@.len(), k, i)
    }

    /// Whether `self` differs from `before` in the bytes of its buffer only.
    closed spec fn same_frame(&self, before: &Self) -> bool {
        &&& self.types == before.types
        &&& self.offsets == before.offsets
        &&& self.len == before.len
        &&& self.entities == before.entities
        &&& self.data@.len() == before.data@.len()
    }

    /// Whether `self` is `before` with, in each of the first `k` columns, the
    /// value of the last row copied over that of row `index`.
    closed spec fn filled(&self, before: &Self, index: int, k: int) -> bool {
        &&& self.same_frame(before)
        &&& forall|j: int, i: int|
            0 <= j < before.types@.len() && 0 <= i < before.entities@.len()
                ==> #[trigger] self.raw_cell(j, i) == (if j < k && i == index {
                before.raw_cell(j, before.len - 1)
            } else {
                before.raw_cell(j, i)
            })
    }

    /// The shape of the columns follows from the representation.
    proof fn lemma_wf_from_inv(&self)
        requires
            self.inv(),
            is_type_set(self.types@),
        ensures
            self.wf(),
    {
        lemma_layouts_wf(self.types@);
        assert forall|k: int, i: int|
            0 <= k < self@.types.len() && 0 <= i < self@.entities.len() implies (
        #[trigger] self@.columns[k][i]).len() == self@.types[k].layout().size() by {
            lemma_cell_bounds(layouts_of(self.types@), self.entities@.len(), k, i);
        }
    }

    /// In a well-formed archetype the table holds a type exactly when the
    /// archetype has a column for it, and then holds that column's offset.
    proof fn lemma_table(&self, id: u64)
        requires
            self.wf(),
        ensures
            self.offsets@.contains_key(id) <==> self@.has_type(id),
            self@.has_type(id) ==> {
                let k = self@.column_of(id);
                &&& 0 <= k < self.types@.len()
                &&& self.types@[k].id() == id
                &&& self.offsets@[id] == column_offset(
                    layouts_of(self.types@),
                    self.entities@.len(),
                    k,
                )
            },
    {
        assert(self.types@.take(self.types@.len() as int) =~= self.types@);
    }

    /// Once every column has been filled at row `index` from the last row and
    /// the row has been taken out of the sidecar, the archetype is what it
    /// was before, less that row.
    proof fn lemma_row_removed(&self, filled: &Self, before: &Self, index: int)
        requires
            before.wf(),
            0 <= index < before.len,
            filled.filled(before, index, before.types@.len() as int),
            self.wf(),
            self.types == filled.types,
            self.data == filled.data,
            self.entities@.len() == filled.entities@.len(),
            self.len == before.len - 1,
            self@.entities == swap_removed(before@.entities, index),
        ensures
            self@ == before@.swap_remove(index),
    {
        let target = before@.swap_remove(index);
        let last = before.len - 1;
        assert forall|j: int| 0 <= j < before.types@.len() implies #[trigger] self@.columns[j]
            == target.columns[j] by {
            assert forall|i: int| 0 <= i < last implies self@.columns[j][i]
                == target.columns[j][i] by {
                assert(self@.columns[j][i] == self.raw_cell(j, i));
                assert(self.raw_cell(j, i) == filled.raw_cell(j, i));
                assert(before@.columns[j][i] == before.raw_cell(j, i));
                assert(before@.columns[j].last() == before.raw_cell(j, last));
            }
            assert(self@.columns[j] =~= target.columns[j]);
        }
        assert(self@ =~~= target);
    }

    /// The column of the type of column `k` is column `k`.
    proof fn lemma_column_of(&self, k: int)
        requires
            is_type_set(self.types@),
            0 <= k < self.types@.len(),
        ensures
            self@.has_type(self.types@[k].id()),
            self@.column_of(self.types@[k].id()) == k,
    {
        let id = self.types@[k].id();
        assert(has_id(self.types@, id));
        let c = self@.column_of(id);
        if c < k {
            assert(self.types@[c].id() != self.types@[k].id());
        } else if k < c {
            assert(self.types@[k].id() != self.types@[c].id());
        }
    }

    /// An archetype without rows for the given types.
    pub fn new(types: Vec<TypeInfo<D>>) -> (r: Self)
        requires
            is_type_set(types@),
        ensures
            r.wf(),
            r@.types == types@,
            r@.capacity == 0,
            r@.len() == 0,
    {
        proof {
            lemma_layouts_wf(types@);
            lemma_no_rows(layouts_of(types@), types@.len() as int);
        }
        let (offsets, _) = place_columns(&types, 0).unwrap();
        Archetype { types, offsets, len: 0, entities: Vec::new(), data: Vec::new() }
    }

    /// The number of rows.
    pub fn len(&self) -> (r: usize)
        requires
            self.wf(),
        ensures
            r == self@.len(),
    {
        self.len as usize
    }

    /// The entities of the rows, in row order.
    pub fn entities(&self) -> (r: &[u32])
        requires
            self.wf(),
        ensures
            r@ == self@.entities,
    {
        slice_subrange(self.entities.as_slice(), 0, self.len as usize)
    }

    /// The entity of row `index`.
    pub fn entity_id(&self, index: u32) -> (r: u32)
        requires
            self.wf(),
            index < self@.len(),
        ensures
            r == self@.entities[index as int],
    {
        self.entities[index as usize]
    }

    /// The descriptors of the component types, in order.
    pub fn types(&self) -> (r: &[TypeInfo<D>])
        requires
            self.wf(),
        ensures
            r@ == self@.types,
            is_type_set(r@),
    {
        self.types.as_slice()
    }

    /// The offset of the column of the type `ty` from the start of the
    /// buffer, or nothing if the archetype has no such column.
    pub fn offset(&self, ty: u64) -> (r: Option<usize>)
        requires
            self.wf(),
        ensures
            r.is_some() <==> self@.has_type(ty),
            r matches Some(offset) ==> {
                let k = self@.column_of(ty);
                &&& offset == self@.offset(k)
                &&& offset % self@.types[k].layout().align() == 0
            },
    {
        proof {
            self.lemma_table(ty);
            if self@.has_type(ty) {
                lemma_layouts_wf(self.types@);
                lemma_column_bounds(
                    layouts_of(self.types@),
                    self.entities@.len(),
                    self@.column_of(ty),
                );
            }
        }
        offsets::get(&self.offsets, ty)
    }

    /// The values of the column of the type `ty`, one after the other, or
    /// nothing if the archetype has no such column. `T` is the type that
    /// `ty` stands for.
    pub fn data<T>(&self, ty: u64) -> (r: Option<&[u8]>)
        requires
            self.wf(),
            self@.has_type(ty) ==> vstd::layout::size_of::<T>() == self@.types[self@.column_of(
                ty,
            )].layout().size(),
        ensures
            r.is_some() <==> self@.has_type(ty),
            r matches Some(bytes) ==> {
                let size = vstd::layout::size_of::<T>() as int;
                &&& bytes@.len() == self@.len() * size
                &&& forall|i: int|
                    0 <= i < self@.len() ==> #[trigger] bytes@.subrange(i * size, i * size + size)
                        == self@.columns[self@.column_of(ty)][i]
            },
    {
        proof {
            self.lemma_table(ty);
        }
        let size: usize = core::mem::size_of::<T>();
        match offsets::get(&self.offsets, ty) {
            None => None,
            Some(offset) => {
                let ghost k = self@.column_of(ty);
                let ghost layouts = layouts_of(self.types@);
                let ghost rows = self.entities@.len();
                proof {
                    lemma_layouts_wf(self.types@);
                    lemma_column_bounds(layouts, rows, k);
                    lemma_column_end_monotonic(layouts, rows, k + 1, layouts.len() as int);
                    assert(0 <= size * self.len <= size * rows) by (nonlinear_arith)
                        requires
                            0 <= self.len <= rows,
                    ;
                    assert(self.data@.len() == self.data.len());
                }
                let bytes = slice_subrange(
                    self.data.as_slice(),
                    offset,
                    offset + size * (self.len as usize),
                );
                proof {
                    assert(self@.len() * (size as int) == size * self.len) by (nonlinear_arith)
                        requires
                            self@.len() == self.len,
                    ;
                    assert forall|i: int| 0 <= i < self@.len() implies #[trigger] bytes@.subrange(
                        i * (size as int),
                        i * (size as int) + size,
                    ) == self@.columns[k][i] by {
                        lemma_cell_bounds(layouts, rows, k, i);
                        assert(i * size + size <= size * self.len) by (nonlinear_arith)
                            requires
                                0 <= i < self.len,
                                0 <= size,
                        ;
                        assert(bytes@.subrange(i * (size as int), i * (size as int) + size)
                            =~= cell_bytes(self.data@, layouts, rows, k, i));
                    }
                }
                Some(bytes)
            },
        }
    }

    /// The value of row `index` in the column of the type `ty`, or nothing
    /// if the archetype has no such column. `T` is the type that `ty` stands
    /// for.
    pub fn get<T>(&self, ty: u64, index: u32) -> (r: Option<&[u8]>)
        requires
            self.wf(),
            index < self@.len(),
            self@.has_type(ty) ==> vstd::layout::size_of::<T>() == self@.types[self@.column_of(
                ty,
            )].layout().size(),
        ensures
            r.is_some() <==> self@.has_type(ty),
            r matches Some(bytes) ==> bytes@ == self@.columns[self@.column_of(ty)][index as int],
    {
        self.get_dynamic(ty, core::mem::size_of::<T>(), index)
    }

    /// The value of row `index` in the column of the type `ty`, whose values
    /// take `size` bytes, or nothing if the archetype has no such column.
    pub fn get_dynamic(&self, ty: u64, size: usize, index: u32) -> (r: Option<&[u8]>)
        requires
            self.wf(),
            index < self@.len(),
            self@.has_type(ty) ==> size == self@.types[self@.column_of(
                ty,
            )].layout().size(),
        ensures
            r.is_some() <==> self@.has_type(ty),
            r matches Some(bytes) ==> bytes@ == self@.columns[self@.column_of(ty)][index as int],
    {
        match self.slot(ty, size, index) {
            None => None,
            Some(start) => {
                proof {
                    self.lemma_table(ty);
                    assert(self.data@.len() == self.data.len());
                }
                Some(slice_subrange(self.data.as_slice(), start, start + size))
            },
        }
    }

    /// Moves a value into row `index` of the column of the type `ty`: the
    /// `size` bytes of `component` become the value of that row.
    pub fn put_dynamic(&mut self, component: &[u8], ty: u64, size: usize, index: u32)
        requires
            old(self).wf(),
            index < old(self)@.len(),
            old(self)@.has_type(ty),
            size == old(self)@.types[old(self)@.column_of(ty)].layout().size(),
            component@.len() == size,
        ensures
            final(self).wf(),
            final(self)@ == old(self)@.put(old(self)@.column_of(ty), index as int, component@),
    {
        let start = self.slot(ty, size, index).unwrap();
        let ghost before = *self;
        let ghost k = self@.column_of(ty);
        let ghost layouts = layouts_of(self.types@);
        let ghost rows = self.entities@.len();
        copy_from(&mut self.data, start, component);
        proof {
            before.lemma_table(ty);
            lemma_layouts_wf(self.types@);
            let target = before@.put(k, index as int, component@);
            assert forall|k2: int, i2: int|
                0 <= k2 < self.types@.len() && 0 <= i2 < self.len implies (
            #[trigger] self@.columns[k2][i2]) == target.columns[k2][i2] by {
                lemma_overwrite_cell(
                    before.data@,
                    layouts,
                    rows,
                    k,
                    index as int,
                    component@,
                    k2,
                    i2,
                );
            }
            assert(self@ =~~= target);
        }
    }

    /// Whether a further row can be had.
    pub fn can_allocate(&self) -> (r: bool)
        requires
            self.wf(),
        ensures
            r == self@.can_allocate(),
    {
        if self.len == u32::MAX {
            return false;
        }
        let old_count: usize = self.entities.len();
        if (self.len as usize) < old_count {
            return true;
        }
        let limit: usize = isize::MAX as usize;
        if old_count > limit / 8 {
            return false;
        }
        let count: usize = if old_count == 0 {
            64
        } else {
            old_count * 2
        };
        place_columns(&self.types, count).is_some()
    }

    /// Appends a row for the entity `id` and returns its index. The values
    /// of the new row are not set: every column of it is to be written
    /// before anything is read from it.
    pub fn allocate(&mut self, id: u32) -> (row: u32)
        requires
            old(self).wf(),
            old(self)@.can_allocate(),
        ensures
            final(self).wf(),
            row == old(self)@.len(),
            final(self)@.extends(old(self)@, id),
            final(self)@.capacity == old(self)@.capacity_after_allocate(),
    {
        if (self.len as usize) >= self.entities.len() {
            self.grow();
        }
        let ghost grown = *self;
        let row: u32 = self.len;
        self.entities[row as usize] = id;
        self.len += 1;
        proof {
            assert(self@.entities =~= grown@.entities.push(id));
            assert forall|k: int| 0 <= k < grown@.columns.len() implies (
            #[trigger] self@.columns[k]).len() == grown@.columns[k].len() + 1
                && self@.columns[k].drop_last() == grown@.columns[k] by {
                assert(self@.columns[k].drop_last() =~= grown@.columns[k]);
            }
            lemma_layouts_wf(self.types@);
            assert forall|k: int, i: int|
                0 <= k < self@.types.len() && 0 <= i < self@.entities.len() implies (
            #[trigger] self@.columns[k][i]).len() == self@.types[k].layout().size() by {
                lemma_cell_bounds(layouts_of(self.types@), self.entities@.len(), k, i);
            }
        }
        row
    }

    /// Doubles the capacity of a full archetype, or sets it to 64 if it was
    /// zero, and moves every column to its place in the new buffer.
    fn grow(&mut self)
        requires
            old(self).wf(),
            old(self)@.len() == old(self)@.capacity,
            fits(old(self)@.layouts(), grown_capacity(old(self)@.capacity)),
        ensures
            final(self).wf(),
            final(self)@ == (ArchetypeView {
                capacity: grown_capacity(old(self)@.capacity),
                ..old(self)@
            }),
            final(self).len == old(self).len,
            final(self).entities@.len() == grown_capacity(old(self)@.capacity),
    {
        let ghost before = *self;
        let ghost layouts = layouts_of(self.types@);
        let old_count: usize = self.entities.len();
        let count: usize = if old_count == 0 {
            64
        } else {
            old_count * 2
        };
        let mut new_entities: Vec<u32> = vec![!0u32; count];
        copy_from(&mut new_entities, 0, self.entities.as_slice());

        let (offsets, data_size) = place_columns(&self.types, count).unwrap();
        let mut new_data: Vec<u8> = vec![0u8; data_size];
        proof {
            lemma_layouts_wf(self.types@);
            assert(self.types@.take(self.types@.len() as int) =~= self.types@);
        }
        let mut k: usize = 0;
        while k < self.types.len()
            invariant
                self.types == before.types,
                self.offsets == before.offsets,
                self.data == before.data,
                is_type_set(before.types@),
                layouts == layouts_of(before.types@),
                layouts_wf(layouts),
                layouts.len() == before.types@.len(),
                old_count <= count,
                k <= before.types@.len(),
                before.data@.len() == total_size(layouts, old_count as nat),
                new_data@.len() == total_size(layouts, count as nat),
                table_matches(
                    before.offsets@,
                    before.types@,
                    old_count as nat,
                    before.types@.len() as int,
                ),
                table_matches(offsets@, before.types@, count as nat, before.types@.len() as int),
                columns_moved(
                    new_data@,
                    before.data@,
                    layouts,
                    old_count as nat,
                    count as nat,
                    k as int,
                ),
            decreases before.types@.len() - k,
        {
            let id: u64 = self.types[k].id();
            let size: usize = self.types[k].layout().size();
            proof {
                lemma_table_lookup(before.offsets@, before.types@, old_count as nat, k as int);
                lemma_table_lookup(offsets@, before.types@, count as nat, k as int);
                lemma_column_room(layouts, old_count as nat, k as int);
                lemma_column_room(layouts, count as nat, k as int);
                assert(size * old_count <= size * count) by (nonlinear_arith)
                    requires
                        0 <= old_count <= count,
                ;
                assert(self.data@.len() == self.data.len());
            }
            let old_off: usize = offsets::get(&self.offsets, id).unwrap();
            let new_off: usize = offsets::get(&offsets, id).unwrap();
            let n: usize = size * old_count;
            let ghost prev = new_data@;
            let column = slice_subrange(self.data.as_slice(), old_off, old_off + n);
            copy_from(&mut new_data, new_off, column);
            proof {
                lemma_column_moved(
                    prev,
                    before.data@,
                    layouts,
                    old_count as nat,
                    count as nat,
                    k as int,
                );
            }
            k += 1;
        }
        self.entities = new_entities;
        self.data = new_data;
        self.offsets = offsets;
        proof {
            let target = ArchetypeView { capacity: grown_capacity(before@.capacity), ..before@ };
            assert(self@.entities =~= target.entities);
            assert forall|j: int| 0 <= j < before.types@.len() implies #[trigger] self@.columns[j]
                =~= target.columns[j] by {
                assert forall|i: int| 0 <= i < before.len implies self@.columns[j][i]
                    == target.columns[j][i] by {
                    assert(cell_bytes(self.data@, layouts, count as nat, j, i) == cell_bytes(
                        before.data@,
                        layouts,
                        old_count as nat,
                        j,
                        i,
                    ));
                }
            }
            assert(self@ =~~= target);
        }
    }

    /// Removes row `index`: destructs its values and lets the last row take
    /// its place. Returns the entity of the row that has moved into `index`,
    /// if any.
    pub fn remove(&mut self, index: u32) -> (moved: Option<u32>)
        requires
            old(self).wf(),
            index < old(self)@.len(),
        ensures
            final(self).wf(),
            final(self)@ == old(self)@.swap_remove(index as int),
            moved == old(self)@.moved_by_swap_remove(index as int),
            old(self)@.row_destructed(index as int),
    {
        let ghost before = *self;
        let mut k: usize = 0;
        while k < self.types.len()
            invariant
                before.wf(),
                self.wf(),
                self.filled(&before, index as int, k as int),
                index < before.len,
                k <= before.types@.len(),
                forall|j: int|
                    0 <= j < k ==> (#[trigger] before.types@[j]).destructed(
                        before.raw_cell(j, index as int),
                    ),
            decreases before.types@.len() - k,
        {
            let id: u64 = self.types[k].id();
            let size: usize = self.types[k].layout().size();
            proof {
                self.lemma_column_of(k as int);
                assert(self.raw_cell(k as int, index as int) == before.raw_cell(
                    k as int,
                    index as int,
                ));
                assert(self.data@.len() == self.data.len());
            }
            let removed: usize = self.slot(id, size, index).unwrap();
            self.types[k].drop(slice_subrange(self.data.as_slice(), removed, removed + size));
            self.fill_from_last(k, index);
            k += 1;
        }
        let ghost filled = *self;
        let moved = self.take_row(index);
        proof {
            self.lemma_row_removed(&filled, &before, index as int);
            assert forall|j: int| 0 <= j < before@.types.len() implies (
            #[trigger] before@.types[j]).destructed(before@.columns[j][index as int]) by {
                assert(before.types@[j].destructed(before.raw_cell(j, index as int)));
            }
        }
        moved
    }

    /// Moves row `index` out: hands the value of every column, in order, to
    /// `f` together with the identity and the size of the column's type, and
    /// lets the last row take the place of the row. No value is destructed:
    /// each one is `f`'s to keep or to destruct. Returns the entity of the
    /// row that has moved into `index`, if any.
    pub fn move_to<F: FnMut(&[u8], u64, usize)>(&mut self, index: u32, mut f: F) -> (moved: Option<
        u32,
    >)
        requires
            old(self).wf(),
            index < old(self)@.len(),
            old(self)@.accepts_visitor(f),
        ensures
            final(self).wf(),
            final(self)@ == old(self)@.swap_remove(index as int),
            moved == old(self)@.moved_by_swap_remove(index as int),
            old(self)@.row_visited(f, index as int),
    {
        let ghost before = *self;
        let ghost visitor = f;
        let mut k: usize = 0;
        while k < self.types.len()
            invariant
                before.wf(),
                self.wf(),
                self.filled(&before, index as int, k as int),
                f == visitor,
                before@.accepts_visitor(visitor),
                index < before.len,
                k <= before.types@.len(),
                forall|j: int|
                    0 <= j < k ==> visited(
                        visitor,
                        before.raw_cell(j, index as int),
                        (#[trigger] before.types@[j]).id(),
                        before.types@[j].layout().size(),
                    ),
            decreases before.types@.len() - k,
        {
            let id: u64 = self.types[k].id();
            let size: usize = self.types[k].layout().size();
            proof {
                self.lemma_column_of(k as int);
                assert(self.raw_cell(k as int, index as int) == before.raw_cell(
                    k as int,
                    index as int,
                ));
                assert(self.data@.len() == self.data.len());
                assert(before@.types[k as int] == before.types@[k as int]);
            }
            let moved: usize = self.slot(id, size, index).unwrap();
            f(slice_subrange(self.data.as_slice(), moved, moved + size), id, size);
            self.fill_from_last(k, index);
            k += 1;
        }
        let ghost filled = *self;
        let moved = self.take_row(index);
        proof {
            self.lemma_row_removed(&filled, &before, index as int);
            assert forall|j: int| 0 <= j < before@.types.len() implies visited(
                f,
                before@.columns[j][index as int],
                (#[trigger] before@.types[j]).id(),
                before@.types[j].layout().size(),
            ) by {
                assert(visited(
                    visitor,
                    before.raw_cell(j, index as int),
                    before.types@[j].id(),
                    before.types@[j].layout().size(),
                ));
            }
        }
        moved
    }

    /// Removes every row: destructs the values of every column, column by
    /// column and row by row. Capacity and offsets stay as they are.
    pub fn clear(&mut self)
        requires
            old(self).wf(),
        ensures
            final(self).wf(),
            final(self)@ == old(self)@.cleared(),
            forall|i: int| 0 <= i < old(self)@.len() ==> #[trigger] old(self)@.row_destructed(i),
    {
        let ghost before = *self;
        let mut k: usize = 0;
        while k < self.types.len()
            invariant
                *self == before,
                before.wf(),
                k <= before.types@.len(),
                forall|j: int, i: int|
                    0 <= j < k && 0 <= i < before.len ==> (#[trigger] before.types@[j]).destructed(
                        #[trigger] before.raw_cell(j, i),
                    ),
            decreases before.types@.len() - k,
        {
            let id: u64 = self.types[k].id();
            let size: usize = self.types[k].layout().size();
            let mut index: u32 = 0;
            while index < self.len
                invariant
                    *self == before,
                    before.wf(),
                    k < before.types@.len(),
                    id == before.types@[k as int].id(),
                    size == before.types@[k as int].layout().size(),
                    index <= before.len,
                    forall|j: int, i: int|
                        0 <= j < k && 0 <= i < before.len ==> (
                        #[trigger] before.types@[j]).destructed(#[trigger] before.raw_cell(j, i)),
                    forall|i: int|
                        0 <= i < index ==> before.types@[k as int].destructed(
                            #[trigger] before.raw_cell(k as int, i),
                        ),
                decreases before.len - index,
            {
                proof {
                    self.lemma_column_of(k as int);
                    assert(self.data@.len() == self.data.len());
                }
                let removed: usize = self.slot(id, size, index).unwrap();
                self.types[k].drop(slice_subrange(self.data.as_slice(), removed, removed + size));
                index += 1;
            }
            k += 1;
        }
        self.len = 0;
        proof {
            self.lemma_wf_from_inv();
            assert(self@ =~~= before@.cleared());
            assert forall|i: int| 0 <= i < before@.len() implies #[trigger] before@.row_destructed(
                i,
            ) by {
                assert forall|j: int| 0 <= j < before@.types.len() implies (
                #[trigger] before@.types[j]).destructed(before@.columns[j][i]) by {
                    assert(before.types@[j].destructed(before.raw_cell(j, i)));
                }
            }
        }
    }

    /// Destroys the archetype: destructs the values of every row that is
    /// left, then releases the storage.
    pub fn drop(self)
        requires
            self.wf(),
        ensures
            forall|i: int| 0 <= i < self@.len() ==> #[trigger] self@.row_destructed(i),
    {
        let mut archetype = self;
        archetype.clear();
    }

    /// Where the value of row `index` starts in the column of the type `ty`,
    /// if there is such a column.
    fn slot(&self, ty: u64, size: usize, index: u32) -> (r: Option<usize>)
        requires
            self.wf(),
            index < self.entities@.len(),
            self@.has_type(ty) ==> size == self@.types[self@.column_of(ty)].layout().size(),
        ensures
            r.is_some() <==> self@.has_type(ty),
            r matches Some(start) ==> start == cell_start(
                layouts_of(self.types@),
                self.entities@.len(),
                self@.column_of(ty),
                index as int,
            ) && start + size <= self.data@.len(),
    {
        proof {
            self.lemma_table(ty);
        }
        match offsets::get(&self.offsets, ty) {
            None => None,
            Some(offset) => {
                proof {
                    let k = self@.column_of(ty);
                    lemma_layouts_wf(self.types@);
                    lemma_cell_bounds(
                        layouts_of(self.types@),
                        self.entities@.len(),
                        k,
                        index as int,
                    );
                    assert(size * index == index * size) by (nonlinear_arith);
                    assert(0 <= index * size) by (nonlinear_arith);
                    assert(self.data@.len() == self.data.len());
                }
                Some(offset + size * (index as usize))
            },
        }
    }

    /// Copies the value of the last row of column `k` over that of row
    /// `index`, unless `index` is the last row. The columns in front of `k`
    /// have been treated so before.
    fn fill_from_last(&mut self, k: usize, index: u32)
        requires
            old(self).wf(),
            k < old(self).types@.len(),
            index < old(self).len,
        ensures
            final(self).wf(),
            forall|before: &Self|
                old(self).filled(before, index as int, k as int) ==> #[trigger] final(self).filled(
                    before,
                    index as int,
                    k + 1,
                ),
    {
        let ghost start = *self;
        let last: u32 = self.len - 1;
        if index != last {
            let id: u64 = self.types[k].id();
            let size: usize = self.types[k].layout().size();
            let ghost layouts = layouts_of(self.types@);
            let ghost rows = self.entities@.len();
            proof {
                self.lemma_column_of(k as int);
                lemma_layouts_wf(self.types@);
                lemma_cells_disjoint(layouts, rows, k as int, index as int, k as int, last as int);
            }
            let to: usize = self.slot(id, size, index).unwrap();
            let from: usize = self.slot(id, size, last).unwrap();
            copy_within(&mut self.data, from, to, size);
            proof {
                let run = start.data@.subrange(from as int, from + size);
                assert(run =~= start.raw_cell(k as int, last as int));
                assert forall|j: int, i: int|
                    0 <= j < start.types@.len() && 0 <= i < start.entities@.len() implies (
                #[trigger] self.raw_cell(j, i)) == (if j == k && i == index {
                    start.raw_cell(k as int, last as int)
                } else {
                    start.raw_cell(j, i)
                }) by {
                    lemma_overwrite_cell(
                        start.data@,
                        layouts,
                        rows,
                        k as int,
                        index as int,
                        run,
                        j,
                        i,
                    );
                }
                self.lemma_wf_from_inv();
            }
        }
        proof {
            assert forall|before: &Self|
                start.filled(before, index as int, k as int) implies #[trigger] self.filled(
                before,
                index as int,
                k + 1,
            ) by {
                assert forall|j: int, i: int|
                    0 <= j < before.types@.len() && 0 <= i < before.entities@.len() implies (
                #[trigger] self.raw_cell(j, i)) == (if j < k + 1 && i == index {
                    before.raw_cell(j, before.len - 1)
                } else {
                    before.raw_cell(j, i)
                }) by {
                    assert(start.raw_cell(j, i) == (if j < k && i == index {
                        before.raw_cell(j, before.len - 1)
                    } else {
                        before.raw_cell(j, i)
                    }));
                    assert(start.raw_cell(k as int, last as int) == before.raw_cell(
                        k as int,
                        last as int,
                    ));
                }
            }
        }
    }

    /// Takes row `index` out of the sidecar of entities: the last row takes
    /// its place. Returns the entity that has moved, if any.
    fn take_row(&mut self, index: u32) -> (moved: Option<u32>)
        requires
            old(self).wf(),
            index < old(self).len,
        ensures
            final(self).wf(),
            final(self).types == old(self).types,
            final(self).data == old(self).data,
            final(self).entities@.len() == old(self).entities@.len(),
            final(self).len == old(self).len - 1,
            final(self)@.entities == swap_removed(old(self)@.entities, index as int),
            moved == old(self)@.moved_by_swap_remove(index as int),
    {
        let ghost before = *self;
        let last: u32 = self.len - 1;
        self.len = last;
        let moved = if index != last {
            let id: u32 = self.entities[last as usize];
            self.entities[index as usize] = id;
            Some(id)
        } else {
            None
        };
        proof {
            self.lemma_wf_from_inv();
            assert(self@.entities =~= swap_removed(before@.entities, index as int));
        }
        moved
    }
}

} // verus!
