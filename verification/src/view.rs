//! The mathematical model of an archetype.
use crate::columns::{column_offset, total_size};
use crate::layout::Layout;
use crate::type_info::{has_id, index_of, is_type_set, layouts_of, TypeInfo};
use vstd::prelude::*;

verus! {

/// What an archetype holds: its type set, its capacity in rows, the entity
/// of every row, and for every column the bytes of the value of every row.
#[verifier::ext_equal]
pub struct ArchetypeView<D> {
    /// The descriptors of the component types, in order.
    pub types: Seq<TypeInfo<D>>,
    /// The number of rows that fit without growing.
    pub capacity: nat,
    /// The entity of every row.
    pub entities: Seq<u32>,
    /// For every column, the bytes of the value of every row.
    pub columns: Seq<Seq<Seq<u8>>>,
}

/// The sequence without its element at `i`, the last element having taken
/// that place.
pub open spec fn swap_removed<T>(s: Seq<T>, i: int) -> Seq<T> {
    s.update(i, s.last()).drop_last()
}

/// The capacity that a full archetype of capacity `capacity` grows to.
pub open spec fn grown_capacity(capacity: nat) -> nat {
    if capacity == 0 {
        64
    } else {
        2 * capacity
    }
}

/// Whether the storage for `rows` rows of the given types can be allocated.
pub open spec fn fits(layouts: Seq<Layout>, rows: nat) -> bool {
    4 * rows <= isize::MAX && total_size(layouts, rows) <= isize::MAX
}

/// That `visitor` has been called on a value with the given bytes, together
/// with the given identity and size.
pub open spec fn visited<F: FnMut(&[u8], u64, usize)>(
    visitor: F,
    bytes: Seq<u8>,
    id: u64,
    size: usize,
) -> bool {
    exists|data: &[u8]| data@ == bytes && call_ensures(visitor, (data, id, size), ())
}

impl<D> ArchetypeView<D> {
    /// The number of rows.
    pub open spec fn len(self) -> nat {
        self.entities.len()
    }

    /// The layouts of the columns.
    pub open spec fn layouts(self) -> Seq<Layout> {
        layouts_of(self.types)
    }

    /// Whether the archetype has a column for the type `id`.
    pub open spec fn has_type(self, id: u64) -> bool {
        has_id(self.types, id)
    }

    /// The column of the type `id`.
    pub open spec fn column_of(self, id: u64) -> int {
        index_of(self.types, id)
    }

    /// The offset of column `k` from the start of the buffer.
    pub open spec fn offset(self, k: int) -> int {
        column_offset(self.layouts(), self.capacity, k)
    }

    /// The values of row `i`, one for every column.
    pub open spec fn row(self, i: int) -> Seq<Seq<u8>> {
        Seq::new(self.types.len(), |k: int| self.columns[k][i])
    }

    /// Whether the shape of the columns fits the types and the rows.
    pub open spec fn shaped(self) -> bool {
        &&& self.entities.len() <= self.capacity
        &&& self.columns.len() == self.types.len()
        &&& forall|k: int|
            0 <= k < self.types.len() ==> (#[trigger] self.columns[k]).len() == self.entities.len()
        &&& forall|k: int, i: int|
            0 <= k < self.types.len() && 0 <= i < self.entities.len() ==> (
            #[trigger] self.columns[k][i]).len() == self.types[k].layout().size()
    }

    /// The archetype after row `i` has left it: the last row has taken its
    /// place.
    pub open spec fn swap_remove(self, i: int) -> Self {
        ArchetypeView {
            types: self.types,
            capacity: self.capacity,
            entities: swap_removed(self.entities, i),
            columns: Seq::new(self.columns.len(), |k: int| swap_removed(self.columns[k], i)),
        }
    }

    /// The entity whose row changes place when row `i` leaves: that of the
    /// last row, unless `i` is the last row.
    pub open spec fn moved_by_swap_remove(self, i: int) -> Option<u32> {
        if i + 1 == self.len() {
            None
        } else {
            Some(self.entities.last())
        }
    }

    /// The archetype with `bytes` as the value of row `i` in column `k`.
    pub open spec fn put(self, k: int, i: int, bytes: Seq<u8>) -> Self {
        ArchetypeView { columns: self.columns.update(k, self.columns[k].update(i, bytes)), ..self }
    }

    /// The archetype without any row.
    pub open spec fn cleared(self) -> Self {
        ArchetypeView {
            types: self.types,
            capacity: self.capacity,
            entities: Seq::empty(),
            columns: Seq::new(self.columns.len(), |k: int| Seq::empty()),
        }
    }

    /// Whether a further row can be had: the rows can still be counted, and
    /// either there is room for one or the storage can grow.
    pub open spec fn can_allocate(self) -> bool {
        &&& self.len() < u32::MAX
        &&& self.len() < self.capacity || fits(self.layouts(), grown_capacity(self.capacity))
    }

    /// The capacity after a row has been allocated: as before where there
    /// was room, else grown.
    pub open spec fn capacity_after_allocate(self) -> nat {
        if self.len() < self.capacity {
            self.capacity
        } else {
            grown_capacity(self.capacity)
        }
    }

    /// Whether `self` is `before` with one more row, for the entity `id`,
    /// whose values are not determined.
    pub open spec fn extends(self, before: Self, id: u32) -> bool {
        &&& self.types == before.types
        &&& self.entities == before.entities.push(id)
        &&& self.columns.len() == before.columns.len()
        &&& forall|k: int|
            0 <= k < before.columns.len() ==> (#[trigger] self.columns[k]).len()
                == before.columns[k].len() + 1 && self.columns[k].drop_last() == before.columns[k]
    }
}

impl<D: Fn(&[u8])> ArchetypeView<D> {
    /// Well-formedness: the types form a type set and the columns have the
    /// shape that goes with them.
    pub open spec fn wf(self) -> bool {
        is_type_set(self.types) && self.shaped()
    }

    /// That the destructor of every column has run on the value of row `i`.
    pub open spec fn row_destructed(self, i: int) -> bool {
        forall|k: int|
            0 <= k < self.types.len() ==> (#[trigger] self.types[k]).destructed(self.columns[k][i])
    }

    /// Whether `visitor` may be called on every value that a column of this
    /// archetype can hold, together with the identity and the size of the
    /// column's type.
    pub open spec fn accepts_visitor<F: FnMut(&[u8], u64, usize)>(self, visitor: F) -> bool {
        forall|k: int, data: &[u8]|
            0 <= k < self.types.len() && data@.len() == self.types[k].layout().size()
                ==> #[trigger] call_requires(
                visitor,
                (data, self.types[k].id(), self.types[k].layout().size()),
            )
    }

    /// That `visitor` has been called on the value of row `i` of every
    /// column, together with the identity and the size of the column's type.
    pub open spec fn row_visited<F: FnMut(&[u8], u64, usize)>(self, visitor: F, i: int) -> bool {
        forall|k: int|
            0 <= k < self.types.len() ==> visited(
                visitor,
                self.columns[k][i],
                (#[trigger] self.types[k]).id(),
                self.types[k].layout().size(),
            )
    }
}

} // verus!
