//! What holds of every archetype, stated over its view.
use crate::columns::{
    cell_start, column_end, lemma_align_positive, lemma_cell_bounds, lemma_cells_disjoint,
    lemma_column_bounds, total_size,
};
use crate::layout::{lemma_round_up, lemma_round_up_of_multiple};
use crate::type_info::{has_id, index_of, TypeInfo};
use crate::view::{swap_removed, ArchetypeView};
use vstd::prelude::*;

verus! {

/// The order of descriptors is a strict total order on alignment and
/// identity: nothing comes before itself, of two descriptors that differ in
/// alignment or identity exactly one comes before the other, and the order
/// is transitive.
pub proof fn lemma_order_is_strict_and_total<D>(a: TypeInfo<D>, b: TypeInfo<D>, c: TypeInfo<D>)
    ensures
        !a.precedes(&a),
        !(a.precedes(&b) && b.precedes(&a)),
        a.precedes(&b) || b.precedes(&a) || a.same_rank(&b),
        a.precedes(&b) && b.precedes(&c) ==> a.precedes(&c),
{
}

/// The descriptors of a well-formed archetype are strictly increasing:
/// alignments do not grow along the sequence, and where two neighbours have
/// the same alignment the identity grows. No identity occurs twice.
pub proof fn lemma_types_strictly_increasing<D: Fn(&[u8])>(v: ArchetypeView<D>, i: int, j: int)
    requires
        v.wf(),
        0 <= i < j < v.types.len(),
    ensures
        v.types[i].precedes(&v.types[j]),
        !v.types[j].precedes(&v.types[i]),
        v.types[i].layout().align() >= v.types[j].layout().align(),
        v.types[i].id() != v.types[j].id(),
{
}

/// The type of a column is found again at that column, and at no other.
pub proof fn lemma_column_of_type<D: Fn(&[u8])>(v: ArchetypeView<D>, k: int)
    requires
        v.wf(),
        0 <= k < v.types.len(),
    ensures
        v.has_type(v.types[k].id()),
        v.column_of(v.types[k].id()) == k,
{
    let id = v.types[k].id();
    assert(has_id(v.types, id));
    let c = index_of(v.types, id);
    if c < k {
        assert(v.types[c].id() != v.types[k].id());
    } else if k < c {
        assert(v.types[k].id() != v.types[c].id());
    }
}

/// Every column starts at a multiple of the alignment of its type, and so
/// does the value of every row in it. The first column starts at offset
/// zero, and a column starts less than its alignment behind the end of the
/// column in front of it.
pub proof fn lemma_offsets_aligned<D: Fn(&[u8])>(v: ArchetypeView<D>, k: int, i: int)
    requires
        v.wf(),
        0 <= k < v.types.len(),
        0 <= i < v.capacity,
    ensures
        v.offset(k) % (v.types[k].layout().align() as int) == 0,
        (v.offset(k) + i * v.types[k].layout().size()) % (
        v.types[k].layout().align() as int) == 0,
        v.offset(0) == 0,
        column_end(v.layouts(), v.capacity, k) <= v.offset(k) < column_end(
            v.layouts(),
            v.capacity,
            k,
        ) + v.types[k].layout().align(),
{
    let layouts = v.layouts();
    crate::type_info::lemma_layouts_wf(v.types);
    lemma_column_bounds(layouts, v.capacity, k);
    lemma_column_bounds(layouts, v.capacity, 0);
    lemma_cell_bounds(layouts, v.capacity, k, i);
    lemma_align_positive(layouts[k]);
    lemma_align_positive(layouts[0]);
    lemma_round_up(column_end(layouts, v.capacity, k), layouts[k].align() as int);
    vstd::arithmetic::div_mod::lemma_small_mod(0, layouts[0].align() as nat);
    lemma_round_up_of_multiple(0, layouts[0].align() as int);
    assert(cell_start(layouts, v.capacity, k, i) == v.offset(k) + i
        * v.types[k].layout().size());
}

/// The values of two different cells lie inside the buffer and do not
/// overlap.
pub proof fn lemma_cells_apart<D: Fn(&[u8])>(
    v: ArchetypeView<D>,
    k1: int,
    i1: int,
    k2: int,
    i2: int,
)
    requires
        v.wf(),
        0 <= k1 < v.types.len(),
        0 <= k2 < v.types.len(),
        0 <= i1 < v.capacity,
        0 <= i2 < v.capacity,
        k1 != k2 || i1 != i2,
    ensures
        0 <= v.offset(k1) + i1 * v.types[k1].layout().size(),
        v.offset(k1) + i1 * v.types[k1].layout().size()
            + v.types[k1].layout().size() <= total_size(v.layouts(), v.capacity),
        v.offset(k1) + i1 * v.types[k1].layout().size()
            + v.types[k1].layout().size() <= v.offset(k2) + i2
            * v.types[k2].layout().size() || v.offset(k2) + i2
            * v.types[k2].layout().size() + v.types[k2].layout().size()
            <= v.offset(k1) + i1 * v.types[k1].layout().size(),
{
    let layouts = v.layouts();
    crate::type_info::lemma_layouts_wf(v.types);
    lemma_cell_bounds(layouts, v.capacity, k1, i1);
    lemma_cells_disjoint(layouts, v.capacity, k1, i1, k2, i2);
    let size1 = v.types[k1].layout().size() as int;
    assert(0 <= i1 * size1) by (nonlinear_arith)
        requires
            0 <= i1,
            0 <= size1,
    ;
    assert(cell_start(layouts, v.capacity, k1, i1) == v.offset(k1) + i1
        * v.types[k1].layout().size());
    assert(cell_start(layouts, v.capacity, k2, i2) == v.offset(k2) + i2
        * v.types[k2].layout().size());
}

/// After row `i` has left an archetype of `n` rows, `n - 1` rows are left;
/// where `i` was not the last row, the row that was last now sits at `i`,
/// with the same values and the same entity; every other row that is left
/// is as it was.
pub proof fn lemma_swap_remove<D: Fn(&[u8])>(v: ArchetypeView<D>, i: int)
    requires
        v.wf(),
        0 <= i < v.len(),
    ensures
        v.swap_remove(i).wf(),
        v.swap_remove(i).len() == v.len() - 1,
        v.swap_remove(i).capacity == v.capacity,
        v.swap_remove(i).types == v.types,
        i < v.len() - 1 ==> v.swap_remove(i).row(i) == v.row(v.len() - 1) && v.swap_remove(
            i,
        ).entities[i] == v.entities[v.len() - 1],
        forall|j: int|
            0 <= j < v.len() - 1 && j != i ==> #[trigger] v.swap_remove(i).row(j) == v.row(j)
                && v.swap_remove(i).entities[j] == v.entities[j],
{
    let w = v.swap_remove(i);
    let last = v.len() - 1;
    assert forall|k: int| 0 <= k < w.types.len() implies (#[trigger] w.columns[k]).len()
        == w.entities.len() by {
        assert(v.columns[k].len() == v.entities.len());
    }
    assert forall|k: int, j: int|
        0 <= k < w.types.len() && 0 <= j < w.entities.len() implies (
    #[trigger] w.columns[k][j]).len() == w.types[k].layout().size() by {
        assert(v.columns[k].len() == v.entities.len());
        assert(v.columns[k][j].len() == v.types[k].layout().size());
        assert(v.columns[k][last].len() == v.types[k].layout().size());
    }
    if i < last {
        assert forall|k: int| 0 <= k < v.types.len() implies w.row(i)[k] == v.row(last)[k] by {
            assert(v.columns[k].len() == v.entities.len());
        }
        assert(w.row(i) =~= v.row(last));
    }
    assert forall|j: int| 0 <= j < last && j != i implies #[trigger] w.row(j) == v.row(j)
        && w.entities[j] == v.entities[j] by {
        assert forall|k: int| 0 <= k < v.types.len() implies w.row(j)[k] == v.row(j)[k] by {
            assert(v.columns[k].len() == v.entities.len());
        }
        assert(w.row(j) =~= v.row(j));
    }
}

/// An archetype that has gained a row, whether its storage has grown for it
/// or not, holds in every row that it had before the values and the entity
/// that it held there, and in the new row the new entity.
pub proof fn lemma_allocate_preserves<D: Fn(&[u8])>(
    before: ArchetypeView<D>,
    after: ArchetypeView<D>,
    id: u32,
)
    requires
        before.wf(),
        after.extends(before, id),
    ensures
        after.len() == before.len() + 1,
        after.entities[before.len() as int] == id,
        forall|j: int|
            0 <= j < before.len() ==> #[trigger] after.row(j) == before.row(j) && after.entities[j]
                == before.entities[j],
        forall|k: int, j: int|
            0 <= k < before.types.len() && 0 <= j < before.len() ==> #[trigger] after.columns[k][j]
                == before.columns[k][j],
{
    assert forall|k: int, j: int|
        0 <= k < before.types.len() && 0 <= j < before.len() implies #[trigger] after.columns[k][j]
        == before.columns[k][j] by {
        assert(before.columns[k].len() == before.entities.len());
        assert(after.columns[k].drop_last() == before.columns[k]);
        assert(after.columns[k].drop_last()[j] == after.columns[k][j]);
    }
    assert forall|j: int| 0 <= j < before.len() implies #[trigger] after.row(j) == before.row(j)
        && after.entities[j] == before.entities[j] by {
        assert(after.row(j) =~= before.row(j));
    }
}

/// The archetype `dst` after the first `upto` values of `row`, which are of
/// the types `types`, have each been put into row `j` of the column of its
/// type.
pub open spec fn received<D>(
    dst: ArchetypeView<D>,
    j: int,
    types: Seq<TypeInfo<D>>,
    row: Seq<Seq<u8>>,
    upto: int,
) -> ArchetypeView<D>
    decreases upto,
{
    if upto <= 0 {
        dst
    } else {
        let sofar = received(dst, j, types, row, upto - 1);
        sofar.put(sofar.column_of(types[upto - 1].id()), j, row[upto - 1])
    }
}

/// While the values of a row arrive, the archetype that receives them stays
/// well formed and keeps its types, its entities and its other rows; the
/// columns whose value has arrived hold it in row `j`.
pub proof fn lemma_received<D: Fn(&[u8])>(
    src: ArchetypeView<D>,
    i: int,
    dst: ArchetypeView<D>,
    j: int,
    upto: int,
)
    requires
        src.wf(),
        dst.wf(),
        src.types == dst.types,
        0 <= i < src.len(),
        0 <= j < dst.len(),
        0 <= upto <= src.types.len(),
    ensures
        received(dst, j, src.types, src.row(i), upto).wf(),
        received(dst, j, src.types, src.row(i), upto).types == dst.types,
        received(dst, j, src.types, src.row(i), upto).capacity == dst.capacity,
        received(dst, j, src.types, src.row(i), upto).entities == dst.entities,
        forall|k: int, r: int|
            0 <= k < dst.types.len() && 0 <= r < dst.len() ==> #[trigger] received(
                dst,
                j,
                src.types,
                src.row(i),
                upto,
            ).columns[k][r] == (if r == j && k < upto {
                src.columns[k][i]
            } else {
                dst.columns[k][r]
            }),
    decreases upto,
{
    if upto > 0 {
        lemma_received(src, i, dst, j, upto - 1);
        let sofar = received(dst, j, src.types, src.row(i), upto - 1);
        let k = upto - 1;
        lemma_column_of_type(sofar, k);
        let next = received(dst, j, src.types, src.row(i), upto);
        assert(next == sofar.put(k, j, src.row(i)[k]));
        assert(src.columns[k].len() == src.entities.len());
        assert(src.columns[k][i].len() == src.types[k].layout().size());
        assert forall|c: int| 0 <= c < next.types.len() implies (#[trigger] next.columns[c]).len()
            == next.entities.len() by {
            assert(sofar.columns[c].len() == sofar.entities.len());
        }
        assert forall|c: int, r: int|
            0 <= c < next.types.len() && 0 <= r < next.entities.len() implies (
        #[trigger] next.columns[c][r]).len() == next.types[c].layout().size() by {
            assert(sofar.columns[c].len() == sofar.entities.len());
            assert(sofar.columns[c][r].len() == sofar.types[c].layout().size());
        }
        assert forall|c: int, r: int|
            0 <= c < dst.types.len() && 0 <= r < dst.len() implies #[trigger] next.columns[c][r]
            == (if r == j && c < upto {
            src.columns[c][i]
        } else {
            dst.columns[c][r]
        }) by {
            assert(sofar.columns[c].len() == sofar.entities.len());
            assert(sofar.columns[c][r] == (if r == j && c < upto - 1 {
                src.columns[c][i]
            } else {
                dst.columns[c][r]
            }));
        }
    }
}

/// When every value of row `i` of `src` is put into row `j` of an archetype
/// `dst` with the same types, row `j` of `dst` then holds the values of that
/// row of `src`, every other row of `dst` is as it was, and `src` without
/// the row is one row shorter.
pub proof fn lemma_round_trip_move<D: Fn(&[u8])>(
    src: ArchetypeView<D>,
    i: int,
    dst: ArchetypeView<D>,
    j: int,
)
    requires
        src.wf(),
        dst.wf(),
        src.types == dst.types,
        0 <= i < src.len(),
        0 <= j < dst.len(),
    ensures
        received(dst, j, src.types, src.row(i), src.types.len() as int).wf(),
        received(dst, j, src.types, src.row(i), src.types.len() as int).row(j) == src.row(i),
        forall|r: int|
            0 <= r < dst.len() && r != j ==> #[trigger] received(
                dst,
                j,
                src.types,
                src.row(i),
                src.types.len() as int,
            ).row(r) == dst.row(r),
        received(dst, j, src.types, src.row(i), src.types.len() as int).entities == dst.entities,
        src.swap_remove(i).wf(),
        src.swap_remove(i).len() == src.len() - 1,
{
    let n = src.types.len() as int;
    let end = received(dst, j, src.types, src.row(i), n);
    lemma_received(src, i, dst, j, n);
    lemma_swap_remove(src, i);
    assert(end.row(j) =~= src.row(i));
    assert forall|r: int| 0 <= r < dst.len() && r != j implies #[trigger] end.row(r) == dst.row(
        r,
    ) by {
        assert(end.row(r) =~= dst.row(r));
    }
}

/// What is left of a sequence after a swap-remove holds the values that the
/// sequence held, less the one that was removed.
pub proof fn lemma_swap_removed_values<T>(s: Seq<T>, i: int)
    requires
        0 <= i < s.len(),
    ensures
        swap_removed(s, i).len() == s.len() - 1,
        swap_removed(s, i).to_multiset() == s.to_multiset().remove(s[i]),
{
    broadcast use vstd::multiset::group_multiset_axioms;

    let u = s.update(i, s.last());
    let w = swap_removed(s, i);
    vstd::seq_lib::to_multiset_update(s, i, s.last());
    assert(u =~= w.push(s.last()));
    vstd::seq_lib::to_multiset_build(w, s.last());
    s.to_multiset_ensures();
    assert(s.to_multiset().count(s[i]) > 0);
    assert(w.to_multiset() =~= s.to_multiset().remove(s[i])) by {
        assert forall|z: T|
            w.to_multiset().count(z) == s.to_multiset().remove(s[i]).count(z) by {
            assert(w.to_multiset().insert(s.last()).count(z) == s.to_multiset().insert(
                s.last(),
            ).remove(s[i]).count(z));
        }
    }
}

/// Values leave a column one at a time and only by the way of the
/// destructor or of the visitor: when row `i` leaves the archetype, every
/// column loses exactly the value that it held in row `i`, which is the
/// value that `remove` hands to the destructor and `move_to` to the visitor,
/// and keeps all its other values.
pub proof fn lemma_remove_conserves_values<D: Fn(&[u8])>(v: ArchetypeView<D>, i: int, k: int)
    requires
        v.wf(),
        0 <= i < v.len(),
        0 <= k < v.types.len(),
    ensures
        v.swap_remove(i).columns[k].len() == v.columns[k].len() - 1,
        v.swap_remove(i).columns[k].to_multiset() == v.columns[k].to_multiset().remove(
            v.columns[k][i],
        ),
{
    assert(v.columns[k].len() == v.entities.len());
    lemma_swap_removed_values(v.columns[k], i);
}

/// Putting a value into a row takes the value that the row held out of the
/// column and the new value into it: the number of values in every column
/// stays the same.
pub proof fn lemma_put_conserves_values<D: Fn(&[u8])>(
    v: ArchetypeView<D>,
    k: int,
    i: int,
    bytes: Seq<u8>,
    c: int,
)
    requires
        v.wf(),
        0 <= i < v.len(),
        0 <= k < v.types.len(),
        0 <= c < v.types.len(),
    ensures
        v.put(k, i, bytes).columns[c].len() == v.columns[c].len(),
        c != k ==> v.put(k, i, bytes).columns[c] == v.columns[c],
        v.put(k, i, bytes).columns[k].to_multiset() == v.columns[k].to_multiset().insert(
            bytes,
        ).remove(v.columns[k][i]),
{
    assert(v.columns[k].len() == v.entities.len());
    vstd::seq_lib::to_multiset_update(v.columns[k], i, bytes);
}

} // verus!
