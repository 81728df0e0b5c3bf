//! Placing the columns of a type set: the offset of every column and the
//! size of the buffer.
use crate::columns::{
    column_end, column_offset, layouts_wf, lemma_align_positive, lemma_column_bounds,
    lemma_column_end_monotonic, total_size,
};
use crate::layout::{align, lemma_multiple_at_least, lemma_round_up};
use crate::offsets;
use crate::type_info::{has_id, is_type_set, layouts_of, lemma_layouts_wf, TypeInfo};
use fxhash::FxHashMap;
use vstd::prelude::*;

verus! {

/// Whether the table holds, for each of the types, the offset of its column
/// in a buffer for `rows` rows, and nothing else.
pub open spec fn table_matches<D>(
    table: Map<u64, usize>,
    types: Seq<TypeInfo<D>>,
    rows: nat,
    upto: int,
) -> bool {
    &&& forall|id: u64| #[trigger] table.contains_key(id) <==> has_id(types.take(upto), id)
    &&& forall|k: int|
        0 <= k < upto ==> table[(#[trigger] types[k]).id()] == column_offset(
            layouts_of(types),
            rows,
            k,
        )
}

/// A table that matches a type set holds the offset of each of its columns.
pub proof fn lemma_table_lookup<D>(
    table: Map<u64, usize>,
    types: Seq<TypeInfo<D>>,
    rows: nat,
    k: int,
)
    requires
        table_matches(table, types, rows, types.len() as int),
        0 <= k < types.len(),
    ensures
        table.contains_key(types[k].id()),
        table[types[k].id()] == column_offset(layouts_of(types), rows, k),
{
    assert(types.take(types.len() as int) =~= types);
    assert(has_id(types, types[k].id()));
}

/// Places the columns of the given types for `rows` rows: the table of their
/// offsets and the size of the buffer, unless that size is beyond what can
/// be allocated.
pub(crate) fn place_columns<D: Fn(&[u8])>(types: &Vec<TypeInfo<D>>, rows: usize) -> (r: Option<
    (FxHashMap<u64, usize>, usize),
>)
    requires
        is_type_set(types@),
    ensures
        r.is_some() <==> total_size(layouts_of(types@), rows as nat) <= isize::MAX,
        r matches Some((table, total)) ==> total == total_size(layouts_of(types@), rows as nat)
            && table_matches(table@, types@, rows as nat, types@.len() as int),
{
    let ghost layouts = layouts_of(types@);
    let limit: usize = isize::MAX as usize;
    let mut table: FxHashMap<u64, usize> = FxHashMap::default();
    table.reserve(types.len());
    let mut cursor: usize = 0;
    let mut k: usize = 0;
    proof {
        lemma_layouts_wf(types@);
    }
    while k < types.len()
        invariant
            k <= types@.len(),
            is_type_set(types@),
            layouts == layouts_of(types@),
            layouts_wf(layouts),
            layouts.len() == types@.len(),
            limit == isize::MAX,
            cursor == column_end(layouts, rows as nat, k as int),
            cursor <= limit,
            table_matches(table@, types@, rows as nat, k as int),
        decreases types@.len() - k,
    {
        let layout = types[k].layout();
        let a: usize = layout.align();
        let size: usize = layout.size();
        let id: u64 = types[k].id();
        proof {
            assert(types@[k as int].wf());
            assert(layouts[k as int] == layout);
            lemma_align_positive(layout);
            lemma_column_bounds(layouts, rows as nat, k as int);
            lemma_column_end_monotonic(layouts, rows as nat, k + 1, layouts.len() as int);
            lemma_round_up(cursor as int, a as int);
            assert(0 <= size * rows) by (nonlinear_arith);
        }
        if a - 1 > usize::MAX - cursor {
            proof {
                lemma_multiple_at_least(column_offset(layouts, rows as nat, k as int), a as int);
            }
            return None;
        }
        let start: usize = align(cursor, a);
        if start > limit {
            return None;
        }
        let bytes: usize = match size.checked_mul(rows) {
            Some(bytes) => bytes,
            None => {
                return None;
            },
        };
        if bytes > limit - start {
            return None;
        }
        let ghost before = table@;
        offsets::insert(&mut table, id, start);
        proof {
            let next = k + 1;
            assert forall|other: u64| #[trigger]
                table@.contains_key(other) <==> has_id(types@.take(next), other) by {
                if has_id(types@.take(next), other) {
                    let j = choose|j: int|
                        0 <= j < types@.take(next).len() && (#[trigger] types@.take(
                            next,
                        )[j]).id() == other;
                    if j < k {
                        assert(types@.take(k as int)[j].id() == other);
                    }
                }
                if before.contains_key(other) {
                    let j = choose|j: int|
                        0 <= j < types@.take(k as int).len() && (#[trigger] types@.take(
                            k as int,
                        )[j]).id() == other;
                    assert(types@.take(next)[j].id() == other);
                }
                if other == id {
                    assert(types@.take(next)[k as int].id() == other);
                }
            }
            assert forall|j: int| 0 <= j < next implies table@[(#[trigger] types@[j]).id()]
                == column_offset(layouts, rows as nat, j) by {
                if j < k {
                    assert(types@[j].id() != types@[k as int].id());
                }
            }
        }
        cursor = start + bytes;
        k += 1;
    }
    Some((table, cursor))
}

} // verus!
