//! The placement of columns inside one buffer, and the bytes of their cells.
use crate::buffer::overwrite;
use crate::layout::{
    lemma_round_up, lemma_round_up_of_multiple, round_up, Layout,
};
use vstd::arithmetic::power2::is_pow2;
use vstd::prelude::*;

verus! {

/// Whether every layout of the sequence is well formed.
pub open spec fn layouts_wf(layouts: Seq<Layout>) -> bool {
    forall|k: int| 0 <= k < layouts.len() ==> (#[trigger] layouts[k]).wf()
}

/// Where the first `k` columns end when the columns of the given layouts,
/// each `rows` values long, are placed one after the other, every column at
/// the next position that suits its alignment.
pub open spec fn column_end(layouts: Seq<Layout>, rows: nat, k: int) -> int
    decreases k,
{
    if k <= 0 {
        0
    } else {
        round_up(column_end(layouts, rows, k - 1), layouts[k - 1].align() as int) + layouts[k
            - 1].size() * rows
    }
}

/// Where column `k` starts.
pub open spec fn column_offset(layouts: Seq<Layout>, rows: nat, k: int) -> int {
    round_up(column_end(layouts, rows, k), layouts[k].align() as int)
}

/// The size of the buffer that holds all the columns.
pub open spec fn total_size(layouts: Seq<Layout>, rows: nat) -> int {
    column_end(layouts, rows, layouts.len() as int)
}

/// Where the value of row `i` starts in column `k`.
pub open spec fn cell_start(layouts: Seq<Layout>, rows: nat, k: int, i: int) -> int {
    column_offset(layouts, rows, k) + i * layouts[k].size()
}

/// A well-formed layout has a positive alignment.
pub proof fn lemma_align_positive(l: Layout)
    requires
        l.wf(),
    ensures
        l.align() > 0,
{
    reveal(is_pow2);
}

/// Column `k` starts at a multiple of its alignment, not before the columns
/// in front of it end, and ends where the first `k + 1` columns end.
pub proof fn lemma_column_bounds(layouts: Seq<Layout>, rows: nat, k: int)
    requires
        layouts_wf(layouts),
        0 <= k < layouts.len(),
    ensures
        0 <= column_end(layouts, rows, k) <= column_offset(layouts, rows, k),
        column_offset(layouts, rows, k) % (layouts[k].align() as int) == 0,
        column_offset(layouts, rows, k) + layouts[k].size() * rows == column_end(
            layouts,
            rows,
            k + 1,
        ),
    decreases k,
{
    lemma_align_positive(layouts[k]);
    if k > 0 {
        lemma_column_bounds(layouts, rows, k - 1);
    }
    let size = layouts[k].size() as int;
    assert(0 <= size * rows) by (nonlinear_arith)
        requires
            0 <= size,
    ;
    if k > 0 {
        let prev = layouts[k - 1].size() as int;
        assert(0 <= prev * rows) by (nonlinear_arith)
            requires
                0 <= prev,
        ;
    }
    lemma_round_up(column_end(layouts, rows, k), layouts[k].align() as int);
}

/// The ends of the prefixes of columns do not decrease.
pub proof fn lemma_column_end_monotonic(layouts: Seq<Layout>, rows: nat, j: int, k: int)
    requires
        layouts_wf(layouts),
        0 <= j <= k <= layouts.len(),
    ensures
        0 <= column_end(layouts, rows, j) <= column_end(layouts, rows, k),
    decreases k - j,
{
    if j < k {
        lemma_column_end_monotonic(layouts, rows, j, k - 1);
        lemma_column_bounds(layouts, rows, k - 1);
        let size = layouts[k - 1].size() as int;
        assert(0 <= size * rows) by (nonlinear_arith)
            requires
                0 <= size,
        ;
    } else if j > 0 {
        lemma_column_bounds(layouts, rows, j - 1);
        let size = layouts[j - 1].size() as int;
        assert(0 <= size * rows) by (nonlinear_arith)
            requires
                0 <= size,
        ;
    }
}

/// A column ends before any later column starts, and inside the buffer.
pub proof fn lemma_columns_ordered(layouts: Seq<Layout>, rows: nat, j: int, k: int)
    requires
        layouts_wf(layouts),
        0 <= j < k < layouts.len(),
    ensures
        column_offset(layouts, rows, j) + layouts[j].size() * rows <= column_offset(
            layouts,
            rows,
            k,
        ),
{
    lemma_column_bounds(layouts, rows, j);
    lemma_column_bounds(layouts, rows, k);
    lemma_column_end_monotonic(layouts, rows, j + 1, k);
}

/// The value of row `i` of column `k` lies inside its column, hence inside
/// the buffer, and starts at a multiple of the column's alignment.
pub proof fn lemma_cell_bounds(layouts: Seq<Layout>, rows: nat, k: int, i: int)
    requires
        layouts_wf(layouts),
        0 <= k < layouts.len(),
        0 <= i < rows,
    ensures
        column_offset(layouts, rows, k) <= cell_start(layouts, rows, k, i),
        cell_start(layouts, rows, k, i) + layouts[k].size() <= column_offset(layouts, rows, k)
            + layouts[k].size() * rows,
        cell_start(layouts, rows, k, i) + layouts[k].size() <= total_size(layouts, rows),
        0 <= column_offset(layouts, rows, k),
        cell_start(layouts, rows, k, i) % (layouts[k].align() as int) == 0,
{
    lemma_column_bounds(layouts, rows, k);
    lemma_column_end_monotonic(layouts, rows, k + 1, layouts.len() as int);
    lemma_align_positive(layouts[k]);
    let size = layouts[k].size() as int;
    let a = layouts[k].align() as int;
    let r = rows as int;
    assert(0 <= i * size && i * size + size <= size * r) by (nonlinear_arith)
        requires
            0 <= i < r,
            0 <= size,
    ;
    let off = column_offset(layouts, rows, k);
    let q = size / a;
    vstd::arithmetic::div_mod::lemma_fundamental_div_mod(size, a);
    assert(i * size == (i * q) * a) by (nonlinear_arith)
        requires
            size == a * q,
    ;
    vstd::arithmetic::div_mod::lemma_mod_multiples_basic(i * q, a);
    vstd::arithmetic::div_mod::lemma_add_mod_noop(off, i * size, a);
    vstd::arithmetic::div_mod::lemma_small_mod(0, a as nat);
    assert(cell_start(layouts, rows, k, i) == off + i * size);
}

/// The values of two different cells do not overlap.
pub proof fn lemma_cells_disjoint(
    layouts: Seq<Layout>,
    rows: nat,
    k1: int,
    i1: int,
    k2: int,
    i2: int,
)
    requires
        layouts_wf(layouts),
        0 <= k1 < layouts.len(),
        0 <= k2 < layouts.len(),
        0 <= i1 < rows,
        0 <= i2 < rows,
        k1 != k2 || i1 != i2,
    ensures
        cell_start(layouts, rows, k1, i1) + layouts[k1].size() <= cell_start(
            layouts,
            rows,
            k2,
            i2,
        ) || cell_start(layouts, rows, k2, i2) + layouts[k2].size() <= cell_start(
            layouts,
            rows,
            k1,
            i1,
        ),
{
    lemma_cell_bounds(layouts, rows, k1, i1);
    lemma_cell_bounds(layouts, rows, k2, i2);
    if k1 < k2 {
        lemma_columns_ordered(layouts, rows, k1, k2);
    } else if k2 < k1 {
        lemma_columns_ordered(layouts, rows, k2, k1);
    } else {
        let size = layouts[k1].size() as int;
        if i1 < i2 {
            assert(i1 * size + size <= i2 * size) by (nonlinear_arith)
                requires
                    0 <= i1 < i2,
                    0 <= size,
            ;
        } else {
            assert(i2 * size + size <= i1 * size) by (nonlinear_arith)
                requires
                    0 <= i2 < i1,
                    0 <= size,
            ;
        }
    }
}

/// Column `k` lies inside the buffer.
pub proof fn lemma_column_room(layouts: Seq<Layout>, rows: nat, k: int)
    requires
        layouts_wf(layouts),
        0 <= k < layouts.len(),
    ensures
        0 <= column_offset(layouts, rows, k),
        0 <= layouts[k].size() * rows,
        column_offset(layouts, rows, k) + layouts[k].size() * rows <= total_size(layouts, rows),
{
    lemma_column_bounds(layouts, rows, k);
    lemma_column_end_monotonic(layouts, rows, k + 1, layouts.len() as int);
    let size = layouts[k].size() as int;
    assert(0 <= size * rows) by (nonlinear_arith)
        requires
            0 <= size,
    ;
}

/// Columns without rows take no room.
pub proof fn lemma_no_rows(layouts: Seq<Layout>, k: int)
    requires
        layouts_wf(layouts),
        0 <= k <= layouts.len(),
    ensures
        column_end(layouts, 0, k) == 0,
        k < layouts.len() ==> column_offset(layouts, 0, k) == 0,
    decreases k,
{
    if k > 0 {
        lemma_no_rows(layouts, k - 1);
    }
    if k < layouts.len() {
        lemma_align_positive(layouts[k]);
        let a = layouts[k].align() as int;
        vstd::arithmetic::div_mod::lemma_small_mod(0, a as nat);
        lemma_round_up_of_multiple(0, a);
    }
}

/// The bytes of row `i` of column `k` in a buffer for `rows` rows.
pub open spec fn cell_bytes(data: Seq<u8>, layouts: Seq<Layout>, rows: nat, k: int, i: int) -> Seq<
    u8,
> {
    data.subrange(
        cell_start(layouts, rows, k, i),
        cell_start(layouts, rows, k, i) + layouts[k].size(),
    )
}

/// Whether the first `k` columns of `target`, a buffer for `rows` rows, hold
/// in their first `old_rows` rows what the columns of `source`, a buffer for
/// `old_rows` rows, hold.
pub open spec fn columns_moved(
    target: Seq<u8>,
    source: Seq<u8>,
    layouts: Seq<Layout>,
    old_rows: nat,
    rows: nat,
    k: int,
) -> bool {
    forall|j: int, i: int|
        0 <= j < k && 0 <= i < old_rows ==> #[trigger] cell_bytes(target, layouts, rows, j, i)
            == cell_bytes(source, layouts, old_rows, j, i)
}

/// Writing a run over one cell changes the bytes of that cell and of no
/// other.
pub proof fn lemma_overwrite_cell(
    data: Seq<u8>,
    layouts: Seq<Layout>,
    rows: nat,
    k: int,
    i: int,
    run: Seq<u8>,
    k2: int,
    i2: int,
)
    requires
        layouts_wf(layouts),
        data.len() == total_size(layouts, rows),
        0 <= k < layouts.len(),
        0 <= k2 < layouts.len(),
        0 <= i < rows,
        0 <= i2 < rows,
        run.len() == layouts[k].size(),
    ensures
        cell_bytes(overwrite(data, cell_start(layouts, rows, k, i), run), layouts, rows, k2, i2)
            == (if k2 == k && i2 == i {
            run
        } else {
            cell_bytes(data, layouts, rows, k2, i2)
        }),
{
    lemma_cell_bounds(layouts, rows, k, i);
    lemma_cell_bounds(layouts, rows, k2, i2);
    if k2 != k || i2 != i {
        lemma_cells_disjoint(layouts, rows, k, i, k2, i2);
    }
    let after = overwrite(data, cell_start(layouts, rows, k, i), run);
    if k2 == k && i2 == i {
        assert(cell_bytes(after, layouts, rows, k2, i2) =~= run);
    } else {
        assert(cell_bytes(after, layouts, rows, k2, i2) =~= cell_bytes(
            data,
            layouts,
            rows,
            k2,
            i2,
        ));
    }
}

/// Writing a run over the first rows of one column changes the bytes of
/// those cells and of no other.
pub proof fn lemma_overwrite_column(
    data: Seq<u8>,
    layouts: Seq<Layout>,
    rows: nat,
    k: int,
    run: Seq<u8>,
    m: int,
    k2: int,
    i2: int,
)
    requires
        layouts_wf(layouts),
        data.len() == total_size(layouts, rows),
        0 <= k < layouts.len(),
        0 <= k2 < layouts.len(),
        0 <= m <= rows,
        0 <= i2 < rows,
        run.len() == m * layouts[k].size(),
    ensures
        cell_bytes(overwrite(data, column_offset(layouts, rows, k), run), layouts, rows, k2, i2)
            == (if k2 == k && i2 < m {
            run.subrange(i2 * layouts[k].size(), i2 * layouts[k].size() + layouts[k].size())
        } else {
            cell_bytes(data, layouts, rows, k2, i2)
        }),
{
    let size = layouts[k].size() as int;
    let start = column_offset(layouts, rows, k);
    let after = overwrite(data, start, run);
    lemma_cell_bounds(layouts, rows, k2, i2);
    lemma_column_bounds(layouts, rows, k);
    lemma_column_end_monotonic(layouts, rows, k + 1, layouts.len() as int);
    assert(0 <= m * size <= size * rows) by (nonlinear_arith)
        requires
            0 <= m <= rows,
            0 <= size,
    ;
    if k2 == k {
        if i2 < m {
            assert(0 <= i2 * size && i2 * size + size <= m * size) by (nonlinear_arith)
                requires
                    0 <= i2 < m,
                    0 <= size,
            ;
            assert(cell_bytes(after, layouts, rows, k2, i2) =~= run.subrange(
                i2 * size,
                i2 * size + size,
            ));
        } else {
            assert(m * size <= i2 * size) by (nonlinear_arith)
                requires
                    0 <= m <= i2,
                    0 <= size,
            ;
            assert(cell_bytes(after, layouts, rows, k2, i2) =~= cell_bytes(
                data,
                layouts,
                rows,
                k2,
                i2,
            ));
        }
    } else {
        if k2 < k {
            lemma_columns_ordered(layouts, rows, k2, k);
        } else {
            lemma_columns_ordered(layouts, rows, k, k2);
        }
        assert(cell_bytes(after, layouts, rows, k2, i2) =~= cell_bytes(
            data,
            layouts,
            rows,
            k2,
            i2,
        ));
    }
}

/// Copying column `k` from the source buffer to its place in the target
/// buffer moves that column and leaves the columns moved before where they
/// are.
pub proof fn lemma_column_moved(
    prev: Seq<u8>,
    source: Seq<u8>,
    layouts: Seq<Layout>,
    old_rows: nat,
    rows: nat,
    k: int,
)
    requires
        layouts_wf(layouts),
        0 <= k < layouts.len(),
        old_rows <= rows,
        prev.len() == total_size(layouts, rows),
        source.len() == total_size(layouts, old_rows),
        columns_moved(prev, source, layouts, old_rows, rows, k),
    ensures
        columns_moved(
            overwrite(
                prev,
                column_offset(layouts, rows, k),
                source.subrange(
                    column_offset(layouts, old_rows, k),
                    column_offset(layouts, old_rows, k) + layouts[k].size() * old_rows,
                ),
            ),
            source,
            layouts,
            old_rows,
            rows,
            k + 1,
        ),
{
    let size = layouts[k].size() as int;
    let from = column_offset(layouts, old_rows, k);
    let run = source.subrange(from, from + size * old_rows);
    let after = overwrite(prev, column_offset(layouts, rows, k), run);
    lemma_column_room(layouts, old_rows, k);
    assert(old_rows * size == size * old_rows) by (nonlinear_arith);
    assert forall|j: int, i: int| 0 <= j < k + 1 && 0 <= i < old_rows implies #[trigger] cell_bytes(
        after,
        layouts,
        rows,
        j,
        i,
    ) == cell_bytes(source, layouts, old_rows, j, i) by {
        lemma_overwrite_column(prev, layouts, rows, k, run, old_rows as int, j, i);
        if j == k {
            lemma_cell_bounds(layouts, old_rows, j, i);
            assert(0 <= i * size && i * size + size <= old_rows * size) by (nonlinear_arith)
                requires
                    0 <= i < old_rows,
                    0 <= size,
            ;
            assert(run.subrange(i * size, i * size + size) =~= cell_bytes(
                source,
                layouts,
                old_rows,
                j,
                i,
            ));
        }
    }
}

} // verus!
