//! The batch planner: how one batch of candidates is laid out on a
//! two-dimensional grid of worker groups.
//!
//! A batch holds `capacity` candidates, counted from `start_offset`. Workers
//! come in groups of a fixed size; a grid row holds at most a platform limit
//! of groups, so a large batch takes several rows. The worker at column
//! position `x` of row `y` works on the candidate with local index
//! `x + y * stride`, and does nothing where that index is `capacity` or more.

use vstd::arithmetic::div_mod::*;
use vstd::arithmetic::mul::*;
use vstd::prelude::*;

verus! {

/// The batch capacity of the standard search: 2^24 candidates.
pub const DEFAULT_CAPACITY: u32 = 16_777_216;

/// The worker group size of the standard search.
pub const DEFAULT_WORKERS_PER_GROUP: u32 = 64;

/// The most groups that a grid row holds unless the platform says otherwise.
pub const DEFAULT_MAX_COLUMNS: u32 = 65_535;

/// The geometry of one batch.
#[derive(Clone, Copy, Debug, PartialEq, Eq)]
pub struct BatchPlan {
    /// The index of the batch's first candidate.
    pub start_offset: u128,
    /// The number of candidates in the batch.
    pub capacity: u32,
    /// The number of worker groups in a grid row.
    pub grid_columns: u32,
    /// The number of grid rows.
    pub grid_rows: u32,
    /// The number of workers in a grid row.
    pub stride: u32,
}

/// `a / b`, rounded up.
pub open spec fn ceil_div(a: int, b: int) -> int {
    (a + b - 1) / b
}

/// The number of worker groups that `capacity` candidates need.
pub open spec fn plan_groups(capacity: int, workers_per_group: int) -> int {
    ceil_div(capacity, workers_per_group)
}

/// The number of groups in a row: all of them, up to the platform limit.
pub open spec fn plan_columns(capacity: int, workers_per_group: int, max_columns: int) -> int {
    let groups = plan_groups(capacity, workers_per_group);
    if groups <= max_columns {
        groups
    } else {
        max_columns
    }
}

/// The number of rows that hold all groups.
pub open spec fn plan_rows(capacity: int, workers_per_group: int, max_columns: int) -> int {
    ceil_div(
        plan_groups(capacity, workers_per_group),
        plan_columns(capacity, workers_per_group, max_columns),
    )
}

/// The number of workers in a row.
pub open spec fn plan_stride(capacity: int, workers_per_group: int, max_columns: int) -> int {
    plan_columns(capacity, workers_per_group, max_columns) * workers_per_group
}

/// Whether batches of `capacity` candidates can be laid out: none of the sizes
/// is zero, and every worker of the grid has a 32-bit index.
pub open spec fn grid_fits(capacity: u32, workers_per_group: u32, max_columns: u32) -> bool {
    &&& capacity >= 1
    &&& workers_per_group >= 1
    &&& max_columns >= 1
    &&& plan_stride(capacity as int, workers_per_group as int, max_columns as int) * plan_rows(
        capacity as int,
        workers_per_group as int,
        max_columns as int,
    ) <= u32::MAX
}

/// Whether a batch can be planned: there is a candidate left at
/// `start_offset`, and the grid fits.
pub open spec fn plannable(
    space_total: u128,
    start_offset: u128,
    capacity: u32,
    workers_per_group: u32,
    max_columns: u32,
) -> bool {
    &&& start_offset < space_total
    &&& grid_fits(capacity, workers_per_group, max_columns)
}

/// The plan of the batch that starts at `start_offset`.
pub open spec fn planned(
    start_offset: u128,
    capacity: u32,
    workers_per_group: u32,
    max_columns: u32,
) -> BatchPlan {
    BatchPlan {
        start_offset,
        capacity,
        grid_columns: plan_columns(capacity as int, workers_per_group as int, max_columns as int) as u32,
        grid_rows: plan_rows(capacity as int, workers_per_group as int, max_columns as int) as u32,
        stride: plan_stride(capacity as int, workers_per_group as int, max_columns as int) as u32,
    }
}

/// The local index of the worker at position `x` of row `y`.
pub open spec fn worker_index(x: int, y: int, stride: int) -> int {
    x + y * stride
}

impl BatchPlan {
    /// The grid has a worker for every candidate of the batch, and a row
    /// holds `stride` workers: `grid_columns` groups of `workers_per_group`.
    pub open spec fn wf(&self, workers_per_group: int) -> bool {
        &&& self.capacity >= 1
        &&& workers_per_group >= 1
        &&& self.grid_columns >= 1
        &&& self.grid_rows >= 1
        &&& self.stride == self.grid_columns * workers_per_group
        &&& self.grid_columns * self.grid_rows * workers_per_group >= self.capacity
        &&& self.stride * self.grid_rows <= u32::MAX
    }

    /// Whether the grid has a worker at position `x` of row `y`.
    pub open spec fn has_worker(&self, x: int, y: int) -> bool {
        0 <= x < self.stride && 0 <= y < self.grid_rows
    }

    /// The local indices that the grid's workers evaluate: those of the
    /// workers that pass the bounds check against the capacity.
    pub open spec fn evaluated(&self) -> Set<int> {
        Set::new(
            |g: int|
                exists|x: int, y: int|
                    self.has_worker(x, y) && g == #[trigger] worker_index(x, y, self.stride as int)
                        && g < self.capacity,
        )
    }
}

proof fn lemma_ceil_div(a: int, b: int)
    requires
        1 <= a,
        1 <= b,
    ensures
        1 <= ceil_div(a, b) <= a,
        a <= ceil_div(a, b) * b < a + b,
{
    let q = (a + b - 1) / b;
    lemma_fundamental_div_mod(a + b - 1, b);
    lemma_mod_bound(a + b - 1, b);
    lemma_mul_is_commutative(q, b);
    assert(1 <= q && q <= a) by (nonlinear_arith)
        requires
            1 <= a,
            1 <= b,
            a <= b * q < a + b,
    ;
}

/// Rounding up twice is rounding up once: the number of rows is the capacity
/// divided by the number of workers in a row, rounded up. No row is spare:
/// with one row less the grid would not hold the batch.
pub proof fn lemma_rows_direct(capacity: int, workers_per_group: int, max_columns: int)
    requires
        1 <= capacity,
        1 <= workers_per_group,
        1 <= max_columns,
    ensures
        plan_rows(capacity, workers_per_group, max_columns) == ceil_div(
            capacity,
            plan_stride(capacity, workers_per_group, max_columns),
        ),
        (plan_rows(capacity, workers_per_group, max_columns) - 1) * plan_stride(
            capacity,
            workers_per_group,
            max_columns,
        ) < capacity,
{
    let groups = plan_groups(capacity, workers_per_group);
    let columns = plan_columns(capacity, workers_per_group, max_columns);
    let rows = plan_rows(capacity, workers_per_group, max_columns);
    let stride = plan_stride(capacity, workers_per_group, max_columns);
    lemma_ceil_div(capacity, workers_per_group);
    lemma_ceil_div(groups, columns);
    assert(1 <= stride && (rows - 1) * stride < capacity && capacity <= rows * stride)
        by (nonlinear_arith)
        requires
            stride == columns * workers_per_group,
            1 <= columns,
            1 <= workers_per_group,
            capacity <= groups * workers_per_group < capacity + workers_per_group,
            groups <= rows * columns < groups + columns,
    ;
    assert(capacity + stride - 1 == rows * stride + (capacity - 1 - (rows - 1) * stride))
        by (nonlinear_arith);
    lemma_fundamental_div_mod_converse(
        capacity + stride - 1,
        stride,
        rows,
        capacity - 1 - (rows - 1) * stride,
    );
}

/// The planned geometry has a worker for every candidate.
pub proof fn lemma_planned_wf(
    start_offset: u128,
    capacity: u32,
    workers_per_group: u32,
    max_columns: u32,
)
    requires
        grid_fits(capacity, workers_per_group, max_columns),
    ensures
        planned(start_offset, capacity, workers_per_group, max_columns).wf(workers_per_group as int),
        1 <= plan_groups(capacity as int, workers_per_group as int) <= capacity,
        1 <= plan_columns(capacity as int, workers_per_group as int, max_columns as int)
            <= plan_groups(capacity as int, workers_per_group as int),
        1 <= plan_rows(capacity as int, workers_per_group as int, max_columns as int)
            <= plan_groups(capacity as int, workers_per_group as int),
        plan_stride(capacity as int, workers_per_group as int, max_columns as int) <= u32::MAX,
{
    let cap = capacity as int;
    let wpg = workers_per_group as int;
    let groups = plan_groups(cap, wpg);
    let columns = plan_columns(cap, wpg, max_columns as int);
    let rows = plan_rows(cap, wpg, max_columns as int);
    let stride = plan_stride(cap, wpg, max_columns as int);
    lemma_ceil_div(cap, wpg);
    lemma_ceil_div(groups, columns);
    assert(stride <= stride * rows && columns * rows * wpg >= cap && stride * rows == columns
        * rows * wpg) by (nonlinear_arith)
        requires
            stride == columns * wpg,
            1 <= rows,
            1 <= columns,
            1 <= wpg,
            groups <= rows * columns,
            cap <= groups * wpg,
    ;
}

/// The plan of the batch of `capacity` candidates that starts at
/// `start_offset`, or `None` where there is nothing to plan: no candidate left
/// at `start_offset`, a size of zero, or a grid too large for 32-bit worker
/// indices. The last batch of a space keeps its full capacity.
pub fn plan(
    space_total: u128,
    start_offset: u128,
    capacity: u32,
    workers_per_group: u32,
    max_columns: u32,
) -> (made: Option<BatchPlan>)
    ensures
        made is Some <==> plannable(
            space_total,
            start_offset,
            capacity,
            workers_per_group,
            max_columns,
        ),
        made matches Some(p) ==> p == planned(
            start_offset,
            capacity,
            workers_per_group,
            max_columns,
        ) && p.wf(workers_per_group as int),
{
    if start_offset >= space_total || capacity == 0 || workers_per_group == 0 || max_columns == 0 {
        return None;
    }
    proof {
        lemma_ceil_div(capacity as int, workers_per_group as int);
    }
    let groups: u64 = (capacity as u64 + workers_per_group as u64 - 1) / (workers_per_group as u64);
    let columns: u64 = if groups <= max_columns as u64 {
        groups
    } else {
        max_columns as u64
    };
    proof {
        lemma_ceil_div(groups as int, columns as int);
    }
    let rows: u64 = (groups + columns - 1) / columns;
    assert(columns * (workers_per_group as u64) <= u64::MAX) by (nonlinear_arith)
        requires
            columns <= u32::MAX,
            workers_per_group <= u32::MAX,
    ;
    let stride: u64 = columns * (workers_per_group as u64);
    if stride > u32::MAX as u64 {
        proof {
            assert(stride * rows >= stride) by (nonlinear_arith)
                requires
                    rows >= 1,
                    stride >= 0,
            ;
        }
        return None;
    }
    assert(stride * rows <= u64::MAX) by (nonlinear_arith)
        requires
            stride <= u32::MAX,
            rows <= u32::MAX,
    ;
    if stride * rows > u32::MAX as u64 {
        return None;
    }
    proof {
        lemma_planned_wf(start_offset, capacity, workers_per_group, max_columns);
    }
    Some(
        BatchPlan {
            start_offset,
            capacity,
            grid_columns: columns as u32,
            grid_rows: rows as u32,
            stride: stride as u32,
        },
    )
}

/// The worker that evaluates local index `g`: column position `g mod stride`
/// of row `g / stride`.
pub proof fn lemma_worker_of_index(p: BatchPlan, workers_per_group: int, g: int)
    requires
        p.wf(workers_per_group),
        0 <= g < p.capacity,
    ensures
        p.has_worker(g % (p.stride as int), g / (p.stride as int)),
        worker_index(g % (p.stride as int), g / (p.stride as int), p.stride as int) == g,
{
    let stride = p.stride as int;
    let rows = p.grid_rows as int;
    let columns = p.grid_columns as int;
    assert(stride >= 1 && g < stride * rows) by (nonlinear_arith)
        requires
            stride == columns * workers_per_group,
            columns >= 1,
            workers_per_group >= 1,
            columns * rows * workers_per_group >= p.capacity,
            g < p.capacity,
    ;
    lemma_fundamental_div_mod(g, stride);
    lemma_mod_bound(g, stride);
    lemma_div_pos_is_pos(g, stride);
    lemma_mul_is_commutative(stride, g / stride);
    let y = g / stride;
    assert(y < rows) by (nonlinear_arith)
        requires
            stride >= 1,
            0 <= g % stride,
            g == stride * y + g % stride,
            g < stride * rows,
    ;
}

/// Two workers of a grid with the same local index are the same worker.
pub proof fn lemma_worker_index_injective(stride: int, x1: int, y1: int, x2: int, y2: int)
    requires
        1 <= stride,
        0 <= x1 < stride,
        0 <= x2 < stride,
        worker_index(x1, y1, stride) == worker_index(x2, y2, stride),
    ensures
        x1 == x2,
        y1 == y2,
{
    lemma_fundamental_div_mod_converse(worker_index(x1, y1, stride), stride, y1, x1);
    lemma_fundamental_div_mod_converse(worker_index(x2, y2, stride), stride, y2, x2);
}

/// The local indices that a batch's grid evaluates are exactly
/// `0, ..., capacity - 1`: none is left out, none lies outside, and no two
/// workers share one.
pub proof fn lemma_batch_coverage(p: BatchPlan, workers_per_group: int)
    requires
        p.wf(workers_per_group),
    ensures
        p.evaluated() == Set::new(|g: int| 0 <= g < p.capacity),
        forall|x1: int, y1: int, x2: int, y2: int|
            p.has_worker(x1, y1) && p.has_worker(x2, y2) && #[trigger] worker_index(
                x1,
                y1,
                p.stride as int,
            ) == #[trigger] worker_index(x2, y2, p.stride as int) ==> x1 == x2 && y1 == y2,
{
    let stride = p.stride as int;
    let range = Set::new(|g: int| 0 <= g < p.capacity);
    assert(stride >= 1) by (nonlinear_arith)
        requires
            stride == p.grid_columns * workers_per_group,
            p.grid_columns >= 1,
            workers_per_group >= 1,
    ;
    assert forall|g: int| range.contains(g) implies p.evaluated().contains(g) by {
        lemma_worker_of_index(p, workers_per_group, g);
        assert(p.has_worker(g % stride, g / stride) && g == worker_index(
            g % stride,
            g / stride,
            stride,
        ));
    }
    assert forall|g: int| p.evaluated().contains(g) implies range.contains(g) by {
        let (x, y) = choose|x: int, y: int|
            p.has_worker(x, y) && g == #[trigger] worker_index(x, y, stride) && g < p.capacity;
        assert(y * stride >= 0) by (nonlinear_arith)
            requires
                y >= 0,
                stride >= 1,
        ;
    }
    assert(p.evaluated() =~= range);
    assert forall|x1: int, y1: int, x2: int, y2: int|
        p.has_worker(x1, y1) && p.has_worker(x2, y2) && #[trigger] worker_index(x1, y1, stride)
            == #[trigger] worker_index(x2, y2, stride) implies x1 == x2 && y1 == y2 by {
        lemma_worker_index_injective(stride, x1, y1, x2, y2);
    }
}

} // verus!
