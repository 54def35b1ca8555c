//! The parallel evaluator: what one worker of a batch does, and a batch run
//! worker by worker in software.
//!
//! A worker turns its local index into digits, adds the digits of the batch's
//! start with carry, spells the candidate, digests it as the kernel does and
//! compares with the target. A worker that matches claims the shared found
//! flag by an exchange, and only the worker that saw the flag at zero writes
//! its digits into the result slot.

use crate::codec::{
    add_with_carry, digits_of, digits_value, lemma_digits_of_congruent, lemma_value_bounds,
    lemma_value_of_digits, to_digits, DigitVector,
};
use crate::digest::{codes_of, digest_of, kernel_digest};
use crate::planner::{worker_index, BatchPlan};
use crate::space::SearchSpace;
use vstd::arithmetic::div_mod::*;
use vstd::arithmetic::power::*;
use vstd::prelude::*;

verus! {

/// What every worker of a batch is given.
#[derive(Clone, Debug)]
pub struct KernelParams {
    /// The digest that is searched for.
    pub target: u32,
    /// The number of candidates in the batch.
    pub capacity: u32,
    /// The number of workers in a grid row.
    pub stride: u32,
    /// The digits of the batch's first candidate.
    pub start_digits: DigitVector,
}

/// The found flag and the result buffer that the workers of a batch share.
#[derive(Clone, Debug)]
pub struct ResultSlot {
    /// Zero until a worker has claimed the slot, one from then on.
    pub flag: u32,
    /// The digits of the winning candidate; zeros until there is one.
    pub digits: DigitVector,
}

/// What a batch leaves behind: whether a worker matched, and the digits of
/// the one that won the slot.
#[derive(Clone, Debug)]
pub struct SearchResult {
    /// Whether some candidate of the batch has the target digest.
    pub found: bool,
    /// The digits of the winning candidate; zeros where none was found.
    pub digits: DigitVector,
}

/// `n` digits, all zero.
pub open spec fn zeros(n: nat) -> Seq<u32> {
    Seq::new(n, |i: int| 0u32)
}

/// The digits of the candidate of the worker with local index `g`, in a batch
/// whose first candidate has the digits `start`.
pub open spec fn worker_digits(space: &SearchSpace, start: Seq<u32>, g: int) -> Seq<u32> {
    digits_of(
        digits_value(start, space.spec_radix()) + g,
        space.spec_radix(),
        space.spec_length(),
    )
}

/// Whether the candidate of the worker with local index `g` has the target
/// digest.
pub open spec fn worker_hits(space: &SearchSpace, start: Seq<u32>, target: u32, g: int) -> bool {
    digest_of(space.spelled(worker_digits(space, start, g))) == target
}

/// The least local index below `limit` whose candidate has the target digest.
pub open spec fn first_hit(space: &SearchSpace, start: Seq<u32>, target: u32, limit: nat) -> Option<
    int,
>
    decreases limit,
{
    if limit == 0 {
        None
    } else {
        match first_hit(space, start, target, (limit - 1) as nat) {
            Some(g) => Some(g),
            None => if worker_hits(space, start, target, limit - 1) {
                Some(limit - 1)
            } else {
                None
            },
        }
    }
}

/// What the slot holds once the workers with the local indices below `limit`
/// have run in order, starting from a fresh slot.
pub open spec fn slot_after(space: &SearchSpace, start: Seq<u32>, target: u32, limit: nat) -> (
    u32,
    Seq<u32>,
) {
    match first_hit(space, start, target, limit) {
        Some(g) => (1u32, worker_digits(space, start, g)),
        None => (0u32, zeros(space.spec_length())),
    }
}

impl BatchPlan {
    /// The number of local indices that the grid's workers evaluate: the
    /// capacity, or the number of workers where the grid has fewer.
    pub open spec fn reach(&self) -> nat {
        if self.capacity <= self.stride * self.grid_rows {
            self.capacity as nat
        } else {
            (self.stride * self.grid_rows) as nat
        }
    }
}

impl ResultSlot {
    /// A slot that no worker has claimed: the flag at zero, `length` digits
    /// at zero.
    pub fn new(length: usize) -> (slot: ResultSlot)
        ensures
            slot.flag == 0,
            slot.digits@ == zeros(length as nat),
    {
        let mut digits: Vec<u32> = Vec::new();
        let mut i: usize = 0;
        while i < length
            invariant
                i <= length,
                digits@.len() == i,
                forall|k: int| 0 <= k < i ==> (#[trigger] digits@[k]) == 0,
            decreases length - i,
        {
            digits.push(0);
            i += 1;
        }
        assert(digits@ =~= zeros(length as nat));
        ResultSlot { flag: 0, digits }
    }

    /// Puts `value` into the flag and hands back what the flag held, in one
    /// step: of all workers that exchange a one into a zeroed flag, exactly
    /// one gets the zero back.
    pub fn exchange(&mut self, value: u32) -> (previous: u32)
        ensures
            previous == old(self).flag,
            final(self).flag == value,
            final(self).digits == old(self).digits,
    {
        let previous: u32 = self.flag;
        self.flag = value;
        previous
    }
}

/// The first hit below a limit is a hit, and no index below it is one; where
/// there is none, no index below the limit is a hit.
pub proof fn lemma_first_hit(space: &SearchSpace, start: Seq<u32>, target: u32, limit: nat)
    ensures
        match first_hit(space, start, target, limit) {
            Some(g) => {
                &&& 0 <= g < limit
                &&& worker_hits(space, start, target, g)
                &&& forall|k: int| 0 <= k < g ==> !worker_hits(space, start, target, k)
            },
            None => forall|k: int| 0 <= k < limit ==> !worker_hits(space, start, target, k),
        },
    decreases limit,
{
    if limit > 0 {
        lemma_first_hit(space, start, target, (limit - 1) as nat);
    }
}

/// With exactly one matching worker below the limit, the slot ends with that
/// worker's digits and the flag at one; with none, the flag stays at zero and
/// the digits stay zeroed.
pub proof fn lemma_single_writer(space: &SearchSpace, start: Seq<u32>, target: u32, limit: nat)
    ensures
        forall|g: int|
            0 <= g < limit && worker_hits(space, start, target, g) && (forall|k: int|
                0 <= k < limit && worker_hits(space, start, target, k) ==> k == g) ==> slot_after(
                space,
                start,
                target,
                limit,
            ) == (1u32, worker_digits(space, start, g)),
        (forall|k: int| 0 <= k < limit ==> !worker_hits(space, start, target, k)) ==> slot_after(
            space,
            start,
            target,
            limit,
        ) == (0u32, zeros(space.spec_length())),
{
    lemma_first_hit(space, start, target, limit);
}

/// The character codes of a candidate, as the kernel holds them.
fn widen(bytes: &[u8]) -> (codes: Vec<u32>)
    ensures
        codes@ == codes_of(bytes@),
{
    let mut codes: Vec<u32> = Vec::new();
    let mut i: usize = 0;
    while i < bytes.len()
        invariant
            i <= bytes.len(),
            codes@.len() == i,
            forall|k: int| 0 <= k < i ==> (#[trigger] codes@[k]) == bytes@[k] as u32,
        decreases bytes.len() - i,
    {
        codes.push(bytes[i] as u32);
        i += 1;
    }
    assert(codes@ =~= codes_of(bytes@));
    codes
}

/// One worker of a batch: the worker at position `gid_x` of grid row `gid_y`.
///
/// A worker whose local index is `capacity` or more does nothing. Any other
/// derives its candidate, and where the candidate has the target digest it
/// exchanges a one into the flag; it writes its digits only if the flag was
/// zero before.
pub fn evaluate_worker(
    space: &SearchSpace,
    params: &KernelParams,
    gid_x: u32,
    gid_y: u32,
    slot: &mut ResultSlot,
)
    requires
        space.holds(params.start_digits@),
    ensures
        ({
            let g = worker_index(gid_x as int, gid_y as int, params.stride as int);
            if g < params.capacity && worker_hits(space, params.start_digits@, params.target, g) {
                &&& final(slot).flag == 1
                &&& final(slot).digits@ == if old(slot).flag == 0 {
                    worker_digits(space, params.start_digits@, g)
                } else {
                    old(slot).digits@
                }
            } else {
                *final(slot) == *old(slot)
            }
        }),
{
    assert((gid_y as u64) * (params.stride as u64) + (gid_x as u64) <= u64::MAX) by (nonlinear_arith)
        requires
            gid_y <= u32::MAX,
            params.stride <= u32::MAX,
            gid_x <= u32::MAX,
    ;
    let global_index: u64 = gid_x as u64 + (gid_y as u64) * (params.stride as u64);
    if global_index >= params.capacity as u64 {
        return ;
    }
    let radix: u32 = space.radix();
    let local = to_digits(global_index as u128, radix, space.length());
    let digits = add_with_carry(params.start_digits.as_slice(), local.as_slice(), radix);
    proof {
        let r = radix as int;
        let n = space.spec_length();
        let base = digits_value(params.start_digits@, r);
        lemma_value_of_digits(global_index as int, r, n);
        lemma_value_bounds(params.start_digits@, r);
        lemma_pow_positive(r, n);
        lemma_mod_bound(global_index as int, pow(r, n));
        lemma_add_mod_noop_right(base, global_index as int, pow(r, n));
        lemma_digits_of_congruent(
            base + (global_index as int) % pow(r, n),
            base + global_index as int,
            r,
            n,
        );
    }
    let bytes = match space.spell(digits.as_slice()) {
        Some(bytes) => bytes,
        None => {
            return ;
        },
    };
    let codes = widen(bytes.as_slice());
    let h: u32 = kernel_digest(codes.as_slice());
    if h == params.target {
        let previous: u32 = slot.exchange(1);
        if previous == 0 {
            slot.digits = digits;
        }
    }
}

/// A batch, run in software: a fresh slot, then every worker of the grid in
/// the order of its local index.
///
/// The result is found exactly if one of the local indices that the grid
/// evaluates has a candidate with the target digest, and it then holds the
/// digits of the first of them; otherwise the digits are the zeros of the
/// fresh slot.
pub fn run_batch(space: &SearchSpace, target: u32, plan: &BatchPlan) -> (result: SearchResult)
    ensures
        ({
            let start = digits_of(
                plan.start_offset as int,
                space.spec_radix(),
                space.spec_length(),
            );
            let after = slot_after(space, start, target, plan.reach());
            &&& result.found == (after.0 == 1)
            &&& result.digits@ == after.1
        }),
{
    let radix: u32 = space.radix();
    let params = KernelParams {
        target,
        capacity: plan.capacity,
        stride: plan.stride,
        start_digits: to_digits(plan.start_offset, radix, space.length()),
    };
    let mut slot = ResultSlot::new(space.length());
    assert((plan.stride as u64) * (plan.grid_rows as u64) <= u64::MAX) by (nonlinear_arith)
        requires
            plan.stride <= u32::MAX,
            plan.grid_rows <= u32::MAX,
    ;
    let workers: u64 = (plan.stride as u64) * (plan.grid_rows as u64);
    let ghost start = params.start_digits@;
    let mut g: u64 = 0;
    while g < workers
        invariant
            g <= workers,
            workers == plan.stride * plan.grid_rows,
            space.holds(start),
            params.start_digits@ == start,
            params.target == target,
            params.capacity == plan.capacity,
            params.stride == plan.stride,
            (slot.flag, slot.digits@) == slot_after(
                space,
                start,
                target,
                if g <= plan.capacity {
                    g as nat
                } else {
                    plan.capacity as nat
                },
            ),
        decreases workers - g,
    {
        let stride: u64 = plan.stride as u64;
        assert(stride >= 1) by (nonlinear_arith)
            requires
                g < stride * plan.grid_rows,
        ;
        proof {
            lemma_fundamental_div_mod(g as int, stride as int);
            vstd::arithmetic::mul::lemma_mul_is_commutative(stride as int, (g / stride) as int);
            lemma_mod_bound(g as int, stride as int);
            assert(g / stride < plan.grid_rows) by (nonlinear_arith)
                requires
                    stride >= 1,
                    g < stride * plan.grid_rows,
                    g == stride * (g / stride) + g % stride,
                    0 <= g % stride,
            ;
        }
        let gid_x: u32 = (g % stride) as u32;
        let gid_y: u32 = (g / stride) as u32;
        proof {
            assert(worker_index(gid_x as int, gid_y as int, params.stride as int) == g);
            lemma_first_hit(
                space,
                start,
                target,
                if g <= plan.capacity {
                    g as nat
                } else {
                    plan.capacity as nat
                },
            );
        }
        evaluate_worker(space, &params, gid_x, gid_y, &mut slot);
        g += 1;
    }
    SearchResult { found: slot.flag == 1, digits: slot.digits }
}

/// Whether the worker at position `worker.0` of row `worker.1` passes the
/// bounds check and has a candidate with the target digest.
pub open spec fn scheduled_hit(space: &SearchSpace, params: KernelParams, worker: (u32, u32)) -> bool {
    let g = worker_index(worker.0 as int, worker.1 as int, params.stride as int);
    g < params.capacity && worker_hits(space, params.start_digits@, params.target, g)
}

/// The place, among the first `upto` of a schedule, of the first worker that
/// hits.
pub open spec fn first_scheduled(
    space: &SearchSpace,
    params: KernelParams,
    order: Seq<(u32, u32)>,
    upto: nat,
) -> Option<int>
    decreases upto,
{
    if upto == 0 {
        None
    } else {
        match first_scheduled(space, params, order, (upto - 1) as nat) {
            Some(k) => Some(k),
            None => if scheduled_hit(space, params, order[upto - 1]) {
                Some(upto - 1)
            } else {
                None
            },
        }
    }
}

/// The workers of a schedule, run one after the other on a shared slot. The
/// workers of a batch run in no fixed order; a schedule is one order in which
/// their claims may fall.
///
/// The slot ends claimed if a worker of the schedule hits, and holds the
/// digits of the first such worker if it was unclaimed before; without a hit
/// it is left as it was.
pub fn run_schedule(
    space: &SearchSpace,
    params: &KernelParams,
    order: &[(u32, u32)],
    slot: &mut ResultSlot,
)
    requires
        space.holds(params.start_digits@),
    ensures
        match first_scheduled(space, *params, order@, order@.len()) {
            Some(k) => {
                &&& final(slot).flag == 1
                &&& final(slot).digits@ == if old(slot).flag == 0 {
                    worker_digits(
                        space,
                        params.start_digits@,
                        worker_index(order@[k].0 as int, order@[k].1 as int, params.stride as int),
                    )
                } else {
                    old(slot).digits@
                }
            },
            None => *final(slot) == *old(slot),
        },
{
    let ghost before = *slot;
    let mut i: usize = 0;
    while i < order.len()
        invariant
            i <= order.len(),
            space.holds(params.start_digits@),
            match first_scheduled(space, *params, order@, i as nat) {
                Some(k) => {
                    &&& slot.flag == 1
                    &&& slot.digits@ == if before.flag == 0 {
                        worker_digits(
                            space,
                            params.start_digits@,
                            worker_index(
                                order@[k].0 as int,
                                order@[k].1 as int,
                                params.stride as int,
                            ),
                        )
                    } else {
                        before.digits@
                    }
                },
                None => *slot == before,
            },
        decreases order.len() - i,
    {
        let worker = order[i];
        evaluate_worker(space, params, worker.0, worker.1, slot);
        i += 1;
    }
}

/// Whatever the order of a schedule: where all of its workers that hit have
/// one and the same local index, and one of them is in the schedule, the
/// first worker that hits has that index, so that a fresh slot ends with that
/// worker's digits.
pub proof fn lemma_schedule_single_match(
    space: &SearchSpace,
    params: KernelParams,
    order: Seq<(u32, u32)>,
    upto: nat,
    g: int,
)
    requires
        upto <= order.len(),
        exists|p: int| 0 <= p < upto && #[trigger] scheduled_hit(space, params, order[p]),
        forall|q: int|
            0 <= q < upto && #[trigger] scheduled_hit(space, params, order[q]) ==> worker_index(
                order[q].0 as int,
                order[q].1 as int,
                params.stride as int,
            ) == g,
    ensures
        first_scheduled(space, params, order, upto) matches Some(k) && 0 <= k < upto
            && worker_index(order[k].0 as int, order[k].1 as int, params.stride as int) == g,
    decreases upto,
{
    let p = choose|p: int| 0 <= p < upto && #[trigger] scheduled_hit(space, params, order[p]);
    if p < upto - 1 {
        lemma_schedule_single_match(space, params, order, (upto - 1) as nat, g);
    } else {
        lemma_first_scheduled(space, params, order, (upto - 1) as nat);
    }
}

/// The first worker of a schedule that hits does hit, and lies among the
/// first `upto`.
pub proof fn lemma_first_scheduled(
    space: &SearchSpace,
    params: KernelParams,
    order: Seq<(u32, u32)>,
    upto: nat,
)
    ensures
        match first_scheduled(space, params, order, upto) {
            Some(k) => {
                &&& 0 <= k < upto
                &&& scheduled_hit(space, params, order[k])
                &&& forall|q: int| 0 <= q < k ==> !scheduled_hit(space, params, #[trigger] order[q])
            },
            None => forall|q: int|
                0 <= q < upto ==> !scheduled_hit(space, params, #[trigger] order[q]),
        },
    decreases upto,
{
    if upto > 0 {
        lemma_first_scheduled(space, params, order, (upto - 1) as nat);
    }
}

} // verus!
