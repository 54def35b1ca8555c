//! The search driver: the state machine that walks the space batch by batch,
//! and a search that runs it with the software evaluator.
//!
//! The driver decides; it does no work on a device. Whoever runs it performs
//! each action that [`Driver::step`] hands out and reports back with the next
//! event. One batch is in flight at a time: the next is planned only once the
//! result of the last has been handed in.

use crate::codec::{
    digits_of, lemma_digits_of_in_range, lemma_digits_of_mod, lemma_value_of_digits, to_digits,
    DigitVector,
};
use crate::digest::digest_of;
use crate::evaluator::{first_hit, lemma_first_hit, run_batch, worker_hits, KernelParams};
use crate::planner::{
    ceil_div, grid_fits, lemma_planned_wf, plan, planned, BatchPlan, DEFAULT_CAPACITY,
    DEFAULT_MAX_COLUMNS, DEFAULT_WORKERS_PER_GROUP,
};
use crate::space::{ascii_chars, SearchSpace};
use vstd::arithmetic::div_mod::*;
use vstd::arithmetic::mul::*;
use vstd::prelude::*;

verus! {

/// The faults that end a search.
#[derive(Clone, Copy, Debug, PartialEq, Eq)]
pub enum SearchError {
    /// No device could be acquired.
    DeviceUnavailable,
    /// The kernel did not build for the device.
    KernelCompilationFailure,
    /// A transfer to or from the device failed, or what was read back is no
    /// digit vector of the space.
    TransferFailure,
}

/// Where a search stands.
#[derive(Clone, Copy, Debug, PartialEq, Eq)]
pub enum Phase {
    /// Nothing has been dispatched yet.
    Idle,
    /// A batch has been planned and is to be submitted.
    Dispatching,
    /// A batch runs; its result is awaited.
    AwaitingResult,
    /// A preimage was found.
    Found,
    /// Every batch ran, and none held a preimage.
    Exhausted,
    /// A fault ended the search.
    Failed,
}

/// The sizes that a search is run with.
#[derive(Clone, Copy, Debug, PartialEq, Eq)]
pub struct Config {
    /// The number of candidates in a batch.
    pub capacity: u32,
    /// The number of workers in a group.
    pub workers_per_group: u32,
    /// The most groups that a grid row holds.
    pub max_grid_columns: u32,
}

/// What is reported to the driver.
#[derive(Clone, Debug, PartialEq, Eq)]
pub enum Event {
    /// The search is to begin.
    Start,
    /// The planned batch has been submitted.
    Submitted,
    /// The batch is complete, and this was read back.
    Completed {
        /// The found flag.
        flag: u32,
        /// The result buffer.
        digits: DigitVector,
    },
    /// The device failed.
    Fault(SearchError),
}

/// How a search ended.
#[derive(Clone, Debug, PartialEq, Eq)]
pub enum Outcome {
    /// A candidate with the target digest.
    Found {
        /// The digits of the candidate.
        digits: DigitVector,
        /// The candidate.
        preimage: String,
    },
    /// No candidate of the space has the target digest.
    Exhausted,
    /// The search was aborted.
    Failed(SearchError),
}

/// What the driver asks for.
#[derive(Clone, Debug)]
pub enum Action {
    /// Reset the found flag and the result buffer, then submit this batch.
    Dispatch {
        /// The geometry of the batch.
        plan: BatchPlan,
        /// What its workers are given.
        params: KernelParams,
    },
    /// Wait until the batch is complete, then read the flag and the result
    /// back.
    Await,
    /// The search is over.
    Report(Outcome),
    /// The event does not belong to the phase; nothing changed.
    Ignore,
}

/// What a driver shows of itself: its phase, and the index of the first
/// candidate of the batch in flight or next to be dispatched.
pub struct DriverState {
    /// Where the search stands.
    pub phase: Phase,
    /// The index of the first candidate of the batch in flight or next to be
    /// dispatched.
    pub offset: u128,
}

/// A search over one space for one target digest.
pub struct Driver {
    space: SearchSpace,
    target: u32,
    config: Config,
    phase: Phase,
    offset: u128,
}

/// How a search with the software evaluator ended, and after how many batches.
#[derive(Clone, Debug, PartialEq, Eq)]
pub struct SearchReport {
    /// How the search ended.
    pub outcome: Outcome,
    /// The number of batches that were run.
    pub batches: u128,
}

/// Whether the candidate with the given index has the target digest.
pub open spec fn matches_at(space: &SearchSpace, target: u32, index: int) -> bool {
    digest_of(space.candidate(index)) == target
}

/// The least index below `limit` whose candidate has the target digest.
pub open spec fn first_match(space: &SearchSpace, target: u32, limit: nat) -> Option<int>
    decreases limit,
{
    if limit == 0 {
        None
    } else {
        match first_match(space, target, (limit - 1) as nat) {
            Some(i) => Some(i),
            None => if matches_at(space, target, limit - 1) {
                Some(limit - 1)
            } else {
                None
            },
        }
    }
}

impl Phase {
    /// Whether the search is still under way.
    pub open spec fn active(self) -> bool {
        self is Idle || self is Dispatching || self is AwaitingResult
    }
}

impl Config {
    /// Whether batches can be laid out with these sizes.
    pub open spec fn usable(&self) -> bool {
        grid_fits(self.capacity, self.workers_per_group, self.max_grid_columns)
    }

    /// The sizes of the standard search: batches of 2^24 candidates, groups of
    /// 64 workers, rows of at most 65535 groups.
    pub fn standard() -> (config: Config)
        ensures
            config.capacity == DEFAULT_CAPACITY,
            config.workers_per_group == DEFAULT_WORKERS_PER_GROUP,
            config.max_grid_columns == DEFAULT_MAX_COLUMNS,
            config.usable(),
    {
        proof {
            let groups = crate::planner::plan_groups(16_777_216, 64);
            assert(groups == 262_144);
            assert(crate::planner::plan_columns(16_777_216, 64, 65_535) == 65_535);
            assert(crate::planner::plan_rows(16_777_216, 64, 65_535) == 5);
            assert(crate::planner::plan_stride(16_777_216, 64, 65_535) == 4_194_240);
        }
        Config {
            capacity: DEFAULT_CAPACITY,
            workers_per_group: DEFAULT_WORKERS_PER_GROUP,
            max_grid_columns: DEFAULT_MAX_COLUMNS,
        }
    }

    /// Whether batches can be laid out with these sizes.
    pub fn is_usable(&self) -> (ok: bool)
        ensures
            ok == self.usable(),
    {
        plan(1, 0, self.capacity, self.workers_per_group, self.max_grid_columns).is_some()
    }
}

impl View for Driver {
    type V = DriverState;

    closed spec fn view(&self) -> DriverState {
        DriverState { phase: self.phase, offset: self.offset }
    }
}

impl Driver {
    /// The space that is searched.
    pub closed spec fn spec_space(&self) -> &SearchSpace {
        &self.space
    }

    /// The digest that is searched for.
    pub closed spec fn spec_target(&self) -> u32 {
        self.target
    }

    /// The sizes that the search is run with.
    pub closed spec fn spec_config(&self) -> Config {
        self.config
    }

    /// The sizes are usable, the offset is a whole number of batches, and
    /// while the search is under way there is a candidate left at the offset.
    pub open spec fn wf(&self) -> bool {
        &&& self.spec_config().usable()
        &&& self.spec_space().wf()
        &&& self@.offset as int % self.spec_config().capacity as int == 0
        &&& self@.phase.active() ==> self@.offset < self.spec_space().size()
    }

    #[verifier::type_invariant]
    closed spec fn inv(self) -> bool {
        self.wf()
    }

    /// Whether `action` dispatches the batch at the driver's offset: the
    /// planned geometry, the target, and the digits of the offset as the
    /// batch's start.
    pub open spec fn dispatches(&self, action: Action) -> bool {
        let config = self.spec_config();
        &&& action matches Action::Dispatch { plan, params }
        &&& plan == planned(
            self@.offset,
            config.capacity,
            config.workers_per_group,
            config.max_grid_columns,
        )
        &&& plan.wf(config.workers_per_group as int)
        &&& params.target == self.spec_target()
        &&& params.capacity == plan.capacity
        &&& params.stride == plan.stride
        &&& params.start_digits@ == digits_of(
            self@.offset as int,
            self.spec_space().spec_radix(),
            self.spec_space().spec_length(),
        )
    }

    /// A driver for the search of `space` for `target`, idle at offset zero;
    /// `None` where batches cannot be laid out with the sizes of `config`.
    pub fn new(space: SearchSpace, target: u32, config: Config) -> (made: Option<Driver>)
        ensures
            made is Some <==> config.usable(),
            made matches Some(driver) ==> {
                &&& driver.wf()
                &&& driver@.phase == Phase::Idle
                &&& driver@.offset == 0
                &&& *driver.spec_space() == space
                &&& driver.spec_target() == target
                &&& driver.spec_config() == config
            },
    {
        if !config.is_usable() {
            return None;
        }
        // Asking for the size brings the validity of the space into view.
        let total: u128 = space.total();
        proof {
            lemma_small_mod(0, config.capacity as nat);
        }
        Some(Driver { space, target, config, phase: Phase::Idle, offset: 0 })
    }

    /// Where the search stands.
    pub fn phase(&self) -> (phase: Phase)
        ensures
            phase == self@.phase,
    {
        self.phase
    }

    /// The index of the first candidate of the batch in flight or next to be
    /// dispatched.
    pub fn offset(&self) -> (offset: u128)
        ensures
            offset == self@.offset,
    {
        self.offset
    }

    /// The space that is searched.
    pub fn space(&self) -> (space: &SearchSpace)
        ensures
            space == self.spec_space(),
    {
        &self.space
    }

    /// The digest that is searched for.
    pub fn target(&self) -> (target: u32)
        ensures
            target == self.spec_target(),
    {
        self.target
    }

    /// The sizes that the search is run with.
    pub fn config(&self) -> (config: Config)
        ensures
            config == self.spec_config(),
    {
        self.config
    }

    /// The action that dispatches the batch at the offset.
    fn dispatch(&self) -> (action: Action)
        requires
            self@.phase.active(),
        ensures
            self.dispatches(action),
    {
        proof {
            use_type_invariant(self);
            lemma_planned_wf(
                self.offset,
                self.config.capacity,
                self.config.workers_per_group,
                self.config.max_grid_columns,
            );
        }
        let made = plan(
            self.space.total(),
            self.offset,
            self.config.capacity,
            self.config.workers_per_group,
            self.config.max_grid_columns,
        );
        match made {
            Some(plan) => {
                let params = KernelParams {
                    target: self.target,
                    capacity: plan.capacity,
                    stride: plan.stride,
                    start_digits: to_digits(self.offset, self.space.radix(), self.space.length()),
                };
                Action::Dispatch { plan, params }
            },
            None => Action::Ignore,
        }
    }

    /// Takes an event and says what is to be done next.
    ///
    /// * Idle, on `Start`: the first batch is dispatched.
    /// * Dispatching, on `Submitted`: the result is awaited.
    /// * AwaitingResult, on `Completed`: with the flag set, the search has
    ///   found the candidate that the digits spell, or has failed where they
    ///   are no digit vector of the space; with the flag at zero, the search
    ///   is exhausted where the batch was the last, and the next batch is
    ///   dispatched where it was not.
    /// * Under way, on `Fault`: the search has failed with that fault.
    /// * Anything else is ignored.
    pub fn step(&mut self, event: Event) -> (action: Action)
        ensures
            final(self).spec_space() == old(self).spec_space(),
            final(self).spec_target() == old(self).spec_target(),
            final(self).spec_config() == old(self).spec_config(),
            final(self).wf(),
            match (old(self)@.phase, event) {
                (Phase::Idle, Event::Start) => {
                    &&& final(self)@.phase == Phase::Dispatching
                    &&& final(self)@.offset == old(self)@.offset
                    &&& final(self).dispatches(action)
                },
                (Phase::Dispatching, Event::Submitted) => {
                    &&& final(self)@.phase == Phase::AwaitingResult
                    &&& final(self)@.offset == old(self)@.offset
                    &&& action is Await
                },
                (Phase::AwaitingResult, Event::Completed { flag, digits }) => {
                    let space = old(self).spec_space();
                    let capacity = old(self).spec_config().capacity;
                    if flag != 0 {
                        &&& final(self)@.offset == old(self)@.offset
                        &&& if space.holds(digits@) {
                            &&& final(self)@.phase == Phase::Found
                            &&& action matches Action::Report(Outcome::Found { digits: won, preimage })
                            &&& won@ == digits@
                            &&& preimage@ == ascii_chars(space.spelled(digits@))
                        } else {
                            &&& final(self)@.phase == Phase::Failed
                            &&& action matches Action::Report(
                                Outcome::Failed(SearchError::TransferFailure),
                            )
                        }
                    } else if space.size() - old(self)@.offset <= capacity {
                        &&& final(self)@.phase == Phase::Exhausted
                        &&& final(self)@.offset == old(self)@.offset
                        &&& action matches Action::Report(Outcome::Exhausted)
                    } else {
                        &&& final(self)@.phase == Phase::Dispatching
                        &&& final(self)@.offset == old(self)@.offset + capacity
                        &&& final(self).dispatches(action)
                    }
                },
                (Phase::Idle, Event::Fault(fault))
                | (Phase::Dispatching, Event::Fault(fault))
                | (Phase::AwaitingResult, Event::Fault(fault)) => {
                    &&& final(self)@.phase == Phase::Failed
                    &&& final(self)@.offset == old(self)@.offset
                    &&& action matches Action::Report(Outcome::Failed(reported))
                    &&& reported == fault
                },
                _ => {
                    &&& final(self)@ == old(self)@
                    &&& action is Ignore
                },
            },
    {
        proof {
            use_type_invariant(&*self);
        }
        match self.phase {
            Phase::Idle => match event {
                Event::Start => {
                    self.phase = Phase::Dispatching;
                    self.dispatch()
                },
                Event::Fault(fault) => {
                    self.phase = Phase::Failed;
                    Action::Report(Outcome::Failed(fault))
                },
                _ => Action::Ignore,
            },
            Phase::Dispatching => match event {
                Event::Submitted => {
                    self.phase = Phase::AwaitingResult;
                    Action::Await
                },
                Event::Fault(fault) => {
                    self.phase = Phase::Failed;
                    Action::Report(Outcome::Failed(fault))
                },
                _ => Action::Ignore,
            },
            Phase::AwaitingResult => match event {
                Event::Completed { flag, digits } => {
                    if flag != 0 {
                        match self.space.spell_string(digits.as_slice()) {
                            Some(preimage) => {
                                self.phase = Phase::Found;
                                Action::Report(Outcome::Found { digits, preimage })
                            },
                            None => {
                                self.phase = Phase::Failed;
                                Action::Report(Outcome::Failed(SearchError::TransferFailure))
                            },
                        }
                    } else {
                        let left: u128 = self.space.total() - self.offset;
                        if left <= self.config.capacity as u128 {
                            self.phase = Phase::Exhausted;
                            Action::Report(Outcome::Exhausted)
                        } else {
                            proof {
                                lemma_mod_add_multiples_vanish(
                                    self.offset as int,
                                    self.config.capacity as int,
                                );
                            }
                            self.offset = self.offset + self.config.capacity as u128;
                            self.phase = Phase::Dispatching;
                            self.dispatch()
                        }
                    }
                },
                Event::Fault(fault) => {
                    self.phase = Phase::Failed;
                    Action::Report(Outcome::Failed(fault))
                },
                _ => Action::Ignore,
            },
            _ => Action::Ignore,
        }
    }
}

/// The first match below a limit is a match, and no index below it is one;
/// where there is none, no index below the limit is a match.
pub proof fn lemma_first_match(space: &SearchSpace, target: u32, limit: nat)
    ensures
        match first_match(space, target, limit) {
            Some(i) => {
                &&& 0 <= i < limit
                &&& matches_at(space, target, i)
                &&& forall|j: int| 0 <= j < i ==> !matches_at(space, target, j)
            },
            None => forall|j: int| 0 <= j < limit ==> !matches_at(space, target, j),
        },
    decreases limit,
{
    if limit > 0 {
        lemma_first_match(space, target, (limit - 1) as nat);
    }
}

proof fn lemma_first_match_is(space: &SearchSpace, target: u32, limit: nat, i: int)
    requires
        0 <= i < limit,
        matches_at(space, target, i),
        forall|j: int| 0 <= j < i ==> !matches_at(space, target, j),
    ensures
        first_match(space, target, limit) == Some(i),
{
    lemma_first_match(space, target, limit);
}

/// An index of `size()` or more names the candidate of the index reduced
/// modulo `size()`.
pub proof fn lemma_candidate_wraps(space: &SearchSpace, index: int)
    requires
        space.wf(),
        0 <= index,
    ensures
        space.candidate(index % space.size()) == space.candidate(index),
{
    lemma_digits_of_mod(index, space.spec_radix(), space.spec_length());
}

/// In the batch that starts at `offset`, the worker with local index `g`
/// evaluates the candidate with index `offset + g`.
proof fn lemma_hit_is_match(space: &SearchSpace, offset: int, target: u32, g: int)
    requires
        space.wf(),
        0 <= offset < space.size(),
        0 <= g,
    ensures
        crate::evaluator::worker_digits(
            space,
            digits_of(offset, space.spec_radix(), space.spec_length()),
            g,
        ) == digits_of(offset + g, space.spec_radix(), space.spec_length()),
        worker_hits(
            space,
            digits_of(offset, space.spec_radix(), space.spec_length()),
            target,
            g,
        ) == matches_at(space, target, offset + g),
{
    lemma_value_of_digits(offset, space.spec_radix(), space.spec_length());
    lemma_small_mod(offset as nat, space.size() as nat);
}

/// The search, run with the software evaluator: the driver's actions are
/// performed by [`run_batch`] until the driver reports.
///
/// The search finds the candidate with the least index among those with the
/// target digest, in the batch that holds that index; it is exhausted, after
/// the last batch, exactly if no candidate of the space has the target digest.
/// `None` where batches cannot be laid out with the sizes of `config`.
pub fn search(space: SearchSpace, target: u32, config: Config) -> (report: Option<SearchReport>)
    ensures
        report is Some <==> config.usable(),
        report matches Some(r) ==> match first_match(&space, target, space.size() as nat) {
            Some(i) => {
                &&& r.outcome matches Outcome::Found { digits, preimage }
                &&& digits@ == digits_of(i, space.spec_radix(), space.spec_length())
                &&& preimage@ == ascii_chars(space.candidate(i))
                &&& r.batches == i / (config.capacity as int) + 1
            },
            None => {
                &&& r.outcome is Exhausted
                &&& r.batches == ceil_div(space.size(), config.capacity as int)
            },
        },
{
    let ghost sp = space;
    let mut driver = match Driver::new(space, target, config) {
        Some(driver) => driver,
        None => {
            return None;
        },
    };
    let mut action = driver.step(Event::Start);
    let mut batches: u128 = 0;
    loop
        invariant
            driver.wf(),
            *driver.spec_space() == sp,
            driver.spec_target() == target,
            driver.spec_config() == config,
            config.usable(),
            sp == space,
            sp.wf(),
            driver@.phase == Phase::Dispatching,
            driver.dispatches(action),
            batches * config.capacity == driver@.offset,
            forall|j: int| 0 <= j < driver@.offset ==> !matches_at(&sp, target, j),
        decreases sp.size() - driver@.offset,
    {
        let plan = match action {
            Action::Dispatch { plan, params } => plan,
            _ => {
                return None;
            },
        };
        let waiting = driver.step(Event::Submitted);
        let result = run_batch(driver.space(), target, &plan);
        let flag: u32 = if result.found {
            1
        } else {
            0
        };
        let ghost offset = driver@.offset as int;
        let ghost size = sp.size();
        let ghost capacity = config.capacity as int;
        let ghost radix = sp.spec_radix();
        let ghost length = sp.spec_length();
        let ghost start = digits_of(offset, radix, length);
        proof {
            assert(plan.reach() == capacity) by (nonlinear_arith)
                requires
                    plan.capacity == capacity,
                    plan.stride == plan.grid_columns * config.workers_per_group,
                    plan.grid_columns * plan.grid_rows * config.workers_per_group >= plan.capacity,
                    plan.reach() == if plan.capacity <= plan.stride * plan.grid_rows {
                        plan.capacity as nat
                    } else {
                        (plan.stride * plan.grid_rows) as nat
                    },
            ;
            lemma_first_hit(&sp, start, target, capacity as nat);
            assert forall|g: int| 0 <= g implies worker_hits(&sp, start, target, g) == matches_at(
                &sp,
                target,
                offset + g,
            ) by {
                lemma_hit_is_match(&sp, offset, target, g);
            }
            if result.found {
                let g0 = first_hit(&sp, start, target, capacity as nat)->Some_0;
                let i = offset + g0;
                lemma_hit_is_match(&sp, offset, target, g0);
                if i >= size {
                    let j = i % size;
                    lemma_candidate_wraps(&sp, i);
                    lemma_mod_bound(i, size);
                    assert(matches_at(&sp, target, j));
                    if j >= offset {
                        assert(worker_hits(&sp, start, target, j - offset));
                    }
                    assert(false);
                }
                assert forall|j: int| 0 <= j < i implies !matches_at(&sp, target, j) by {
                    if j >= offset {
                        assert(!worker_hits(&sp, start, target, j - offset));
                    }
                }
                lemma_first_match_is(&sp, target, size as nat, i);
                lemma_digits_of_in_range(i, radix, length);
                lemma_mul_is_commutative(batches as int, capacity);
                lemma_fundamental_div_mod_converse(i, capacity, batches as int, g0);
            } else {
                assert forall|j: int| 0 <= j < offset + capacity implies !matches_at(
                    &sp,
                    target,
                    j,
                ) by {
                    if j >= offset {
                        assert(!worker_hits(&sp, start, target, j - offset));
                    }
                }
                if size - offset <= capacity {
                    lemma_first_match(&sp, target, size as nat);
                    lemma_mul_is_commutative(batches as int + 1, capacity);
                    assert((batches as int + 1) * capacity == offset + capacity)
                        by (nonlinear_arith)
                        requires
                            batches * capacity == offset,
                    ;
                    lemma_fundamental_div_mod_converse(
                        size + capacity - 1,
                        capacity,
                        batches as int + 1,
                        size - 1 - offset,
                    );
                } else {
                    assert((batches as int + 1) * capacity == offset + capacity)
                        by (nonlinear_arith)
                        requires
                            batches * capacity == offset,
                    ;
                }
            }
            assert(batches < u128::MAX) by (nonlinear_arith)
                requires
                    batches * capacity == offset,
                    capacity >= 1,
                    offset < size,
                    size <= u128::MAX,
            ;
        }
        let next = driver.step(Event::Completed { flag, digits: result.digits });
        batches = batches + 1;
        match next {
            Action::Report(outcome) => {
                return Some(SearchReport { outcome, batches });
            },
            other => {
                action = other;
            },
        }
    }
}

} // verus!
