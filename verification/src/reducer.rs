//! The plan behind the out-of-core sum of many matrix files: which files a
//! worker takes, how many of them are open at a time, and in which runs of
//! rows they are added to the accumulator.
//!
//! Nothing here touches a file or an element. A [`Reducer`] hands out one
//! [`Task`] after another; whoever drives it opens, maps, adds and flushes.

use vstd::prelude::*;

verus! {

/// How many files are open at a time.
pub const WINDOW: usize = 1024;

/// How many elements the rows of one run hold, about: eight MiB of them.
pub const RUN_CELLS: usize = 1048576;

/// How many files each worker takes, the last ones maybe fewer: the number of
/// files divided by the number of workers, rounded up.
pub open spec fn share(files: nat, workers: nat) -> nat
    recommends
        workers > 0,
{
    ((files + workers - 1) / (workers as int)) as nat
}

/// The smaller of two numbers.
pub open spec fn least(a: int, b: int) -> int {
    if a <= b {
        a
    } else {
        b
    }
}

/// The index of the first file of worker `rank`.
pub open spec fn shard_start(files: nat, workers: nat, rank: nat) -> nat {
    least((rank * share(files, workers)) as int, files as int) as nat
}

/// The index behind the last file of worker `rank`.
pub open spec fn shard_end(files: nat, workers: nat, rank: nat) -> nat {
    least((rank * share(files, workers) + share(files, workers)) as int, files as int) as nat
}

/// How many rows go into one run for rows of `width` elements: as many as
/// hold about eight MiB, and at least one.
pub open spec fn run_rows(width: nat) -> nat
    recommends
        width > 0,
{
    if 1048576int / (width as int) >= 1 {
        (1048576int / (width as int)) as nat
    } else {
        1
    }
}

proof fn lemma_share(files: nat, workers: nat)
    requires
        workers > 0,
    ensures
        share(files, workers) == if files % workers == 0 {
            files / workers
        } else {
            files / workers + 1
        },
        share(files, workers) * workers >= files,
        files > 0 ==> share(files, workers) > 0,
        share(files, workers) <= files || (files == 0 && share(files, workers) == 0),
{
    let q = files / workers;
    let r = files % workers;
    let w = workers as int;
    assert(files == q * w + r) by {
        vstd::arithmetic::div_mod::lemma_fundamental_div_mod(files as int, w);
        assert(w * q == q * w) by (nonlinear_arith);
    }
    if r == 0 {
        assert((q * w + (w - 1)) / w == q) by {
            vstd::arithmetic::div_mod::lemma_fundamental_div_mod_converse(
                q * w + (w - 1),
                w,
                q as int,
                (w - 1) as int,
            );
        }
    } else {
        assert(((q + 1) * w + (r - 1)) / w == q + 1) by {
            vstd::arithmetic::div_mod::lemma_fundamental_div_mod_converse(
                (q + 1) * w + (r - 1),
                w,
                (q + 1) as int,
                (r - 1) as int,
            );
        }
        assert((q + 1) * w + (r - 1) == files + w - 1) by (nonlinear_arith)
            requires
                files == q * w + r,
        ;
    }
    let s = share(files, workers);
    assert(s * w >= files) by (nonlinear_arith)
        requires
            files == q * w + r,
            0 <= r < w,
            s == if r == 0 {
                q
            } else {
                q + 1
            },
    ;
    assert(q <= files) by (nonlinear_arith)
        requires
            files == q * w + r,
            0 <= r,
            w >= 1,
            q >= 0,
    ;
    if r == 0 && files > 0 {
        assert(q > 0) by (nonlinear_arith)
            requires
                files == q * w + r,
                r == 0,
                files > 0,
                q >= 0,
        ;
    }
    if r != 0 && q + 1 > files {
        assert(q == files);
        assert(false) by (nonlinear_arith)
            requires
                files == q * w + r,
                r > 0,
                w >= 1,
                q == files,
                q >= 0,
        ;
    }
}

/// Every file belongs to exactly one worker: to the one whose rank is the
/// file's index divided by the share, and to no other.
pub proof fn lemma_shards_partition(files: nat, workers: nat, index: nat)
    requires
        workers > 0,
        index < files,
    ensures
        index / share(files, workers) < workers,
        forall|rank: nat|
            (#[trigger] shard_start(files, workers, rank) <= index < shard_end(
                files,
                workers,
                rank,
            )) <==> rank == index / share(files, workers),
{
    lemma_share(files, workers);
    let s = share(files, workers) as int;
    let i = index as int;
    let owner = i / s;
    vstd::arithmetic::div_mod::lemma_fundamental_div_mod(i, s);
    assert(owner * s <= i < owner * s + s) by (nonlinear_arith)
        requires
            i == s * owner + i % s,
            0 <= i % s < s,
    ;
    assert(owner < workers) by (nonlinear_arith)
        requires
            owner * s <= i,
            i < files,
            s * workers >= files,
            s > 0,
            owner >= 0,
    ;
    assert forall|rank: nat|
        (#[trigger] shard_start(files, workers, rank) <= index < shard_end(files, workers, rank))
            <==> rank == owner by {
        let r = rank as int;
        if r < owner {
            assert(r * s + s <= owner * s) by (nonlinear_arith)
                requires
                    r + 1 <= owner,
                    s > 0,
            ;
        } else if r > owner {
            assert(r * s >= owner * s + s) by (nonlinear_arith)
                requires
                    r >= owner + 1,
                    s > 0,
            ;
        }
    }
}

/// The shards follow one another without a gap: where one worker's files end,
/// the next worker's start; the first starts with the first file, and the last
/// ends with the last.
pub proof fn lemma_shards_adjoin(files: nat, workers: nat, rank: nat)
    requires
        workers > 0,
    ensures
        shard_start(files, workers, 0) == 0,
        shard_start(files, workers, rank) <= shard_end(files, workers, rank) <= files,
        shard_end(files, workers, rank) == shard_start(files, workers, rank + 1),
        rank + 1 >= workers ==> shard_end(files, workers, rank) == files,
{
    lemma_share(files, workers);
    let s = share(files, workers) as int;
    assert(rank * s + s == (rank + 1) * s) by (nonlinear_arith);
    assert(0 <= rank * s) by (nonlinear_arith)
        requires
            s >= 0,
    ;
    if rank + 1 >= workers {
        assert((rank + 1) * s >= files) by (nonlinear_arith)
            requires
                rank + 1 >= workers,
                s * workers >= files,
                s >= 0,
        ;
    }
}

/// One worker takes everything.
pub proof fn lemma_single_worker(files: nat)
    ensures
        shard_start(files, 1, 0) == 0,
        shard_end(files, 1, 0) == files,
{
    lemma_shards_adjoin(files, 1, 0);
}

/// The files of worker `rank` among `workers`, as the index of the first and
/// the index behind the last. A rank that no worker has gets nothing.
pub fn shard(files: usize, workers: usize, rank: usize) -> (range: (usize, usize))
    requires
        workers > 0,
    ensures
        range.0 == shard_start(files as nat, workers as nat, rank as nat),
        range.1 == shard_end(files as nat, workers as nat, rank as nat),
        range.0 <= range.1 <= files,
{
    proof {
        lemma_share(files as nat, workers as nat);
        lemma_shards_adjoin(files as nat, workers as nat, rank as nat);
    }
    let each: usize = if files % workers == 0 {
        files / workers
    } else {
        files / workers + 1
    };
    let start: usize = match rank.checked_mul(each) {
        None => files,
        Some(at) => if at < files {
            at
        } else {
            files
        },
    };
    let end: usize = if each < files - start {
        start + each
    } else {
        files
    };
    (start, end)
}

/// The names that worker `rank` among `workers` takes from `files`.
pub fn assigned<'a>(files: &'a [String], workers: usize, rank: usize) -> (mine: &'a [String])
    requires
        workers > 0,
    ensures
        mine@ == files@.subrange(
            shard_start(files@.len(), workers as nat, rank as nat) as int,
            shard_end(files@.len(), workers as nat, rank as nat) as int,
        ),
{
    let (start, end) = shard(files.len(), workers, rank);
    vstd::slice::slice_subrange(files, start, end)
}

/// How many rows of `width` elements go into one run.
pub fn rows_per_run(width: usize) -> (rows: usize)
    requires
        width > 0,
    ensures
        rows == run_rows(width as nat),
        rows >= 1,
{
    let rows = RUN_CELLS / width;
    if rows >= 1 {
        rows
    } else {
        1
    }
}

/// What whoever drives the sum is to do next.
#[derive(Debug, Clone, Copy, PartialEq, Eq)]
pub enum Task {
    /// The worker has no files: nothing is read and nothing is written.
    Idle,
    /// Create the accumulator, zero-filled, in the shape of file `first`, and
    /// report that shape.
    Seed { first: usize },
    /// Close the files that are open and open those from `from` up to, not
    /// including, `to`.
    Open { from: usize, to: usize },
    /// Sum the `count` rows from `row` on over the open files, and add the sum
    /// to the same rows of the accumulator.
    Add { row: usize, count: usize },
    /// Close the files that are open, flush the accumulator and close it: the
    /// sum is complete.
    Finish,
}

/// Where a reduction stands.
#[derive(Debug, Clone, Copy, PartialEq, Eq)]
pub enum Phase {
    /// Nothing was handed out yet.
    Start,
    /// The accumulator is being created; its shape is awaited.
    Seeding,
    /// The files up to `to` were opened; those before `from` are done, and of
    /// those from `from` on the rows before `row` are added.
    Adding { from: usize, to: usize, row: usize },
    /// The worker had no files.
    Empty,
    /// The sum is complete.
    Finished,
}

/// A reduction as a value: the worker's files, the shape of the matrices and
/// the phase.
pub struct Plan {
    pub start: usize,
    pub end: usize,
    pub rows: usize,
    pub cols: usize,
    pub phase: Phase,
}

/// Whether a plan is one that a [`Reducer`] can be in.
pub open spec fn plan_ok(p: Plan) -> bool {
    &&& p.start <= p.end
    &&& match p.phase {
        Phase::Start => true,
        Phase::Seeding => p.start < p.end,
        Phase::Adding { from, to, row } => {
            &&& p.start <= from <= to <= p.end
            &&& to - from <= 1024
            &&& row <= p.rows
        },
        Phase::Empty => p.start == p.end,
        Phase::Finished => true,
    }
}

/// The end of the window of files that starts at `from`.
pub open spec fn window_end(from: int, end: int) -> int {
    least(from + 1024, end)
}

/// How many rows the run that starts at `row` has.
pub open spec fn run_len(p: Plan, row: int) -> int {
    least(run_rows(p.cols as nat) as int, p.rows - row)
}

/// Whether rows are left to add in the window that is open.
pub open spec fn rows_left(p: Plan, from: usize, to: usize, row: usize) -> bool {
    from < to && row < p.rows && p.cols > 0
}

/// The task that a plan hands out next.
pub open spec fn next_task(p: Plan) -> Task {
    match p.phase {
        Phase::Start => if p.start == p.end {
            Task::Idle
        } else {
            Task::Seed { first: p.start }
        },
        Phase::Seeding => Task::Seed { first: p.start },
        Phase::Adding { from, to, row } => if rows_left(p, from, to, row) {
            Task::Add { row, count: run_len(p, row as int) as usize }
        } else if to < p.end {
            Task::Open { from: to, to: window_end(to as int, p.end as int) as usize }
        } else {
            Task::Finish
        },
        Phase::Empty => Task::Idle,
        Phase::Finished => Task::Finish,
    }
}

/// The plan after its next task was handed out.
pub open spec fn next_plan(p: Plan) -> Plan {
    let phase = match p.phase {
        Phase::Start => if p.start == p.end {
            Phase::Empty
        } else {
            Phase::Seeding
        },
        Phase::Seeding => Phase::Seeding,
        Phase::Adding { from, to, row } => if rows_left(p, from, to, row) {
            Phase::Adding { from, to, row: (row + run_len(p, row as int)) as usize }
        } else if to < p.end {
            Phase::Adding { from: to, to: window_end(to as int, p.end as int) as usize, row: 0 }
        } else {
            Phase::Finished
        },
        Phase::Empty => Phase::Empty,
        Phase::Finished => Phase::Finished,
    };
    Plan { phase, ..p }
}

/// The plan after the shape of the matrices was reported.
pub open spec fn shaped_plan(p: Plan, rows: usize, cols: usize) -> Plan {
    match p.phase {
        Phase::Seeding => Plan {
            rows,
            cols,
            phase: Phase::Adding { from: p.start, to: p.start, row: rows },
            ..p
        },
        _ => p,
    }
}

/// How much is left to add: for every file, the rows of it that are not
/// added yet. Before the shape is known, and for matrices without columns,
/// nothing counts.
pub open spec fn work_left(p: Plan) -> int {
    match p.phase {
        Phase::Adding { from, to, row } => if p.cols > 0 {
            (to - from) * (p.rows - row) + (p.end - to) * p.rows
        } else {
            0
        },
        _ => 0,
    }
}

/// How much the next task adds: its rows, for every file that is open.
pub open spec fn task_work(p: Plan) -> int {
    match (p.phase, next_task(p)) {
        (Phase::Adding { from, to, .. }, Task::Add { count, .. }) => (to - from) * count,
        _ => 0,
    }
}

/// Every row of every file is added once. When the shape is reported, all
/// rows of all the worker's files are left to add; each task takes what it
/// adds from what is left, and adds rows that follow those added before it
/// and lie within the matrix; and when the sum is finished, nothing is left.
pub proof fn lemma_tasks_account(p: Plan, rows: usize, cols: usize)
    requires
        plan_ok(p),
    ensures
        p.phase is Seeding && cols > 0 ==> work_left(shaped_plan(p, rows, cols)) == (p.end
            - p.start) * rows,
        plan_ok(shaped_plan(p, rows, cols)),
        plan_ok(next_plan(p)),
        work_left(next_plan(p)) + task_work(p) == work_left(p),
        next_task(p) is Finish ==> work_left(p) == 0,
        next_task(p) matches Task::Add { row, count } ==> count >= 1 && row + count <= p.rows
            && p.phase is Adding && p.phase->Adding_row == row,
        next_task(p) matches Task::Open { from, to } ==> from < to <= p.end && to - from <= 1024
            && p.phase is Adding && p.phase->Adding_to == from,
{
    match p.phase {
        Phase::Adding { from, to, row } => {
            let rest = p.rows - row;
            let open = to - from;
            let count = run_len(p, row as int);
            if rows_left(p, from, to, row) {
                assert(1 <= count <= rest);
                assert(open * (rest - count) == open * rest - open * count) by (nonlinear_arith);
                assert(next_plan(p).phase == Phase::Adding {
                    from,
                    to,
                    row: (row + count) as usize,
                });
                assert(work_left(next_plan(p)) == open * (rest - count) + (p.end - to) * p.rows);
                assert(task_work(p) == open * count);
            } else if p.cols > 0 {
                assert(open * rest == 0) by (nonlinear_arith)
                    requires
                        open == 0 || rest == 0,
                ;
                if to < p.end {
                    let next = window_end(to as int, p.end as int);
                    assert((next - to) * p.rows + (p.end - next) * p.rows == (p.end - to) * p.rows)
                        by (nonlinear_arith);
                    assert(work_left(next_plan(p)) == (next - to) * (p.rows - 0) + (p.end - next)
                        * p.rows);
                } else {
                    let none = p.end - to;
                    assert(none * p.rows == 0) by (nonlinear_arith)
                        requires
                            none == 0,
                    ;
                }
            }
        },
        Phase::Seeding => {
            let zero = p.start - p.start;
            assert(zero * (rows - rows) == 0) by (nonlinear_arith)
                requires
                    zero == 0,
            ;
        },
        _ => {},
    }
}

/// A worker without files is told so and nothing else, however often it asks
/// and whatever shape it reports: it is never given anything to create, to
/// open or to add.
pub proof fn lemma_empty_shard(p: Plan, rows: usize, cols: usize)
    requires
        p.start == p.end,
        p.phase is Start || p.phase is Empty,
    ensures
        next_task(p) == Task::Idle,
        next_plan(p).phase is Empty,
        next_plan(p).start == next_plan(p).end,
        shaped_plan(next_plan(p), rows, cols) == next_plan(p),
        next_task(next_plan(p)) == Task::Idle,
        next_plan(next_plan(p)) == next_plan(p),
{
}

/// The tasks come to an end: each task after the seeding finishes the sum,
/// or opens files that were not open before, or adds rows that were not added
/// before.
pub proof fn lemma_tasks_end(p: Plan)
    requires
        plan_ok(p),
        p.phase is Adding,
    ensures
        match next_plan(p).phase {
            Phase::Finished => true,
            Phase::Adding { to, row, .. } => p.end - to < p.end - p.phase->Adding_to || (to
                == p.phase->Adding_to && p.rows - row < p.rows - p.phase->Adding_row),
            _ => false,
        },
{
}

/// The sum of one worker's files, step by step.
pub struct Reducer {
    start: usize,
    end: usize,
    rows: usize,
    cols: usize,
    phase: Phase,
}

impl View for Reducer {
    type V = Plan;

    closed spec fn view(&self) -> Plan {
        Plan {
            start: self.start,
            end: self.end,
            rows: self.rows,
            cols: self.cols,
            phase: self.phase,
        }
    }
}

impl Reducer {
    #[verifier::type_invariant]
    spec fn well_formed(&self) -> bool {
        plan_ok(self@)
    }

    /// The reduction of worker `rank` among `workers` over `files` files,
    /// before its first task.
    pub fn new(files: usize, workers: usize, rank: usize) -> (reducer: Reducer)
        requires
            workers > 0,
        ensures
            reducer@ == (Plan {
                start: shard_start(files as nat, workers as nat, rank as nat) as usize,
                end: shard_end(files as nat, workers as nat, rank as nat) as usize,
                rows: 0,
                cols: 0,
                phase: Phase::Start,
            }),
            plan_ok(reducer@),
    {
        let (start, end) = shard(files, workers, rank);
        Reducer { start, end, rows: 0, cols: 0, phase: Phase::Start }
    }

    /// Where the reduction stands.
    pub fn phase(&self) -> (phase: Phase)
        ensures
            phase == self@.phase,
            plan_ok(self@),
    {
        proof {
            use_type_invariant(self);
        }
        self.phase
    }

    /// Takes the shape of the matrices, which the seeding reported. Outside
    /// the seeding it changes nothing.
    pub fn shape(&mut self, rows: usize, cols: usize)
        ensures
            final(self)@ == shaped_plan(old(self)@, rows, cols),
            plan_ok(final(self)@),
    {
        proof {
            use_type_invariant(&*self);
        }
        match self.phase {
            Phase::Seeding => {
                *self = Reducer {
                    start: self.start,
                    end: self.end,
                    rows,
                    cols,
                    phase: Phase::Adding { from: self.start, to: self.start, row: rows },
                };
            },
            _ => {},
        }
    }

    /// Hands out the next task. A worker without files is told so, and is
    /// given nothing else; the seeding is handed out until the shape is
    /// reported; then each window of files is opened in turn and its rows are
    /// added run by run; then the sum is finished.
    pub fn next(&mut self) -> (task: Task)
        ensures
            task == next_task(old(self)@),
            final(self)@ == next_plan(old(self)@),
            plan_ok(final(self)@),
            old(self)@.start == old(self)@.end ==> task == Task::Idle || task == Task::Finish,
    {
        proof {
            use_type_invariant(&*self);
        }
        let (task, phase) = match self.phase {
            Phase::Start => if self.start == self.end {
                (Task::Idle, Phase::Empty)
            } else {
                (Task::Seed { first: self.start }, Phase::Seeding)
            },
            Phase::Seeding => (Task::Seed { first: self.start }, Phase::Seeding),
            Phase::Adding { from, to, row } => if from < to && row < self.rows && self.cols > 0 {
                let most = rows_per_run(self.cols);
                let count = if most < self.rows - row {
                    most
                } else {
                    self.rows - row
                };
                (Task::Add { row, count }, Phase::Adding { from, to, row: row + count })
            } else if to < self.end {
                let next = if WINDOW < self.end - to {
                    to + WINDOW
                } else {
                    self.end
                };
                (Task::Open { from: to, to: next }, Phase::Adding { from: to, to: next, row: 0 })
            } else {
                (Task::Finish, Phase::Finished)
            },
            Phase::Empty => (Task::Idle, Phase::Empty),
            Phase::Finished => (Task::Finish, Phase::Finished),
        };
        *self = Reducer {
            start: self.start,
            end: self.end,
            rows: self.rows,
            cols: self.cols,
            phase,
        };
        task
    }
}

} // verus!
