//! A named, inspectable priority stack over the task catalogue.
//!
//! A [`Stack`] is plain data: levels, each a list of named tasks. Describe it
//! before solving, and ask the solved stack for a [`Report`] that says per
//! named task how far it was achieved.

use vstd::prelude::*;
use vstd::string::StringExecFns;

use crate::affine::VarLayout;
use crate::dense::{least, least_s, mvec_s, norm, norm_s, vsub, vsub_s};
use crate::kernels::{Backend, DenseKernels};
use crate::qp::opt_vec_ref;
use crate::scalar::{Arith, Scalar};
use crate::solve::{
    shared_n_s, solve_s, solve_warm, tasks_of, Solution, SolveConfig, SolveStatus, Solved, WbcError,
};
use crate::task::{empty_s, plus_s, Task, Tsk};
use crate::text::{decimal, decimal_s, pad_left, pad_left_s, pad_right, pad_right_s};

verus! {

/// One named task inside a level.
#[derive(Debug)]
pub struct Entry<S> {
    pub name: String,
    pub task: Task<S>,
}

/// The model of an [`Entry`].
#[verifier::ext_equal]
pub struct Named<T> {
    pub name: Seq<char>,
    pub task: Tsk<T>,
}

impl<S> View for Entry<S> {
    type V = Named<S>;

    open spec fn view(&self) -> Named<S> {
        Named { name: self.name@, task: self.task@ }
    }
}

impl<S: Scalar> Clone for Entry<S> {
    fn clone(&self) -> (e: Entry<S>)
        ensures
            e@ == self@,
    {
        Entry { name: self.name.as_str().to_owned(), task: self.task.clone() }
    }
}

/// The models of entries.
pub open spec fn entries_of<S>(v: Seq<Entry<S>>) -> Seq<Named<S>> {
    Seq::new(v.len(), |i: int| v[i]@)
}

/// One priority level: a name and its tasks, summed at solve time.
#[derive(Debug)]
pub struct Level<S> {
    pub name: String,
    pub entries: Vec<Entry<S>>,
}

/// The model of a [`Level`].
#[verifier::ext_equal]
pub struct Lev<T> {
    pub name: Seq<char>,
    pub entries: Seq<Named<T>>,
}

impl<S> View for Level<S> {
    type V = Lev<S>;

    open spec fn view(&self) -> Lev<S> {
        Lev { name: self.name@, entries: entries_of(self.entries@) }
    }
}

impl<S: Scalar> Clone for Level<S> {
    fn clone(&self) -> (l: Level<S>)
        ensures
            l@ == self@,
    {
        let mut entries: Vec<Entry<S>> = Vec::new();
        let mut i: usize = 0;
        while i < self.entries.len()
            invariant
                i <= self.entries@.len(),
                entries@.len() == i,
                forall|j: int| 0 <= j < i ==> (#[trigger] entries@[j])@ == self.entries@[j]@,
            decreases self.entries@.len() - i,
        {
            entries.push(self.entries[i].clone());
            i += 1;
        }
        assert(entries_of(entries@) =~= entries_of(self.entries@));
        Level { name: self.name.as_str().to_owned(), entries }
    }
}

impl<S: Scalar> Default for Level<S> {
    fn default() -> (l: Level<S>)
        ensures
            l@.name == ""@,
            l@.entries == Seq::<Named<S>>::empty(),
    {
        let l = Level { name: "".to_owned(), entries: Vec::new() };
        assert(l@.entries =~= Seq::empty());
        l
    }
}

/// Builder of one level, passed to the closure of [`Stack::level`].
#[derive(Debug)]
pub struct LevelBuilder<S> {
    entries: Vec<Entry<S>>,
}

impl<S> View for LevelBuilder<S> {
    type V = Seq<Named<S>>;

    closed spec fn view(&self) -> Seq<Named<S>> {
        entries_of(self.entries@)
    }
}

impl<S: Scalar> Default for LevelBuilder<S> {
    fn default() -> (b: LevelBuilder<S>)
        ensures
            b@ == Seq::<Named<S>>::empty(),
    {
        let b = LevelBuilder { entries: Vec::new() };
        assert(b@ =~= Seq::empty());
        b
    }
}

impl<S: Scalar> LevelBuilder<S> {
    /// Adds a named task to this level.
    pub fn task(self, name: &str, task: Task<S>) -> (b: LevelBuilder<S>)
        ensures
            b@ == self@.push(Named { name: name@, task: task@ }),
    {
        let mut entries = self.entries;
        entries.push(Entry { name: name.to_owned(), task });
        let b = LevelBuilder { entries };
        assert(b@ =~= self@.push(Named { name: name@, task: task@ }));
        b
    }
}

/// A named, inspectable priority stack (index 0 is the highest priority).
#[derive(Debug)]
pub struct Stack<S> {
    n_decision: usize,
    levels: Vec<Level<S>>,
}

/// The model of a [`Stack`].
#[verifier::ext_equal]
pub struct Stk<T> {
    pub n: nat,
    pub levels: Seq<Lev<T>>,
}

impl<T> Stk<T> {
    /// Every task is well formed over the decision vector of the stack.
    pub open spec fn wf(self) -> bool {
        forall|i: int, k: int|
            0 <= i < self.levels.len() && 0 <= k < self.levels[i].entries.len() ==> {
                let t = (#[trigger] self.levels[i].entries[k]).task;
                t.wf() && t.n() == self.n
            }
    }
}

/// The models of levels.
pub open spec fn levels_of<S>(v: Seq<Level<S>>) -> Seq<Lev<S>> {
    Seq::new(v.len(), |i: int| v[i]@)
}

impl<S> View for Stack<S> {
    type V = Stk<S>;

    closed spec fn view(&self) -> Stk<S> {
        Stk { n: self.n_decision as nat, levels: levels_of(self.levels@) }
    }
}

/// The sum of the first `k` tasks of a level.
pub open spec fn level_sum_s<T: Arith>(entries: Seq<Named<T>>, n: nat, k: nat) -> Tsk<T>
    decreases k,
{
    if k == 0 {
        empty_s(n)
    } else {
        plus_s(level_sum_s(entries, n, (k - 1) as nat), entries[k - 1].task)
    }
}

/// The summed task of every level.
pub open spec fn to_tasks_s<T: Arith>(st: Stk<T>) -> Seq<Tsk<T>> {
    Seq::new(
        st.levels.len(),
        |i: int| level_sum_s(st.levels[i].entries, st.n, st.levels[i].entries.len()),
    )
}

/// The line of one task.
pub open spec fn entry_line_s<T>(e: Named<T>) -> Seq<char> {
    "    "@ + pad_right_s(e.name, 24) + " eq "@ + pad_left_s(decimal_s(e.task.a.nrows()), 3)
        + "  iq "@ + pad_left_s(decimal_s(e.task.d.nrows()), 3) + "\n"@
}

/// The lines of the first `k` tasks of a level.
pub open spec fn entry_lines_s<T>(entries: Seq<Named<T>>, k: nat) -> Seq<char>
    decreases k,
{
    if k == 0 {
        Seq::empty()
    } else {
        entry_lines_s(entries, (k - 1) as nat) + entry_line_s(entries[k - 1])
    }
}

/// The lines of level `i`.
pub open spec fn level_lines_s<T>(l: Lev<T>, i: nat) -> Seq<char> {
    "  level "@ + decimal_s(i) + " \""@ + l.name + "\"\n"@ + entry_lines_s(
        l.entries,
        l.entries.len(),
    )
}

/// The lines of the first `k` levels.
pub open spec fn all_level_lines_s<T>(levels: Seq<Lev<T>>, k: nat) -> Seq<char>
    decreases k,
{
    if k == 0 {
        Seq::empty()
    } else {
        all_level_lines_s(levels, (k - 1) as nat) + level_lines_s(levels[k - 1], (k - 1) as nat)
    }
}

/// The description of a stack: every level and task with its dimensions.
pub open spec fn describe_s<T>(st: Stk<T>) -> Seq<char> {
    "stack ("@ + decimal_s(st.n) + " decision vars, "@ + decimal_s(st.levels.len())
        + " levels)\n"@ + all_level_lines_s(st.levels, st.levels.len())
}

fn entry_line<S: Scalar>(e: &Entry<S>) -> (s: String)
    ensures
        s@ == entry_line_s(e@),
{
    let mut s = "    ".to_owned();
    s.append(pad_right(e.name.as_str(), 24).as_str());
    s.append(" eq ");
    s.append(pad_left(decimal(e.task.n_eq()).as_str(), 3).as_str());
    s.append("  iq ");
    s.append(pad_left(decimal(e.task.n_iq()).as_str(), 3).as_str());
    s.append("\n");
    s
}

fn level_lines<S: Scalar>(l: &Level<S>, i: usize) -> (s: String)
    ensures
        s@ == level_lines_s(l@, i as nat),
{
    let mut s = "  level ".to_owned();
    s.append(decimal(i).as_str());
    s.append(" \"");
    s.append(l.name.as_str());
    s.append("\"\n");
    let ghost head = s@;
    assert(s@ =~= head + entry_lines_s(l@.entries, 0));
    let mut k: usize = 0;
    while k < l.entries.len()
        invariant
            k <= l.entries@.len(),
            s@ == head + entry_lines_s(l@.entries, k as nat),
        decreases l.entries@.len() - k,
    {
        s.append(entry_line(&l.entries[k]).as_str());
        assert(s@ =~= head + entry_lines_s(l@.entries, (k + 1) as nat));
        k += 1;
    }
    s
}

impl<S: Scalar> Stack<S> {
    /// An empty stack over a variable layout, which fixes the decision size.
    pub fn new(vars: &VarLayout) -> (s: Stack<S>)
        ensures
            s@ == (Stk { n: vars@.n, levels: Seq::<Lev<S>>::empty() }),
    {
        let s = Stack { n_decision: vars.n_decision(), levels: Vec::new() };
        assert(s@.levels =~= Seq::empty());
        s
    }

    /// Appends a priority level built by the closure. Levels are solved in the
    /// order in which they are added.
    pub fn level<F: FnOnce(LevelBuilder<S>) -> LevelBuilder<S>>(self, name: &str, build: F) -> (s:
        Stack<S>)
        requires
            forall|b: LevelBuilder<S>|
                b@ == Seq::<Named<S>>::empty() ==> #[trigger] call_requires(build, (b,)),
        ensures
            exists|b: LevelBuilder<S>, r: LevelBuilder<S>|
                b@ == Seq::<Named<S>>::empty() && #[trigger] call_ensures(build, (b,), r) && s@
                    == (Stk {
                    n: self@.n,
                    levels: self@.levels.push(Lev { name: name@, entries: r@ }),
                }),
    {
        let empty: LevelBuilder<S> = LevelBuilder::default();
        let ghost given = empty;
        let b = build(empty);
        let ghost made = b;
        let mut levels = self.levels;
        levels.push(Level { name: name.to_owned(), entries: b.entries });
        let s = Stack { n_decision: self.n_decision, levels };
        assert(s@.levels =~= self@.levels.push(Lev { name: name@, entries: made@ }));
        assert(call_ensures(build, (given,), made));
        s
    }

    pub fn n_decision(&self) -> (n: usize)
        ensures
            n == self@.n,
    {
        self.n_decision
    }

    pub fn levels(&self) -> (r: &Vec<Level<S>>)
        ensures
            levels_of(r@) == self@.levels,
    {
        &self.levels
    }

    /// The summed task of every level.
    pub fn to_tasks(&self) -> (r: Vec<Task<S>>)
        requires
            self@.wf(),
        ensures
            tasks_of(r@) == to_tasks_s(self@),
            forall|i: int|
                0 <= i < r@.len() ==> (#[trigger] r@[i])@.wf() && r@[i]@.n() == self@.n,
    {
        let mut r: Vec<Task<S>> = Vec::new();
        let mut i: usize = 0;
        while i < self.levels.len()
            invariant
                self@.wf(),
                i <= self.levels@.len(),
                r@.len() == i,
                forall|j: int|
                    0 <= j < i ==> (#[trigger] r@[j])@ == to_tasks_s(self@)[j] && r@[j]@.wf()
                        && r@[j]@.n() == self@.n,
            decreases self.levels@.len() - i,
        {
            let l = &self.levels[i];
            assert(self@.levels[i as int] == l@);
            let mut acc: Task<S> = Task::empty(self.n_decision);
            let mut k: usize = 0;
            while k < l.entries.len()
                invariant
                    self@.wf(),
                    i < self.levels@.len(),
                    self@.levels[i as int] == l@,
                    k <= l.entries@.len(),
                    acc@ == level_sum_s(l@.entries, self@.n, k as nat),
                    acc@.wf(),
                    acc@.n() == self@.n,
                decreases l.entries@.len() - k,
            {
                assert(self@.levels[i as int].entries[k as int] == l.entries@[k as int]@);
                acc = acc.plus(&l.entries[k].task);
                k += 1;
            }
            r.push(acc);
            i += 1;
        }
        assert(tasks_of(r@) =~= to_tasks_s(self@));
        r
    }

    /// Every level and task with its dimensions, as text.
    pub fn describe(&self) -> (s: String)
        ensures
            s@ == describe_s(self@),
    {
        let mut s = "stack (".to_owned();
        s.append(decimal(self.n_decision).as_str());
        s.append(" decision vars, ");
        s.append(decimal(self.levels.len()).as_str());
        s.append(" levels)\n");
        let ghost head = s@;
        assert(s@ =~= head + all_level_lines_s(self@.levels, 0));
        let mut i: usize = 0;
        while i < self.levels.len()
            invariant
                i <= self.levels@.len(),
                s@ == head + all_level_lines_s(self@.levels, i as nat),
            decreases self.levels@.len() - i,
        {
            s.append(level_lines(&self.levels[i], i).as_str());
            assert(s@ =~= head + all_level_lines_s(self@.levels, (i + 1) as nat));
            i += 1;
        }
        s
    }
}

impl<S: Scalar> Clone for Stack<S> {
    fn clone(&self) -> (s: Stack<S>)
        ensures
            s@ == self@,
    {
        let mut levels: Vec<Level<S>> = Vec::new();
        let mut i: usize = 0;
        while i < self.levels.len()
            invariant
                i <= self.levels@.len(),
                levels@.len() == i,
                forall|j: int| 0 <= j < i ==> (#[trigger] levels@[j])@ == self.levels@[j]@,
            decreases self.levels@.len() - i,
        {
            levels.push(self.levels[i].clone());
            i += 1;
        }
        assert(levels_of(levels@) =~= levels_of(self.levels@));
        Stack { n_decision: self.n_decision, levels }
    }
}

proof fn lemma_shared_n<T>(ts: Seq<Tsk<T>>, n: nat, k: nat)
    requires
        k <= ts.len(),
        forall|i: int| 0 <= i < ts.len() ==> (#[trigger] ts[i]).n() == n,
    ensures
        k > 0 ==> shared_n_s(ts, k) == n,
    decreases k,
{
    if k > 0 {
        lemma_shared_n(ts, n, (k - 1) as nat);
        assert(ts[k - 1].n() == n);
        assert(shared_n_s(ts, 0) == 0);
    }
}

impl<S: Backend> Stack<S> {
    /// Solves the stack from a cold start.
    pub fn solve(&self, cfg: &SolveConfig<S>) -> (r: Result<StackSolution<S>, WbcError>)
        requires
            self@.wf(),
        ensures
            match r {
                Ok(s) => solve_s(to_tasks_s(self@), *cfg, None) == Ok::<Solved<S>, WbcError>(
                    s@.solution,
                ) && s@.stack == self@ && s@.wf(),
                Err(e) => solve_s(to_tasks_s(self@), *cfg, None) == Err::<Solved<S>, WbcError>(e),
            },
    {
        self.solve_warm(cfg, None)
    }

    /// Solves the stack with an anchor.
    pub fn solve_warm(&self, cfg: &SolveConfig<S>, warm_anchor: Option<&Vec<S>>) -> (r: Result<
        StackSolution<S>,
        WbcError,
    >)
        requires
            self@.wf(),
        ensures
            match r {
                Ok(s) => solve_s(to_tasks_s(self@), *cfg, opt_vec_ref(warm_anchor)) == Ok::<
                    Solved<S>,
                    WbcError,
                >(s@.solution) && s@.stack == self@ && s@.wf(),
                Err(e) => solve_s(to_tasks_s(self@), *cfg, opt_vec_ref(warm_anchor)) == Err::<
                    Solved<S>,
                    WbcError,
                >(e),
            },
    {
        let tasks = self.to_tasks();
        proof {
            let ts = tasks_of(tasks@);
            assert forall|i: int| 0 <= i < ts.len() implies (#[trigger] ts[i]).n() == self@.n
                && ts[i].wf() by {
                assert(ts[i] == tasks@[i]@);
            }
            lemma_shared_n(ts, self@.n, ts.len());
        }
        match solve_warm(tasks.as_slice(), cfg, warm_anchor) {
            Ok(solution) => Ok(StackSolution { stack: self.clone(), solution }),
            Err(e) => Err(e),
        }
    }
}

/// A solved stack: the solution and the stack it came from, so that achievement
/// can be reported per named task.
#[derive(Debug)]
pub struct StackSolution<S> {
    stack: Stack<S>,
    solution: Solution<S>,
}

/// The model of a [`StackSolution`].
#[verifier::ext_equal]
pub struct SolvedStack<T> {
    pub stack: Stk<T>,
    pub solution: Solved<T>,
}

impl<T> SolvedStack<T> {
    pub open spec fn wf(self) -> bool {
        self.stack.wf() && (self.stack.levels.len() > 0 ==> self.solution.x.len() == self.stack.n)
    }
}

impl<S> View for StackSolution<S> {
    type V = SolvedStack<S>;

    closed spec fn view(&self) -> SolvedStack<S> {
        SolvedStack { stack: self.stack@, solution: self.solution@ }
    }
}

impl<S: Scalar> Clone for StackSolution<S> {
    fn clone(&self) -> (s: StackSolution<S>)
        ensures
            s@ == self@,
    {
        StackSolution { stack: self.stack.clone(), solution: self.solution.clone() }
    }
}

/// Achievement of one named task at the solution.
#[derive(Debug)]
pub struct TaskReport<S> {
    pub name: String,
    /// `|A x - b|`, unless the task has no equality rows.
    pub eq_residual: Option<S>,
    /// `min(f - D x)`: the tightest inequality margin, negative where
    /// violated, unless the task has no inequality rows.
    pub iq_margin: Option<S>,
}

/// The model of a [`TaskReport`].
#[verifier::ext_equal]
pub struct Achieved<T> {
    pub name: Seq<char>,
    pub eq_residual: Option<T>,
    pub iq_margin: Option<T>,
}

impl<S> View for TaskReport<S> {
    type V = Achieved<S>;

    open spec fn view(&self) -> Achieved<S> {
        Achieved {
            name: self.name@,
            eq_residual: self.eq_residual,
            iq_margin: self.iq_margin,
        }
    }
}

impl<S: Copy> Clone for TaskReport<S> {
    fn clone(&self) -> (r: TaskReport<S>)
        ensures
            r@ == self@,
    {
        TaskReport {
            name: self.name.as_str().to_owned(),
            eq_residual: self.eq_residual,
            iq_margin: self.iq_margin,
        }
    }
}

/// Achievement of one level.
#[derive(Debug)]
pub struct LevelReport<S> {
    pub name: String,
    /// Whether this level was the first degraded one.
    pub degraded: bool,
    pub tasks: Vec<TaskReport<S>>,
}

/// The model of a [`LevelReport`].
#[verifier::ext_equal]
pub struct LevelAchieved<T> {
    pub name: Seq<char>,
    pub degraded: bool,
    pub tasks: Seq<Achieved<T>>,
}

impl<S> View for LevelReport<S> {
    type V = LevelAchieved<S>;

    open spec fn view(&self) -> LevelAchieved<S> {
        LevelAchieved {
            name: self.name@,
            degraded: self.degraded,
            tasks: Seq::new(self.tasks@.len(), |i: int| self.tasks@[i]@),
        }
    }
}

impl<S: Copy> Clone for LevelReport<S> {
    fn clone(&self) -> (r: LevelReport<S>)
        ensures
            r@ == self@,
    {
        let mut tasks: Vec<TaskReport<S>> = Vec::new();
        let mut i: usize = 0;
        while i < self.tasks.len()
            invariant
                i <= self.tasks@.len(),
                tasks@.len() == i,
                forall|j: int| 0 <= j < i ==> (#[trigger] tasks@[j])@ == self.tasks@[j]@,
            decreases self.tasks@.len() - i,
        {
            tasks.push(self.tasks[i].clone());
            i += 1;
        }
        let r = LevelReport { name: self.name.as_str().to_owned(), degraded: self.degraded, tasks };
        assert(r@.tasks =~= self@.tasks);
        r
    }
}

/// The achievement of every task.
#[derive(Debug)]
pub struct Report<S> {
    pub levels: Vec<LevelReport<S>>,
}

impl<S> View for Report<S> {
    type V = Seq<LevelAchieved<S>>;

    open spec fn view(&self) -> Seq<LevelAchieved<S>> {
        Seq::new(self.levels@.len(), |i: int| self.levels@[i]@)
    }
}

impl<S: Copy> Clone for Report<S> {
    fn clone(&self) -> (r: Report<S>)
        ensures
            r@ == self@,
    {
        let mut levels: Vec<LevelReport<S>> = Vec::new();
        let mut i: usize = 0;
        while i < self.levels.len()
            invariant
                i <= self.levels@.len(),
                levels@.len() == i,
                forall|j: int| 0 <= j < i ==> (#[trigger] levels@[j])@ == self.levels@[j]@,
            decreases self.levels@.len() - i,
        {
            levels.push(self.levels[i].clone());
            i += 1;
        }
        let r = Report { levels };
        assert(r@ =~= self@);
        r
    }
}

pub open spec fn task_report_s<T: Arith>(e: Named<T>, x: Seq<T>) -> Achieved<T> {
    let t = e.task;
    Achieved {
        name: e.name,
        eq_residual: if t.a.nrows() > 0 {
            Some(norm_s(vsub_s(mvec_s(t.a, x), t.b)))
        } else {
            None
        },
        iq_margin: if t.d.nrows() > 0 {
            Some(least_s(vsub_s(t.f, mvec_s(t.d, x))))
        } else {
            None
        },
    }
}

/// Level `i` is the first degraded one.
pub open spec fn is_degraded_s(status: SolveStatus, i: nat) -> bool {
    match status {
        SolveStatus::Optimal => false,
        SolveStatus::Degraded { level, status } => level == i,
    }
}

pub open spec fn report_s<T: Arith>(s: SolvedStack<T>) -> Seq<LevelAchieved<T>> {
    Seq::new(
        s.stack.levels.len(),
        |i: int|
            LevelAchieved {
                name: s.stack.levels[i].name,
                degraded: is_degraded_s(s.solution.status, i as nat),
                tasks: Seq::new(
                    s.stack.levels[i].entries.len(),
                    |k: int| task_report_s(s.stack.levels[i].entries[k], s.solution.x),
                ),
            },
    )
}

fn task_report<S: Scalar>(e: &Entry<S>, x: &Vec<S>) -> (r: TaskReport<S>)
    requires
        e@.task.wf(),
        e@.task.n() == x@.len(),
    ensures
        r@ == task_report_s(e@, x@),
{
    let t = &e.task;
    let eq_residual = if t.n_eq() > 0 {
        Some(norm(&vsub(&t.a.apply(x), &t.b)))
    } else {
        None
    };
    let iq_margin = if t.n_iq() > 0 {
        Some(least(&vsub(&t.f, &t.d.apply(x))))
    } else {
        None
    };
    TaskReport { name: e.name.as_str().to_owned(), eq_residual, iq_margin }
}

fn is_degraded(status: SolveStatus, i: usize) -> (r: bool)
    ensures
        r == is_degraded_s(status, i as nat),
{
    match status {
        SolveStatus::Optimal => false,
        SolveStatus::Degraded { level, .. } => level == i,
    }
}

impl<S: Scalar> StackSolution<S> {
    pub fn status(&self) -> (r: &SolveStatus)
        ensures
            *r == self@.solution.status,
    {
        &self.solution.status
    }

    /// The raw solution.
    pub fn solution(&self) -> (r: &Solution<S>)
        ensures
            r@ == self@.solution,
    {
        &self.solution
    }

    /// Per-task achievement at the solution: the equality residual and the
    /// worst inequality margin of each named task.
    pub fn report(&self) -> (r: Report<S>)
        requires
            self@.wf(),
        ensures
            r@ == report_s(self@),
    {
        let mut levels: Vec<LevelReport<S>> = Vec::new();
        let mut i: usize = 0;
        while i < self.stack.levels.len()
            invariant
                self@.wf(),
                i <= self.stack.levels@.len(),
                levels@.len() == i,
                forall|j: int| 0 <= j < i ==> (#[trigger] levels@[j])@ == report_s(self@)[j],
            decreases self.stack.levels@.len() - i,
        {
            let l = &self.stack.levels[i];
            assert(self@.stack.levels[i as int] == l@);
            let mut tasks: Vec<TaskReport<S>> = Vec::new();
            let mut k: usize = 0;
            while k < l.entries.len()
                invariant
                    self@.wf(),
                    i < self.stack.levels@.len(),
                    self@.stack.levels[i as int] == l@,
                    k <= l.entries@.len(),
                    tasks@.len() == k,
                    forall|j: int|
                        0 <= j < k ==> (#[trigger] tasks@[j])@ == task_report_s(
                            l@.entries[j],
                            self@.solution.x,
                        ),
                decreases l.entries@.len() - k,
            {
                assert(self@.stack.levels[i as int].entries[k as int] == l.entries@[k as int]@);
                tasks.push(task_report(&l.entries[k], &self.solution.x));
                k += 1;
            }
            let degraded = is_degraded(self.solution.status, i);
            let line = LevelReport { name: l.name.as_str().to_owned(), degraded, tasks };
            assert(line@.tasks =~= report_s(self@)[i as int].tasks);
            levels.push(line);
            i += 1;
        }
        let r = Report { levels };
        assert(r@ =~= report_s(self@));
        r
    }
}

impl<S> core::ops::Deref for StackSolution<S> {
    type Target = Solution<S>;

    fn deref(&self) -> (r: &Solution<S>)
        ensures
            r@ == self@.solution,
    {
        &self.solution
    }
}

/// The line of one task, with its numbers written out.
pub open spec fn task_line_s(t: Achieved<String>) -> Seq<char> {
    let residual = match t.eq_residual {
        Some(r) => " ‖A·x−b‖ = "@ + r@,
        None => Seq::empty(),
    };
    let margin = match t.iq_margin {
        Some(m) => "  margin min = "@ + m@,
        None => Seq::empty(),
    };
    "  "@ + pad_right_s(t.name, 24) + residual + margin + "\n"@
}

/// The lines of the first `k` tasks of a level.
pub open spec fn task_lines_s(tasks: Seq<Achieved<String>>, k: nat) -> Seq<char>
    decreases k,
{
    if k == 0 {
        Seq::empty()
    } else {
        task_lines_s(tasks, (k - 1) as nat) + task_line_s(tasks[k - 1])
    }
}

/// The lines of level `i`: whether it was solved, then its tasks.
pub open spec fn level_text_s(l: LevelAchieved<String>, i: nat) -> Seq<char> {
    let mark = if l.degraded {
        "DEGRADED"@
    } else {
        "optimal"@
    };
    "level "@ + decimal_s(i) + " \""@ + l.name + "\": "@ + mark + "\n"@ + task_lines_s(
        l.tasks,
        l.tasks.len(),
    )
}

/// The lines of the first `k` levels.
pub open spec fn report_text_s(levels: Seq<LevelAchieved<String>>, k: nat) -> Seq<char>
    decreases k,
{
    if k == 0 {
        Seq::empty()
    } else {
        report_text_s(levels, (k - 1) as nat) + level_text_s(levels[k - 1], (k - 1) as nat)
    }
}

fn task_line(t: &TaskReport<String>) -> (s: String)
    ensures
        s@ == task_line_s(t@),
{
    let mut s = "  ".to_owned();
    s.append(pad_right(t.name.as_str(), 24).as_str());
    if let Some(r) = &t.eq_residual {
        s.append(" ‖A·x−b‖ = ");
        s.append(r.as_str());
    }
    if let Some(m) = &t.iq_margin {
        s.append("  margin min = ");
        s.append(m.as_str());
    }
    s.append("\n");
    assert(s@ =~= task_line_s(t@));
    s
}

fn level_text(l: &LevelReport<String>, i: usize) -> (s: String)
    ensures
        s@ == level_text_s(l@, i as nat),
{
    let mut s = "level ".to_owned();
    s.append(decimal(i).as_str());
    s.append(" \"");
    s.append(l.name.as_str());
    s.append("\": ");
    s.append(
        if l.degraded {
            "DEGRADED"
        } else {
            "optimal"
        },
    );
    s.append("\n");
    let ghost head = s@;
    assert(s@ =~= head + task_lines_s(l@.tasks, 0));
    let mut k: usize = 0;
    while k < l.tasks.len()
        invariant
            k <= l.tasks@.len(),
            s@ == head + task_lines_s(l@.tasks, k as nat),
        decreases l.tasks@.len() - k,
    {
        s.append(task_line(&l.tasks[k]).as_str());
        assert(s@ =~= head + task_lines_s(l@.tasks, (k + 1) as nat));
        k += 1;
    }
    s
}

impl Report<String> {
    /// A report whose numbers are written out, as text: every level with
    /// whether it was solved, and every task with its residual and its margin.
    pub fn describe(&self) -> (s: String)
        ensures
            s@ == report_text_s(self@, self@.len()),
    {
        let mut s = "".to_owned();
        proof {
            reveal_strlit("");
        }
        assert(s@ =~= report_text_s(self@, 0));
        let mut i: usize = 0;
        while i < self.levels.len()
            invariant
                i <= self.levels@.len(),
                s@ == report_text_s(self@, i as nat),
            decreases self.levels@.len() - i,
        {
            s.append(level_text(&self.levels[i], i).as_str());
            i += 1;
        }
        s
    }
}

} // verus!
