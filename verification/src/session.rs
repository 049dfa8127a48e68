//! The execution action's invocation contract and the result aggregator:
//! a run session hands out the programs in dependency-respecting order, one
//! at a time, and appends exactly one outcome record per executed program,
//! in execution order.

use vstd::prelude::*;

use crate::program::Program;
use crate::program::views;
use crate::traversal::RunPlan;
use crate::traversal::plan_run;
use crate::traversal::spec_run;
use crate::traversal::trace_of;

verus! {

/// One outcome record: the program executed and whether its test step
/// succeeded.
#[derive(Debug)]
pub struct TestResult {
    pub program: String,
    pub success: bool,
}

/// The mathematical model of a `TestResult`.
#[verifier::ext_equal]
pub struct TestResultView {
    pub program: Seq<char>,
    pub success: bool,
}

impl View for TestResult {
    type V = TestResultView;

    open spec fn view(&self) -> TestResultView {
        TestResultView { program: self.program@, success: self.success }
    }
}

/// One step of the execution action.
#[derive(Clone, Copy, Debug, PartialEq, Eq, Structural)]
pub enum ActionStep {
    Install,
    Update,
    Test,
}

/// The steps the execution action performs for one program, in strict
/// sequence: an install step first when a package manifest is present, an
/// update step, and last the test step whose exit decides the outcome.
pub fn action_steps(program: &Program) -> (r: Vec<ActionStep>)
    ensures
        r@ == if program.has_package_manifest {
            seq![ActionStep::Install, ActionStep::Update, ActionStep::Test]
        } else {
            seq![ActionStep::Update, ActionStep::Test]
        },
{
    let mut v: Vec<ActionStep> = Vec::new();
    if program.has_package_manifest {
        v.push(ActionStep::Install);
        v.push(ActionStep::Update);
        v.push(ActionStep::Test);
        assert(v@ =~= seq![ActionStep::Install, ActionStep::Update, ActionStep::Test]);
    } else {
        v.push(ActionStep::Update);
        v.push(ActionStep::Test);
        assert(v@ =~= seq![ActionStep::Update, ActionStep::Test]);
    }
    v
}

/// One run over a candidate set: the programs, the traversal's plan, and
/// the outcomes recorded so far, one per executed program, in execution
/// order.
pub struct RunSession {
    pub programs: Vec<Program>,
    pub plan: RunPlan,
    pub executed: usize,
    pub results: Vec<TestResult>,
}

impl RunSession {
    /// The session invariant: the plan is the traversal's trace over the
    /// candidate set, and the results pair the first `executed` planned
    /// programs with their recorded outcomes.
    pub open spec fn wf(self) -> bool {
        &&& trace_of(self.plan.order@, self.plan.diagnostics@, self.plan.cycles@) == spec_run(
            views(self.programs@),
        )
        &&& forall|q: int|
            0 <= q < self.plan.order@.len() ==> (#[trigger] self.plan.order@[q])
                < self.programs@.len()
        &&& self.executed <= self.plan.order@.len()
        &&& self.results@.len() == self.executed
        &&& forall|q: int|
            0 <= q < self.executed ==> (#[trigger] self.results@[q])@.program
                == self.programs@[self.plan.order@[q] as int]@.name
    }

    /// Begin a run: traverse the candidate set and stand ready to execute
    /// the planned programs in order, none executed yet.
    pub fn begin(programs: Vec<Program>) -> (s: RunSession)
        ensures
            s.wf(),
            s.programs@ == programs@,
            s.executed == 0,
            s.results@ == Seq::<TestResult>::empty(),
            trace_of(s.plan.order@, s.plan.diagnostics@, s.plan.cycles@) == spec_run(
                views(programs@),
            ),
    {
        let plan = plan_run(&programs);
        RunSession { programs, plan, executed: 0, results: Vec::new() }
    }

    /// The next program to execute: its name and whether it has a package
    /// manifest; or nothing when every planned program is executed.
    pub fn next_program(&self) -> (r: Option<(String, bool)>)
        requires
            self.wf(),
        ensures
            match r {
                Some(p) => self.executed < self.plan.order@.len() && p.0@
                    == self.programs@[self.plan.order@[self.executed as int] as int]@.name && p.1
                    == self.programs@[self.plan.order@[self.executed as int] as int]@.has_package_manifest,
                None => self.executed == self.plan.order@.len(),
            },
    {
        if self.executed < self.plan.order.len() {
            let idx = self.plan.order[self.executed];
            Some((self.programs[idx].name.clone(), self.programs[idx].has_package_manifest))
        } else {
            None
        }
    }

    /// Record the outcome of the current program's test step and move on:
    /// exactly one record is appended, bearing the program's name, in
    /// execution order.
    pub fn record_outcome(&mut self, success: bool)
        requires
            old(self).wf(),
            old(self).executed < old(self).plan.order@.len(),
        ensures
            final(self).wf(),
            final(self).programs@ == old(self).programs@,
            final(self).plan.order@ == old(self).plan.order@,
            final(self).plan.diagnostics@ == old(self).plan.diagnostics@,
            final(self).plan.cycles@ == old(self).plan.cycles@,
            final(self).executed == old(self).executed + 1,
            final(self).results@ == old(self).results@.push(
                TestResult {
                    program: old(self).programs@[old(self).plan.order@[old(
                        self,
                    ).executed as int] as int].name,
                    success,
                },
            ),
    {
        let n = self.plan.order.len();
        let idx = self.plan.order[self.executed];
        let record = TestResult { program: self.programs[idx].name.clone(), success };
        self.results.push(record);
        assert(self.executed < n);
        self.executed = self.executed + 1;
    }

    /// Whether every planned program has been executed.
    pub fn is_finished(&self) -> (r: bool)
        requires
            self.wf(),
        ensures
            r == (self.executed == self.plan.order@.len()),
    {
        self.executed == self.plan.order.len()
    }
}

} // verus!
