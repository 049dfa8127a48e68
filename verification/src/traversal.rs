//! The traversal engine: a depth-first, post-order visit over the dependency
//! graph that executes every candidate program exactly once, after all of its
//! resolvable dependencies.
//!
//! The whole traversal is modelled by the spec functions `spec_visit`,
//! `spec_visit_deps` and `spec_run`; the executable traversal returns exactly
//! the trace these functions describe, so re-running it over the same input
//! yields the same result. A dependency name that resolves to no known
//! program degrades to one diagnostic record. A dependency edge that closes a
//! cycle is skipped and recorded instead of recursing without bound; on a
//! cycle-free input the cycle record stays empty.

use vstd::prelude::*;

use crate::program::Program;
use crate::program::ProgramView;
use crate::program::views;
use crate::strings::str_eq_exec;

verus! {

/// One "dependency not found" diagnostic: the program that declared the
/// dependency, and the dependency name that resolved to no known program.
#[derive(Debug)]
pub struct Diagnostic {
    pub program: String,
    pub dependency: String,
}

/// The mathematical model of a `Diagnostic`.
#[verifier::ext_equal]
pub struct DiagView {
    pub program: Seq<char>,
    pub dependency: Seq<char>,
}

impl View for Diagnostic {
    type V = DiagView;

    open spec fn view(&self) -> DiagView {
        DiagView { program: self.program@, dependency: self.dependency@ }
    }
}

/// Everything one traversal accumulates: the program indices in execution
/// order, the unresolved-dependency diagnostics in the order they were
/// emitted, and the names of programs on which a dependency edge closed a
/// cycle and was skipped.
#[verifier::ext_equal]
pub ghost struct Trace {
    pub order: Seq<int>,
    pub diags: Seq<DiagView>,
    pub cycles: Seq<Seq<char>>,
}

/// The trace an executable traversal state stands for.
pub open spec fn trace_of(order: Seq<usize>, diags: Seq<Diagnostic>, cycles: Seq<String>) -> Trace {
    Trace {
        order: order.map_values(|u: usize| u as int),
        diags: diags.map_values(|d: Diagnostic| d@),
        cycles: cycles.map_values(|s: String| s@),
    }
}

/// The trace a run starts from.
pub open spec fn empty_trace() -> Trace {
    Trace { order: Seq::empty(), diags: Seq::empty(), cycles: Seq::empty() }
}

/// An in-progress marker per program, all clear.
pub open spec fn all_false(n: nat) -> Seq<bool> {
    Seq::new(n, |i: int| false)
}

/// How many in-progress markers are still clear; the termination measure of
/// the traversal.
pub open spec fn count_false(s: Seq<bool>) -> nat
    decreases s.len(),
{
    if s.len() == 0 {
        0
    } else {
        count_false(s.drop_last()) + if s.last() {
            0nat
        } else {
            1nat
        }
    }
}

/// Setting a clear marker lowers the count of clear markers.
pub proof fn lemma_count_false_update(s: Seq<bool>, i: int)
    requires
        0 <= i < s.len(),
        !s[i],
    ensures
        count_false(s.update(i, true)) < count_false(s),
    decreases s.len(),
{
    if i == s.len() - 1 {
        assert(s.update(i, true).drop_last() =~= s.drop_last());
    } else {
        assert(s.update(i, true).drop_last() =~= s.drop_last().update(i, true));
        assert(s.update(i, true).last() == s.last());
        lemma_count_false_update(s.drop_last(), i);
    }
}

/// The index of the first known program with this name, searched from `from`.
pub open spec fn find_index(ps: Seq<ProgramView>, name: Seq<char>, from: int) -> Option<int>
    decreases ps.len() - from,
{
    if !(0 <= from < ps.len()) {
        None
    } else if ps[from].name == name {
        Some(from)
    } else {
        find_index(ps, name, from + 1)
    }
}

/// What `find_index` returns: the first match, or the word that no program
/// from `from` on bears the name.
pub proof fn lemma_find_index(ps: Seq<ProgramView>, name: Seq<char>, from: int)
    requires
        0 <= from <= ps.len(),
    ensures
        match find_index(ps, name, from) {
            Some(j) => from <= j < ps.len() && ps[j].name == name && forall|q: int|
                from <= q < j ==> (#[trigger] ps[q].name) != name,
            None => forall|q: int| from <= q < ps.len() ==> (#[trigger] ps[q].name) != name,
        },
    decreases ps.len() - from,
{
    if from < ps.len() && ps[from].name != name {
        lemma_find_index(ps, name, from + 1);
    }
}

/// Visit one program: if it is already executed, or already in progress
/// (a dependency cycle, recorded and skipped), do nothing more; otherwise
/// mark it in progress, visit its declared dependencies first, and execute
/// it, appending it to the order.
pub open spec fn spec_visit(ps: Seq<ProgramView>, idx: int, stack: Seq<bool>, tr: Trace) -> Trace
    decreases count_false(stack), 0int, 0int,
        via spec_visit_decreases
{
    if !(stack.len() == ps.len() && 0 <= idx < ps.len()) {
        tr
    } else if tr.order.contains(idx) {
        tr
    } else if stack[idx] {
        Trace { order: tr.order, diags: tr.diags, cycles: tr.cycles.push(ps[idx].name) }
    } else {
        let tr2 = spec_visit_deps(ps, idx, 0, stack.update(idx, true), tr);
        Trace { order: tr2.order.push(idx), diags: tr2.diags, cycles: tr2.cycles }
    }
}

/// Visit the declared dependencies of program `idx`, from position `k` on,
/// in stored order: a name that resolves to a known program is visited
/// recursively; one that does not leaves one diagnostic.
pub open spec fn spec_visit_deps(
    ps: Seq<ProgramView>,
    idx: int,
    k: int,
    stack: Seq<bool>,
    tr: Trace,
) -> Trace
    decreases count_false(stack), 1int, ps[idx].dependencies.len() - k,
{
    if !(stack.len() == ps.len() && 0 <= idx < ps.len() && 0 <= k) {
        tr
    } else if k >= ps[idx].dependencies.len() {
        tr
    } else {
        let dep = ps[idx].dependencies[k];
        let tr2 = match find_index(ps, dep, 0) {
            Some(j) => spec_visit(ps, j, stack, tr),
            None => Trace {
                order: tr.order,
                diags: tr.diags.push(DiagView { program: ps[idx].name, dependency: dep }),
                cycles: tr.cycles,
            },
        };
        spec_visit_deps(ps, idx, k + 1, stack, tr2)
    }
}

#[via_fn]
proof fn spec_visit_decreases(ps: Seq<ProgramView>, idx: int, stack: Seq<bool>, tr: Trace) {
    if stack.len() == ps.len() && 0 <= idx < ps.len() && !tr.order.contains(idx) && !stack[idx] {
        lemma_count_false_update(stack, idx);
    }
}

/// Visit every candidate program from position `i` on, in candidate order.
pub open spec fn spec_run_from(ps: Seq<ProgramView>, i: int, tr: Trace) -> Trace
    decreases ps.len() - i,
{
    if !(0 <= i < ps.len()) {
        tr
    } else {
        spec_run_from(ps, i + 1, spec_visit(ps, i, all_false(ps.len()), tr))
    }
}

/// The trace of one whole run over the candidate set, every candidate an
/// entry point, in candidate order.
pub open spec fn spec_run(ps: Seq<ProgramView>) -> Trace {
    spec_run_from(ps, 0, empty_trace())
}

/// Whether an execution-order list already holds the program index.
fn contains_index(v: &Vec<usize>, x: usize) -> (r: bool)
    ensures
        r == v@.map_values(|u: usize| u as int).contains(x as int),
{
    let ghost m = v@.map_values(|u: usize| u as int);
    assert(forall|q: int| 0 <= q < v@.len() ==> m[q] == v@[q] as int);
    let mut i: usize = 0;
    while i < v.len()
        invariant
            i <= v@.len(),
            m == v@.map_values(|u: usize| u as int),
            forall|q: int| 0 <= q < i ==> v@[q] != x,
        decreases v@.len() - i,
    {
        if v[i] == x {
            assert(m[i as int] == x as int);
            return true;
        }
        i = i + 1;
    }
    assert forall|q: int| 0 <= q < m.len() implies m[q] != x as int by {
        assert(v@[q] != x);
    }
    false
}

/// Look a dependency name up among the known programs; the first match wins.
fn find_program(programs: &Vec<Program>, name: &String) -> (r: Option<usize>)
    ensures
        match r {
            Some(j) => j < programs@.len() && find_index(views(programs@), name@, 0) == Some(
                j as int,
            ),
            None => find_index(views(programs@), name@, 0) is None,
        },
{
    let ghost ps = views(programs@);
    assert(forall|q: int| 0 <= q < ps.len() ==> ps[q] == programs@[q]@);
    let mut i: usize = 0;
    while i < programs.len()
        invariant
            i <= ps.len(),
            ps == views(programs@),
            ps.len() == programs@.len(),
            forall|q: int| 0 <= q < ps.len() ==> ps[q] == programs@[q]@,
            find_index(ps, name@, 0) == find_index(ps, name@, i as int),
        decreases ps.len() - i,
    {
        if str_eq_exec(programs[i].name.as_str(), name.as_str()) {
            assert(ps[i as int].name == name@);
            assert(find_index(ps, name@, i as int) == Some(i as int));
            return Some(i);
        }
        assert(ps[i as int].name != name@);
        assert(find_index(ps, name@, i as int) == find_index(ps, name@, i + 1));
        i = i + 1;
    }
    assert(find_index(ps, name@, i as int) is None);
    None
}

/// Visit one program: already-executed and in-progress programs are left
/// alone (the latter recorded as a cycle), otherwise its dependencies are
/// visited first and the program is appended to the execution order.
fn visit(
    programs: &Vec<Program>,
    idx: usize,
    stack: &mut Vec<bool>,
    order: &mut Vec<usize>,
    diags: &mut Vec<Diagnostic>,
    cycles: &mut Vec<String>,
)
    requires
        old(stack)@.len() == programs@.len(),
        idx < programs@.len(),
        forall|q: int| 0 <= q < old(order)@.len() ==> (#[trigger] old(order)@[q]) < programs@.len(),
    ensures
        final(stack)@ == old(stack)@,
        forall|q: int| 0 <= q < final(order)@.len() ==> (#[trigger] final(order)@[q])
            < programs@.len(),
        trace_of(final(order)@, final(diags)@, final(cycles)@) == spec_visit(
            views(programs@),
            idx as int,
            old(stack)@,
            trace_of(old(order)@, old(diags)@, old(cycles)@),
        ),
    decreases count_false(stack@),
{
    let ghost ps = views(programs@);
    let ghost tr0 = trace_of(order@, diags@, cycles@);
    proof {
        assert(ps.len() == programs@.len());
        assert(forall|q: int| 0 <= q < ps.len() ==> ps[q] == programs@[q]@);
    }
    if contains_index(order, idx) {
        assert(spec_visit(ps, idx as int, stack@, tr0) == tr0);
        return ;
    }
    if stack[idx] {
        let ghost cycles0 = cycles@;
        cycles.push(programs[idx].name.clone());
        proof {
            assert(cycles@ =~= cycles0.push(programs[idx as int].name));
            assert(trace_of(order@, diags@, cycles@).cycles =~= tr0.cycles.push(
                ps[idx as int].name,
            ));
            assert(trace_of(order@, diags@, cycles@) =~= spec_visit(ps, idx as int, stack@, tr0));
        }
        return ;
    }
    let ghost stack0 = stack@;
    stack[idx] = true;
    let ghost stack1 = stack@;
    proof {
        assert(stack1 =~= stack0.update(idx as int, true));
    }
    let deps_len = programs[idx].dependencies.len();
    proof {
        assert(ps[idx as int].dependencies.len() == deps_len);
    }
    let mut k: usize = 0;
    while k < deps_len
        invariant
            k <= deps_len,
            idx < programs@.len(),
            ps == views(programs@),
            ps.len() == programs@.len(),
            forall|q: int| 0 <= q < ps.len() ==> ps[q] == programs@[q]@,
            deps_len == ps[idx as int].dependencies.len(),
            stack@ == stack1,
            stack1 == stack0.update(idx as int, true),
            stack0.len() == ps.len(),
            !stack0[idx as int],
            stack0 == old(stack)@,
            forall|q: int| 0 <= q < order@.len() ==> (#[trigger] order@[q]) < programs@.len(),
            spec_visit_deps(ps, idx as int, 0, stack1, tr0) == spec_visit_deps(
                ps,
                idx as int,
                k as int,
                stack1,
                trace_of(order@, diags@, cycles@),
            ),
        decreases deps_len - k,
    {
        let ghost tr_k = trace_of(order@, diags@, cycles@);
        let ghost dep = ps[idx as int].dependencies[k as int];
        proof {
            assert(ps[idx as int].dependencies
                == programs@[idx as int].dependencies@.map_values(|x: String| x@));
            assert(dep == programs@[idx as int].dependencies@[k as int]@);
        }
        let found = find_program(programs, &programs[idx].dependencies[k]);
        match found {
            Some(j) => {
                proof {
                    lemma_count_false_update(stack0, idx as int);
                }
                visit(programs, j, stack, order, diags, cycles);
            },
            None => {
                let ghost diags0 = diags@;
                diags.push(
                    Diagnostic {
                        program: programs[idx].name.clone(),
                        dependency: programs[idx].dependencies[k].clone(),
                    },
                );
                proof {
                    assert(diags@ =~= diags0.push(
                        Diagnostic {
                            program: programs@[idx as int].name,
                            dependency: programs@[idx as int].dependencies@[k as int],
                        },
                    ));
                    assert(trace_of(order@, diags@, cycles@).diags =~= tr_k.diags.push(
                        DiagView { program: ps[idx as int].name, dependency: dep },
                    ));
                    assert(trace_of(order@, diags@, cycles@) =~= Trace {
                        order: tr_k.order,
                        diags: tr_k.diags.push(
                            DiagView { program: ps[idx as int].name, dependency: dep },
                        ),
                        cycles: tr_k.cycles,
                    });
                }
            },
        }
        proof {
            let tr_k1 = trace_of(order@, diags@, cycles@);
            assert(spec_visit_deps(ps, idx as int, k as int, stack1, tr_k) == spec_visit_deps(
                ps,
                idx as int,
                k + 1,
                stack1,
                tr_k1,
            ));
        }
        k = k + 1;
    }
    proof {
        assert(spec_visit_deps(ps, idx as int, k as int, stack1, trace_of(order@, diags@, cycles@))
            == trace_of(order@, diags@, cycles@));
    }
    let ghost tr_deps = trace_of(order@, diags@, cycles@);
    stack[idx] = false;
    proof {
        assert(stack@ =~= stack0);
    }
    let ghost order0 = order@;
    order.push(idx);
    proof {
        assert(order@ =~= order0.push(idx));
        assert(trace_of(order@, diags@, cycles@).order =~= tr_deps.order.push(idx as int));
        assert(trace_of(order@, diags@, cycles@) =~= Trace {
            order: tr_deps.order.push(idx as int),
            diags: tr_deps.diags,
            cycles: tr_deps.cycles,
        });
        assert(spec_visit(ps, idx as int, stack0, tr0) == trace_of(order@, diags@, cycles@));
    }
}

/// The plan of one run: the candidate indices in execution order, the
/// unresolved-dependency diagnostics, and the programs on which a cycle was
/// skipped.
pub struct RunPlan {
    pub order: Vec<usize>,
    pub diagnostics: Vec<Diagnostic>,
    pub cycles: Vec<String>,
}

/// Traverse the whole candidate set, every candidate an entry point in list
/// order, and return the resulting plan: its trace is exactly `spec_run`
/// over the candidate views.
pub fn plan_run(programs: &Vec<Program>) -> (plan: RunPlan)
    ensures
        trace_of(plan.order@, plan.diagnostics@, plan.cycles@) == spec_run(views(programs@)),
        forall|q: int| 0 <= q < plan.order@.len() ==> (#[trigger] plan.order@[q])
            < programs@.len(),
{
    let ghost ps = views(programs@);
    let mut stack: Vec<bool> = Vec::new();
    let mut n: usize = 0;
    while n < programs.len()
        invariant
            n <= programs@.len(),
            stack@ =~= all_false(n as nat),
        decreases programs@.len() - n,
    {
        stack.push(false);
        assert(stack@ =~= all_false((n + 1) as nat));
        n = n + 1;
    }
    proof {
        assert(stack@ =~= all_false(ps.len()));
    }
    let mut order: Vec<usize> = Vec::new();
    let mut diags: Vec<Diagnostic> = Vec::new();
    let mut cycles: Vec<String> = Vec::new();
    proof {
        assert(trace_of(order@, diags@, cycles@) =~= empty_trace());
    }
    let mut i: usize = 0;
    while i < programs.len()
        invariant
            i <= programs@.len(),
            ps == views(programs@),
            ps.len() == programs@.len(),
            stack@ =~= all_false(ps.len()),
            forall|q: int| 0 <= q < order@.len() ==> (#[trigger] order@[q]) < programs@.len(),
            spec_run(ps) == spec_run_from(ps, i as int, trace_of(order@, diags@, cycles@)),
        decreases programs@.len() - i,
    {
        let ghost tr_i = trace_of(order@, diags@, cycles@);
        visit(programs, i, &mut stack, &mut order, &mut diags, &mut cycles);
        proof {
            assert(spec_run_from(ps, i as int, tr_i) == spec_run_from(
                ps,
                i + 1,
                spec_visit(ps, i as int, all_false(ps.len()), tr_i),
            ));
            assert(trace_of(order@, diags@, cycles@) == spec_visit(
                ps,
                i as int,
                all_false(ps.len()),
                tr_i,
            ));
        }
        i = i + 1;
    }
    proof {
        assert(spec_run_from(ps, i as int, trace_of(order@, diags@, cycles@)) == trace_of(
            order@,
            diags@,
            cycles@,
        ));
    }
    RunPlan { order, diagnostics: diags, cycles }
}

} // verus!
