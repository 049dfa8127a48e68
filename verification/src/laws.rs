//! The guarantees of the traversal engine, stated over the dependency graph
//! and proved of `spec_run`: on a cycle-free candidate set every program is
//! executed exactly once, only after its resolvable dependencies, the result
//! is the same on every run over the same input, and exactly one diagnostic
//! is recorded per unresolved dependency edge.

use vstd::prelude::*;

use crate::program::ProgramView;
use crate::program::valid_programs;
use crate::program::views;
use crate::session::RunSession;
use crate::traversal::trace_of;
use crate::traversal::DiagView;
use crate::traversal::Trace;
use crate::traversal::all_false;
use crate::traversal::count_false;
use crate::traversal::empty_trace;
use crate::traversal::lemma_count_false_update;
use crate::traversal::find_index;
use crate::traversal::lemma_find_index;
use crate::traversal::spec_run;
use crate::traversal::spec_run_from;
use crate::traversal::spec_visit;
use crate::traversal::spec_visit_deps;

verus! {

broadcast use vstd::seq_lib::group_seq_properties;

/// The program index dependency `k` of program `i` resolves to, when it
/// resolves at all.
pub open spec fn resolved_dep(ps: Seq<ProgramView>, i: int, k: int) -> Option<int> {
    find_index(ps, ps[i].dependencies[k], 0)
}

/// Program `i` declares a dependency that resolves to program `j`.
pub open spec fn dep_edge(ps: Seq<ProgramView>, i: int, j: int) -> bool {
    &&& 0 <= i < ps.len()
    &&& exists|k: int|
        0 <= k < ps[i].dependencies.len() && #[trigger] resolved_dep(ps, i, k) == Some(j)
}

/// A chain of dependency edges.
pub open spec fn is_dep_path(ps: Seq<ProgramView>, p: Seq<int>) -> bool {
    &&& p.len() >= 1
    &&& forall|t: int| 0 <= t < p.len() - 1 ==> dep_edge(ps, #[trigger] p[t], p[t + 1])
}

/// Some chain of dependency edges (possibly empty) leads from `a` to `b`.
pub open spec fn reaches(ps: Seq<ProgramView>, a: int, b: int) -> bool {
    exists|p: Seq<int>| is_dep_path(ps, p) && p.first() == a && p.last() == b
}

/// The dependency graph has no cycle: no edge leads to a program from which
/// a chain leads back to where the edge started.
pub open spec fn acyclic(ps: Seq<ProgramView>) -> bool {
    forall|i: int, j: int| #[trigger] dep_edge(ps, i, j) ==> !reaches(ps, j, i)
}

/// Every program reaches itself, by the chain of no edges.
pub proof fn lemma_reaches_refl(ps: Seq<ProgramView>, a: int)
    ensures
        reaches(ps, a, a),
{
    let p = seq![a];
    assert(is_dep_path(ps, p));
    assert(p.first() == a && p.last() == a);
}

/// A chain from `a` to `b` followed by an edge from `b` to `c` gives a chain
/// from `a` to `c`.
pub proof fn lemma_reaches_extend(ps: Seq<ProgramView>, a: int, b: int, c: int)
    requires
        reaches(ps, a, b),
        dep_edge(ps, b, c),
    ensures
        reaches(ps, a, c),
{
    let p = choose|p: Seq<int>| is_dep_path(ps, p) && p.first() == a && p.last() == b;
    let q = p.push(c);
    assert(q.len() >= 2);
    assert(q.first() == a);
    assert(q.last() == c);
    assert forall|t: int| 0 <= t < q.len() - 1 implies dep_edge(ps, #[trigger] q[t], q[t + 1]) by {
        if t < p.len() - 1 {
            assert(q[t] == p[t] && q[t + 1] == p[t + 1]);
        } else {
            assert(q[t] == p.last() && q[t + 1] == c);
        }
    }
    assert(is_dep_path(ps, q));
}

/// A prefix's elements stay in the longer sequence.
proof fn lemma_prefix_contains<A>(a: Seq<A>, b: Seq<A>, x: A)
    requires
        a.is_prefix_of(b),
        a.contains(x),
    ensures
        b.contains(x),
{
    let q = choose|q: int| 0 <= q < a.len() && a[q] == x;
    assert(b.subrange(0, a.len() as int)[q] == x);
    assert(b[q] == x);
}

/// Prefixes compose.
proof fn lemma_prefix_transitive<A>(a: Seq<A>, b: Seq<A>, c: Seq<A>)
    requires
        a.is_prefix_of(b),
        b.is_prefix_of(c),
    ensures
        a.is_prefix_of(c),
{
    assert forall|q: int| 0 <= q < a.len() implies a[q] == c[q] by {
        assert(a[q] == b.subrange(0, a.len() as int)[q]);
        assert(b[q] == c.subrange(0, b.len() as int)[q]);
    }
    assert(a =~= c.subrange(0, a.len() as int));
}

/// The execution order is well formed: known program indices, none twice.
pub open spec fn wf_order(ps: Seq<ProgramView>, order: Seq<int>) -> bool {
    &&& forall|q: int| 0 <= q < order.len() ==> 0 <= #[trigger] order[q] < ps.len()
    &&& order.no_duplicates()
}

/// All resolvable dependencies of program `i` are in `before`.
pub open spec fn deps_in(ps: Seq<ProgramView>, i: int, before: Seq<int>) -> bool {
    forall|k: int|
        0 <= k < ps[i].dependencies.len() && (#[trigger] resolved_dep(ps, i, k)) is Some
            ==> before.contains(resolved_dep(ps, i, k)->0)
}

/// Every executed program came after all of its resolvable dependencies.
pub open spec fn ordered_inv(ps: Seq<ProgramView>, order: Seq<int>) -> bool {
    forall|b: int| 0 <= b < order.len() ==> deps_in(ps, #[trigger] order[b], order.take(b))
}

/// Diagnostic `d` records exactly the unresolved dependency edge `(i, k)`.
pub open spec fn diag_at(ps: Seq<ProgramView>, d: DiagView, i: int, k: int) -> bool {
    &&& 0 <= i < ps.len()
    &&& 0 <= k < ps[i].dependencies.len()
    &&& resolved_dep(ps, i, k) is None
    &&& d.program == ps[i].name
    &&& d.dependency == ps[i].dependencies[k]
}

/// Diagnostic `d` records an unresolved edge of a program that is executed
/// or in progress.
pub open spec fn diag_witness(
    ps: Seq<ProgramView>,
    d: DiagView,
    order: Seq<int>,
    stack: Seq<bool>,
) -> bool {
    exists|i: int, k: int| #[trigger] diag_at(ps, d, i, k) && (order.contains(i) || stack[i])
}

/// Diagnostic `d` records some unresolved dependency edge.
pub open spec fn diag_is_unresolved_edge(ps: Seq<ProgramView>, d: DiagView) -> bool {
    exists|i: int, k: int| diag_at(ps, d, i, k)
}

/// Diagnostic `d` records an unresolved edge of an executed program.
pub open spec fn diag_executed(ps: Seq<ProgramView>, d: DiagView, order: Seq<int>) -> bool {
    exists|i: int, k: int| #[trigger] diag_at(ps, d, i, k) && order.contains(i)
}

/// Every unresolved dependency edge of every executed program has its
/// diagnostic recorded.
pub open spec fn diags_complete(ps: Seq<ProgramView>, order: Seq<int>, diags: Seq<DiagView>) -> bool {
    forall|b: int, k: int|
        0 <= b < order.len() && 0 <= k < ps[order[b]].dependencies.len() && (#[trigger] resolved_dep(
            ps,
            order[b],
            k,
        )) is None ==> diags.contains(
            DiagView { program: ps[order[b]].name, dependency: ps[order[b]].dependencies[k] },
        )
}

/// Everything a traversal keeps true of its trace, against the current
/// in-progress markers.
pub open spec fn trace_inv(ps: Seq<ProgramView>, stack: Seq<bool>, tr: Trace) -> bool {
    &&& wf_order(ps, tr.order)
    &&& ordered_inv(ps, tr.order)
    &&& (forall|s: int| 0 <= s < ps.len() && stack[s] ==> !tr.order.contains(s))
    &&& tr.diags.no_duplicates()
    &&& (forall|di: int|
        0 <= di < tr.diags.len() ==> diag_witness(ps, #[trigger] tr.diags[di], tr.order, stack))
    &&& diags_complete(ps, tr.order, tr.diags)
}

proof fn lemma_prefix_refl<A>(a: Seq<A>)
    ensures
        a.is_prefix_of(a),
{
    assert(a =~= a.subrange(0, a.len() as int));
}

/// One visit preserves the traversal invariant, leaves the visited program
/// executed, extends order and diagnostics only at the end, records no
/// cycle, and every new diagnostic belongs to a program executed by now.
proof fn lemma_visit_ok(ps: Seq<ProgramView>, idx: int, stack: Seq<bool>, tr: Trace)
    requires
        valid_programs(ps),
        acyclic(ps),
        stack.len() == ps.len(),
        0 <= idx < ps.len(),
        !stack[idx],
        trace_inv(ps, stack, tr),
        forall|s: int| 0 <= s < ps.len() && stack[s] ==> reaches(ps, s, idx),
    ensures
        tr.order.is_prefix_of(spec_visit(ps, idx, stack, tr).order),
        tr.diags.is_prefix_of(spec_visit(ps, idx, stack, tr).diags),
        spec_visit(ps, idx, stack, tr).cycles == tr.cycles,
        trace_inv(ps, stack, spec_visit(ps, idx, stack, tr)),
        spec_visit(ps, idx, stack, tr).order.contains(idx),
        forall|di: int|
            tr.diags.len() <= di < spec_visit(ps, idx, stack, tr).diags.len() ==> diag_executed(
                ps,
                #[trigger] spec_visit(ps, idx, stack, tr).diags[di],
                spec_visit(ps, idx, stack, tr).order,
            ),
    decreases count_false(stack), 0int, 0int,
{
    let v = spec_visit(ps, idx, stack, tr);
    if tr.order.contains(idx) {
        assert(v == tr);
        lemma_prefix_refl(tr.order);
        lemma_prefix_refl(tr.diags);
    } else {
        let stack1 = stack.update(idx, true);
        // The deps pass starts from a state where no diagnostic yet names
        // this program: any such diagnostic would make it executed or in
        // progress already.
        assert forall|di: int| 0 <= di < tr.diags.len() implies !(tr.diags[di].program
            == ps[idx].name) by {
            if tr.diags[di].program == ps[idx].name {
                assert(diag_witness(ps, tr.diags[di], tr.order, stack));
                let (i, k) = choose|i: int, k: int|
                    #[trigger] diag_at(ps, tr.diags[di], i, k) && (tr.order.contains(i)
                        || stack[i]);
                assert(ps[i].name == ps[idx].name);
                assert(i == idx);
            }
        }
        // The invariant carries over to the marked stack.
        assert forall|di: int|
            0 <= di < tr.diags.len() implies diag_witness(
            ps,
            #[trigger] tr.diags[di],
            tr.order,
            stack1,
        ) by {
            let (i, k) = choose|i: int, k: int|
                #[trigger] diag_at(ps, tr.diags[di], i, k) && (tr.order.contains(i) || stack[i]);
            assert(diag_at(ps, tr.diags[di], i, k) && (tr.order.contains(i) || stack1[i]));
        }
        assert forall|s: int| 0 <= s < ps.len() && stack1[s] implies reaches(ps, s, idx) by {
            if s == idx {
                lemma_reaches_refl(ps, idx);
            }
        }
        assert(trace_inv(ps, stack1, tr));
        lemma_count_false_update(stack, idx);
        lemma_visit_deps_ok(ps, idx, 0, stack1, tr);
        let t2 = spec_visit_deps(ps, idx, 0, stack1, tr);
        assert(v == Trace { order: t2.order.push(idx), diags: t2.diags, cycles: t2.cycles });
        assert(stack1[idx]);
        assert(!t2.order.contains(idx));
        // order: prefix, well-formed, no duplicates.
        assert(tr.order.is_prefix_of(t2.order));
        assert forall|q: int| 0 <= q < tr.order.len() implies tr.order[q] == v.order[q] by {
            assert(tr.order[q] == t2.order.subrange(0, tr.order.len() as int)[q]);
        }
        assert(tr.order =~= v.order.subrange(0, tr.order.len() as int));
        assert(v.order.no_duplicates());
        // order: dependency-first for the new entry; old entries keep their
        // prefixes.
        assert forall|b: int| 0 <= b < v.order.len() implies deps_in(
            ps,
            #[trigger] v.order[b],
            v.order.take(b),
        ) by {
            if b < t2.order.len() {
                assert(v.order[b] == t2.order[b]);
                assert(v.order.take(b) =~= t2.order.take(b));
                assert(deps_in(ps, t2.order[b], t2.order.take(b)));
            } else {
                assert(v.order[b] == idx);
                assert(v.order.take(b) =~= t2.order);
                assert forall|k: int|
                    0 <= k < ps[idx].dependencies.len() && (#[trigger] resolved_dep(
                        ps,
                        idx,
                        k,
                    )) is Some implies t2.order.contains(resolved_dep(ps, idx, k)->0) by {
                    assert(t2.order.contains(resolved_dep(ps, idx, k)->0));
                }
            }
        }
        // stacked programs stay unexecuted.
        assert forall|s: int| 0 <= s < ps.len() && stack[s] implies !v.order.contains(s) by {
            assert(stack1[s]);
            assert(!t2.order.contains(s));
            assert(s != idx);
            if v.order.contains(s) {
                let q = choose|q: int| 0 <= q < v.order.len() && v.order[q] == s;
                assert(q < t2.order.len());
                assert(t2.order[q] == s);
            }
        }
        // diagnostics: witnesses move from "in progress" to "executed".
        assert forall|di: int|
            0 <= di < v.diags.len() implies diag_witness(ps, #[trigger] v.diags[di], v.order, stack) by {
            let (i, k) = choose|i: int, k: int|
                #[trigger] diag_at(ps, v.diags[di], i, k) && (t2.order.contains(i) || stack1[i]);
            if t2.order.contains(i) {
                lemma_prefix_contains(t2.order, v.order, i)
                    ;  // t2.order prefix of pushed order
            } else if i == idx {
                assert(v.order.contains(idx));
            }
            assert(diag_at(ps, v.diags[di], i, k) && (v.order.contains(i) || stack[i]));
        }
        assert(t2.order.is_prefix_of(v.order)) by {
            assert(t2.order =~= v.order.subrange(0, t2.order.len() as int));
        }
        assert forall|di: int|
            tr.diags.len() <= di < v.diags.len() implies diag_executed(
            ps,
            #[trigger] v.diags[di],
            v.order,
        ) by {
            let (i, k) = choose|i: int, k: int|
                #[trigger] diag_at(ps, v.diags[di], i, k) && (t2.order.contains(i) || (i == idx
                    && exists|k2: int| 0 <= k2 < ps[idx].dependencies.len() && diag_at(
                    ps,
                    v.diags[di],
                    idx,
                    k2,
                )));
            if t2.order.contains(i) {
                lemma_prefix_contains(t2.order, v.order, i);
            } else {
                assert(v.order.contains(idx));
            }
            assert(diag_at(ps, v.diags[di], i, k) && v.order.contains(i));
        }
        // completeness: the new entry's unresolved edges are all recorded.
        assert forall|b: int, k: int|
            0 <= b < v.order.len() && 0 <= k < ps[v.order[b]].dependencies.len() && (
            #[trigger] resolved_dep(ps, v.order[b], k)) is None implies v.diags.contains(
            DiagView { program: ps[v.order[b]].name, dependency: ps[v.order[b]].dependencies[k] },
        ) by {
            if b < t2.order.len() {
                assert(v.order[b] == t2.order[b]);
                assert(t2.order.contains(t2.order[b]));
                assert(resolved_dep(ps, t2.order[b], k) is None);
                assert(t2.diags.contains(
                    DiagView {
                        program: ps[t2.order[b]].name,
                        dependency: ps[t2.order[b]].dependencies[k],
                    },
                ));
            } else {
                assert(v.order[b] == idx);
                assert(t2.diags.contains(
                    DiagView { program: ps[idx].name, dependency: ps[idx].dependencies[k] },
                ));
            }
        }
    }
}

/// The dependency pass of one program, from position `k` on: it preserves
/// the traversal invariant, leaves every resolvable remaining dependency
/// executed and every unresolvable one recorded, and adds no cycle record.
proof fn lemma_visit_deps_ok(ps: Seq<ProgramView>, idx: int, k: int, stack: Seq<bool>, tr: Trace)
    requires
        valid_programs(ps),
        acyclic(ps),
        stack.len() == ps.len(),
        0 <= idx < ps.len(),
        0 <= k <= ps[idx].dependencies.len(),
        stack[idx],
        trace_inv(ps, stack, tr),
        forall|s: int| 0 <= s < ps.len() && stack[s] ==> reaches(ps, s, idx),
        forall|di: int|
            0 <= di < tr.diags.len() && (#[trigger] tr.diags[di]).program == ps[idx].name
                ==> exists|k2: int|
                0 <= k2 < k && tr.diags[di].dependency == ps[idx].dependencies[k2],
    ensures
        tr.order.is_prefix_of(spec_visit_deps(ps, idx, k, stack, tr).order),
        tr.diags.is_prefix_of(spec_visit_deps(ps, idx, k, stack, tr).diags),
        spec_visit_deps(ps, idx, k, stack, tr).cycles == tr.cycles,
        trace_inv(ps, stack, spec_visit_deps(ps, idx, k, stack, tr)),
        forall|k2: int|
            k <= k2 < ps[idx].dependencies.len() && (#[trigger] resolved_dep(ps, idx, k2)) is Some
                ==> spec_visit_deps(ps, idx, k, stack, tr).order.contains(
                resolved_dep(ps, idx, k2)->0,
            ),
        forall|k2: int|
            k <= k2 < ps[idx].dependencies.len() && (#[trigger] resolved_dep(ps, idx, k2)) is None
                ==> spec_visit_deps(ps, idx, k, stack, tr).diags.contains(
                DiagView { program: ps[idx].name, dependency: ps[idx].dependencies[k2] },
            ),
        forall|di: int|
            tr.diags.len() <= di < spec_visit_deps(ps, idx, k, stack, tr).diags.len()
                ==> diag_executed(
                ps,
                #[trigger] spec_visit_deps(ps, idx, k, stack, tr).diags[di],
                spec_visit_deps(ps, idx, k, stack, tr).order,
            ) || (spec_visit_deps(ps, idx, k, stack, tr).diags[di].program == ps[idx].name
                && exists|k2: int|
                0 <= k2 < ps[idx].dependencies.len() && diag_at(
                    ps,
                    spec_visit_deps(ps, idx, k, stack, tr).diags[di],
                    idx,
                    k2,
                )),
        forall|di: int|
            0 <= di < spec_visit_deps(ps, idx, k, stack, tr).diags.len() && (
            #[trigger] spec_visit_deps(ps, idx, k, stack, tr).diags[di]).program == ps[idx].name
                ==> exists|k2: int|
                0 <= k2 < ps[idx].dependencies.len() && spec_visit_deps(
                    ps,
                    idx,
                    k,
                    stack,
                    tr,
                ).diags[di].dependency == ps[idx].dependencies[k2],
    decreases count_false(stack), 1int, ps[idx].dependencies.len() - k,
{
    let t2 = spec_visit_deps(ps, idx, k, stack, tr);
    let deps = ps[idx].dependencies;
    if k == deps.len() {
        assert(t2 == tr);
        lemma_prefix_refl(tr.order);
        lemma_prefix_refl(tr.diags);
        assert forall|di: int|
            0 <= di < tr.diags.len() && (#[trigger] tr.diags[di]).program == ps[idx].name implies
            exists|k2: int| 0 <= k2 < deps.len() && tr.diags[di].dependency == deps[k2] by {
            let k2 = choose|k2: int| 0 <= k2 < k && tr.diags[di].dependency == deps[k2];
            assert(0 <= k2 < deps.len() && tr.diags[di].dependency == deps[k2]);
        }
    } else {
        let dep = deps[k];
        lemma_find_index(ps, dep, 0);
        match find_index(ps, dep, 0) {
            Some(j) => {
                assert(resolved_dep(ps, idx, k) == Some(j));
                assert(dep_edge(ps, idx, j));
                if stack[j] {
                    assert(reaches(ps, j, idx));
                    assert(false);
                }
                assert forall|s: int| 0 <= s < ps.len() && stack[s] implies reaches(ps, s, j) by {
                    lemma_reaches_extend(ps, s, idx, j);
                }
                lemma_visit_ok(ps, j, stack, tr);
                let trj = spec_visit(ps, j, stack, tr);
                assert(t2 == spec_visit_deps(ps, idx, k + 1, stack, trj));
                // Old diagnostics are unchanged; new ones belong to executed
                // programs, never to this one, which is still in progress.
                assert forall|di: int|
                    0 <= di < trj.diags.len() && (#[trigger] trj.diags[di]).program
                        == ps[idx].name implies exists|k2: int|
                    0 <= k2 < k + 1 && trj.diags[di].dependency == deps[k2] by {
                    if di < tr.diags.len() {
                        assert(trj.diags[di] == tr.diags.subrange(0, tr.diags.len() as int)[di]);
                        assert(trj.diags[di] == tr.diags[di]);
                        let k2 = choose|k2: int|
                            0 <= k2 < k && tr.diags[di].dependency == deps[k2];
                        assert(0 <= k2 < k + 1 && trj.diags[di].dependency == deps[k2]);
                    } else {
                        assert(diag_executed(ps, trj.diags[di], trj.order));
                        let (i, k3) = choose|i: int, k3: int|
                            #[trigger] diag_at(ps, trj.diags[di], i, k3) && trj.order.contains(i);
                        assert(ps[i].name == ps[idx].name);
                        assert(i == idx);
                        assert(!trj.order.contains(idx));
                        assert(false);
                    }
                }
                lemma_visit_deps_ok(ps, idx, k + 1, stack, trj);
                lemma_prefix_transitive(tr.order, trj.order, t2.order);
                lemma_prefix_transitive(tr.diags, trj.diags, t2.diags);
                // The dependency just handled stays executed.
                assert forall|k2: int|
                    k <= k2 < deps.len() && (#[trigger] resolved_dep(ps, idx, k2)) is Some implies
                    t2.order.contains(resolved_dep(ps, idx, k2)->0) by {
                    if k2 == k {
                        assert(trj.order.contains(j));
                        lemma_prefix_contains(trj.order, t2.order, j);
                    }
                }
                // New diagnostics: those of the subtree are executed; the
                // order only grows afterwards.
                assert forall|di: int|
                    tr.diags.len() <= di < t2.diags.len() implies diag_executed(
                    ps,
                    #[trigger] t2.diags[di],
                    t2.order,
                ) || (t2.diags[di].program == ps[idx].name && exists|k2: int|
                    0 <= k2 < deps.len() && diag_at(ps, t2.diags[di], idx, k2)) by {
                    if di < trj.diags.len() {
                        assert(t2.diags[di] == trj.diags.subrange(0, trj.diags.len() as int)[di]);
                        assert(t2.diags[di] == trj.diags[di]);
                        assert(diag_executed(ps, trj.diags[di], trj.order));
                        let (i, k3) = choose|i: int, k3: int|
                            #[trigger] diag_at(ps, trj.diags[di], i, k3) && trj.order.contains(i);
                        lemma_prefix_contains(trj.order, t2.order, i);
                        assert(diag_at(ps, t2.diags[di], i, k3) && t2.order.contains(i));
                    }
                }
            },
            None => {
                assert(resolved_dep(ps, idx, k) is None);
                let newd = DiagView { program: ps[idx].name, dependency: dep };
                let tr_d = Trace { order: tr.order, diags: tr.diags.push(newd), cycles: tr.cycles };
                assert(t2 == spec_visit_deps(ps, idx, k + 1, stack, tr_d));
                assert(deps.no_duplicates());
                // The new diagnostic is fresh: an old one naming this
                // program records an earlier dependency position, and the
                // dependency list holds no duplicates.
                assert forall|di: int| 0 <= di < tr.diags.len() implies tr.diags[di] != newd by {
                    if tr.diags[di] == newd {
                        let k2 = choose|k2: int|
                            0 <= k2 < k && tr.diags[di].dependency == deps[k2];
                        assert(deps[k2] == deps[k]);
                        assert(false);
                    }
                }
                assert(tr_d.diags.no_duplicates()) by {
                    assert forall|q1: int, q2: int|
                        0 <= q1 < q2 < tr_d.diags.len() implies tr_d.diags[q1] != tr_d.diags[q2] by {
                        if q2 == tr_d.diags.len() - 1 {
                            assert(tr_d.diags[q1] == tr.diags[q1]);
                            assert(tr_d.diags[q2] == newd);
                        } else {
                            assert(tr_d.diags[q1] == tr.diags[q1]);
                            assert(tr_d.diags[q2] == tr.diags[q2]);
                        }
                    }
                }
                assert(diag_at(ps, newd, idx, k));
                assert forall|di: int|
                    0 <= di < tr_d.diags.len() implies diag_witness(
                    ps,
                    #[trigger] tr_d.diags[di],
                    tr_d.order,
                    stack,
                ) by {
                    if di < tr.diags.len() {
                        assert(tr_d.diags[di] == tr.diags[di]);
                        assert(diag_witness(ps, tr.diags[di], tr.order, stack));
                    } else {
                        assert(tr_d.diags[di] == newd);
                        assert(diag_at(ps, newd, idx, k) && stack[idx]);
                    }
                }
                assert(diags_complete(ps, tr_d.order, tr_d.diags)) by {
                    assert forall|b: int, k3: int|
                        0 <= b < tr_d.order.len() && 0 <= k3 < ps[tr_d.order[b]].dependencies.len()
                            && (#[trigger] resolved_dep(ps, tr_d.order[b], k3)) is None implies
                        tr_d.diags.contains(
                        DiagView {
                            program: ps[tr_d.order[b]].name,
                            dependency: ps[tr_d.order[b]].dependencies[k3],
                        },
                    ) by {
                        assert(tr.diags.contains(
                            DiagView {
                                program: ps[tr.order[b]].name,
                                dependency: ps[tr.order[b]].dependencies[k3],
                            },
                        ));
                        let q = choose|q: int|
                            0 <= q < tr.diags.len() && tr.diags[q] == DiagView {
                                program: ps[tr.order[b]].name,
                                dependency: ps[tr.order[b]].dependencies[k3],
                            };
                        assert(tr_d.diags[q] == tr.diags[q]);
                    }
                }
                assert forall|di: int|
                    0 <= di < tr_d.diags.len() && (#[trigger] tr_d.diags[di]).program
                        == ps[idx].name implies exists|k2: int|
                    0 <= k2 < k + 1 && tr_d.diags[di].dependency == deps[k2] by {
                    if di < tr.diags.len() {
                        assert(tr_d.diags[di] == tr.diags[di]);
                        let k2 = choose|k2: int|
                            0 <= k2 < k && tr.diags[di].dependency == deps[k2];
                        assert(0 <= k2 < k + 1 && tr_d.diags[di].dependency == deps[k2]);
                    } else {
                        assert(tr_d.diags[di] == newd);
                        assert(tr_d.diags[di].dependency == deps[k]);
                    }
                }
                assert(trace_inv(ps, stack, tr_d));
                lemma_visit_deps_ok(ps, idx, k + 1, stack, tr_d);
                assert(tr.diags.is_prefix_of(tr_d.diags)) by {
                    assert(tr.diags =~= tr_d.diags.subrange(0, tr.diags.len() as int));
                }
                lemma_prefix_refl(tr.order);
                lemma_prefix_transitive(tr.order, tr_d.order, t2.order);
                lemma_prefix_transitive(tr.diags, tr_d.diags, t2.diags);
                // The diagnostic just recorded stays recorded.
                assert forall|k2: int|
                    k <= k2 < deps.len() && (#[trigger] resolved_dep(ps, idx, k2)) is None implies
                    t2.diags.contains(DiagView { program: ps[idx].name, dependency: deps[k2] }) by {
                    if k2 == k {
                        assert(tr_d.diags[tr_d.diags.len() - 1] == newd);
                        assert(tr_d.diags.contains(newd));
                        lemma_prefix_contains(tr_d.diags, t2.diags, newd);
                    }
                }
                assert forall|di: int|
                    tr.diags.len() <= di < t2.diags.len() implies diag_executed(
                    ps,
                    #[trigger] t2.diags[di],
                    t2.order,
                ) || (t2.diags[di].program == ps[idx].name && exists|k2: int|
                    0 <= k2 < deps.len() && diag_at(ps, t2.diags[di], idx, k2)) by {
                    if di < tr_d.diags.len() {
                        assert(t2.diags[di] == tr_d.diags.subrange(0, tr_d.diags.len() as int)[di]);
                        assert(t2.diags[di] == newd);
                        assert(diag_at(ps, newd, idx, k));
                    }
                }
            },
        }
    }
}

/// The driver pass from candidate `i` on: it preserves the traversal
/// invariant and leaves every candidate executed.
proof fn lemma_run_from_ok(ps: Seq<ProgramView>, i: int, tr: Trace)
    requires
        valid_programs(ps),
        acyclic(ps),
        0 <= i <= ps.len(),
        trace_inv(ps, all_false(ps.len()), tr),
        forall|q: int| 0 <= q < i ==> tr.order.contains(q),
    ensures
        tr.order.is_prefix_of(spec_run_from(ps, i, tr).order),
        tr.diags.is_prefix_of(spec_run_from(ps, i, tr).diags),
        spec_run_from(ps, i, tr).cycles == tr.cycles,
        trace_inv(ps, all_false(ps.len()), spec_run_from(ps, i, tr)),
        forall|q: int| 0 <= q < ps.len() ==> spec_run_from(ps, i, tr).order.contains(q),
        forall|di: int|
            tr.diags.len() <= di < spec_run_from(ps, i, tr).diags.len() ==> diag_executed(
                ps,
                #[trigger] spec_run_from(ps, i, tr).diags[di],
                spec_run_from(ps, i, tr).order,
            ),
    decreases ps.len() - i,
{
    let r = spec_run_from(ps, i, tr);
    let stack = all_false(ps.len());
    if i == ps.len() {
        assert(r == tr);
        lemma_prefix_refl(tr.order);
        lemma_prefix_refl(tr.diags);
    } else {
        assert(!stack[i]);
        lemma_visit_ok(ps, i, stack, tr);
        let tri = spec_visit(ps, i, stack, tr);
        assert forall|q: int| 0 <= q < i + 1 implies tri.order.contains(q) by {
            if q < i {
                lemma_prefix_contains(tr.order, tri.order, q);
            }
        }
        lemma_run_from_ok(ps, i + 1, tri);
        assert(r == spec_run_from(ps, i + 1, tri));
        lemma_prefix_transitive(tr.order, tri.order, r.order);
        lemma_prefix_transitive(tr.diags, tri.diags, r.diags);
        assert forall|di: int|
            tr.diags.len() <= di < r.diags.len() implies diag_executed(
            ps,
            #[trigger] r.diags[di],
            r.order,
        ) by {
            if di < tri.diags.len() {
                assert(r.diags[di] == tri.diags.subrange(0, tri.diags.len() as int)[di]);
                assert(r.diags[di] == tri.diags[di]);
                assert(diag_executed(ps, tri.diags[di], tri.order));
                let (w, k3) = choose|w: int, k3: int|
                    #[trigger] diag_at(ps, tri.diags[di], w, k3) && tri.order.contains(w);
                lemma_prefix_contains(tri.order, r.order, w);
                assert(diag_at(ps, r.diags[di], w, k3) && r.order.contains(w));
            }
        }
    }
}

/// The starting trace satisfies the traversal invariant.
proof fn lemma_empty_trace_inv(ps: Seq<ProgramView>)
    ensures
        trace_inv(ps, all_false(ps.len()), empty_trace()),
{
    let tr = empty_trace();
    assert(tr.order.no_duplicates());
    assert(tr.diags.no_duplicates());
}

/// On a cycle-free candidate set, every program is present exactly once in
/// the execution order: the order holds only known programs, none twice, it
/// holds every known program, and it is exactly as long as the candidate
/// set.
pub proof fn lemma_run_executes_each_once(ps: Seq<ProgramView>)
    requires
        valid_programs(ps),
        acyclic(ps),
    ensures
        spec_run(ps).order.no_duplicates(),
        forall|q: int| 0 <= q < spec_run(ps).order.len() ==> 0 <= #[trigger] spec_run(ps).order[q]
            < ps.len(),
        forall|i: int| 0 <= i < ps.len() ==> spec_run(ps).order.contains(i),
        spec_run(ps).order.len() == ps.len(),
{
    lemma_empty_trace_inv(ps);
    lemma_run_from_ok(ps, 0, empty_trace());
    let order = spec_run(ps).order;
    let range = vstd::set_lib::set_int_range(0, ps.len() as int);
    vstd::set_lib::lemma_int_range(0, ps.len() as int);
    order.unique_seq_to_set();
    assert(order.to_set() =~= range) by {
        assert forall|x: int| range.contains(x) implies order.to_set().contains(x) by {
            assert(order.contains(x));
        }
        assert forall|x: int| order.to_set().contains(x) implies range.contains(x) by {
            assert(order.contains(x));
            let q = choose|q: int| 0 <= q < order.len() && order[q] == x;
            assert(0 <= order[q] < ps.len());
        }
    }
    assert(order.len() == range.len());
}

/// On a cycle-free candidate set, a program is never executed before its
/// resolvable dependencies: for every dependency edge that resolves, the
/// dependency stands earlier in the execution order.
pub proof fn lemma_run_respects_dependencies(ps: Seq<ProgramView>)
    requires
        valid_programs(ps),
        acyclic(ps),
    ensures
        forall|b: int, k: int|
            0 <= b < spec_run(ps).order.len() && 0 <= k
                < ps[spec_run(ps).order[b]].dependencies.len() && (#[trigger] resolved_dep(
                ps,
                spec_run(ps).order[b],
                k,
            )) is Some ==> exists|a: int|
                0 <= a < b && spec_run(ps).order[a] == resolved_dep(ps, spec_run(ps).order[b], k)->0,
{
    lemma_empty_trace_inv(ps);
    lemma_run_from_ok(ps, 0, empty_trace());
    let order = spec_run(ps).order;
    assert forall|b: int, k: int|
        0 <= b < order.len() && 0 <= k < ps[order[b]].dependencies.len() && (#[trigger] resolved_dep(
            ps,
            order[b],
            k,
        )) is Some implies exists|a: int|
        0 <= a < b && order[a] == resolved_dep(ps, order[b], k)->0 by {
        assert(deps_in(ps, order[b], order.take(b)));
        let j = resolved_dep(ps, order[b], k)->0;
        assert(order.take(b).contains(j));
        let a = choose|a: int| 0 <= a < b && order.take(b)[a] == j;
        assert(order[a] == j);
    }
}

/// Traversal is deterministic: two traversals of the same candidate set
/// produce the same trace, execution order included.
pub proof fn lemma_run_deterministic(ps: Seq<ProgramView>, first: Trace, second: Trace)
    requires
        first == spec_run(ps),
        second == spec_run(ps),
    ensures
        first == second,
{
}

/// On a cycle-free candidate set, the diagnostics are exactly the unresolved
/// dependency edges, one record each: no record twice, every unresolved edge
/// recorded, and nothing but unresolved edges recorded.
pub proof fn lemma_run_diagnostics_exact(ps: Seq<ProgramView>)
    requires
        valid_programs(ps),
        acyclic(ps),
    ensures
        spec_run(ps).diags.no_duplicates(),
        forall|i: int, k: int|
            0 <= i < ps.len() && 0 <= k < ps[i].dependencies.len() && (#[trigger] resolved_dep(
                ps,
                i,
                k,
            )) is None ==> spec_run(ps).diags.contains(
                DiagView { program: ps[i].name, dependency: ps[i].dependencies[k] },
            ),
        forall|di: int|
            0 <= di < spec_run(ps).diags.len() ==> diag_is_unresolved_edge(
                ps,
                #[trigger] spec_run(ps).diags[di],
            ),
{
    lemma_empty_trace_inv(ps);
    lemma_run_from_ok(ps, 0, empty_trace());
    let r = spec_run(ps);
    assert forall|i: int, k: int|
        0 <= i < ps.len() && 0 <= k < ps[i].dependencies.len() && (#[trigger] resolved_dep(
            ps,
            i,
            k,
        )) is None implies r.diags.contains(
        DiagView { program: ps[i].name, dependency: ps[i].dependencies[k] },
    ) by {
        assert(r.order.contains(i));
        let b = choose|b: int| 0 <= b < r.order.len() && r.order[b] == i;
        assert(resolved_dep(ps, r.order[b], k) is None);
    }
    assert forall|di: int|
        0 <= di < spec_run(ps).diags.len() implies diag_is_unresolved_edge(
        ps,
        #[trigger] spec_run(ps).diags[di],
    ) by {
        assert(diag_witness(ps, r.diags[di], r.order, all_false(ps.len())));
        let (i, k) = choose|i: int, k: int|
            #[trigger] diag_at(ps, r.diags[di], i, k) && (r.order.contains(i) || all_false(
                ps.len(),
            )[i]);
        assert(diag_at(ps, spec_run(ps).diags[di], i, k));
    }
}

/// A finished run's result list holds one outcome per candidate program:
/// as many records as programs, every program's name among them, and no
/// name twice.
pub proof fn lemma_finished_session_results(s: RunSession)
    requires
        s.wf(),
        s.executed == s.plan.order@.len(),
        valid_programs(views(s.programs@)),
        acyclic(views(s.programs@)),
    ensures
        s.results@.len() == s.programs@.len(),
        forall|i: int|
            0 <= i < s.programs@.len() ==> exists|q: int|
                0 <= q < s.results@.len() && (#[trigger] s.results@[q])@.program == (
                #[trigger] s.programs@[i])@.name,
        forall|q1: int, q2: int|
            0 <= q1 < q2 < s.results@.len() ==> (s.results@[q1])@.program != (
            s.results@[q2])@.program,
{
    let ps = views(s.programs@);
    assert(ps.len() == s.programs@.len());
    assert(forall|q: int| 0 <= q < ps.len() ==> ps[q] == s.programs@[q]@);
    lemma_run_executes_each_once(ps);
    let order = spec_run(ps).order;
    let exec_order = s.plan.order@;
    assert(exec_order.map_values(|u: usize| u as int) == order);
    assert(forall|q: int|
        0 <= q < exec_order.len() ==> order[q] == (#[trigger] exec_order[q]) as int);
    assert(exec_order.len() == order.len());
    assert(s.results@.len() == s.programs@.len());
    // Every program's name is recorded: its index stands somewhere in the
    // order, and the record at that position bears its name.
    assert forall|i: int|
        0 <= i < s.programs@.len() implies exists|q: int|
        0 <= q < s.results@.len() && (#[trigger] s.results@[q])@.program == (
        #[trigger] s.programs@[i])@.name by {
        assert(order.contains(i));
        let q = choose|q: int| 0 <= q < order.len() && order[q] == i;
        assert(exec_order[q] as int == i);
        assert(s.results@[q]@.program == s.programs@[i]@.name);
    }
    // No name twice: positions hold distinct program indices, and names are
    // unique across the candidate set.
    assert forall|q1: int, q2: int|
        0 <= q1 < q2 < s.results@.len() implies (s.results@[q1])@.program != (
    s.results@[q2])@.program by {
        assert(order[q1] != order[q2]);
        assert(0 <= order[q1] < ps.len() && 0 <= order[q2] < ps.len());
        assert(s.results@[q1]@.program == ps[order[q1]].name);
        assert(s.results@[q2]@.program == ps[order[q2]].name);
        assert(ps[order[q1]].name != ps[order[q2]].name);
    }
}

/// On a cycle-free candidate set no dependency edge is ever skipped as a
/// cycle: the cycle record of the run stays empty.
pub proof fn lemma_run_no_cycles_recorded(ps: Seq<ProgramView>)
    requires
        valid_programs(ps),
        acyclic(ps),
    ensures
        spec_run(ps).cycles == Seq::<Seq<char>>::empty(),
{
    lemma_empty_trace_inv(ps);
    lemma_run_from_ok(ps, 0, empty_trace());
}

} // verus!
