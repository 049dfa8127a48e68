//! Ordering of name lists: lexicographic sorting with one optional
//! pinned-first name, and removal of duplicates from a sorted list.
//!
//! Before traversal begins the candidate list is sorted by name, except that
//! one designated name is always sorted first; a program's dependency names
//! are sorted without a pinned name and deduplicated.

use vstd::prelude::*;

use crate::strings::lex_le;
use crate::strings::lemma_lex_le_antisymmetric;
use crate::strings::lemma_lex_le_total;
use crate::strings::lemma_lex_le_transitive;
use crate::strings::lex_le_exec;
use crate::strings::str_eq_exec;

verus! {

broadcast use {vstd::seq_lib::group_to_multiset_ensures, vstd::seq_lib::group_seq_properties};

/// The views of a list of names.
pub open spec fn name_views(s: Seq<String>) -> Seq<Seq<char>> {
    s.map_values(|x: String| x@)
}

/// The view of an optional pinned name.
pub open spec fn pin_view(pin: Option<&str>) -> Option<Seq<char>> {
    match pin {
        Some(p) => Some(p@),
        None => None,
    }
}

/// `a` comes no later than `b`: a pinned name, when given, comes before every
/// other name; all other pairs are in code-point lexicographic order.
pub open spec fn name_le(pin: Option<Seq<char>>, a: Seq<char>, b: Seq<char>) -> bool {
    match pin {
        Some(p) => {
            if a == p {
                true
            } else if b == p {
                false
            } else {
                lex_le(a, b)
            }
        },
        None => lex_le(a, b),
    }
}

/// A list of names is sorted when every earlier name comes no later than
/// every later one.
pub open spec fn sorted_by_name_le(pin: Option<Seq<char>>, s: Seq<Seq<char>>) -> bool {
    forall|i: int, j: int| 0 <= i < j < s.len() ==> name_le(pin, s[i], s[j])
}

/// The name order is total.
pub proof fn lemma_name_le_total(pin: Option<Seq<char>>, a: Seq<char>, b: Seq<char>)
    ensures
        name_le(pin, a, b) || name_le(pin, b, a),
{
    lemma_lex_le_total(a, b);
}

/// The name order is transitive.
pub proof fn lemma_name_le_transitive(
    pin: Option<Seq<char>>,
    a: Seq<char>,
    b: Seq<char>,
    c: Seq<char>,
)
    requires
        name_le(pin, a, b),
        name_le(pin, b, c),
    ensures
        name_le(pin, a, c),
{
    if pin is Some {
        let p = pin->0;
        if a != p && b != p && c != p {
            lemma_lex_le_transitive(a, b, c);
        }
    } else {
        lemma_lex_le_transitive(a, b, c);
    }
}

/// The name order is antisymmetric.
pub proof fn lemma_name_le_antisymmetric(pin: Option<Seq<char>>, a: Seq<char>, b: Seq<char>)
    requires
        name_le(pin, a, b),
        name_le(pin, b, a),
    ensures
        a == b,
{
    if pin is Some {
        let p = pin->0;
        if a != p && b != p {
            lemma_lex_le_antisymmetric(a, b);
        }
    } else {
        lemma_lex_le_antisymmetric(a, b);
    }
}

/// Executable decision of the name order.
fn name_le_exec(pin: Option<&str>, a: &str, b: &str) -> (r: bool)
    ensures
        r == name_le(pin_view(pin), a@, b@),
{
    match pin {
        Some(p) => {
            if str_eq_exec(a, p) {
                true
            } else if str_eq_exec(b, p) {
                false
            } else {
                lex_le_exec(a, b)
            }
        },
        None => lex_le_exec(a, b),
    }
}

/// Inserting an element anywhere in a sequence adds it to the multiset of
/// elements.
proof fn lemma_to_multiset_insert<A>(s: Seq<A>, p: int, x: A)
    requires
        0 <= p <= s.len(),
    ensures
        s.insert(p, x).to_multiset() =~= s.to_multiset().insert(x),
{
    let t = s.insert(p, x);
    assert(t.remove(p) =~= s);
    assert(t[p] == x);
    assert(t.to_multiset().remove(x) =~= s.to_multiset());
    assert(t.contains(x));
    assert(t.to_multiset().count(x) > 0);
    assert forall|y: A| t.to_multiset().count(y) == s.to_multiset().insert(x).count(y) by {
        if y == x {
            assert(s.to_multiset().count(x) == t.to_multiset().remove(x).count(x));
        } else {
            assert(s.to_multiset().count(y) == t.to_multiset().remove(x).count(y));
        }
    }
    assert(t.to_multiset() =~= s.to_multiset().insert(x));
}

/// Sort a list of names by the name order, with `pin` (when given) first.
/// The result holds exactly the input names, as a multiset.
pub fn sort_names(names: Vec<String>, pin: Option<&str>) -> (r: Vec<String>)
    ensures
        r@.to_multiset() == names@.to_multiset(),
        r@.len() == names@.len(),
        sorted_by_name_le(pin_view(pin), name_views(r@)),
{
    let ghost pv = pin_view(pin);
    let mut v = names;
    let mut i: usize = 0;
    while i < v.len()
        invariant
            i <= v.len(),
            v@.to_multiset() == names@.to_multiset(),
            v@.len() == names@.len(),
            forall|p: int, q: int|
                0 <= p < q < i ==> name_le(pv, name_views(v@)[p], name_views(v@)[q]),
            pv == pin_view(pin),
        decreases v.len() - i,
    {
        let ghost v_before = v@;
        let x = v.remove(i);
        assert(v@ =~= v_before.remove(i as int));
        let ghost removed = v@;
        proof {
            assert(forall|q: int|
                0 <= q < removed.len() ==> name_views(removed)[q] == removed[q]@);
            assert(forall|q: int|
                0 <= q < v_before.len() ==> name_views(v_before)[q] == v_before[q]@);
            assert(forall|q: int| 0 <= q < i ==> removed[q] == v_before[q]);
            assert forall|p2: int, q2: int|
                0 <= p2 < q2 < i implies name_le(
                pv,
                name_views(removed)[p2],
                name_views(removed)[q2],
            ) by {
                assert(name_le(pv, name_views(v_before)[p2], name_views(v_before)[q2]));
            }
        }
        let mut p: usize = 0;
        while p < i && name_le_exec(pin, v[p].as_str(), x.as_str())
            invariant
                p <= i,
                i < v_before.len(),
                v@ == removed,
                v@.len() == v_before.len() - 1,
                forall|q: int| 0 <= q < p ==> name_le(pv, name_views(v@)[q], x@),
                pv == pin_view(pin),
            decreases i - p,
        {
            assert(name_views(v@)[p as int] == v@[p as int]@);
            p = p + 1;
        }
        proof {
            if p < i {
                assert(!name_le(pv, v@[p as int]@, x@));
                lemma_name_le_total(pv, v@[p as int]@, x@);
                assert(name_le(pv, x@, v@[p as int]@));
            }
        }
        let ghost p_int = p as int;
        v.insert(p, x);
        assert(v@ =~= removed.insert(p_int, x));
        proof {
            assert(forall|q: int| 0 <= q < p_int ==> v@[q] == removed[q]);
            assert(v@[p_int] == x);
            assert(forall|q: int| p_int < q < v@.len() ==> v@[q] == removed[q - 1]);
            lemma_to_multiset_insert(removed, p_int, x);
            assert(v_before.to_multiset().remove(x) =~= removed.to_multiset());
            assert(v_before.contains(x));
            assert(v_before.to_multiset().count(x) > 0);
            assert forall|y: String|
                v@.to_multiset().count(y) == v_before.to_multiset().count(y) by {
                if y == x {
                } else {
                    assert(removed.to_multiset().count(y) == v_before.to_multiset().remove(
                        x,
                    ).count(y));
                }
            }
            assert(v@.to_multiset() =~= v_before.to_multiset());
            // The prefix of length i + 1 is sorted. Positions below p hold
            // old prefix elements; position p holds x; positions above p
            // hold old prefix elements that x comes no later than.
            assert forall|a: int, b: int|
                0 <= a < b < i + 1 implies name_le(pv, name_views(v@)[a], name_views(v@)[b]) by {
                let nv = name_views(v@);
                let old_nv = name_views(removed);
                assert(forall|q: int| 0 <= q < v@.len() ==> nv[q] == v@[q]@);
                assert(forall|q: int| 0 <= q < removed.len() ==> old_nv[q] == removed[q]@);
                if b < p_int {
                    assert(v@[a] == removed[a] && v@[b] == removed[b]);
                    assert(name_le(pv, old_nv[a], old_nv[b]));
                } else if b == p_int {
                    assert(v@[b]@ == x@);
                    assert(v@[a] == removed[a]);
                    assert(name_le(pv, old_nv[a], x@));
                } else {
                    assert(v@[b] == removed[b - 1]);
                    assert(p_int <= b - 1 < i);
                    if a < p_int {
                        assert(v@[a] == removed[a]);
                        assert(name_le(pv, old_nv[a], old_nv[b - 1]));
                    } else if a == p_int {
                        assert(v@[a]@ == x@);
                        assert(name_le(pv, x@, old_nv[p_int]));
                        if p_int < b - 1 {
                            assert(name_le(pv, old_nv[p_int], old_nv[b - 1]));
                            lemma_name_le_transitive(pv, x@, old_nv[p_int], old_nv[b - 1]);
                        }
                        assert(name_le(pv, x@, old_nv[b - 1]));
                    } else {
                        assert(v@[a] == removed[a - 1]);
                        assert(name_le(pv, old_nv[a - 1], old_nv[b - 1]));
                    }
                }
            }
        }
        i = i + 1;
    }
    v
}

/// Remove duplicates from a lexicographically sorted list of names. The
/// result is sorted, holds no duplicate name, and holds exactly the names of
/// the input.
pub fn dedup_sorted_names(names: &Vec<String>) -> (r: Vec<String>)
    requires
        sorted_by_name_le(None, name_views(names@)),
    ensures
        sorted_by_name_le(None, name_views(r@)),
        name_views(r@).no_duplicates(),
        forall|name: Seq<char>| name_views(r@).contains(name) <==> name_views(names@).contains(
            name,
        ),
{
    let mut r: Vec<String> = Vec::new();
    let mut i: usize = 0;
    while i < names.len()
        invariant
            i <= names@.len(),
            sorted_by_name_le(None, name_views(names@)),
            sorted_by_name_le(None, name_views(r@)),
            name_views(r@).no_duplicates(),
            forall|name: Seq<char>| name_views(r@).contains(name) <==> name_views(
                names@,
            ).take(i as int).contains(name),
            i > 0 ==> r@.len() > 0 && name_views(r@).last() == names@[i - 1]@,
            i == 0 ==> r@.len() == 0,
        decreases names@.len() - i,
    {
        let ghost nv = name_views(names@);
        let ghost rv = name_views(r@);
        assert(forall|q: int| 0 <= q < names@.len() ==> nv[q] == names@[q]@);
        assert(forall|q: int| 0 <= q < r@.len() ==> rv[q] == r@[q]@);
        let skip_this = if r.len() == 0 {
            false
        } else {
            str_eq_exec(r[r.len() - 1].as_str(), names[i].as_str())
        };
        if !skip_this {
            proof {
                // The new name is not among the kept ones: every kept name
                // comes no later than the last kept one, which differs from
                // the new name; sortedness and antisymmetry settle the rest.
                if r@.len() > 0 {
                    assert forall|q: int| 0 <= q < rv.len() implies rv[q] != nv[i as int] by {
                        if rv[q] == nv[i as int] {
                            let last = rv.len() - 1;
                            if q < last {
                                assert(name_le(None, rv[q], rv[last]));
                            }
                            assert(name_le(None, nv[i - 1], nv[i as int]));
                            assert(rv[last] == nv[i - 1]);
                            lemma_name_le_antisymmetric(None, rv[q], rv[last]);
                        }
                    }
                }
            }
            let ghost r_before = r@;
            r.push(names[i].clone());
            assert(name_views(r@) =~= name_views(r_before).push(names@[i as int]@));
            proof {
                let rv2 = name_views(r@);
                assert(forall|q: int| 0 <= q < r_before.len() ==> rv2[q] == rv[q]);
                assert(rv2.last() == nv[i as int]);
                // Sortedness of the extended kept list.
                assert forall|a: int, b: int|
                    0 <= a < b < rv2.len() implies name_le(None, rv2[a], rv2[b]) by {
                    if b == rv2.len() - 1 && r_before.len() > 0 {
                        let last = rv.len() - 1;
                        if a < last {
                            assert(name_le(None, rv[a], rv[last]));
                        }
                        assert(name_le(None, nv[i - 1], nv[i as int]));
                        if a < last {
                            lemma_name_le_transitive(None, rv[a], rv[last], nv[i as int]);
                        }
                    }
                }
            }
        } else {
            proof {
                assert(nv[i as int] == nv[i - 1]);
                assert(name_views(r@).contains(nv[i as int]));
            }
        }
        proof {
            let nv2 = name_views(names@);
            assert(nv2.take(i + 1) =~= nv2.take(i as int).push(nv2[i as int]));
            assert forall|name: Seq<char>|
                name_views(r@).contains(name) implies nv2.take(i + 1).contains(name) by {
                if name_views(r@).contains(name) {
                    let q = choose|q: int|
                        0 <= q < name_views(r@).len() && #[trigger] name_views(r@)[q] == name;
                    if !skip_this && q == name_views(r@).len() - 1 {
                        assert(nv2.take(i + 1)[i as int] == name);
                    } else {
                        assert(rv.contains(name));
                        assert(nv2.take(i as int).contains(name));
                        let w = choose|w: int|
                            0 <= w < i && #[trigger] nv2.take(i as int)[w] == name;
                        assert(nv2.take(i + 1)[w] == name);
                    }
                }
            }
            assert forall|name: Seq<char>|
                nv2.take(i + 1).contains(name) implies name_views(r@).contains(name) by {
                if nv2.take(i + 1).contains(name) {
                    let w = choose|w: int| 0 <= w < i + 1 && #[trigger] nv2.take(i + 1)[w]
                        == name;
                    if w < i {
                        assert(nv2.take(i as int)[w] == name);
                        assert(nv2.take(i as int).contains(name));
                        assert(rv.contains(name));
                        let q = choose|q: int| 0 <= q < rv.len() && #[trigger] rv[q] == name;
                        assert(name_views(r@)[q] == name);
                    } else {
                        assert(name == nv[i as int]);
                        if skip_this {
                            assert(name_views(r@).contains(name));
                        } else {
                            assert(name_views(r@).last() == name);
                        }
                    }
                }
            }
        }
        i = i + 1;
    }
    proof {
        assert(name_views(names@).take(i as int) =~= name_views(names@));
    }
    r
}

/// Order the candidate list: sorted by name, except that the pinned name is
/// always first. The result holds exactly the input names.
pub fn order_candidates(names: Vec<String>, pinned: &str) -> (r: Vec<String>)
    ensures
        r@.to_multiset() == names@.to_multiset(),
        r@.len() == names@.len(),
        sorted_by_name_le(Some(pinned@), name_views(r@)),
{
    sort_names(names, Some(pinned))
}

} // verus!
