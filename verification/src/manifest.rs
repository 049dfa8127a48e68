//! The manifest reader's pure part: from the dependency entries of one
//! program's manifest text to its deduplicated, sorted dependency name list,
//! and from there to a `Program` record.
//!
//! An entry is the value of the manifest's dependency mapping: a reference
//! string `name:version-or-tag`. The referenced program name is the part
//! before the first colon; an entry with no colon, or one that is not a
//! string, is silently ignored; a name with the reserved `sys-` prefix
//! denotes a built-in capability and is excluded.

use vstd::prelude::*;

use crate::ordering::dedup_sorted_names;
use crate::ordering::name_views;
use crate::ordering::sort_names;
use crate::ordering::sorted_by_name_le;
use crate::program::Program;

verus! {

/// Why one program's manifest yields no `Program` record: the manifest text
/// is not readable as the expected structured format, or its dependency
/// field is not the expected mapping shape.
#[derive(Clone, Copy, Debug, PartialEq, Eq, Structural)]
pub enum ManifestError {
    Unreadable,
    Malformed,
}

/// Whether manifest text parses as a structured document at all. The name
/// stands for what `serde_json::from_str` accepts; it depends on the text
/// alone.
pub uninterp spec fn json_parses(text: Seq<char>) -> bool;

/// The dependency entries of manifest text: the values of its `dependencies`
/// mapping in the mapping's stored order, each a string value or not
/// (`None`); or `None` as a whole when the text does not parse or holds no
/// such mapping. The name stands for what the parser's document reader
/// yields; the mapping is ordered by key, so it depends on the text alone.
pub uninterp spec fn manifest_dep_entries(text: Seq<char>) -> Option<Seq<Option<Seq<char>>>>;

/// Relies on serde_json::from_str to parse the manifest text, and on
/// serde_json::Value::get, Value::as_object, Map::values and Value::as_str
/// to read the values of its `dependencies` object in stored (key) order.
#[verifier::external_body]
fn parse_dependency_entries(text: &str) -> (r: Result<Vec<Option<String>>, ManifestError>)
    ensures
        r is Ok <==> (json_parses(text@) && manifest_dep_entries(text@) is Some),
        r matches Ok(entries) ==> entries.deep_view() == manifest_dep_entries(text@)->0,
        r matches Err(e) ==> ((e == ManifestError::Unreadable) <==> !json_parses(text@)),
{
    let value: serde_json::Value = match serde_json::from_str(text) {
        Ok(v) => v,
        Err(_) => return Err(ManifestError::Unreadable),
    };
    match value.get("dependencies").and_then(|d| d.as_object()) {
        Some(map) => Ok(map.values().map(|v| v.as_str().map(|s| s.to_string())).collect()),
        None => Err(ManifestError::Malformed),
    }
}

/// The position of the first colon in an entry, searched from `from`.
pub open spec fn find_colon_from(s: Seq<char>, from: int) -> Option<int>
    decreases s.len() - from,
{
    if !(0 <= from < s.len()) {
        None
    } else if s[from] == ':' {
        Some(from)
    } else {
        find_colon_from(s, from + 1)
    }
}

/// A name with the reserved prefix denotes a built-in capability, not a
/// program to execute.
pub open spec fn is_reserved(name: Seq<char>) -> bool {
    name.len() >= 4 && name[0] == 's' && name[1] == 'y' && name[2] == 's' && name[3] == '-'
}

/// The program name one dependency entry refers to: the part before the
/// first colon of a string entry, unless there is no colon or the name is
/// reserved.
pub open spec fn entry_name(e: Option<Seq<char>>) -> Option<Seq<char>> {
    match e {
        Some(s) => match find_colon_from(s, 0) {
            Some(ci) => if is_reserved(s.take(ci)) {
                None
            } else {
                Some(s.take(ci))
            },
            None => None,
        },
        None => None,
    }
}

/// The referenced program names of a whole entry list, in entry order,
/// before deduplication and sorting.
pub open spec fn raw_names(es: Seq<Option<Seq<char>>>) -> Seq<Seq<char>>
    decreases es.len(),
{
    if es.len() == 0 {
        Seq::empty()
    } else {
        match entry_name(es.last()) {
            Some(n) => raw_names(es.drop_last()).push(n),
            None => raw_names(es.drop_last()),
        }
    }
}

/// Executable search for the first colon of an entry.
fn find_colon(s: &str) -> (r: Option<usize>)
    ensures
        match r {
            Some(ci) => ci < s@.len() && find_colon_from(s@, 0) == Some(ci as int),
            None => find_colon_from(s@, 0) is None,
        },
{
    let len: usize = s.unicode_len();
    let mut i: usize = 0;
    while i < len
        invariant
            i <= len,
            len == s@.len(),
            find_colon_from(s@, 0) == find_colon_from(s@, i as int),
        decreases len - i,
    {
        let c = s.get_char(i);
        if c == ':' {
            assert(find_colon_from(s@, i as int) == Some(i as int));
            return Some(i);
        }
        assert(find_colon_from(s@, i as int) == find_colon_from(s@, i + 1));
        i = i + 1;
    }
    assert(find_colon_from(s@, i as int) is None);
    None
}

/// Executable test for the reserved prefix.
fn is_reserved_exec(name: &str) -> (r: bool)
    ensures
        r == is_reserved(name@),
{
    let len: usize = name.unicode_len();
    if len < 4 {
        return false;
    }
    let c0 = name.get_char(0);
    let c1 = name.get_char(1);
    let c2 = name.get_char(2);
    let c3 = name.get_char(3);
    c0 == 's' && c1 == 'y' && c2 == 's' && c3 == '-'
}

/// The program name one entry refers to, executable.
fn entry_program_name(entry: &Option<String>) -> (r: Option<String>)
    ensures
        r matches Some(n) ==> entry_name(entry.deep_view()) == Some(n@),
        r is None ==> entry_name(entry.deep_view()) is None,
{
    match entry {
        Some(s) => {
            match find_colon(s.as_str()) {
                Some(ci) => {
                    let prefix = s.as_str().substring_char(0, ci);
                    assert(prefix@ == s@.take(ci as int));
                    if is_reserved_exec(prefix) {
                        None
                    } else {
                        Some(prefix.to_owned())
                    }
                },
                None => None,
            }
        },
        None => None,
    }
}

/// From the dependency entries of one manifest to the referenced program
/// names: reserved and colon-free entries dropped, the rest deduplicated and
/// sorted.
pub fn extract_program_names(entries: &Vec<Option<String>>) -> (r: Vec<String>)
    ensures
        sorted_by_name_le(None, name_views(r@)),
        name_views(r@).no_duplicates(),
        forall|n: Seq<char>| name_views(r@).contains(n) <==> raw_names(
            entries.deep_view(),
        ).contains(n),
{
    let ghost es = entries.deep_view();
    proof {
        assert(es.len() == entries@.len());
        assert(forall|q: int| 0 <= q < es.len() ==> es[q] == entries@[q].deep_view());
    }
    let mut raw: Vec<String> = Vec::new();
    let mut i: usize = 0;
    while i < entries.len()
        invariant
            i <= entries@.len(),
            es == entries.deep_view(),
            es.len() == entries@.len(),
            forall|q: int| 0 <= q < es.len() ==> es[q] == entries@[q].deep_view(),
            name_views(raw@) == raw_names(es.take(i as int)),
        decreases entries@.len() - i,
    {
        let ghost raw_before = raw@;
        match entry_program_name(&entries[i]) {
            Some(n) => {
                raw.push(n);
                proof {
                    assert(name_views(raw@) =~= name_views(raw_before).push(raw@.last()@));
                }
            },
            None => {},
        }
        proof {
            let t = es.take(i + 1);
            assert(t.drop_last() =~= es.take(i as int));
            assert(t.last() == es[i as int]);
            assert(raw_names(t) == match entry_name(es[i as int]) {
                Some(n) => raw_names(es.take(i as int)).push(n),
                None => raw_names(es.take(i as int)),
            });
            assert(name_views(raw@) == raw_names(es.take(i + 1)));
        }
        i = i + 1;
    }
    proof {
        assert(es.take(i as int) =~= es);
    }
    let sorted = sort_names(raw, None);
    proof {
        lemma_multiset_names_contains(sorted@, raw@);
    }
    let deduped = dedup_sorted_names(&sorted);
    proof {
        assert forall|n: Seq<char>|
            name_views(deduped@).contains(n) <==> raw_names(es).contains(n) by {
            assert(name_views(deduped@).contains(n) <==> name_views(sorted@).contains(n));
            assert(name_views(sorted@).contains(n) <==> name_views(raw@).contains(n));
        }
    }
    deduped
}

/// Two name lists with the same names as a multiset hold the same name
/// views.
proof fn lemma_multiset_names_contains(s1: Seq<String>, s2: Seq<String>)
    requires
        s1.to_multiset() == s2.to_multiset(),
    ensures
        forall|n: Seq<char>| name_views(s1).contains(n) <==> name_views(s2).contains(n),
{
    broadcast use vstd::seq_lib::group_to_multiset_ensures;

    assert forall|n: Seq<char>|
        name_views(s1).contains(n) <==> name_views(s2).contains(n) by {
        assert(forall|q: int| 0 <= q < s1.len() ==> name_views(s1)[q] == s1[q]@);
        assert(forall|q: int| 0 <= q < s2.len() ==> name_views(s2)[q] == s2[q]@);
        if name_views(s1).contains(n) {
            let q = choose|q: int| 0 <= q < name_views(s1).len() && name_views(s1)[q] == n;
            let x = s1[q];
            assert(s1.contains(x));
            assert(s1.to_multiset().count(x) > 0);
            assert(s2.contains(x));
            let w = choose|w: int| 0 <= w < s2.len() && s2[w] == x;
            assert(name_views(s2)[w] == n);
        }
        if name_views(s2).contains(n) {
            let q = choose|q: int| 0 <= q < name_views(s2).len() && name_views(s2)[q] == n;
            let x = s2[q];
            assert(s2.contains(x));
            assert(s2.to_multiset().count(x) > 0);
            assert(s1.contains(x));
            let w = choose|w: int| 0 <= w < s1.len() && s1[w] == x;
            assert(name_views(s1)[w] == n);
        }
    }
}

/// Read one program record out of its manifest text: the dependency entries
/// give the dependency names, deduplicated and sorted; unreadable text and a
/// missing or misshapen dependency mapping skip the program with the
/// matching error.
pub fn build_program(name: String, manifest_text: &str, has_package_manifest: bool) -> (r: Result<
    Program,
    ManifestError,
>)
    ensures
        r is Ok <==> (json_parses(manifest_text@) && manifest_dep_entries(manifest_text@) is Some),
        r matches Ok(p) ==> {
            &&& p@.name == name@
            &&& p@.has_package_manifest == has_package_manifest
            &&& sorted_by_name_le(None, p@.dependencies)
            &&& p@.dependencies.no_duplicates()
            &&& forall|n: Seq<char>| p@.dependencies.contains(n) <==> raw_names(
                manifest_dep_entries(manifest_text@)->0,
            ).contains(n)
        },
        r matches Err(e) ==> ((e == ManifestError::Unreadable) <==> !json_parses(manifest_text@)),
{
    let entries = match parse_dependency_entries(manifest_text) {
        Ok(entries) => entries,
        Err(e) => {
            return Err(e);
        },
    };
    let dependencies = extract_program_names(&entries);
    Ok(Program { name, dependencies, has_package_manifest })
}

} // verus!
