//! The data model for one program of the run.

use vstd::prelude::*;

use crate::ordering::name_views;

verus! {

/// One program of the candidate set: its name, the names of the programs it
/// declares a dependency on (deduplicated and sorted), and whether a package
/// manifest is present, so that an install step is required before update
/// and test.
#[derive(Debug)]
pub struct Program {
    pub name: String,
    pub dependencies: Vec<String>,
    pub has_package_manifest: bool,
}

/// The mathematical model of a `Program`: its name and dependency names as
/// sequences of characters.
#[verifier::ext_equal]
pub struct ProgramView {
    pub name: Seq<char>,
    pub dependencies: Seq<Seq<char>>,
    pub has_package_manifest: bool,
}

impl View for Program {
    type V = ProgramView;

    open spec fn view(&self) -> ProgramView {
        ProgramView {
            name: self.name@,
            dependencies: name_views(self.dependencies@),
            has_package_manifest: self.has_package_manifest,
        }
    }
}

/// The views of a whole candidate set.
pub open spec fn views(programs: Seq<Program>) -> Seq<ProgramView> {
    programs.map_values(|p: Program| p@)
}

/// The candidate-set invariant: names are non-empty and unique, and each
/// program's dependency list holds no duplicate names.
pub open spec fn valid_programs(ps: Seq<ProgramView>) -> bool {
    &&& forall|i: int| 0 <= i < ps.len() ==> (#[trigger] ps[i].name).len() > 0
    &&& forall|i: int, j: int|
        0 <= i < ps.len() && 0 <= j < ps.len() && i != j ==> ps[i].name != ps[j].name
    &&& forall|i: int|
        0 <= i < ps.len() ==> (#[trigger] ps[i].dependencies).no_duplicates()
}

} // verus!
