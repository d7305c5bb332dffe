//! Rebuilding the .NET runtime of a prefix from another prefix that has one.
//!
//! The installers of the runtime fail under newer builds of wine and leave a
//! prefix worse off than before, so that a clone is tried first.

use crate::dotnet::{SYSTEM32, SYSTEM_REG};
use crate::launcher::{LaunchTarget, PREFIX_NAME};
use crate::paths;
use vstd::prelude::*;

verus! {

// ---------------------------------------------------------------------------
// The donor
// ---------------------------------------------------------------------------

/// Whether the directory `beside` of a game holds a prefix other than `ours`.
pub open spec fn is_sibling(ours: Seq<char>, beside: Seq<char>) -> bool {
    !paths::same_components(paths::joined_path(beside, PREFIX_NAME@), ours)
}

/// What is to be done next in the search for a donor.
#[derive(Clone, Copy, Debug, PartialEq, Eq, Structural)]
pub enum DonorStep {
    /// Find out whether the prefix of this directory has a usable runtime.
    Probe(usize),
    /// The prefix of this directory is the donor.
    Found(usize),
    /// No prefix is a donor.
    NoDonor,
}

/// The first directory from `from` on that holds a prefix other than `ours`.
pub open spec fn probe_from(ours: Seq<char>, beside: Seq<String>, from: int) -> DonorStep
    decreases beside.len() - from,
{
    if from >= beside.len() {
        DonorStep::NoDonor
    } else if is_sibling(ours, beside[from]@) {
        DonorStep::Probe(from as usize)
    } else {
        probe_from(ours, beside, from + 1)
    }
}

/// What follows on what was found of the prefix that was probed last.
pub open spec fn donor_step(
    ours: Seq<char>,
    beside: Seq<String>,
    probed: Option<(usize, bool)>,
) -> DonorStep {
    match probed {
        None => probe_from(ours, beside, 0),
        Some((at, true)) => DonorStep::Found(at),
        Some((at, false)) => probe_from(ours, beside, at + 1),
    }
}

/// Leads the search for a donor through the directories of the other games.
/// `probed` is the directory that was probed last and whether its prefix has a
/// usable runtime. A probe reads much, so that none is made ahead of need.
pub fn next_donor_step(
    ours: &str,
    beside: &[String],
    probed: Option<(usize, bool)>,
) -> (step: DonorStep)
    ensures
        step == donor_step(ours@, beside@, probed),
        probed matches Some((at, true)) ==> step == DonorStep::Found(at),
        step matches DonorStep::Found(at) ==> probed == Some((at, true)),
        step matches DonorStep::Probe(at) ==> {
            let from: int = match probed {
                Some((last, _)) => last + 1,
                None => 0,
            };
            &&& from <= at < beside@.len()
            &&& !paths::same_components(paths::joined_path(beside@[at as int]@, "pfx"@), ours@)
            &&& forall|i: int|
                from <= i < at ==> paths::same_components(
                    paths::joined_path((#[trigger] beside@[i])@, "pfx"@),
                    ours@,
                )
        },
        step is NoDonor ==> {
            let from: int = match probed {
                Some((last, _)) => last + 1,
                None => 0,
            };
            forall|i: int|
                from <= i < beside@.len() ==> paths::same_components(
                    paths::joined_path((#[trigger] beside@[i])@, "pfx"@),
                    ours@,
                )
        },
{
    let from: usize = match probed {
        None => 0,
        Some((at, usable)) => {
            if usable {
                return DonorStep::Found(at);
            }
            if at >= beside.len() {
                return DonorStep::NoDonor;
            }
            at + 1
        },
    };
    for i in from..beside.len()
        invariant
            donor_step(ours@, beside@, probed) == probe_from(ours@, beside@, i as int),
            from as int == match probed {
                Some((last, _)) => last + 1,
                None => 0int,
            },
            !(probed matches Some((_, true))),
            forall|j: int|
                from <= j < i ==> paths::same_components(
                    paths::joined_path((#[trigger] beside@[j])@, PREFIX_NAME@),
                    ours@,
                ),
    {
        let prefix = paths::join_path(&beside[i], PREFIX_NAME);
        if !paths::same_path(&prefix, ours) {
            return DonorStep::Probe(i);
        }
    }
    DonorStep::NoDonor
}

/// Where a search ends, when directory `i` is found to hold a usable prefix
/// where `usable[i]` says so.
pub open spec fn search_from(
    ours: Seq<char>,
    beside: Seq<String>,
    usable: Seq<bool>,
    from: int,
) -> DonorStep
    decreases beside.len() - from,
{
    if from >= beside.len() {
        DonorStep::NoDonor
    } else {
        match probe_from(ours, beside, from) {
            DonorStep::Probe(at) => if from <= at < beside.len() {
                match donor_step(ours, beside, Some((at, usable[at as int]))) {
                    DonorStep::Found(found) => DonorStep::Found(found),
                    _ => search_from(ours, beside, usable, at + 1),
                }
            } else {
                DonorStep::NoDonor
            },
            _ => DonorStep::NoDonor,
        }
    }
}

/// What is probed is the first sibling.
proof fn lemma_probe_from(ours: Seq<char>, beside: Seq<String>, from: int)
    requires
        0 <= from <= beside.len() <= usize::MAX,
    ensures
        match probe_from(ours, beside, from) {
            DonorStep::Probe(at) => {
                &&& from <= at < beside.len()
                &&& is_sibling(ours, beside[at as int]@)
                &&& forall|i: int| from <= i < at ==> !is_sibling(ours, #[trigger] beside[i]@)
            },
            DonorStep::Found(_) => false,
            DonorStep::NoDonor => forall|i: int|
                from <= i < beside.len() ==> !is_sibling(ours, #[trigger] beside[i]@),
        },
    decreases beside.len() - from,
{
    if from < beside.len() && !is_sibling(ours, beside[from]@) {
        lemma_probe_from(ours, beside, from + 1);
    }
}

/// The search ends with the first prefix that is not the one under repair and
/// that has a usable runtime, and without a donor only where there is none.
pub proof fn law_first_usable_sibling_is_the_donor(
    ours: Seq<char>,
    beside: Seq<String>,
    usable: Seq<bool>,
    from: int,
)
    requires
        0 <= from <= beside.len() <= usize::MAX,
        usable.len() == beside.len(),
    ensures
        match search_from(ours, beside, usable, from) {
            DonorStep::Found(at) => {
                &&& from <= at < beside.len()
                &&& is_sibling(ours, beside[at as int]@)
                &&& usable[at as int]
                &&& forall|i: int|
                    from <= i < at ==> !(is_sibling(ours, #[trigger] beside[i]@) && usable[i])
            },
            DonorStep::Probe(_) => false,
            DonorStep::NoDonor => forall|i: int|
                from <= i < beside.len() ==> !(is_sibling(ours, #[trigger] beside[i]@)
                    && usable[i]),
        },
    decreases beside.len() - from,
{
    lemma_probe_from(ours, beside, from);
    if from < beside.len() {
        if let DonorStep::Probe(at) = probe_from(ours, beside, from) {
            if !usable[at as int] {
                lemma_probe_from(ours, beside, at + 1);
                law_first_usable_sibling_is_the_donor(ours, beside, usable, at + 1);
            }
        }
    }
}

// ---------------------------------------------------------------------------
// The repair
// ---------------------------------------------------------------------------

/// The runtime itself, below a prefix.
pub const RUNTIME_TREE: &'static str = "drive_c/windows/Microsoft.NET";

/// The global assembly cache, below a prefix.
pub const ASSEMBLY_TREE: &'static str = "drive_c/windows/assembly";

/// The directory of the 32 bit system libraries, below a prefix.
pub const SYSWOW64: &'static str = "drive_c/windows/syswow64";

/// A step of a repair.
pub enum RepairStep {
    /// Copy the whole directory `from`, where there is one, to `to`.
    CloneTree { from: String, to: String },
    /// Copy the support libraries in the directory `from` to the directory `to`,
    /// where there is one.
    InstallLibraries { from: String, to: String },
    /// Import the .NET keys of the registry file `from`.
    ImportRegistry { from: String },
}

/// Whether a step clones `tree` from the prefix `donor` to the prefix `ours`.
pub open spec fn clones(
    step: RepairStep,
    donor: Seq<char>,
    ours: Seq<char>,
    tree: Seq<char>,
) -> bool {
    step matches RepairStep::CloneTree { from, to } && from@ == paths::joined_path(donor, tree)
        && to@ == paths::joined_path(ours, tree)
}

/// Whether a step installs the support libraries in `dir` of the prefix `donor`
/// to `dir` of the prefix `ours`.
pub open spec fn installs(
    step: RepairStep,
    donor: Seq<char>,
    ours: Seq<char>,
    dir: Seq<char>,
) -> bool {
    step matches RepairStep::InstallLibraries { from, to } && from@ == paths::joined_path(
        donor,
        dir,
    ) && to@ == paths::joined_path(ours, dir)
}

/// Whether a step imports the registry of the prefix `donor`.
pub open spec fn imports(step: RepairStep, donor: Seq<char>) -> bool {
    step matches RepairStep::ImportRegistry { from } && from@ == paths::joined_path(
        donor,
        SYSTEM_REG@,
    )
}

/// The steps of a repair, in their order: the runtime, the assembly cache, the
/// support libraries in both system directories, and the registry that tells
/// the version. A prefix that lacks any one of them does not run a trainer.
pub open spec fn is_repair(steps: Seq<RepairStep>, donor: Seq<char>, ours: Seq<char>) -> bool {
    &&& steps.len() == 5
    &&& clones(steps[0], donor, ours, RUNTIME_TREE@)
    &&& clones(steps[1], donor, ours, ASSEMBLY_TREE@)
    &&& installs(steps[2], donor, ours, SYSTEM32@)
    &&& installs(steps[3], donor, ours, SYSWOW64@)
    &&& imports(steps[4], donor)
}

/// The steps that rebuild the runtime of the target's prefix from the prefix
/// `donor`. A step that fails ends the repair.
pub fn repair_dotnet_from_sibling_prefix(target: &LaunchTarget, donor: &str) -> (steps: Vec<RepairStep>)
    ensures
        is_repair(
            steps@,
            donor@,
            paths::joined_path(target.compatdata_dir@, PREFIX_NAME@),
        ),
        steps@.len() == 5,
        steps@[0] matches RepairStep::CloneTree { from, to } && from@ == paths::joined_path(
            donor@,
            "drive_c/windows/Microsoft.NET"@,
        ) && to@ == paths::joined_path(
            paths::joined_path(target.compatdata_dir@, "pfx"@),
            "drive_c/windows/Microsoft.NET"@,
        ),
        steps@[1] matches RepairStep::CloneTree { from, to } && from@ == paths::joined_path(
            donor@,
            "drive_c/windows/assembly"@,
        ) && to@ == paths::joined_path(
            paths::joined_path(target.compatdata_dir@, "pfx"@),
            "drive_c/windows/assembly"@,
        ),
        steps@[2] matches RepairStep::InstallLibraries { from, to } && from@ == paths::joined_path(
            donor@,
            "drive_c/windows/system32"@,
        ) && to@ == paths::joined_path(
            paths::joined_path(target.compatdata_dir@, "pfx"@),
            "drive_c/windows/system32"@,
        ),
        steps@[3] matches RepairStep::InstallLibraries { from, to } && from@ == paths::joined_path(
            donor@,
            "drive_c/windows/syswow64"@,
        ) && to@ == paths::joined_path(
            paths::joined_path(target.compatdata_dir@, "pfx"@),
            "drive_c/windows/syswow64"@,
        ),
        steps@[4] matches RepairStep::ImportRegistry { from } && from@ == paths::joined_path(
            donor@,
            "system.reg"@,
        ),
{
    let ours = target.prefix_dir();
    let mut steps: Vec<RepairStep> = Vec::new();
    steps.push(
        RepairStep::CloneTree {
            from: paths::join_path(donor, RUNTIME_TREE),
            to: paths::join_path(&ours, RUNTIME_TREE),
        },
    );
    steps.push(
        RepairStep::CloneTree {
            from: paths::join_path(donor, ASSEMBLY_TREE),
            to: paths::join_path(&ours, ASSEMBLY_TREE),
        },
    );
    steps.push(
        RepairStep::InstallLibraries {
            from: paths::join_path(donor, SYSTEM32),
            to: paths::join_path(&ours, SYSTEM32),
        },
    );
    steps.push(
        RepairStep::InstallLibraries {
            from: paths::join_path(donor, SYSWOW64),
            to: paths::join_path(&ours, SYSWOW64),
        },
    );
    steps.push(RepairStep::ImportRegistry { from: paths::join_path(donor, SYSTEM_REG) });
    steps
}

// ---------------------------------------------------------------------------
// Putting a file in place
// ---------------------------------------------------------------------------

/// How the removal of what stood at a place went.
#[derive(Clone, Copy, Debug, PartialEq, Eq, Structural)]
pub enum Unlinked {
    /// It is gone: a file, or a link and not what it leads to.
    Removed,
    /// There was nothing.
    Absent,
    /// It could not be removed.
    Failed,
}

/// What is done next to put a file in place.
#[derive(Clone, Copy, Debug, PartialEq, Eq, Structural)]
pub enum ReplaceStep {
    /// Copy the file to the place.
    Copy,
    /// Report that the place could not be cleared.
    ReportBlocked,
}

/// What is done once the place was to be cleared. A copy never goes through
/// what stands there: that can be a link into the Proton build, which is not to
/// be written, or a file that cannot be written.
pub fn replace_file(unlinked: Unlinked) -> (step: ReplaceStep)
    ensures
        step == match unlinked {
            Unlinked::Removed | Unlinked::Absent => ReplaceStep::Copy,
            Unlinked::Failed => ReplaceStep::ReportBlocked,
        },
{
    match unlinked {
        Unlinked::Removed | Unlinked::Absent => ReplaceStep::Copy,
        Unlinked::Failed => ReplaceStep::ReportBlocked,
    }
}

} // verus!
