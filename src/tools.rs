//! The decisions of the built-in tools: when each can run, and what it concludes
//! from what it reads.
use vstd::prelude::*;
use crate::ir::{HarvestIR, ids_of_kind};
use crate::id::Id;
use crate::repr::Representation;
use crate::repr::{Kind, ProjectKind};
use crate::runner::MightWriteOutcome;

verus! {

/// Loads a C project from a directory into a `RawSource` representation.
#[derive(Debug)]
pub struct LoadRawSource {
    directory: String,
}

impl LoadRawSource {
    /// The directory this invocation loads.
    pub closed spec fn directory(&self) -> Seq<char> {
        self.directory@
    }

    /// An invocation that loads `directory`.
    pub fn new(directory: &str) -> (r: LoadRawSource)
        ensures
            r.directory() == directory@,
    {
        LoadRawSource { directory: String::from_str(directory) }
    }

    /// The directory this invocation loads.
    pub fn directory_path(&self) -> (r: &str)
        ensures
            r@ == self.directory(),
    {
        self.directory.as_str()
    }

    /// The tool's name.
    pub fn name(&self) -> (r: &'static str)
        ensures
            r@ == "load_raw_source"@,
    {
        "load_raw_source"
    }

    /// Loading creates a new representation and overwrites none: always runnable.
    pub fn might_write(&self, ir: &HarvestIR) -> (r: MightWriteOutcome)
        ensures
            r matches MightWriteOutcome::Runnable(ids) && ids@.len() == 0,
    {
        MightWriteOutcome::Runnable(Vec::new())
    }
}

/// Decides whether a project builds a library or an executable, from its
/// `CMakeLists.txt`.
#[derive(Debug)]
pub struct IdentifyProjectKind;

impl IdentifyProjectKind {
    /// The tool's name.
    pub fn name(&self) -> (r: &'static str)
        ensures
            r@ == "identify_project_kind"@,
    {
        "identify_project_kind"
    }

    /// Runnable, overwriting nothing, once a `RawSource` exists; until then, try
    /// again later.
    pub fn might_write(&self, ir: &HarvestIR) -> (r: MightWriteOutcome)
        ensures
            ids_of_kind(ir.ordered(), Kind::RawSource).len() == 0 ==> r is TryAgain,
            ids_of_kind(ir.ordered(), Kind::RawSource).len() > 0 ==> (r matches MightWriteOutcome::Runnable(ids) && ids@.len() == 0),
    {
        if ir.get_by_kind(Kind::RawSource).len() == 0 {
            MightWriteOutcome::TryAgain
        } else {
            MightWriteOutcome::Runnable(Vec::new())
        }
    }
}

/// Builds the single Cargo package of the IR and records the outcome.
#[derive(Debug)]
pub struct TryCargoBuild;

impl TryCargoBuild {
    /// The tool's name.
    pub fn name(&self) -> (r: &'static str)
        ensures
            r@ == "try_cargo_build"@,
    {
        "try_cargo_build"
    }

    /// Runnable, overwriting nothing, when the IR holds exactly one
    /// `CargoPackage`; otherwise try again later.
    pub fn might_write(&self, ir: &HarvestIR) -> (r: MightWriteOutcome)
        ensures
            ids_of_kind(ir.ordered(), Kind::CargoPackage).len() == 1 ==> (r matches MightWriteOutcome::Runnable(ids) && ids@.len() == 0),
            ids_of_kind(ir.ordered(), Kind::CargoPackage).len() != 1 ==> r is TryAgain,
    {
        if ir.get_by_kind(Kind::CargoPackage).len() == 1 {
            MightWriteOutcome::Runnable(Vec::new())
        } else {
            MightWriteOutcome::TryAgain
        }
    }
}

/// Whether a line of `text` starts at position `p` with `marker`: `p` begins the
/// text or follows a newline byte.
pub open spec fn line_starts_with(text: Seq<u8>, p: int, marker: Seq<u8>) -> bool {
    &&& 0 <= p
    &&& p + marker.len() <= text.len()
    &&& (p == 0 || text[p - 1] == 10u8)
    &&& text.subrange(p, p + marker.len()) == marker
}

/// Whether some line of `text` starts with `marker`.
pub open spec fn some_line_starts_with(text: Seq<u8>, marker: Seq<u8>) -> bool {
    exists|p: int| line_starts_with(text, p, marker)
}

/// `add_executable(`, the CMake command that declares an executable.
pub open spec fn executable_marker() -> Seq<u8> {
    seq![97u8, 100, 100, 95, 101, 120, 101, 99, 117, 116, 97, 98, 108, 101, 40]
}

/// `add_library(`, the CMake command that declares a library.
pub open spec fn library_marker() -> Seq<u8> {
    seq![97u8, 100, 100, 95, 108, 105, 98, 114, 97, 114, 121, 40]
}

/// What a `CMakeLists.txt` says the project is: an executable when some line
/// starts with `add_executable(`, otherwise a library when some line starts with
/// `add_library(`, otherwise nothing.
pub open spec fn spec_project_kind(text: Seq<u8>) -> Option<ProjectKind> {
    if some_line_starts_with(text, executable_marker()) {
        Some(ProjectKind::Executable)
    } else if some_line_starts_with(text, library_marker()) {
        Some(ProjectKind::Library)
    } else {
        None
    }
}

fn matches_at(text: &[u8], p: usize, marker: &[u8]) -> (r: bool)
    ensures
        r == line_starts_with(text@, p as int, marker@),
{
    if p > text.len() || marker.len() > text.len() - p {
        return false;
    }
    if p > 0 && text[p - 1] != 10u8 {
        return false;
    }
    let mut k: usize = 0;
    while k < marker.len()
        invariant
            k <= marker@.len(),
            p + marker@.len() <= text@.len(),
            text@.len() == text.len(),
            forall|m: int| 0 <= m < k ==> text@[p + m] == marker@[m],
        decreases marker@.len() - k,
    {
        if text[p + k] != marker[k] {
            assert(text@.subrange(p as int, p + marker@.len())[k as int] != marker@[k as int]);
            return false;
        }
        k = k + 1;
    }
    assert(text@.subrange(p as int, p + marker@.len()) =~= marker@);
    true
}

fn has_line_starting_with(text: &[u8], marker: &[u8]) -> (r: bool)
    ensures
        r == some_line_starts_with(text@, marker@),
{
    let mut p: usize = 0;
    while p < text.len()
        invariant
            p <= text@.len(),
            forall|q: int| 0 <= q < p ==> !line_starts_with(text@, q, marker@),
        decreases text@.len() - p,
    {
        if matches_at(text, p, marker) {
            return true;
        }
        p = p + 1;
    }
    if matches_at(text, p, marker) {
        return true;
    }
    assert forall|q: int| !line_starts_with(text@, q, marker@) by {
        if 0 <= q && q > p {
            assert(q + marker@.len() > text@.len());
        }
    }
    false
}

/// What a `CMakeLists.txt` with contents `text` says the project is.
pub fn project_kind_of(text: &[u8]) -> (r: Option<ProjectKind>)
    ensures
        r == spec_project_kind(text@),
{
    let exe: [u8; 15] = [97u8, 100, 100, 95, 101, 120, 101, 99, 117, 116, 97, 98, 108, 101, 40];
    let lib: [u8; 12] = [97u8, 100, 100, 95, 108, 105, 98, 114, 97, 114, 121, 40];
    assert(exe@ =~= executable_marker());
    assert(lib@ =~= library_marker());
    if has_line_starting_with(text, exe.as_slice()) {
        Some(ProjectKind::Executable)
    } else if has_line_starting_with(text, lib.as_slice()) {
        Some(ProjectKind::Library)
    } else {
        None
    }
}

/// `CMakeLists.txt`, the file whose commands tell the project kind.
pub open spec fn cmake_name() -> Seq<char> {
    "CMakeLists.txt"@
}

/// The kinds that the `RawSource` entries of `s` declare, in order: one for each
/// source whose root holds a `CMakeLists.txt` that names a kind.
pub open spec fn declared_kinds(s: Seq<(Id, Representation)>) -> Seq<ProjectKind>
    decreases s.len(),
{
    if s.len() == 0 {
        Seq::empty()
    } else {
        let rest = declared_kinds(s.drop_last());
        match s.last().1 {
            Representation::RawSource(d) => match d.file_at(cmake_name()) {
                Some(text) => match spec_project_kind(text) {
                    Some(k) => rest.push(k),
                    None => rest,
                },
                None => rest,
            },
            _ => rest,
        }
    }
}

impl IdentifyProjectKind {
    /// The project kinds that the sources of `ir` declare, in id order.
    pub fn declared_kinds(&self, ir: &HarvestIR) -> (r: Vec<ProjectKind>)
        ensures
            r@ == declared_kinds(ir.ordered()),
    {
        let mut r: Vec<ProjectKind> = Vec::new();
        let mut i: usize = 0;
        proof {
            reveal_strlit("CMakeLists.txt");
        }
        while i < ir.len()
            invariant
                i <= ir.ordered().len(),
                r@ == declared_kinds(ir.ordered().subrange(0, i as int)),
            decreases ir.ordered().len() - i,
        {
            let (_, rep) = ir.entry(i);
            assert(ir.ordered().subrange(0, i + 1).drop_last() =~= ir.ordered().subrange(0, i as int));
            match rep {
                Representation::RawSource(d) => {
                    match d.get_file("CMakeLists.txt") {
                        Some(text) => match project_kind_of(text.as_slice()) {
                            Some(k) => r.push(k),
                            None => {},
                        },
                        None => {},
                    }
                },
                _ => {},
            }
            i = i + 1;
        }
        assert(ir.ordered().subrange(0, i as int) =~= ir.ordered());
        r
    }
}

} // verus!
