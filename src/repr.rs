//! The kinds of representation that the pipeline carries in its IR.
use vstd::prelude::*;
use crate::tree::RawDir;

verus! {

/// Whether a C project builds a library or an executable.
#[derive(Clone, Copy, PartialEq, Eq, Structural, Debug)]
pub enum ProjectKind {
    Library,
    Executable,
}

impl ProjectKind {
    /// The name of the empty sentinel file that stands for this kind on disk.
    pub open spec fn spec_sentinel(self) -> Seq<char> {
        match self {
            ProjectKind::Library => "library"@,
            ProjectKind::Executable => "executable"@,
        }
    }

    /// The name of the empty sentinel file that stands for this kind on disk.
    pub fn sentinel(&self) -> (r: &'static str)
        ensures
            r@ == self.spec_sentinel(),
    {
        match self {
            ProjectKind::Library => "library",
            ProjectKind::Executable => "executable",
        }
    }

    /// The rendering of this kind.
    pub open spec fn spec_render(self) -> Seq<char> {
        match self {
            ProjectKind::Library => "Library"@,
            ProjectKind::Executable => "Executable"@,
        }
    }

    /// The rendering of this kind.
    pub fn render(&self) -> (r: &'static str)
        ensures
            r@ == self.spec_render(),
    {
        match self {
            ProjectKind::Library => "Library",
            ProjectKind::Executable => "Executable",
        }
    }
}

/// The discriminant of a [Representation]: which kind of value it holds.
#[derive(Clone, Copy, PartialEq, Eq, Structural, Debug)]
pub enum Kind {
    RawSource,
    CargoPackage,
    CargoBuildResult,
    ProjectKind,
}

impl Kind {
    /// The stable name of this kind, as written in the diagnostics index.
    pub open spec fn spec_name(self) -> Seq<char> {
        match self {
            Kind::RawSource => "RawSource"@,
            Kind::CargoPackage => "CargoPackage"@,
            Kind::CargoBuildResult => "CargoBuildResult"@,
            Kind::ProjectKind => "ProjectKind"@,
        }
    }

    /// The stable name of this kind, as written in the diagnostics index.
    pub fn name(&self) -> (r: &'static str)
        ensures
            r@ == self.spec_name(),
    {
        match self {
            Kind::RawSource => "RawSource",
            Kind::CargoPackage => "CargoPackage",
            Kind::CargoBuildResult => "CargoBuildResult",
            Kind::ProjectKind => "ProjectKind",
        }
    }
}

/// One immutable node of the IR.
#[derive(Debug)]
pub enum Representation {
    /// The C project given as input, as a directory tree.
    RawSource(RawDir),
    /// A directory tree meant to be a buildable Cargo package.
    CargoPackage(RawDir),
    /// The artifacts of a successful build, or the diagnostic of a failed one.
    CargoBuildResult(Result<Vec<String>, String>),
    /// Whether the project is a library or an executable.
    ProjectKind(ProjectKind),
}

impl Representation {
    pub open spec fn spec_kind(&self) -> Kind {
        match self {
            Representation::RawSource(_) => Kind::RawSource,
            Representation::CargoPackage(_) => Kind::CargoPackage,
            Representation::CargoBuildResult(_) => Kind::CargoBuildResult,
            Representation::ProjectKind(_) => Kind::ProjectKind,
        }
    }

    /// Which kind of representation this is.
    pub fn kind(&self) -> (r: Kind)
        ensures
            r == self.spec_kind(),
    {
        match self {
            Representation::RawSource(_) => Kind::RawSource,
            Representation::CargoPackage(_) => Kind::CargoPackage,
            Representation::CargoBuildResult(_) => Kind::CargoBuildResult,
            Representation::ProjectKind(_) => Kind::ProjectKind,
        }
    }

    /// The stable kind name of this representation.
    pub fn name(&self) -> (r: &'static str)
        ensures
            r@ == self.spec_kind().spec_name(),
    {
        self.kind().name()
    }
}

/// The strings of `s` separated by `", "`.
pub open spec fn joined(s: Seq<String>) -> Seq<char>
    decreases s.len(),
{
    if s.len() == 0 {
        Seq::empty()
    } else if s.len() == 1 {
        s[0]@
    } else {
        joined(s.drop_last()) + ", "@ + s.last()@
    }
}

impl Representation {
    /// The human-readable rendering of this representation.
    pub open spec fn spec_render(&self) -> Seq<char> {
        match self {
            Representation::RawSource(d) => "Raw C source:\n"@ + d.render(0),
            Representation::CargoPackage(d) => "Cargo package:\n"@ + d.render(0),
            Representation::CargoBuildResult(Ok(artifacts)) => "Build succeeded: "@ + joined(artifacts@),
            Representation::CargoBuildResult(Err(message)) => "Build failed: "@ + message@,
            Representation::ProjectKind(k) => k.spec_render(),
        }
    }

    /// The human-readable rendering of this representation.
    pub fn render_text(&self) -> (r: String)
        ensures
            r@ == self.spec_render(),
    {
        match self {
            Representation::RawSource(d) => {
                let mut out = String::from_str("Raw C source:\n");
                let body = d.render_text();
                out.append(body.as_str());
                out
            },
            Representation::CargoPackage(d) => {
                let mut out = String::from_str("Cargo package:\n");
                let body = d.render_text();
                out.append(body.as_str());
                out
            },
            Representation::CargoBuildResult(Ok(artifacts)) => {
                let mut out = String::from_str("Build succeeded: ");
                let ghost start = out@;
                let mut i: usize = 0;
                proof {
                    reveal_strlit(", ");
                }
                while i < artifacts.len()
                    invariant
                        i <= artifacts@.len(),
                        out@ == start + joined(artifacts@.subrange(0, i as int)),
                    decreases artifacts@.len() - i,
                {
                    let ghost before = out@;
                    if i > 0 {
                        out.append(", ");
                    }
                    out.append(artifacts[i].as_str());
                    proof {
                        let t = artifacts@.subrange(0, i + 1);
                        assert(t.drop_last() =~= artifacts@.subrange(0, i as int));
                        if i == 0 {
                            assert(joined(artifacts@.subrange(0, 0)) =~= Seq::<char>::empty());
                            assert(out@ =~= start + joined(t));
                        } else {
                            assert(out@ =~= start + joined(t));
                        }
                    }
                    i = i + 1;
                }
                assert(artifacts@.subrange(0, i as int) =~= artifacts@);
                out
            },
            Representation::CargoBuildResult(Err(message)) => {
                let mut out = String::from_str("Build failed: ");
                out.append(message.as_str());
                out
            },
            Representation::ProjectKind(k) => String::from_str(k.render()),
        }
    }
}

} // verus!
