//! Benchmark harness logic: checking the layout of a benchmark directory, reading
//! what a pipeline run achieved from its final IR, and judging what a program printed.
use vstd::prelude::*;
use crate::diagnostics::{decimal, push_decimal};
use crate::ir::{HarvestIR, ids_of_kind};
use crate::repr::{Kind, Representation};

verus! {

/// Whether `c` has the Unicode `White_Space` property, which `str::trim` uses.
pub open spec fn is_white_space(c: char) -> bool {
    let v = c as u32;
    (0x09 <= v <= 0x0d) || v == 0x20 || v == 0x85 || v == 0xa0 || v == 0x1680
        || (0x2000 <= v <= 0x200a) || v == 0x2028 || v == 0x2029 || v == 0x202f
        || v == 0x205f || v == 0x3000
}

/// `s` without its leading white space.
pub open spec fn trim_start(s: Seq<char>) -> Seq<char>
    decreases s.len(),
{
    if s.len() > 0 && is_white_space(s[0]) {
        trim_start(s.drop_first())
    } else {
        s
    }
}

/// `s` without its trailing white space.
pub open spec fn trim_end(s: Seq<char>) -> Seq<char>
    decreases s.len(),
{
    if s.len() > 0 && is_white_space(s.last()) {
        trim_end(s.drop_last())
    } else {
        s
    }
}

/// What `str::trim` returns for `s`: `s` without leading and trailing white space.
pub open spec fn trimmed(s: Seq<char>) -> Seq<char> {
    trim_end(trim_start(s))
}

/// Whether `regex::Regex::new` accepts `pattern` (on the target this runs on).
pub uninterp spec fn regex_compiles(pattern: Seq<char>) -> bool;

/// Whether the regex compiled from `pattern` matches somewhere in `haystack`.
pub uninterp spec fn regex_finds(pattern: Seq<char>, haystack: Seq<char>) -> bool;

#[verifier::external_type_specification]
#[verifier::external_body]
pub struct ExRegex(regex::Regex);

#[verifier::external_type_specification]
#[verifier::external_body]
pub struct ExRegexError(regex::Error);

/// Relies on `str::trim`: removes leading and trailing `White_Space` characters.
#[verifier::external_body]
fn trim(s: &str) -> (r: &str)
    ensures
        r@ == trimmed(s@),
{
    s.trim()
}

/// Relies on `regex::Regex::new`: whether compilation succeeds depends on the
/// pattern and, through the default size limit measured in the target's type
/// sizes, on the target; on one target it depends on the pattern alone.
#[verifier::external_body]
fn compile_regex(pattern: &str) -> (r: Result<regex::Regex, regex::Error>)
    ensures
        r is Ok <==> regex_compiles(pattern@),
{
    regex::Regex::new(pattern)
}

/// A compiled regex together with the pattern it was compiled from.
pub struct CompiledPattern {
    re: regex::Regex,
    source: String,
}

impl CompiledPattern {
    /// The pattern this regex was compiled from.
    pub closed spec fn source(&self) -> Seq<char> {
        self.source@
    }

    /// Compiles `pattern`; `None` when the regex crate refuses it.
    pub fn compile(pattern: &str) -> (r: Option<CompiledPattern>)
        ensures
            r is Some <==> regex_compiles(pattern@),
            r matches Some(c) ==> c.source() == pattern@,
    {
        match compile_regex(pattern) {
            Ok(re) => Some(CompiledPattern { re, source: String::from_str(pattern) }),
            Err(_) => None,
        }
    }
}

/// Relies on `regex::Regex::is_match`: whether the regex matches anywhere in
/// `haystack`; `c.re` was compiled from `c.source`, which only `compile` sets.
#[verifier::external_body]
fn regex_is_match(c: &CompiledPattern, haystack: &str) -> (r: bool)
    ensures
        r == regex_finds(c.source(), haystack@),
{
    c.re.is_match(haystack)
}

/// The expected standard output of a test case.
#[derive(Clone, Debug)]
pub struct StdoutPattern {
    pub pattern: String,
    pub is_regex: bool,
}

impl StdoutPattern {
    /// An empty, literal pattern.
    pub fn new() -> (r: StdoutPattern)
        ensures
            r.pattern@.len() == 0,
            !r.is_regex,
    {
        StdoutPattern { pattern: String::new(), is_regex: false }
    }
}

/// A test case: arguments, input and the expected output of a program.
#[derive(Clone, Debug)]
pub struct TestCase {
    pub argv: Vec<String>,
    pub stdin: Option<String>,
    pub stdout: StdoutPattern,
    pub rc: Option<usize>,
    pub has_ub: Option<String>,
    pub filename: String,
}

impl TestCase {
    /// A test case with no arguments, no input and an empty expected output.
    pub fn new() -> (r: TestCase)
        ensures
            r.argv@.len() == 0,
            r.stdin is None,
            r.stdout.pattern@.len() == 0,
            !r.stdout.is_regex,
            r.rc is None,
            r.has_ub is None,
            r.filename@.len() == 0,
    {
        TestCase {
            argv: Vec::new(),
            stdin: None,
            stdout: StdoutPattern::new(),
            rc: None,
            has_ub: None,
            filename: String::new(),
        }
    }
}

/// Whether a program's output `actual` is what `expected` asks for: with a regex,
/// whether it matches somewhere in the trimmed output; otherwise whether the
/// trimmed output equals the trimmed pattern. `None` when the regex does not
/// compile.
pub open spec fn spec_stdout_matches(expected: StdoutPattern, actual: Seq<char>) -> Option<bool> {
    if expected.is_regex {
        if regex_compiles(expected.pattern@) {
            Some(regex_finds(expected.pattern@, trimmed(actual)))
        } else {
            None
        }
    } else {
        Some(trimmed(actual) == trimmed(expected.pattern@))
    }
}

/// Judges a program's standard output against the expected pattern; `None` when
/// the pattern is a regex that does not compile.
pub fn stdout_matches(expected: &StdoutPattern, actual: &str) -> (r: Option<bool>)
    ensures
        r == spec_stdout_matches(*expected, actual@),
{
    let out = trim(actual);
    if expected.is_regex {
        match CompiledPattern::compile(expected.pattern.as_str()) {
            Some(c) => Some(regex_is_match(&c, out)),
            None => None,
        }
    } else {
        let want = trim(expected.pattern.as_str());
        Some(String::from_str(out) == String::from_str(want))
    }
}

/// What the file system shows of a benchmark directory.
#[derive(Clone, Copy, PartialEq, Eq, Structural, Debug)]
pub struct BenchmarkProbe {
    pub input_exists: bool,
    pub input_is_dir: bool,
    pub test_case_is_dir: bool,
    pub test_case_src_is_dir: bool,
    pub test_vectors_is_dir: bool,
}

/// Why a benchmark directory is not usable.
#[derive(Clone, Copy, PartialEq, Eq, Structural, Debug)]
pub enum BenchmarkDirError {
    InputMissing,
    InputNotDirectory,
    TestCaseMissing,
    TestCaseSrcMissing,
    TestVectorsMissing,
}

/// The first problem, in the order they are checked, of a benchmark directory.
pub open spec fn spec_benchmark_problem(p: BenchmarkProbe) -> Option<BenchmarkDirError> {
    if !p.input_exists {
        Some(BenchmarkDirError::InputMissing)
    } else if !p.input_is_dir {
        Some(BenchmarkDirError::InputNotDirectory)
    } else if !p.test_case_is_dir {
        Some(BenchmarkDirError::TestCaseMissing)
    } else if !p.test_case_src_is_dir {
        Some(BenchmarkDirError::TestCaseSrcMissing)
    } else if !p.test_vectors_is_dir {
        Some(BenchmarkDirError::TestVectorsMissing)
    } else {
        None
    }
}

/// The sources directory of a benchmark: `<input>/test_case/src`.
pub open spec fn spec_src_dir(input_dir: Seq<char>) -> Seq<char> {
    input_dir + "/test_case/src"@
}

/// The test vectors directory of a benchmark: `<input>/test_vectors`.
pub open spec fn spec_vectors_dir(input_dir: Seq<char>) -> Seq<char> {
    input_dir + "/test_vectors"@
}

/// Checks the layout of the benchmark at `input_dir`, as `probe` found it, and
/// returns its sources and test vectors directories.
pub fn parse_benchmark_dir(input_dir: &str, probe: &BenchmarkProbe) -> (r: Result<(String, String), BenchmarkDirError>)
    ensures
        match spec_benchmark_problem(*probe) {
            Some(e) => r == Err::<(String, String), BenchmarkDirError>(e),
            None => r matches Ok(dirs) && dirs.0@ == spec_src_dir(input_dir@) && dirs.1@ == spec_vectors_dir(input_dir@),
        },
{
    if !probe.input_exists {
        return Err(BenchmarkDirError::InputMissing);
    }
    if !probe.input_is_dir {
        return Err(BenchmarkDirError::InputNotDirectory);
    }
    if !probe.test_case_is_dir {
        return Err(BenchmarkDirError::TestCaseMissing);
    }
    if !probe.test_case_src_is_dir {
        return Err(BenchmarkDirError::TestCaseSrcMissing);
    }
    if !probe.test_vectors_is_dir {
        return Err(BenchmarkDirError::TestVectorsMissing);
    }
    let mut src = String::from_str(input_dir);
    src.append("/test_case/src");
    let mut vectors = String::from_str(input_dir);
    vectors.append("/test_vectors");
    Ok((src, vectors))
}

/// What a translation achieved, read from its final IR.
#[derive(Debug)]
pub struct TranspilationResult {
    pub translation_success: bool,
    pub build_success: bool,
    pub rust_binary_path: String,
    pub build_error: Option<String>,
}

/// Whether `m` holds a message with the text `text`.
pub open spec fn message_is(m: Option<String>, text: Seq<char>) -> bool {
    match m {
        Some(e) => e@ == text,
        None => false,
    }
}

/// The message for an IR holding `n` build results where at most one is expected.
pub open spec fn too_many_results(n: nat) -> Seq<char> {
    "Found "@ + decimal(n) + " build results, expected at most 1"@
}

impl TranspilationResult {
    /// The translation succeeded when the IR holds exactly one `CargoPackage`; the
    /// build succeeded when it holds exactly one `CargoBuildResult` and that result
    /// lists an artifact, the first of which is the binary.
    pub fn from_ir(ir: &HarvestIR) -> (r: TranspilationResult)
        requires
            ir.wf(),
        ensures
            r.translation_success == (ids_of_kind(ir.ordered(), Kind::CargoPackage).len() == 1),
            ({
                let results = ids_of_kind(ir.ordered(), Kind::CargoBuildResult);
                &&& results.len() == 0 ==> !r.build_success && message_is(r.build_error, "No artifacts built"@)
                &&& results.len() > 1 ==> !r.build_success && message_is(r.build_error, too_many_results(results.len()))
                &&& results.len() == 1 ==> match ir@[results[0]] {
                    Representation::CargoBuildResult(Ok(artifacts)) => if artifacts@.len() > 0 {
                        r.build_success && r.build_error is None && r.rust_binary_path@ == artifacts@[0]@
                    } else {
                        !r.build_success && message_is(r.build_error, "No artifacts built"@)
                    },
                    Representation::CargoBuildResult(Err(msg)) => !r.build_success && message_is(r.build_error, msg@),
                    _ => false,
                }
            }),
    {
        let packages = ir.get_by_kind(Kind::CargoPackage);
        let results = ir.get_by_kind(Kind::CargoBuildResult);
        let translation_success = packages.len() == 1;
        proof {
            reveal_strlit("No artifacts built");
        }
        if results.len() == 0 {
            return TranspilationResult {
                translation_success,
                build_success: false,
                rust_binary_path: String::new(),
                build_error: Some(String::from_str("No artifacts built")),
            };
        }
        if results.len() > 1 {
            let mut msg = String::from_str("Found ");
            push_decimal(&mut msg, results.len() as u64);
            msg.append(" build results, expected at most 1");
            return TranspilationResult {
                translation_success,
                build_success: false,
                rust_binary_path: String::new(),
                build_error: Some(msg),
            };
        }
        proof {
            crate::ir::lemma_ids_of_kind(ir.ordered(), Kind::CargoBuildResult);
        }
        match ir.get(results[0]) {
            Some(Representation::CargoBuildResult(Ok(artifacts))) => {
                if artifacts.len() > 0 {
                    TranspilationResult {
                        translation_success,
                        build_success: true,
                        rust_binary_path: artifacts[0].clone(),
                        build_error: None,
                    }
                } else {
                    TranspilationResult {
                        translation_success,
                        build_success: false,
                        rust_binary_path: String::new(),
                        build_error: Some(String::from_str("No artifacts built")),
                    }
                }
            },
            Some(Representation::CargoBuildResult(Err(msg))) => TranspilationResult {
                translation_success,
                build_success: false,
                rust_binary_path: String::new(),
                build_error: Some(msg.clone()),
            },
            _ => TranspilationResult {
                translation_success,
                build_success: false,
                rust_binary_path: String::new(),
                build_error: None,
            },
        }
    }
}

} // verus!
