//! Reading the outcome of `cargo build --message-format=json`: the artifacts of a
//! successful build, or the compiler's messages of a failed one.
use vstd::prelude::*;

verus! {

/// One of cargo's JSON messages, reduced to what the pipeline reads.
#[derive(Debug)]
pub enum CargoMessage {
    /// The compiler produced these files.
    Artifact(Vec<String>),
    /// The compiler reported this message.
    Compiler(String),
    /// Any other message.
    Other,
}

/// The content of a [CargoMessage].
pub enum CargoReport {
    Artifact(Seq<Seq<char>>),
    Compiler(Seq<char>),
    Other,
}

impl View for CargoMessage {
    type V = CargoReport;

    open spec fn view(&self) -> CargoReport {
        match self {
            CargoMessage::Artifact(files) => CargoReport::Artifact(files@.map_values(|f: String| f@)),
            CargoMessage::Compiler(m) => CargoReport::Compiler(m@),
            CargoMessage::Other => CargoReport::Other,
        }
    }
}

/// What `cargo_metadata::Message::parse_stream` reads from `stdout`: its messages
/// in order, or `None` when the bytes cannot be read as lines of text.
pub uninterp spec fn cargo_messages(stdout: Seq<u8>) -> Option<Seq<CargoReport>>;

/// The deepest nesting of JSON arrays and objects that cargo's output may reach
/// before it is refused: `parse_stream` lifts serde_json's recursion limit, so
/// deeper input could exhaust the stack.
pub const NESTING_LIMIT: u64 = 128;

/// Whether no line of `s` nests brackets (`[`, `{`) outside JSON strings deeper
/// than `limit`, scanning from a state with `depth` open brackets, inside a string
/// or not, and after a backslash in a string or not. A newline starts a new line.
pub open spec fn nesting_within(s: Seq<u8>, depth: nat, in_str: bool, esc: bool, limit: nat) -> bool
    decreases s.len(),
{
    if s.len() == 0 {
        true
    } else {
        let c = s[0];
        let rest = s.drop_first();
        if c == 10u8 {
            nesting_within(rest, 0, false, false, limit)
        } else if in_str {
            if esc {
                nesting_within(rest, depth, true, false, limit)
            } else if c == 92u8 {
                nesting_within(rest, depth, true, true, limit)
            } else if c == 34u8 {
                nesting_within(rest, depth, false, false, limit)
            } else {
                nesting_within(rest, depth, true, false, limit)
            }
        } else if c == 34u8 {
            nesting_within(rest, depth, true, false, limit)
        } else if c == 91u8 || c == 123u8 {
            depth + 1 <= limit && nesting_within(rest, depth + 1, false, false, limit)
        } else if c == 93u8 || c == 125u8 {
            nesting_within(rest, if depth > 0 { (depth - 1) as nat } else { 0 }, false, false, limit)
        } else {
            nesting_within(rest, depth, false, false, limit)
        }
    }
}

/// Whether `stdout` stays within the nesting limit.
pub open spec fn shallow(stdout: Seq<u8>) -> bool {
    nesting_within(stdout, 0, false, false, NESTING_LIMIT as nat)
}

/// Checks that `stdout` stays within the nesting limit.
pub fn is_shallow(stdout: &[u8]) -> (r: bool)
    ensures
        r == shallow(stdout@),
{
    let mut depth: u64 = 0;
    let mut in_str = false;
    let mut esc = false;
    let mut i: usize = 0;
    assert(stdout@.subrange(0, stdout@.len() as int) =~= stdout@);
    while i < stdout.len()
        invariant
            i <= stdout@.len(),
            depth <= NESTING_LIMIT,
            !in_str ==> !esc,
            shallow(stdout@) == nesting_within(stdout@.subrange(i as int, stdout@.len() as int), depth as nat, in_str, esc, NESTING_LIMIT as nat),
        decreases stdout@.len() - i,
    {
        let c = stdout[i];
        let ghost sub = stdout@.subrange(i as int, stdout@.len() as int);
        let ghost rest = stdout@.subrange(i + 1, stdout@.len() as int);
        let ghost (d0, s0, e0) = (depth as nat, in_str, esc);
        assert(sub.drop_first() =~= rest);
        assert(sub[0] == c);
        assert(sub.len() > 0);
        if c == 10u8 {
            depth = 0;
            in_str = false;
            esc = false;
        } else if in_str {
            if esc {
                esc = false;
            } else if c == 92u8 {
                esc = true;
            } else if c == 34u8 {
                in_str = false;
            }
        } else if c == 34u8 {
            in_str = true;
            esc = false;
        } else if c == 91u8 || c == 123u8 {
            if depth + 1 > NESTING_LIMIT {
                return false;
            }
            depth = depth + 1;
        } else if c == 93u8 || c == 125u8 {
            if depth > 0 {
                depth = depth - 1;
            }
        }
        assert(nesting_within(sub, d0, s0, e0, NESTING_LIMIT as nat) == nesting_within(rest, depth as nat, in_str, esc, NESTING_LIMIT as nat));
        i = i + 1;
    }
    true
}

/// Relies on `cargo_metadata::Message::parse_stream`: the messages of cargo's JSON
/// output, in order; each is converted variant by variant (artifact file names,
/// the compiler message's text, or nothing). The result depends on the bytes alone.
#[verifier::external_body]
fn parse_cargo_messages(stdout: &[u8]) -> (r: Option<Vec<CargoMessage>>)
    requires
        shallow(stdout@),
    ensures
        match r {
            Some(v) => cargo_messages(stdout@) == Some(v@.map_values(|m: CargoMessage| m@)),
            None => cargo_messages(stdout@) is None,
        },
{
    let mut out = Vec::new();
    for message in cargo_metadata::Message::parse_stream(stdout) {
        out.push(match message.ok()? {
            cargo_metadata::Message::CompilerArtifact(a) => CargoMessage::Artifact(a.filenames.into_iter().map(|f| f.to_string()).collect()),
            cargo_metadata::Message::CompilerMessage(c) => CargoMessage::Compiler(c.to_string()),
            _ => CargoMessage::Other,
        });
    }
    Some(out)
}

/// The file names of all artifacts, in message order.
pub open spec fn artifacts_of(ms: Seq<CargoReport>) -> Seq<Seq<char>>
    decreases ms.len(),
{
    if ms.len() == 0 {
        Seq::empty()
    } else {
        artifacts_of(ms.drop_last()) + match ms.last() {
            CargoReport::Artifact(files) => files,
            _ => Seq::empty(),
        }
    }
}

/// The compiler messages, in order, each as `Compiler Message: <text>` on a line
/// of its own (lines separated by a newline).
pub open spec fn messages_of(ms: Seq<CargoReport>) -> Seq<Seq<char>>
    decreases ms.len(),
{
    if ms.len() == 0 {
        Seq::empty()
    } else {
        messages_of(ms.drop_last()) + match ms.last() {
            CargoReport::Compiler(m) => seq!["Compiler Message: "@ + m],
            _ => Seq::empty(),
        }
    }
}

/// Lines joined by newlines.
pub open spec fn lines_joined(ls: Seq<Seq<char>>) -> Seq<char>
    decreases ls.len(),
{
    if ls.len() == 0 {
        Seq::empty()
    } else if ls.len() == 1 {
        ls[0]
    } else {
        lines_joined(ls.drop_last()) + "\n"@ + ls.last()
    }
}

/// What a build reports: the artifacts when it succeeded; otherwise the compiler
/// messages, a newline and the standard error.
pub open spec fn spec_build_result(success: bool, ms: Seq<CargoReport>, stderr: Seq<char>) -> Result<Seq<Seq<char>>, Seq<char>> {
    if success {
        Ok(artifacts_of(ms))
    } else {
        Err(lines_joined(messages_of(ms)) + "\n"@ + stderr)
    }
}

/// Whether `r` holds exactly `want`.
pub open spec fn result_is(r: Result<Vec<String>, String>, want: Result<Seq<Seq<char>>, Seq<char>>) -> bool {
    match (r, want) {
        (Ok(v), Ok(w)) => v@.map_values(|s: String| s@) == w,
        (Err(e), Err(w)) => e@ == w,
        _ => false,
    }
}

/// The outcome of a build from its exit status, its parsed messages and its
/// standard error.
pub fn build_result(success: bool, messages: &Vec<CargoMessage>, stderr: &str) -> (r: Result<Vec<String>, String>)
    ensures
        result_is(r, spec_build_result(success, messages@.map_values(|m: CargoMessage| m@), stderr@)),
{
    let ghost ms = messages@.map_values(|m: CargoMessage| m@);
    proof {
        reveal_strlit("\n");
        reveal_strlit("Compiler Message: ");
    }
    if success {
        let mut files: Vec<String> = Vec::new();
        let mut i: usize = 0;
        while i < messages.len()
            invariant
                i <= messages@.len(),
                ms == messages@.map_values(|m: CargoMessage| m@),
                files@.map_values(|s: String| s@) == artifacts_of(ms.subrange(0, i as int)),
            decreases messages@.len() - i,
        {
            assert(ms.subrange(0, i + 1).drop_last() =~= ms.subrange(0, i as int));
            match &messages[i] {
                CargoMessage::Artifact(names) => {
                    let ghost before = files@.map_values(|s: String| s@);
                    let mut j: usize = 0;
                    while j < names.len()
                        invariant
                            j <= names@.len(),
                            files@.map_values(|s: String| s@) == before + names@.map_values(|f: String| f@).subrange(0, j as int),
                        decreases names@.len() - j,
                    {
                        let ghost f0 = files@;
                        let name = names[j].clone();
                        assert(name@ == names@[j as int]@);
                        files.push(name);
                        assert(files@.map_values(|s: String| s@) =~= f0.map_values(|s: String| s@).push(names@[j as int]@));
                        j = j + 1;
                        assert(files@.map_values(|s: String| s@) =~= before + names@.map_values(|f: String| f@).subrange(0, j as int));
                    }
                    assert(names@.map_values(|f: String| f@).subrange(0, j as int) =~= names@.map_values(|f: String| f@));
                },
                _ => {
                    assert(artifacts_of(ms.subrange(0, i + 1)) =~= artifacts_of(ms.subrange(0, i as int)));
                },
            }
            i = i + 1;
        }
        assert(ms.subrange(0, i as int) =~= ms);
        Ok(files)
    } else {
        let mut text = String::new();
        let mut count: usize = 0;
        let mut i: usize = 0;
        while i < messages.len()
            invariant
                i <= messages@.len(),
                ms == messages@.map_values(|m: CargoMessage| m@),
                count == messages_of(ms.subrange(0, i as int)).len(),
                count <= i,
                text@ == lines_joined(messages_of(ms.subrange(0, i as int))),
            decreases messages@.len() - i,
        {
            assert(ms.subrange(0, i + 1).drop_last() =~= ms.subrange(0, i as int));
            match &messages[i] {
                CargoMessage::Compiler(m) => {
                    let ghost prev = messages_of(ms.subrange(0, i as int));
                    if count > 0 {
                        text.append("\n");
                    }
                    text.append("Compiler Message: ");
                    text.append(m.as_str());
                    count = count + 1;
                    let ghost now = messages_of(ms.subrange(0, i + 1));
                    assert(now == prev.push("Compiler Message: "@ + m@)) by {
                        assert(prev + seq!["Compiler Message: "@ + m@] =~= prev.push("Compiler Message: "@ + m@));
                    }
                    assert(now.drop_last() =~= prev);
                    proof {
                        if prev.len() == 0 {
                            assert(text@ =~= lines_joined(now));
                        } else {
                            assert(text@ =~= lines_joined(now));
                        }
                    }
                },
                _ => {
                    assert(messages_of(ms.subrange(0, i + 1)) =~= messages_of(ms.subrange(0, i as int)));
                },
            }
            i = i + 1;
        }
        assert(ms.subrange(0, i as int) =~= ms);
        text.append("\n");
        text.append(stderr);
        Err(text)
    }
}

/// Reads a finished build: its outcome, or `None` when its output nests deeper
/// than the limit or could not be read as cargo's messages.
pub fn interpret_build(success: bool, stdout: &[u8], stderr: &str) -> (r: Option<Result<Vec<String>, String>>)
    ensures
        !shallow(stdout@) ==> r is None,
        shallow(stdout@) ==> match cargo_messages(stdout@) {
            Some(ms) => r matches Some(res) && result_is(res, spec_build_result(success, ms, stderr@)),
            None => r is None,
        },
{
    if !is_shallow(stdout) {
        return None;
    }
    match parse_cargo_messages(stdout) {
        Some(messages) => Some(build_result(success, &messages, stderr)),
        None => None,
    }
}

} // verus!
