//! What the editor extension decides when it starts the server from source:
//! how a compiler's version reads, whether it is new enough, how the
//! output of a failed command is shown, and how the server is started.

use std::collections::HashSet;
use vstd::prelude::*;
use vstd::string::*;
use vstd::utf8::*;
use crate::decimal::{all_digits, digits_value, is_digit, parse_u32, parse_u32_spec};
use crate::encoding::{is_boundary, push_str, slice_str, str_equal};
use crate::locator::lemma_next_byte_is;
use crate::scanner::{find_byte, next_byte};
use crate::whitespace::{leading_space, space_prefix, space_width_at, trim_range, trim_start_at, trimmed};

verus! {

broadcast use vstd::std_specs::hash::group_hash_axioms;

/// Longest output, in bytes, that is shown whole.
pub const SUMMARY_LIMIT: usize = 700;

/// The text that `String::from_utf8_lossy` makes of `bytes`.
pub uninterp spec fn utf8_lossy(bytes: Seq<u8>) -> Seq<char>;

/// Calls `String::from_utf8_lossy` on `bytes` and owns the result.
/// Unproved: the contract only gives the text its name.
#[verifier::external_body]
fn decode_lossy(bytes: &[u8]) -> (text: String)
    ensures
        text@ == utf8_lossy(bytes@),
{
    String::from_utf8_lossy(bytes).into_owned()
}

/// How output is shown: without the white space around it, and cut to
/// `SUMMARY_LIMIT` bytes with a note when it is longer.
pub open spec fn summary_of(text: Seq<u8>) -> Seq<u8> {
    let shown = trimmed(text);
    if shown.len() > SUMMARY_LIMIT {
        shown.take(SUMMARY_LIMIT as int) + encode_utf8("\n... (truncated)"@)
    } else {
        shown
    }
}

/// The cut, where there is one, falls between two code points.
pub open spec fn can_summarize(text: Seq<u8>) -> bool {
    trimmed(text).len() > SUMMARY_LIMIT ==> is_boundary(trimmed(text), SUMMARY_LIMIT as int)
}

/// `found` is `expected` or a later version.
pub open spec fn version_at_least(found: (u32, u32, u32), expected: (u32, u32, u32)) -> bool {
    found.0 > expected.0 || (found.0 == expected.0 && (found.1 > expected.1 || (found.1
        == expected.1 && found.2 >= expected.2)))
}

/// Where the word that begins at `from` ends: at the first white space
/// behind `from`, or at the end of `s`.
pub open spec fn word_end(s: Seq<u8>, from: int) -> int
    decreases s.len() - from,
{
    if from >= s.len() {
        s.len() as int
    } else if from >= 0 && space_prefix(s.skip(from)) > 0 {
        from
    } else {
        word_end(s, from + 1)
    }
}

/// The second of the words that white space parts `s` into.
pub open spec fn second_word(s: Seq<u8>) -> Option<Seq<u8>> {
    let first_end = word_end(s, leading_space(s));
    let start = first_end + leading_space(s.skip(first_end));
    if start >= s.len() {
        None
    } else {
        Some(s.subrange(start, word_end(s, start)))
    }
}

/// Number of decimal digits that `s` begins with.
pub open spec fn leading_digits(s: Seq<u8>) -> int
    decreases s.len(),
{
    if s.len() > 0 && is_digit(s[0]) {
        1 + leading_digits(s.skip(1))
    } else {
        0
    }
}

/// The patch number that the third part of a version writes: the number of
/// the digits it begins with, 0 when it begins with none or they do not fit.
pub open spec fn patch_of(part: Seq<u8>) -> u32 {
    let digits = part.take(leading_digits(part));
    if digits.len() > 0 && digits_value(digits) <= u32::MAX {
        digits_value(digits) as u32
    } else {
        0
    }
}

/// The version that `raw` writes as `major.minor` or `major.minor.patch`.
pub open spec fn version_of(raw: Seq<u8>) -> Option<(u32, u32, u32)> {
    let first_dot = next_byte(raw, 0, 0x2e);
    let rest = raw.skip(first_dot + 1);
    let second_dot = next_byte(rest, 0, 0x2e);
    let tail = rest.skip(second_dot + 1);
    if first_dot >= raw.len() {
        None
    } else {
        match (parse_u32_spec(raw.take(first_dot)), parse_u32_spec(rest.take(second_dot))) {
            (Some(major), Some(minor)) => Some(
                (
                    major,
                    minor,
                    if second_dot >= rest.len() {
                        0
                    } else {
                        patch_of(tail.take(next_byte(tail, 0, 0x2e)))
                    },
                ),
            ),
            _ => None,
        }
    }
}

/// The version in the answer of `rustc --version`: that of its second word.
pub open spec fn rustc_version_spec(text: Seq<u8>) -> Option<(u32, u32, u32)> {
    match second_word(text) {
        Some(raw) => version_of(raw),
        None => None,
    }
}

/// Where the word that begins at `from` ends.
fn find_word_end(bytes: &[u8], from: usize) -> (end: usize)
    requires
        from <= bytes.len(),
    ensures
        end == word_end(bytes@, from as int),
        from <= end <= bytes.len(),
{
    let mut i: usize = from;
    while i < bytes.len()
        invariant
            from <= i <= bytes.len(),
            word_end(bytes@, i as int) == word_end(bytes@, from as int),
        decreases bytes.len() - i,
    {
        assert(bytes@.skip(i as int) =~= bytes@.subrange(i as int, bytes@.len() as int));
        if space_width_at(bytes, i, bytes.len()) > 0 {
            return i;
        }
        i = i + 1;
    }
    i
}

/// Where the second word of `bytes` begins and ends.
fn second_word_range(bytes: &[u8]) -> (r: Option<(usize, usize)>)
    ensures
        match r {
            Some((start, end)) => start <= end <= bytes.len() && second_word(bytes@) == Some(
                bytes@.subrange(start as int, end as int),
            ),
            None => second_word(bytes@) is None,
        },
{
    let n: usize = bytes.len();
    assert(bytes@.subrange(0, n as int) =~= bytes@);
    let first: usize = trim_start_at(bytes, 0, n);
    let first_end: usize = find_word_end(bytes, first);
    assert(bytes@.skip(first_end as int) =~= bytes@.subrange(first_end as int, n as int));
    let start: usize = trim_start_at(bytes, first_end, n);
    if start >= n {
        return None;
    }
    let end: usize = find_word_end(bytes, start);
    Some((start, end))
}

/// Where the part of `bytes[from..hi]` ends that stands before its first
/// dot.
fn part_end(bytes: &[u8], from: usize, hi: usize) -> (at: usize)
    requires
        from <= hi <= bytes.len(),
    ensures
        from <= at <= hi,
        at - from == next_byte(bytes@.subrange(from as int, hi as int), 0, 0x2e),
{
    let at: usize = find_byte(bytes, from, hi, 0x2e);
    proof {
        let part = bytes@.subrange(from as int, hi as int);
        assert forall|j: int| 0 <= j < at - from implies part[j] != 0x2e by {
            assert(part[j] == bytes@[from + j]);
        }
        lemma_next_byte_is(part, 0, 0x2e, at - from);
    }
    at
}

/// The version that `bytes[lo..hi]` writes.
fn parse_version_in(bytes: &[u8], lo: usize, hi: usize) -> (r: Option<(u32, u32, u32)>)
    requires
        lo <= hi <= bytes.len(),
    ensures
        r == version_of(bytes@.subrange(lo as int, hi as int)),
{
    let ghost raw = bytes@.subrange(lo as int, hi as int);
    let first_dot: usize = part_end(bytes, lo, hi);
    if first_dot >= hi {
        return None;
    }
    let ghost rest = raw.skip(first_dot - lo + 1);
    assert(rest =~= bytes@.subrange(first_dot + 1, hi as int));
    assert(raw.take(first_dot - lo) =~= bytes@.subrange(lo as int, first_dot as int));
    let second_dot: usize = part_end(bytes, first_dot + 1, hi);
    assert(rest.take(second_dot - first_dot - 1) =~= bytes@.subrange(
        first_dot + 1,
        second_dot as int,
    ));
    let major = parse_u32(bytes, lo, first_dot);
    let minor = parse_u32(bytes, first_dot + 1, second_dot);
    let patch: u32 = if second_dot >= hi {
        0
    } else {
        let ghost tail = rest.skip(second_dot - first_dot);
        assert(tail =~= bytes@.subrange(second_dot + 1, hi as int));
        let third_dot: usize = part_end(bytes, second_dot + 1, hi);
        assert(tail.take(third_dot - second_dot - 1) =~= bytes@.subrange(
            second_dot + 1,
            third_dot as int,
        ));
        parse_patch(bytes, second_dot + 1, third_dot)
    };
    match (major, minor) {
        (Some(a), Some(b)) => Some((a, b, patch)),
        _ => None,
    }
}

/// The patch number in `bytes[lo..hi]`.
fn parse_patch(bytes: &[u8], lo: usize, hi: usize) -> (patch: u32)
    requires
        lo <= hi <= bytes.len(),
    ensures
        patch == patch_of(bytes@.subrange(lo as int, hi as int)),
{
    let ghost part = bytes@.subrange(lo as int, hi as int);
    let mut end: usize = lo;
    assert(part.skip(0) =~= part);
    while end < hi && 0x30 <= bytes[end] && bytes[end] <= 0x39
        invariant
            lo <= end <= hi <= bytes.len(),
            part == bytes@.subrange(lo as int, hi as int),
            (end - lo) + leading_digits(part.skip(end - lo)) == leading_digits(part),
            forall|j: int| 0 <= j < end - lo ==> is_digit(#[trigger] part[j]),
        decreases hi - end,
    {
        assert(part.skip(end - lo)[0] == bytes@[end as int]);
        assert(part.skip(end - lo).skip(1) =~= part.skip(end - lo + 1));
        assert(part[end - lo] == bytes@[end as int]);
        end = end + 1;
    }
    proof {
        if end < hi {
            assert(part.skip(end - lo)[0] == bytes@[end as int]);
        }
        assert(leading_digits(part) == end - lo);
        let digits = part.take(end - lo);
        assert(digits =~= bytes@.subrange(lo as int, end as int));
        assert(all_digits(digits));
    }
    if end == lo {
        return 0;
    }
    match parse_u32(bytes, lo, end) {
        Some(v) => v,
        None => 0,
    }
}

/// The editor extension: it remembers for which worktrees the server was
/// found to build.
pub struct FirrtlSourceLocatorExtension {
    validated_worktrees: HashSet<u64>,
}

/// How a program is started: its path, its arguments and its environment.
#[derive(Clone, Debug)]
pub struct Command {
    pub command: String,
    pub args: Vec<String>,
    pub env: Vec<(String, String)>,
}

impl View for FirrtlSourceLocatorExtension {
    type V = Set<u64>;

    /// The worktrees for which the server was found to build.
    closed spec fn view(&self) -> Set<u64> {
        self.validated_worktrees@
    }
}

impl FirrtlSourceLocatorExtension {
    /// An extension that has validated no worktree yet.
    pub fn new() -> (extension: Self)
        ensures
            extension@ == Set::<u64>::empty(),
    {
        FirrtlSourceLocatorExtension { validated_worktrees: HashSet::new() }
    }

    /// Whether the build has yet to be validated for `worktree_id`.
    pub fn needs_validation(&self, worktree_id: u64) -> (needed: bool)
        ensures
            needed == !self@.contains(worktree_id),
    {
        !self.validated_worktrees.contains(&worktree_id)
    }

    /// Remembers that the build was validated for `worktree_id`.
    pub fn mark_validated(&mut self, worktree_id: u64)
        ensures
            final(self)@ == old(self)@.insert(worktree_id),
    {
        self.validated_worktrees.insert(worktree_id);
    }

    /// Whether the version `found` is `expected` or a later one.
    pub fn is_version_at_least(found: (u32, u32, u32), expected: (u32, u32, u32)) -> (r: bool)
        ensures
            r == version_at_least(found, expected),
    {
        found.0 > expected.0 || (found.0 == expected.0 && (found.1 > expected.1 || (found.1
            == expected.1 && found.2 >= expected.2)))
    }

    /// The version in the answer of `rustc --version`: the second word of
    /// `text`, read as `major.minor.patch`. The patch number is that of
    /// the digits its part begins with, and 0 when the part is missing,
    /// begins with no digit or is too large. `None` when there is no
    /// second word or its major or minor number does not read as a number.
    pub fn parse_rustc_version(text: &str) -> (r: Option<(u32, u32, u32)>)
        ensures
            r == rustc_version_spec(text.spec_bytes()),
    {
        let bytes = text.as_bytes();
        match second_word_range(bytes) {
            Some((start, end)) => parse_version_in(bytes, start, end),
            None => None,
        }
    }

    /// The output `bytes` of a command as it is shown: read as UTF-8 with
    /// what is no UTF-8 replaced, without the white space around it, and
    /// cut with a note behind it when it is longer than `SUMMARY_LIMIT`
    /// bytes. The cut must fall between two code points.
    pub fn summarize_output(bytes: &[u8]) -> (summary: String)
        requires
            can_summarize(encode_utf8(utf8_lossy(bytes@))),
        ensures
            encode_utf8(summary@) == summary_of(encode_utf8(utf8_lossy(bytes@))),
    {
        let text = decode_lossy(bytes);
        summarize_text(text.as_str())
    }

    /// How the server is started from source: `cargo run` on the manifest,
    /// for the server's binary, in the environment `env`.
    pub fn start_command(cargo_path: String, manifest_path: String, env: Vec<(String, String)>) -> (r:
        Command)
        ensures
            r.command@ == cargo_path@,
            r.env@ == env@,
            r.args@.len() == 5,
            r.args@[0]@ == "run"@,
            r.args@[1]@ == "--manifest-path"@,
            r.args@[2]@ == manifest_path@,
            r.args@[3]@ == "--bin"@,
            r.args@[4]@ == "firrtl-source-locator-server"@,
    {
        let mut args: Vec<String> = Vec::new();
        args.push("run".to_owned());
        args.push("--manifest-path".to_owned());
        args.push(manifest_path);
        args.push("--bin".to_owned());
        args.push("firrtl-source-locator-server".to_owned());
        Command { command: cargo_path, args, env }
    }

    /// The environment in which the toolchain is run: `env`, and with it
    /// `RUSTUP_TOOLCHAIN` set to `stable` when `env` does not set it.
    pub fn command_env(env: Vec<(String, String)>) -> (r: Vec<(String, String)>)
        ensures
            sets_toolchain(env@) ==> r@ == env@,
            !sets_toolchain(env@) ==> r@.len() == env@.len() + 1 && r@.drop_last() == env@
                && r@.last().0@ == "RUSTUP_TOOLCHAIN"@ && r@.last().1@ == "stable"@,
    {
        let ghost given = env@;
        let mut out = env;
        let mut i: usize = 0;
        while i < out.len()
            invariant
                i <= out@.len(),
                out@ == given,
                given == env@,
                forall|j: int| 0 <= j < i ==> (#[trigger] given[j]).0@ != "RUSTUP_TOOLCHAIN"@,
            decreases out@.len() - i,
        {
            if str_equal(out[i].0.as_str(), "RUSTUP_TOOLCHAIN") {
                assert(given[i as int].0@ == "RUSTUP_TOOLCHAIN"@);
                return out;
            }
            i = i + 1;
        }
        out.push(("RUSTUP_TOOLCHAIN".to_owned(), "stable".to_owned()));
        assert(out@.drop_last() =~= given);
        out
    }
}

/// Some entry of `env` sets `RUSTUP_TOOLCHAIN`.
pub open spec fn sets_toolchain(env: Seq<(String, String)>) -> bool {
    exists|j: int| 0 <= j < env.len() && (#[trigger] env[j]).0@ == "RUSTUP_TOOLCHAIN"@
}

/// `text` as output is shown: without the white space around it, and cut
/// with a note behind it when it is longer than `SUMMARY_LIMIT` bytes. The
/// cut must fall between two code points.
pub fn summarize_text(text: &str) -> (summary: String)
    requires
        can_summarize(text.spec_bytes()),
    ensures
        encode_utf8(summary@) == summary_of(text.spec_bytes()),
{
    let bytes = text.as_bytes();
    let n: usize = bytes.len();
    proof {
        encode_utf8_valid_utf8(text@);
        assert(bytes@.subrange(0, n as int) =~= bytes@);
        if n > 0 {
            assert(valid_first_scalar(bytes@));
        }
    }
    let (t0, t1) = trim_range(bytes, 0, n);
    let ghost shown = bytes@.subrange(t0 as int, t1 as int);
    if t1 - t0 > SUMMARY_LIMIT {
        let cut: usize = t0 + SUMMARY_LIMIT;
        assert(shown[SUMMARY_LIMIT as int] == bytes@[cut as int]);
        let mut out = slice_str(text, t0, cut).to_owned();
        assert(shown.take(SUMMARY_LIMIT as int) =~= bytes@.subrange(t0 as int, cut as int));
        push_str(&mut out, "\n... (truncated)");
        out
    } else {
        slice_str(text, t0, t1).to_owned()
    }
}

/// The output `bytes` of a command as it is shown, or `None` when the cut
/// would fall inside a code point.
pub fn try_summarize_output(bytes: &[u8]) -> (r: Option<String>)
    ensures
        match r {
            Some(summary) => can_summarize(encode_utf8(utf8_lossy(bytes@))) && encode_utf8(
                summary@,
            ) == summary_of(encode_utf8(utf8_lossy(bytes@))),
            None => !can_summarize(encode_utf8(utf8_lossy(bytes@))),
        },
{
    let text = decode_lossy(bytes);
    let decoded = text.as_str().as_bytes();
    let n: usize = decoded.len();
    assert(decoded@.subrange(0, n as int) =~= decoded@);
    let (t0, t1) = trim_range(decoded, 0, n);
    let ghost shown = decoded@.subrange(t0 as int, t1 as int);
    if t1 - t0 > SUMMARY_LIMIT {
        let b: u8 = decoded[t0 + SUMMARY_LIMIT];
        assert(shown[SUMMARY_LIMIT as int] == b);
        if 0x80 <= b && b <= 0xbf {
            return None;
        }
    }
    Some(FirrtlSourceLocatorExtension::summarize_output(bytes))
}

/// A step in finding out whether the server builds on this machine.
#[derive(Clone, Copy, Debug, PartialEq, Eq, Structural)]
pub enum BuildCheck {
    /// Look for the compiler.
    FindRustc,
    /// Run `cargo --version`.
    CargoVersion,
    /// Run `rustc --version`.
    RustcVersion,
    /// Run `cargo check` on the server.
    CargoCheck,
}

/// What came of a step.
#[derive(Clone, Debug)]
pub enum StepOutcome {
    /// The compiler was looked for.
    Tool { found: bool },
    /// A command ran and ended with this status and output.
    Process { status: Option<i32>, stdout: Vec<u8>, stderr: Vec<u8> },
}

/// What is done next.
#[derive(Clone, Debug)]
pub enum BuildAction {
    /// Take this step and come back with its outcome.
    Take(BuildCheck),
    /// The server builds.
    Finish,
    /// The server cannot be built; the message says why.
    Fail(String),
}

/// What is done next, with the message as text.
pub enum BuildActionModel {
    Take(BuildCheck),
    Finish,
    Fail(Seq<char>),
}

impl View for BuildAction {
    type V = BuildActionModel;

    open spec fn view(&self) -> BuildActionModel {
        match *self {
            BuildAction::Take(step) => BuildActionModel::Take(step),
            BuildAction::Finish => BuildActionModel::Finish,
            BuildAction::Fail(message) => BuildActionModel::Fail(message@),
        }
    }
}

/// The outcome is one that the step brings.
pub open spec fn outcome_fits(step: BuildCheck, outcome: StepOutcome) -> bool {
    (step is FindRustc) == (outcome is Tool)
}

/// Output as it is shown, as text.
pub open spec fn shown_text(bytes: Seq<u8>) -> Seq<char> {
    decode_utf8(summary_of(encode_utf8(utf8_lossy(bytes))))
}

/// Output can be shown.
pub open spec fn showable(bytes: Seq<u8>) -> bool {
    can_summarize(encode_utf8(utf8_lossy(bytes)))
}

/// The message for a tool that does not tell its version.
pub open spec fn version_failure(tool: Seq<char>, stderr: Seq<char>) -> Seq<char> {
    "`"@ + tool + " --version` failed.\n"@ + stderr
        + "\n\nPlease verify your Rust toolchain installation and PATH."@
}

/// The message for a compiler older than the server needs.
pub open spec fn too_old(version_text: Seq<char>) -> Seq<char> {
    "Rust version too old: `"@ + version_text
        + "`.\nNeed rustc >= 1.75.0.\nRun `rustup update stable` and restart Zed."@
}

/// The message for a server that does not compile.
pub open spec fn compile_failure(details: Seq<char>, manifest_path: Seq<char>) -> Seq<char> {
    "Failed to compile `firrtl-source-locator-server` locally.\n"@ + details
        + "\n\nTry running this command in the project root:\n`cargo check --manifest-path "@
        + manifest_path + " --bin firrtl-source-locator-server`"@
        + "\nIf it still fails, update Rust (`rustup update stable`) and check network access to crates.io."@
}

/// What follows the outcome of a step. A command that did not end with
/// status 0 fails the validation, and so does a compiler that tells a
/// version before 1.75.0; a version that cannot be read passes. `None`
/// where output that would be shown cannot be.
pub open spec fn next_action_spec(
    step: BuildCheck,
    outcome: StepOutcome,
    manifest_path: Seq<char>,
) -> Option<BuildActionModel> {
    match outcome {
        StepOutcome::Tool { found } => Some(
            if found {
                BuildActionModel::Take(BuildCheck::CargoVersion)
            } else {
                BuildActionModel::Fail(
                    "Rust compiler not found. Install Rust via rustup (https://rustup.rs) and restart Zed."@,
                )
            },
        ),
        StepOutcome::Process { status, stdout, stderr } => {
            if status != Some(0i32) {
                if !showable(stderr@) || (step is CargoCheck && !showable(stdout@)) {
                    None
                } else if step is CargoCheck {
                    Some(
                        BuildActionModel::Fail(
                            compile_failure(
                                if shown_text(stderr@).len() > 0 {
                                    shown_text(stderr@)
                                } else {
                                    shown_text(stdout@)
                                },
                                manifest_path,
                            ),
                        ),
                    )
                } else if step is CargoVersion {
                    Some(BuildActionModel::Fail(version_failure("cargo"@, shown_text(stderr@))))
                } else {
                    Some(BuildActionModel::Fail(version_failure("rustc"@, shown_text(stderr@))))
                }
            } else if step is CargoCheck {
                Some(BuildActionModel::Finish)
            } else if step is CargoVersion {
                Some(BuildActionModel::Take(BuildCheck::RustcVersion))
            } else if !showable(stdout@) {
                None
            } else {
                match rustc_version_spec(encode_utf8(shown_text(stdout@))) {
                    Some(version) => if version_at_least(version, (1, 75, 0)) {
                        Some(BuildActionModel::Take(BuildCheck::CargoCheck))
                    } else {
                        Some(BuildActionModel::Fail(too_old(shown_text(stdout@))))
                    },
                    None => Some(BuildActionModel::Take(BuildCheck::CargoCheck)),
                }
            }
        },
    }
}

/// The first step of the validation.
pub fn first_build_action() -> (action: BuildAction)
    ensures
        action@ == BuildActionModel::Take(BuildCheck::FindRustc),
{
    BuildAction::Take(BuildCheck::FindRustc)
}

/// The program and the arguments of the command that a step runs.
pub fn step_command(step: BuildCheck, manifest_path: &str) -> (r: (&'static str, Vec<String>))
    requires
        !(step is FindRustc),
    ensures
        r.0@ == (if step is RustcVersion {
            "rustc"@
        } else {
            "cargo"@
        }),
        !(step is CargoCheck) ==> r.1@.len() == 1 && r.1@[0]@ == "--version"@,
        step is CargoCheck ==> r.1@.len() == 5 && r.1@[0]@ == "check"@ && r.1@[1]@
            == "--manifest-path"@ && r.1@[2]@ == manifest_path@ && r.1@[3]@ == "--bin"@ && r.1@[4]@
            == "firrtl-source-locator-server"@,
{
    let mut args: Vec<String> = Vec::new();
    match step {
        BuildCheck::CargoCheck => {
            args.push("check".to_owned());
            args.push("--manifest-path".to_owned());
            args.push(manifest_path.to_owned());
            args.push("--bin".to_owned());
            args.push("firrtl-source-locator-server".to_owned());
            ("cargo", args)
        },
        BuildCheck::RustcVersion => {
            args.push("--version".to_owned());
            ("rustc", args)
        },
        _ => {
            args.push("--version".to_owned());
            ("cargo", args)
        },
    }
}

/// Output as it is shown, as text, where it can be shown.
fn shown_output(bytes: &[u8]) -> (r: Option<String>)
    ensures
        match r {
            Some(text) => showable(bytes@) && text@ == shown_text(bytes@),
            None => !showable(bytes@),
        },
{
    match try_summarize_output(bytes) {
        Some(text) => {
            proof {
                encode_utf8_decode_utf8(text@);
            }
            Some(text)
        },
        None => None,
    }
}

/// The message for a tool that does not tell its version.
fn version_failure_message(tool: &str, stderr: &str) -> (message: String)
    ensures
        message@ == version_failure(tool@, stderr@),
{
    let mut message = String::new();
    push_str(&mut message, "`");
    push_str(&mut message, tool);
    push_str(&mut message, " --version` failed.\n");
    push_str(&mut message, stderr);
    push_str(&mut message, "\n\nPlease verify your Rust toolchain installation and PATH.");
    assert(message@ =~= version_failure(tool@, stderr@));
    message
}

/// The message for a compiler older than the server needs.
fn too_old_message(version_text: &str) -> (message: String)
    ensures
        message@ == too_old(version_text@),
{
    let mut message = String::new();
    push_str(&mut message, "Rust version too old: `");
    push_str(&mut message, version_text);
    push_str(
        &mut message,
        "`.\nNeed rustc >= 1.75.0.\nRun `rustup update stable` and restart Zed.",
    );
    assert(message@ =~= too_old(version_text@));
    message
}

/// The message for a server that does not compile.
fn compile_failure_message(details: &str, manifest_path: &str) -> (message: String)
    ensures
        message@ == compile_failure(details@, manifest_path@),
{
    let mut message = String::new();
    push_str(&mut message, "Failed to compile `firrtl-source-locator-server` locally.\n");
    push_str(&mut message, details);
    push_str(
        &mut message,
        "\n\nTry running this command in the project root:\n`cargo check --manifest-path ",
    );
    push_str(&mut message, manifest_path);
    push_str(&mut message, " --bin firrtl-source-locator-server`");
    push_str(
        &mut message,
        "\nIf it still fails, update Rust (`rustup update stable`) and check network access to crates.io.",
    );
    assert(message@ =~= compile_failure(details@, manifest_path@));
    message
}

/// What is done after `step` came out as `outcome`, when the server's
/// manifest is at `manifest_path`. `None` where output that would be shown
/// cannot be cut between two code points.
pub fn next_build_action(step: BuildCheck, outcome: &StepOutcome, manifest_path: &str) -> (r:
    Option<BuildAction>)
    requires
        outcome_fits(step, *outcome),
    ensures
        match r {
            Some(action) => next_action_spec(step, *outcome, manifest_path@) == Some(action@),
            None => next_action_spec(step, *outcome, manifest_path@) is None,
        },
{
    match outcome {
        StepOutcome::Tool { found } => {
            if *found {
                Some(BuildAction::Take(BuildCheck::CargoVersion))
            } else {
                Some(
                    BuildAction::Fail(
                        "Rust compiler not found. Install Rust via rustup (https://rustup.rs) and restart Zed.".to_owned(),
                    ),
                )
            }
        },
        StepOutcome::Process { status, stdout, stderr } => {
            let succeeded: bool = match status {
                Some(code) => *code == 0,
                None => false,
            };
            if !succeeded {
                let errors = match shown_output(stderr.as_slice()) {
                    Some(text) => text,
                    None => {
                        return None;
                    },
                };
                match step {
                    BuildCheck::CargoCheck => {
                        let output = match shown_output(stdout.as_slice()) {
                            Some(text) => text,
                            None => {
                                return None;
                            },
                        };
                        proof {
                            lemma_text_is_empty(errors@);
                        }
                        let message = if errors.as_str().as_bytes().len() > 0 {
                            compile_failure_message(errors.as_str(), manifest_path)
                        } else {
                            compile_failure_message(output.as_str(), manifest_path)
                        };
                        Some(BuildAction::Fail(message))
                    },
                    BuildCheck::CargoVersion => Some(
                        BuildAction::Fail(version_failure_message("cargo", errors.as_str())),
                    ),
                    _ => Some(BuildAction::Fail(version_failure_message("rustc", errors.as_str()))),
                }
            } else {
                match step {
                    BuildCheck::CargoCheck => Some(BuildAction::Finish),
                    BuildCheck::CargoVersion => Some(BuildAction::Take(BuildCheck::RustcVersion)),
                    _ => {
                        let version_text = match shown_output(stdout.as_slice()) {
                            Some(text) => text,
                            None => {
                                return None;
                            },
                        };
                        match FirrtlSourceLocatorExtension::parse_rustc_version(
                            version_text.as_str(),
                        ) {
                            Some(version) => {
                                if FirrtlSourceLocatorExtension::is_version_at_least(
                                    version,
                                    (1, 75, 0),
                                ) {
                                    Some(BuildAction::Take(BuildCheck::CargoCheck))
                                } else {
                                    Some(BuildAction::Fail(too_old_message(version_text.as_str())))
                                }
                            },
                            None => Some(BuildAction::Take(BuildCheck::CargoCheck)),
                        }
                    },
                }
            }
        },
    }
}

/// A text is empty when and only when it has no bytes.
proof fn lemma_text_is_empty(text: Seq<char>)
    ensures
        (text.len() > 0) == (encode_utf8(text).len() > 0),
{
    crate::encoding::lemma_chars_le_bytes(text);
}

} // verus!
