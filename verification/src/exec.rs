//! The runner model behind every toolchain invocation: which way a command
//! is run for each formal system, how a Windows path is seen from WSL, the
//! resource caps, and what a run's outcome means.
use vstd::prelude::*;
use crate::formal::FormalSystem;
use crate::text::{
    ascii_lower, char_to_ascii_lowercase, chars_of, owned, parse_u64_at, parse_u64_spec, parse_usize_at, parse_usize_spec,
    push_char, push_range, trim, white_pred,
};
use std::time::Duration;

verus! {

/// What `Duration::from_secs` returns for `secs`.
pub uninterp spec fn duration_of_secs(secs: u64) -> Duration;

/// Calls `Duration::from_secs`; the contract claims only that the result is
/// the duration of `secs` whole seconds, named [`duration_of_secs`].
#[verifier::external_body]
fn duration_from_secs(secs: u64) -> (r: Duration)
    ensures
        r == duration_of_secs(secs),
{
    Duration::from_secs(secs)
}

/// The default wall-clock cap of a checker run, in seconds.
pub const DEFAULT_TIMEOUT_SECS: u64 = 300;

/// The default cap on captured output, in bytes (16 MiB).
pub const DEFAULT_MAX_OUTPUT_BYTES: usize = 16777216;

/// Fail-closed caps on every toolchain run: a run past either is killed and
/// reported as a failure.
#[derive(Debug, Clone, Copy)]
pub struct ResourceLimits {
    /// Wall-clock cap.
    pub timeout: Duration,
    /// Cap on captured stdout and stderr, each.
    pub max_output_bytes: usize,
}

impl Default for ResourceLimits {
    fn default() -> (r: Self)
        ensures
            r.timeout == duration_of_secs(DEFAULT_TIMEOUT_SECS),
            r.max_output_bytes == DEFAULT_MAX_OUTPUT_BYTES,
    {
        ResourceLimits { timeout: duration_from_secs(DEFAULT_TIMEOUT_SECS), max_output_bytes: DEFAULT_MAX_OUTPUT_BYTES }
    }
}

/// A numeric setting as the caps read it: trimmed, parsed, and kept only
/// when positive.
pub open spec fn positive_u64_setting(v: Option<Seq<char>>) -> Option<u64> {
    match v {
        Some(s) => match parse_u64_spec(trim(s, white_pred())) {
            Some(n) => if n > 0 { Some(n) } else { None },
            None => None,
        },
        None => None,
    }
}

/// [`positive_u64_setting`] for a `usize` setting.
pub open spec fn positive_usize_setting(v: Option<Seq<char>>) -> Option<usize> {
    match v {
        Some(s) => match parse_usize_spec(trim(s, white_pred())) {
            Some(n) => if n > 0 { Some(n) } else { None },
            None => None,
        },
        None => None,
    }
}

/// The trimmed window of `s`.
fn trimmed_window(s: &str) -> (r: (Vec<char>, usize, usize))
    ensures
        r.1 <= r.2 <= r.0@.len(),
        r.0@ == s@,
        r.0@.subrange(r.1 as int, r.2 as int) == trim(s@, white_pred()),
{
    let v = chars_of(s);
    let (a, b) = crate::text::trim_class(&v, 0, v.len(), crate::text::CharClass::White);
    assert(v@.subrange(0, v@.len() as int) == v@);
    assert(crate::text::class_pred(crate::text::CharClass::White) == white_pred());
    (v, a, b)
}

/// [`positive_u64_setting`] of an optional string.
fn positive_u64(v: Option<&str>) -> (r: Option<u64>)
    ensures
        r == positive_u64_setting(opt_str_view(v)),
{
    match v {
        Some(s) => {
            let (w, a, b) = trimmed_window(s);
            match parse_u64_at(&w, a, b) {
                Some(n) => if n > 0 { Some(n) } else { None },
                None => None,
            }
        },
        None => None,
    }
}

/// [`positive_usize_setting`] of an optional string.
fn positive_usize(v: Option<&str>) -> (r: Option<usize>)
    ensures
        r == positive_usize_setting(opt_str_view(v)),
{
    match v {
        Some(s) => {
            let (w, a, b) = trimmed_window(s);
            match parse_usize_at(&w, a, b) {
                Some(n) => if n > 0 { Some(n) } else { None },
                None => None,
            }
        },
        None => None,
    }
}

impl ResourceLimits {
    /// The caps from the optional timeout (seconds) and output-cap (bytes)
    /// settings: a setting that trims to a positive number overrides the
    /// default, anything else keeps it.
    pub fn from_settings(timeout_secs: Option<&str>, max_output_bytes: Option<&str>) -> (r: Self)
        ensures
            r.timeout == duration_of_secs(match positive_u64_setting(opt_str_view(timeout_secs)) {
                Some(t) => t,
                None => DEFAULT_TIMEOUT_SECS,
            }),
            r.max_output_bytes == match positive_usize_setting(opt_str_view(max_output_bytes)) {
                Some(b) => b,
                None => DEFAULT_MAX_OUTPUT_BYTES,
            },
    {
        let secs = match positive_u64(timeout_secs) {
            Some(t) => t,
            None => DEFAULT_TIMEOUT_SECS,
        };
        let bytes = match positive_usize(max_output_bytes) {
            Some(b) => b,
            None => DEFAULT_MAX_OUTPUT_BYTES,
        };
        ResourceLimits { timeout: duration_from_secs(secs), max_output_bytes: bytes }
    }
}

/// How to execute a toolchain command for one formal system.
#[derive(Debug, Clone, PartialEq, Eq)]
pub enum Runner {
    /// Directly on this host, in the workspace directory.
    Native,
    /// Inside a WSL distribution.
    Wsl { distro: String },
    /// Inside a one-shot Docker container with the workspace mounted.
    Docker { image: String },
}

/// The model of a runner: its kind (0 native, 1 WSL, 2 Docker) and its
/// distribution or image.
pub open spec fn runner_view(r: Runner) -> (int, Seq<char>) {
    match r {
        Runner::Native => (0, Seq::empty()),
        Runner::Wsl { distro } => (1, distro@),
        Runner::Docker { image } => (2, image@),
    }
}

/// The value an optional setting supplies: present and not blank.
pub open spec fn setting_value(v: Option<Seq<char>>) -> Option<Seq<char>> {
    match v {
        Some(s) => if trim(s, white_pred()).len() > 0 { Some(s) } else { None },
        None => None,
    }
}

/// The view of an optional string slice.
pub open spec fn opt_str_view(o: Option<&str>) -> Option<Seq<char>> {
    match o {
        Some(s) => Some(s@),
        None => None,
    }
}

/// Whether a string is blank.
pub(crate) fn is_blank(s: &str) -> (r: bool)
    ensures
        r == (trim(s@, white_pred()).len() == 0),
{
    let v = chars_of(s);
    let (a, b) = crate::text::trim_class(&v, 0, v.len(), crate::text::CharClass::White);
    assert(v@.subrange(0, v@.len() as int) == v@);
    assert(crate::text::class_pred(crate::text::CharClass::White) == white_pred());
    a == b
}

/// The model of the `wsl:` / `docker:` tag.
pub open spec fn runner_tag(r: Runner) -> Seq<char> {
    match r {
        Runner::Native => "native"@,
        Runner::Wsl { distro } => "wsl:"@ + distro@,
        Runner::Docker { image } => "docker:"@ + image@,
    }
}

impl Runner {
    /// The runner with the WSL distribution override applied: a present,
    /// non-blank override replaces a WSL runner's distribution; other
    /// runners are unchanged.
    pub fn resolved(&self, wsl_distro_override: Option<&str>) -> (r: Runner)
        ensures
            runner_view(r) == match *self {
                Runner::Wsl { distro } => (1int, match setting_value(opt_str_view(wsl_distro_override)) {
                    Some(v) => v,
                    None => distro@,
                }),
                _ => runner_view(*self),
            },
    {
        match self {
            Runner::Wsl { distro } => {
                let d = match wsl_distro_override {
                    Some(v) => if !is_blank(v) { owned(v) } else { distro.clone() },
                    None => distro.clone(),
                };
                Runner::Wsl { distro: d }
            },
            Runner::Native => Runner::Native,
            Runner::Docker { image } => Runner::Docker { image: image.clone() },
        }
    }

    /// A short tag for provenance: `native`, `wsl:<distro>`, `docker:<image>`.
    pub fn tag(&self) -> (r: String)
        ensures
            r@ == runner_tag(*self),
    {
        match self {
            Runner::Native => owned("native"),
            Runner::Wsl { distro } => {
                let mut s = owned("wsl:");
                s.append(distro.as_str());
                s
            },
            Runner::Docker { image } => {
                let mut s = owned("docker:");
                s.append(image.as_str());
                s
            },
        }
    }
}

/// The per-system runner map.
#[derive(Debug, Clone)]
pub struct FormalRunners {
    pub lean: Runner,
    pub rocq: Runner,
    pub isabelle: Runner,
    pub candle: Runner,
    pub agda: Runner,
    pub metamath: Runner,
}

impl Default for FormalRunners {
    /// Lean, Agda and Metamath natively; Rocq, Isabelle and Candle under WSL
    /// `Ubuntu`.
    fn default() -> (r: Self)
        ensures
            runner_view(r.lean) == (0int, Seq::<char>::empty()),
            runner_view(r.rocq) == (1int, "Ubuntu"@),
            runner_view(r.isabelle) == (1int, "Ubuntu"@),
            runner_view(r.candle) == (1int, "Ubuntu"@),
            runner_view(r.agda) == (0int, Seq::<char>::empty()),
            runner_view(r.metamath) == (0int, Seq::<char>::empty()),
    {
        FormalRunners {
            lean: Runner::Native,
            rocq: Runner::Wsl { distro: owned("Ubuntu") },
            isabelle: Runner::Wsl { distro: owned("Ubuntu") },
            candle: Runner::Wsl { distro: owned("Ubuntu") },
            agda: Runner::Native,
            metamath: Runner::Native,
        }
    }
}

/// The configured runner of a system.
pub open spec fn runner_for(r: FormalRunners, system: FormalSystem) -> Runner {
    match system {
        FormalSystem::Lean => r.lean,
        FormalSystem::Rocq => r.rocq,
        FormalSystem::Isabelle => r.isabelle,
        FormalSystem::Candle => r.candle,
        FormalSystem::Agda => r.agda,
        FormalSystem::Metamath => r.metamath,
    }
}

impl FormalRunners {
    /// The configured runner for `system`, with the WSL override applied.
    pub fn for_system(&self, system: FormalSystem, wsl_distro_override: Option<&str>) -> (r: Runner)
        ensures
            runner_view(r) == match runner_for(*self, system) {
                Runner::Wsl { distro } => (1int, match setting_value(opt_str_view(wsl_distro_override)) {
                    Some(v) => v,
                    None => distro@,
                }),
                other => runner_view(other),
            },
    {
        let base = match system {
            FormalSystem::Lean => &self.lean,
            FormalSystem::Rocq => &self.rocq,
            FormalSystem::Isabelle => &self.isabelle,
            FormalSystem::Candle => &self.candle,
            FormalSystem::Agda => &self.agda,
            FormalSystem::Metamath => &self.metamath,
        };
        base.resolved(wsl_distro_override)
    }
}

/// The captured result of one command.
#[derive(Debug, Clone)]
pub struct ExecOutcome {
    /// Whether the process started at all.
    pub launched: bool,
    /// The exit code, when it exited normally.
    pub code: Option<i32>,
    pub stdout: String,
    pub stderr: String,
    /// Killed for exceeding the wall-clock cap.
    pub timed_out: bool,
    /// Output hit the byte cap and the rest was discarded.
    pub output_capped: bool,
}

impl ExecOutcome {
    /// A run that succeeded: launched, not timed out, exit code 0.
    pub fn success(&self) -> (r: bool)
        ensures
            r == (self.launched && !self.timed_out && self.code == Some(0i32)),
    {
        self.launched && !self.timed_out && match self.code {
            Some(c) => c == 0,
            None => false,
        }
    }

    /// A failure that re-running would repeat: exactly the wall-clock kill.
    pub fn is_deterministic_failure(&self) -> (r: bool)
        ensures
            r == self.timed_out,
    {
        self.timed_out
    }

    /// The outcome of a runner that could not start the process: not
    /// launched, no code, the error as stderr.
    pub fn not_launched(err: &str) -> (r: Self)
        ensures
            !r.launched && r.code is None && r.stdout@.len() == 0 && r.stderr@ == err@,
            !r.timed_out && !r.output_capped,
    {
        ExecOutcome {
            launched: false,
            code: None,
            stdout: String::new(),
            stderr: owned(err),
            timed_out: false,
            output_capped: false,
        }
    }
}

/// Whether `c` is an ASCII letter.
pub open spec fn ascii_alpha(c: char) -> bool {
    ('a' <= c && c <= 'z') || ('A' <= c && c <= 'Z')
}

/// `p` with backslashes turned into slashes and an extended-length prefix
/// `//?/` removed.
pub open spec fn strip_extended(p: Seq<char>) -> Seq<char> {
    let s = p.map_values(|c: char| if c == '\\' { '/' } else { c });
    if 4 <= s.len() && s.take(4) == seq!['/', '/', '?', '/'] { s.skip(4) } else { s }
}

/// The WSL view of a path: a drive path `X:/rest` becomes `/mnt/x/rest`;
/// anything else is returned with separators normalized.
pub open spec fn wsl_path_spec(p: Seq<char>) -> Seq<char> {
    let s = strip_extended(p);
    if s.len() >= 2 && s[1] == ':' && ascii_alpha(s[0]) {
        seq!['/', 'm', 'n', 't', '/', ascii_lower(s[0])] + s.skip(2)
    } else {
        s
    }
}

/// A host path as Docker mounts it: separators turned into `/` and an
/// extended-length prefix removed (see [`strip_extended`]).
pub fn host_path(path: &str) -> (r: String)
    ensures
        r@ == strip_extended(path@),
{
    let v = chars_of(path);
    let mut s: Vec<char> = Vec::new();
    let mut i: usize = 0;
    while i < v.len()
        invariant
            i <= v@.len(),
            s@ == v@.take(i as int).map_values(|c: char| if c == '\\' { '/' } else { c }),
        decreases v@.len() - i,
    {
        let c = v[i];
        s.push(if c == '\\' { '/' } else { c });
        assert(v@.take(i + 1).map_values(|c: char| if c == '\\' { '/' } else { c }) =~= v@.take(i as int).map_values(
            |c: char| if c == '\\' { '/' } else { c },
        ).push(if c == '\\' { '/' } else { c }));
        i = i + 1;
    }
    assert(v@.take(v@.len() as int) == v@);
    let n = s.len();
    let start: usize = if n >= 4 && s[0] == '/' && s[1] == '/' && s[2] == '?' && s[3] == '/' { 4 } else { 0 };
    proof {
        if n >= 4 {
            if s@[0] == '/' && s@[1] == '/' && s@[2] == '?' && s@[3] == '/' {
                assert(s@.take(4) =~= seq!['/', '/', '?', '/']);
            } else {
                assert(s@.take(4)[0] == s@[0] && s@.take(4)[1] == s@[1] && s@.take(4)[2] == s@[2] && s@.take(4)[3] == s@[3]);
            }
        }
    }
    let mut out = String::new();
    push_range(&mut out, &s, start, n);
    assert(out@ =~= strip_extended(path@));
    out
}

/// Translate a Windows path (`C:\Users\x`) to its WSL form
/// (`/mnt/c/Users/x`); other paths come back with `/` separators.
pub fn to_wsl_path(path: &str) -> (r: String)
    ensures
        r@ == wsl_path_spec(path@),
{
    let h = host_path(path);
    let s = chars_of(h.as_str());
    let n = s.len();
    let mut out = String::new();
    if n >= 2 && s[1] == ':' && (('a' <= s[0] && s[0] <= 'z') || ('A' <= s[0] && s[0] <= 'Z')) {
        push_char(&mut out, '/');
        push_char(&mut out, 'm');
        push_char(&mut out, 'n');
        push_char(&mut out, 't');
        push_char(&mut out, '/');
        push_char(&mut out, char_to_ascii_lowercase(s[0]));
        push_range(&mut out, &s, 2, n);
        assert(out@ =~= wsl_path_spec(path@));
    } else {
        push_range(&mut out, &s, 0, n);
        assert(out@ =~= wsl_path_spec(path@));
    }
    out
}

/// `s` with each single quote replaced by `'\''`.
pub open spec fn quote_body(s: Seq<char>, n: int) -> Seq<char>
    decreases n,
{
    if n <= 0 || n > s.len() {
        Seq::empty()
    } else if s[n - 1] == '\'' {
        quote_body(s, n - 1) + seq!['\'', '\\', '\'', '\'']
    } else {
        quote_body(s, n - 1).push(s[n - 1])
    }
}

/// `s` single-quoted for a POSIX shell.
pub open spec fn sh_quote_spec(s: Seq<char>) -> Seq<char> {
    seq!['\''] + quote_body(s, s.len() as int) + seq!['\'']
}

/// Single-quote `s` for a POSIX shell (see [`sh_quote_spec`]).
pub fn sh_quote(s: &str) -> (r: String)
    ensures
        r@ == sh_quote_spec(s@),
{
    let v = chars_of(s);
    let mut out = String::new();
    push_char(&mut out, '\'');
    let mut i: usize = 0;
    while i < v.len()
        invariant
            i <= v@.len(),
            v@ == s@,
            out@ == seq!['\''] + quote_body(v@, i as int),
        decreases v@.len() - i,
    {
        if v[i] == '\'' {
            push_char(&mut out, '\'');
            push_char(&mut out, '\\');
            push_char(&mut out, '\'');
            push_char(&mut out, '\'');
        } else {
            push_char(&mut out, v[i]);
        }
        assert(out@ =~= seq!['\''] + quote_body(v@, i + 1));
        i = i + 1;
    }
    push_char(&mut out, '\'');
    out
}

/// `ws` joined by single spaces.
pub open spec fn space_joined(ws: Seq<Seq<char>>, n: int) -> Seq<char>
    decreases n,
{
    if n <= 0 || n > ws.len() {
        Seq::empty()
    } else if n == 1 {
        ws[0]
    } else {
        space_joined(ws, n - 1) + seq![' '] + ws[n - 1]
    }
}

/// The shell script a WSL run executes: change into the (quoted) workspace,
/// then run the arguments joined by spaces, unquoted so that a leading `~`
/// in a binary path still expands.
pub open spec fn wsl_script_spec(mnt: Seq<char>, argv: Seq<Seq<char>>) -> Seq<char> {
    "cd "@ + sh_quote_spec(mnt) + " && "@ + space_joined(argv, argv.len() as int)
}

/// The script of a WSL run (see [`wsl_script_spec`]).
pub fn wsl_script(mnt: &str, argv: &[&str]) -> (r: String)
    ensures
        r@ == wsl_script_spec(mnt@, argv@.map_values(|a: &str| a@)),
{
    let ghost av = argv@.map_values(|a: &str| a@);
    let mut out = owned("cd ");
    let q = sh_quote(mnt);
    out.append(q.as_str());
    out.append(" && ");
    let ghost pre = out@;
    let mut i: usize = 0;
    while i < argv.len()
        invariant
            i <= argv@.len(),
            av == argv@.map_values(|a: &str| a@),
            out@ == pre + space_joined(av, i as int),
        decreases argv@.len() - i,
    {
        if i > 0 {
            push_char(&mut out, ' ');
        }
        out.append(argv[i]);
        assert(av[i as int] == argv@[i as int]@);
        assert(out@ =~= pre + space_joined(av, i + 1));
        i = i + 1;
    }
    proof {
        reveal_strlit("cd ");
        reveal_strlit(" && ");
    }
    out
}

/// What `String::from_utf8_lossy` yields for `b`: its UTF-8 decoding with
/// each invalid sequence replaced by U+FFFD.
pub uninterp spec fn utf8_lossy(b: Seq<u8>) -> Seq<char>;

/// Calls `String::from_utf8_lossy`; the contract claims only that the text
/// is the lossy decoding of `b`, named [`utf8_lossy`].
#[verifier::external_body]
fn lossy_string(b: &[u8]) -> (r: String)
    ensures
        r@ == utf8_lossy(b@),
{
    String::from_utf8_lossy(b).into_owned()
}

/// Keep at most `cap` bytes of a drained stream: the text of the kept
/// prefix (decoded lossily) and whether anything was dropped. No stream
/// gives empty text, not capped.
pub fn read_capped(data: Option<&[u8]>, cap: usize) -> (r: (String, bool))
    ensures
        match data {
            Some(d) => r.0@ == utf8_lossy(d@.take(if d@.len() < cap { d@.len() as int } else { cap as int }))
                && r.1 == (d@.len() > cap),
            None => r.0@.len() == 0 && !r.1,
        },
{
    match data {
        None => (String::new(), false),
        Some(d) => {
            let k = if d.len() < cap { d.len() } else { cap };
            let mut buf: Vec<u8> = Vec::new();
            let mut i: usize = 0;
            while i < k
                invariant
                    i <= k <= d@.len(),
                    buf@ == d@.take(i as int),
                decreases k - i,
            {
                buf.push(d[i]);
                assert(d@.take(i + 1) =~= d@.take(i as int).push(d@[i as int]));
                i = i + 1;
            }
            (lossy_string(buf.as_slice()), d.len() > cap)
        },
    }
}

} // verus!
