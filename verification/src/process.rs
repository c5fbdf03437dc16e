//! What child processes leave behind: bounded output, and failures as text that
//! may be shown.
use crate::bytes::{lossy, lossy_text, utf8, utf8_text};
use crate::review::{harmless, safe, safe_text, safe_text_is_harmless};
use crate::text::{chars, lemma_trim, part, push_decimal, decimal, strip, text, trim_start, trimmed, Pattern};
use vstd::prelude::*;

verus! {

/// Output limit per stream.
pub const LIMIT: u64 = 16777216;

#[derive(Debug)]
pub struct Output {
    pub success: bool,
    pub stdout: Vec<u8>,
    /// Terminal-safe.
    pub stderr: String,
}

/// The variables of a child's environment: set to a value, or removed. No
/// program prompts, pages or opens an editor, and none is led to another
/// repository.
pub fn environment() -> (r: Vec<(&'static str, Option<&'static str>)>)
    ensures
        r@ == seq![
            ("GIT_TERMINAL_PROMPT", Some("0")),
            ("GIT_OPTIONAL_LOCKS", Some("0")),
            ("GIT_EDITOR", Some("false")),
            ("GIT_SEQUENCE_EDITOR", Some("false")),
            ("GIT_PAGER", Some("cat")),
            ("GH_PROMPT_DISABLED", Some("1")),
            ("GH_PAGER", Some("cat")),
            ("GH_REPO", None),
            ("GIT_DIR", None),
            ("GIT_WORK_TREE", None),
            ("GIT_COMMON_DIR", None),
            ("GIT_INDEX_FILE", None),
            ("GPG_TTY", None),
        ],
{
    let mut r: Vec<(&'static str, Option<&'static str>)> = Vec::new();
    r.push(("GIT_TERMINAL_PROMPT", Some("0")));
    r.push(("GIT_OPTIONAL_LOCKS", Some("0")));
    r.push(("GIT_EDITOR", Some("false")));
    r.push(("GIT_SEQUENCE_EDITOR", Some("false")));
    r.push(("GIT_PAGER", Some("cat")));
    r.push(("GH_PROMPT_DISABLED", Some("1")));
    r.push(("GH_PAGER", Some("cat")));
    r.push(("GH_REPO", None));
    r.push(("GIT_DIR", None));
    r.push(("GIT_WORK_TREE", None));
    r.push(("GIT_COMMON_DIR", None));
    r.push(("GIT_INDEX_FILE", None));
    r.push(("GPG_TTY", None));
    r
}

/// Both streams of a child, read to their ends: refused if one is over the limit.
pub fn check_size(program: &str, stdout: u64, stderr: u64) -> (r: Result<(), String>)
    ensures
        match r {
            Ok(_) => stdout <= LIMIT && stderr <= LIMIT,
            Err(e) => (stdout > LIMIT || stderr > LIMIT) && e@ == program@
                + " output exceeded the size limit"@,
        },
{
    if stdout <= LIMIT && stderr <= LIMIT {
        return Ok(());
    }
    let mut e = program.to_owned();
    e.append(" output exceeded the size limit");
    Err(e)
}

/// The output of a child that was waited for.
pub fn collect(success: bool, stdout: Vec<u8>, stderr: &[u8]) -> (r: Output)
    ensures
        r.success == success,
        r.stdout == stdout,
        r.stderr@ == safe(lossy_text(stderr@)),
{
    Output { success, stdout, stderr: safe_text(&lossy(stderr)) }
}

/// What is said of a child that was stopped.
pub fn timed_out(program: &str, seconds: u64) -> (r: String)
    ensures
        r@ == program@ + " timed out after "@ + decimal(seconds as nat) + "s"@,
{
    let mut r = program.to_owned();
    r.append(" timed out after ");
    push_decimal(&mut r, seconds);
    r.append("s");
    r
}

/// What is said of a child that could not be started.
pub fn cannot_run(program: &str) -> (r: String)
    ensures
        r@ == "Cannot run "@ + program@,
{
    let mut r = "Cannot run ".to_owned();
    r.append(program);
    r
}

/// Two texts on lines of their own; an empty one is left out.
pub open spec fn stacked(a: Seq<char>, b: Seq<char>) -> Seq<char> {
    if a.len() == 0 {
        b
    } else if b.len() == 0 {
        a
    } else {
        a + "\n"@ + b
    }
}

pub open spec fn message_of(out: Output) -> Seq<char> {
    stacked(trimmed(out.stderr@), trimmed(safe(lossy_text(out.stdout@))))
}

impl Output {
    /// Both streams as terminal-safe text, stderr first, for failure reports.
    pub fn message(&self) -> (r: String)
        ensures
            r@ == message_of(*self),
    {
        let stdout = chars(&safe_text(&lossy(&self.stdout)));
        let stderr = chars(&self.stderr);
        let a = strip(&stderr);
        let b = strip(&stdout);
        if a.len() == 0 {
            return text(b);
        }
        let mut r = text(a);
        if b.len() > 0 {
            r.append("\n");
            r.append(&text(b));
        }
        r
    }
}

pub open spec fn all_harmless(s: Seq<char>) -> bool {
    forall|i: int| 0 <= i < s.len() ==> harmless(#[trigger] s[i])
}

proof fn lemma_trimmed_harmless(s: Seq<char>)
    requires
        all_harmless(s),
    ensures
        all_harmless(trimmed(s)),
{
    lemma_trim(s, Pattern::Space);
    let t = trim_start(s, Pattern::Space);
    lemma_trim(t, Pattern::Space);
    let u = trimmed(s);
    assert forall|i: int| 0 <= i < u.len() implies harmless(#[trigger] u[i]) by {
        assert(u[i] == t[i]);
        assert(t[i] == s[i + s.len() - t.len()]);
    }
}

/// What a child wrote reaches the terminal without controls, whichever stream it
/// was written to.
pub proof fn messages_are_harmless(stdout: Seq<u8>, stderr: Seq<u8>, out: Output)
    requires
        out.stdout@ == stdout,
        out.stderr@ == safe(lossy_text(stderr)),
    ensures
        all_harmless(message_of(out)),
{
    safe_text_is_harmless(lossy_text(stdout));
    safe_text_is_harmless(lossy_text(stderr));
    lemma_trimmed_harmless(safe(lossy_text(stdout)));
    lemma_trimmed_harmless(safe(lossy_text(stderr)));
    reveal_strlit("\n");
}

/// Why a child's output cannot be used.
#[derive(Debug)]
pub enum Unusable {
    /// It failed: the program, and the start of its standard error.
    Failed(String),
    /// Its standard output is not UTF-8.
    NotText,
}

/// The UTF-8 standard output of a child; a failed exit status becomes an error
/// with the start of its standard error.
pub fn output_text(program: &str, out: &Output) -> (r: Result<String, Unusable>)
    ensures
        match r {
            Ok(s) => out.success && utf8_text(out.stdout@) == Some(s@),
            Err(Unusable::Failed(e)) => !out.success && e@ == program@ + ": "@
                + out.stderr@.take(if out.stderr@.len() < 500 {
                out.stderr@.len() as int
            } else {
                500
            }),
            Err(Unusable::NotText) => out.success && utf8_text(out.stdout@) is None,
        },
{
    if !out.success {
        let all = chars(&out.stderr);
        let n: usize = if all.len() < 500 { all.len() } else { 500 };
        let mut e = program.to_owned();
        e.append(": ");
        let start = part(&all, 0, n);
        assert(start@ =~= out.stderr@.take(n as int));
        e.append(&text(start));
        return Err(Unusable::Failed(e));
    }
    match utf8(&out.stdout) {
        Some(s) => Ok(s.to_owned()),
        None => Err(Unusable::NotText),
    }
}

} // verus!
