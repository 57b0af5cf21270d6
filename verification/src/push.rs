//! Pushing a binary to the remote.
//!
//! The binary is written beside its final place, made executable, and compared by
//! its digest with what was sent; only then is it renamed into place. Whoever
//! drives the push performs each step and says how it came out.

use crate::bootstrap;
use crate::bytes;
use crate::digest;
use crate::quote;
use crate::remote;
use crate::remote::ExecOutput;
use crate::text;
use crate::transport::{TransportError, Trouble};
use crate::words;
use vstd::prelude::*;

verus! {

// ---- names and commands ----------------------------------------------------
/// The path beside the final one that a binary is written to.
pub open spec fn temp_path_of(
    bin_dir: Seq<char>,
    name: Seq<char>,
    pid: u32,
    counter: u64,
) -> Seq<char> {
    bin_dir + "/."@ + name + ".tmp."@ + text::decimal(pid as nat) + "."@ + text::decimal(
        counter as nat,
    )
}

/// The path beside the final one that a binary is written to. The process and a
/// counter tell it from others.
pub fn temp_path(bin_dir: &str, name: &str, pid: u32, counter: u64) -> (s: String)
    ensures
        s@ == temp_path_of(bin_dir@, name@, pid, counter),
{
    let mut v = text::chars_of(bin_dir);
    text::push_text(&mut v, "/.");
    text::push_text(&mut v, name);
    text::push_text(&mut v, ".tmp.");
    let p = text::decimal_of(pid as u64);
    text::push_all(&mut v, p.as_slice());
    text::push_text(&mut v, ".");
    let c = text::decimal_of(counter);
    text::push_all(&mut v, c.as_slice());
    text::string_of(v.as_slice())
}

/// A command on one path.
pub open spec fn command_on(tool: Seq<char>, path: Seq<char>) -> Seq<char> {
    tool + " "@ + quote::quoted_word(path)
}

fn command(tool: &str, path: &str) -> (s: String)
    ensures
        s@ == command_on(tool@, path@),
{
    let q = quote::shell_quote(path);
    text::three(tool, " ", q.as_str())
}

/// The tools that compute a digest on the remote, in the order in which they are
/// tried.
pub const DIGEST_TOOLS: [&'static str; 2] = ["sha256sum", "shasum -a 256"];

/// A hexadecimal digit.
pub open spec fn is_hex(c: char) -> bool {
    ('0' <= c && c <= '9') || ('a' <= c && c <= 'f') || ('A' <= c && c <= 'F')
}

/// The digest that a tool printed: its first word, if that is a digest.
pub open spec fn printed_digest(stdout: Seq<char>) -> Option<Seq<char>> {
    let l = words::words(stdout);
    if l.len() > 0 && l[0].len() == 64 && (forall|i: int|
        0 <= i < 64 ==> is_hex(#[trigger] l[0][i])) {
        Some(words::lowered(l[0]))
    } else {
        None
    }
}

/// The digest that a tool printed.
pub fn read_digest(stdout: &str) -> (r: Option<String>)
    ensures
        match r {
            Some(h) => printed_digest(stdout@) == Some(h@),
            None => printed_digest(stdout@) is None,
        },
{
    let chars = text::chars_of(stdout);
    let l = words::split_words(chars.as_slice());
    assert(text::texts(l@).len() == l@.len());
    if l.len() == 0 {
        return None;
    }
    assert(text::texts(l@)[0] == l@[0]@);
    let w = &l[0];
    if w.len() != 64 {
        return None;
    }
    let mut i: usize = 0;
    while i < w.len()
        invariant
            i <= w@.len(),
            w@.len() == 64,
            words::words(stdout@).len() > 0,
            words::words(stdout@)[0] == w@,
            forall|j: int| 0 <= j < i ==> is_hex(#[trigger] w@[j]),
        decreases w@.len() - i,
    {
        let c = w[i];
        let hex = (c >= '0' && c <= '9') || (c >= 'a' && c <= 'f') || (c >= 'A' && c <= 'F');
        if !hex {
            assert(!is_hex(w@[i as int]));
            return None;
        }
        i = i + 1;
    }
    let h = words::lower_chars(w.as_slice());
    Some(text::string_of(h.as_slice()))
}

// ---- the push --------------------------------------------------------------
/// A binary that is being pushed.
#[derive(Debug)]
pub struct Push {
    /// The host.
    pub host: String,
    /// The path that it is written to.
    pub temp: String,
    /// The path that it is renamed to.
    pub dest: String,
    /// The digest of what is sent.
    pub expected: String,
}

/// What is to be done next.
#[derive(Debug)]
pub enum PushStep {
    /// Write the binary to this path.
    Write(String),
    /// Run this command, which makes it executable.
    Chmod(String),
    /// Run this command, which prints its digest.
    Hash {
        /// Which of the tools it is.
        tool: usize,
        /// The command.
        cmd: String,
    },
    /// Read it back from this path.
    ReadBack(String),
    /// Rename it into place.
    Rename {
        /// From this path.
        from: String,
        /// To this path.
        to: String,
    },
    /// Nothing: the binary is in place.
    Done,
    /// Remove what was written, if that is said, and give up.
    Failed {
        /// The path to remove.
        remove: Option<String>,
        /// Why.
        error: TransportError,
    },
}

/// How a step came out.
#[derive(Debug)]
pub enum PushEvent {
    /// It is done.
    Completed,
    /// The command ran.
    Ran(ExecOutput),
    /// This was read.
    Read(Vec<u8>),
    /// It failed.
    Broke(TransportError),
}

/// What is to be done next, as a mathematical value.
pub ghost enum PushModel {
    /// Write the binary.
    Write(Seq<char>),
    /// Make it executable.
    Chmod(Seq<char>),
    /// Have its digest printed.
    Hash { tool: int, cmd: Seq<char> },
    /// Read it back.
    ReadBack(Seq<char>),
    /// Rename it into place.
    Rename { from: Seq<char>, to: Seq<char> },
    /// The binary is in place.
    Done,
    /// Give up.
    Failed { remove: Option<Seq<char>>, error: Trouble },
}

impl View for PushStep {
    type V = PushModel;

    open spec fn view(&self) -> PushModel {
        match *self {
            PushStep::Write(p) => PushModel::Write(p@),
            PushStep::Chmod(c) => PushModel::Chmod(c@),
            PushStep::Hash { tool, cmd } => PushModel::Hash { tool: tool as int, cmd: cmd@ },
            PushStep::ReadBack(p) => PushModel::ReadBack(p@),
            PushStep::Rename { from, to } => PushModel::Rename { from: from@, to: to@ },
            PushStep::Done => PushModel::Done,
            PushStep::Failed { remove, error } => PushModel::Failed {
                remove: match remove {
                    Some(p) => Some(p@),
                    None => None,
                },
                error: error@,
            },
        }
    }
}

/// The command by which a tool prints the digest of what was written.
pub open spec fn hash_step(temp: Seq<char>, tool: int) -> PushModel {
    PushModel::Hash { tool, cmd: command_on(DIGEST_TOOLS@[tool]@, temp) }
}

/// What follows once the digest of what arrived is known.
pub open spec fn compared(p: Push, actual: Seq<char>) -> PushModel {
    if actual == p.expected@ {
        PushModel::Rename { from: p.temp@, to: p.dest@ }
    } else {
        PushModel::Failed {
            remove: Some(p.temp@),
            error: Trouble::Integrity {
                host: p.host@,
                expected: p.expected@,
                actual,
            },
        }
    }
}

/// What follows where a tool did not print a digest: the next tool, or reading the
/// binary back.
pub open spec fn tool_after(p: Push, tool: int) -> PushModel {
    if tool + 1 < DIGEST_TOOLS@.len() {
        hash_step(p.temp@, tool + 1)
    } else {
        PushModel::ReadBack(p.temp@)
    }
}

/// The digest of a file that cannot be read back.
pub open spec fn no_digest() -> Seq<char> {
    seq![]
}

/// The step that follows, given how the last one came out.
pub open spec fn push_after(p: Push, step: PushModel, event: PushEvent) -> PushModel {
    match step {
        PushModel::Write(_) => match event {
            PushEvent::Completed => PushModel::Chmod(command_on("chmod 755"@, p.temp@)),
            PushEvent::Broke(e) => PushModel::Failed { remove: None, error: e@ },
            _ => step,
        },
        PushModel::Chmod(_) => match event {
            PushEvent::Ran(out) => if out.code == 0 {
                hash_step(p.temp@, 0)
            } else {
                PushModel::Failed {
                    remove: Some(p.temp@),
                    error: remote::command_trouble("chmod 755"@, p.host@, out),
                }
            },
            PushEvent::Broke(e) => PushModel::Failed { remove: None, error: e@ },
            _ => step,
        },
        PushModel::Hash { tool, .. } => match event {
            PushEvent::Ran(out) => match printed_digest(text::lossy_text(out.stdout@)) {
                Some(actual) => if out.code == 0 {
                    compared(p, actual)
                } else {
                    tool_after(p, tool)
                },
                None => tool_after(p, tool),
            },
            PushEvent::Broke(_) => tool_after(p, tool),
            _ => step,
        },
        PushModel::ReadBack(_) => match event {
            PushEvent::Read(b) => compared(p, bytes::hex_text(digest::sha256_of(b@))),
            PushEvent::Broke(_) => compared(p, no_digest()),
            _ => step,
        },
        PushModel::Rename { .. } => match event {
            PushEvent::Completed => PushModel::Done,
            PushEvent::Broke(e) => PushModel::Failed { remove: None, error: e@ },
            _ => step,
        },
        PushModel::Done => step,
        PushModel::Failed { .. } => step,
    }
}

/// A step names one of the tools.
pub open spec fn has_tool(step: PushModel) -> bool {
    match step {
        PushModel::Hash { tool, .. } => 0 <= tool < DIGEST_TOOLS@.len(),
        _ => true,
    }
}

impl Push {
    /// Begin to push a binary into a directory.
    pub fn start(
        host: &str,
        bin_dir: &str,
        name: &str,
        content: &[u8],
        pid: u32,
        counter: u64,
    ) -> (r: (Push, PushStep))
        ensures
            r.0.host@ == host@,
            r.0.temp@ == temp_path_of(bin_dir@, name@, pid, counter),
            r.0.dest@ == bootstrap::in_dir(bin_dir@, name@),
            r.0.expected@ == bytes::hex_text(digest::sha256_of(content@)),
            r.1@ == PushModel::Write(r.0.temp@),
    {
        let temp = temp_path(bin_dir, name, pid, counter);
        let step = PushStep::Write(temp.as_str().to_owned());
        let push = Push {
            host: host.to_owned(),
            temp,
            dest: bootstrap::path_in(bin_dir, name),
            expected: digest::hex_sha256(content),
        };
        (push, step)
    }

    fn compare(&self, actual: String) -> (s: PushStep)
        ensures
            s@ == compared(*self, actual@),
    {
        if text::same_text(actual.as_str(), self.expected.as_str()) {
            PushStep::Rename {
                from: self.temp.as_str().to_owned(),
                to: self.dest.as_str().to_owned(),
            }
        } else {
            PushStep::Failed {
                remove: Some(self.temp.as_str().to_owned()),
                error: TransportError::Integrity {
                    host: self.host.as_str().to_owned(),
                    expected: self.expected.as_str().to_owned(),
                    actual,
                },
            }
        }
    }

    fn hash_with(&self, tool: usize) -> (s: PushStep)
        requires
            tool < DIGEST_TOOLS@.len(),
        ensures
            s@ == hash_step(self.temp@, tool as int),
    {
        let tools = DIGEST_TOOLS;
        PushStep::Hash { tool, cmd: command(tools[tool], self.temp.as_str()) }
    }

    fn after_tool(&self, tool: usize) -> (s: PushStep)
        requires
            tool < DIGEST_TOOLS@.len(),
        ensures
            s@ == tool_after(*self, tool as int),
            has_tool(s@),
    {
        if tool + 1 < DIGEST_TOOLS.len() {
            self.hash_with(tool + 1)
        } else {
            PushStep::ReadBack(self.temp.as_str().to_owned())
        }
    }

    /// The step that follows, given how the last one came out.
    pub fn next(&self, step: PushStep, event: PushEvent) -> (s: PushStep)
        requires
            has_tool(step@),
        ensures
            s@ == push_after(*self, step@, event),
            has_tool(s@),
    {
        match step {
            PushStep::Write(p) => match event {
                PushEvent::Completed => PushStep::Chmod(
                    command("chmod 755", self.temp.as_str()),
                ),
                PushEvent::Broke(e) => PushStep::Failed { remove: None, error: e },
                _ => PushStep::Write(p),
            },
            PushStep::Chmod(c) => match event {
                PushEvent::Ran(out) => if out.code == 0 {
                    self.hash_with(0)
                } else {
                    PushStep::Failed {
                        remove: Some(self.temp.as_str().to_owned()),
                        error: remote::command_error("chmod 755", self.host.as_str(), &out),
                    }
                },
                PushEvent::Broke(e) => PushStep::Failed { remove: None, error: e },
                _ => PushStep::Chmod(c),
            },
            PushStep::Hash { tool, cmd } => match event {
                PushEvent::Ran(out) => {
                    let stdout = out.stdout_lossy();
                    match read_digest(stdout.as_str()) {
                        Some(actual) => if out.code == 0 {
                            self.compare(actual)
                        } else {
                            self.after_tool(tool)
                        },
                        None => self.after_tool(tool),
                    }
                },
                PushEvent::Broke(_) => self.after_tool(tool),
                _ => PushStep::Hash { tool, cmd },
            },
            PushStep::ReadBack(p) => match event {
                PushEvent::Read(b) => self.compare(digest::hex_sha256(b.as_slice())),
                PushEvent::Broke(_) => {
                    let none = String::new();
                    assert(none@ =~= no_digest());
                    self.compare(none)
                },
                _ => PushStep::ReadBack(p),
            },
            PushStep::Rename { from, to } => match event {
                PushEvent::Completed => PushStep::Done,
                PushEvent::Broke(e) => PushStep::Failed { remove: None, error: e },
                _ => PushStep::Rename { from, to },
            },
            PushStep::Done => PushStep::Done,
            PushStep::Failed { remove, error } => PushStep::Failed { remove, error },
        }
    }
}

// ---- laws ------------------------------------------------------------------
/// What a step told of the digest of what arrived.
pub open spec fn told_digest(event: PushEvent) -> Option<Seq<char>> {
    match event {
        PushEvent::Ran(out) => printed_digest(text::lossy_text(out.stdout@)),
        PushEvent::Read(b) => Some(bytes::hex_text(digest::sha256_of(b@))),
        PushEvent::Broke(_) => Some(no_digest()),
        PushEvent::Completed => None,
    }
}

/// A binary is renamed into place only once its digest on the remote was told to
/// be that of what was sent, and from where it was written to.
pub proof fn only_what_was_sent_is_put_in_place(p: Push, step: PushModel, event: PushEvent)
    requires
        !(step is Rename),
        push_after(p, step, event) is Rename,
    ensures
        step is Hash || step is ReadBack,
        told_digest(event) == Some(p.expected@),
        push_after(p, step, event) == (PushModel::Rename { from: p.temp@, to: p.dest@ }),
{
}

/// The binary is in place only after the rename was done.
pub proof fn nothing_is_done_before_the_rename(p: Push, step: PushModel, event: PushEvent)
    requires
        !(step is Done),
        push_after(p, step, event) is Done,
    ensures
        step is Rename,
        event is Completed,
{
}

} // verus!
