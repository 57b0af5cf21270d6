//! What is run on the remote, and what comes back from it.

use crate::bytes;
use crate::quote;
use crate::text;
use crate::transport::{TransportError, Trouble};
use crate::triple;
use crate::words;
use vstd::prelude::*;

verus! {

// ---- commands --------------------------------------------------------------
/// What a command left behind.
#[derive(Debug, Clone)]
pub struct ExecOutput {
    /// Its exit code; -1 if there was none.
    pub code: i32,
    /// What it wrote.
    pub stdout: Vec<u8>,
    /// What it wrote to the error stream.
    pub stderr: Vec<u8>,
}

impl ExecOutput {
    /// What it wrote, as text.
    pub fn stdout_lossy(&self) -> (s: String)
        ensures
            s@ == text::lossy_text(self.stdout@),
            vstd::utf8::valid_utf8(self.stdout@) ==> s@ == vstd::utf8::decode_utf8(self.stdout@),
    {
        text::read_lossy(self.stdout.as_slice())
    }

    /// What it wrote to the error stream, as text.
    pub fn stderr_lossy(&self) -> (s: String)
        ensures
            s@ == text::lossy_text(self.stderr@),
            vstd::utf8::valid_utf8(self.stderr@) ==> s@ == vstd::utf8::decode_utf8(self.stderr@),
    {
        text::read_lossy(self.stderr.as_slice())
    }
}

/// A message of a channel on which a command runs.
#[derive(Debug, Clone)]
pub enum ChannelMessage {
    /// Output.
    Data(Vec<u8>),
    /// Output of another stream.
    Extended {
        /// The output.
        data: Vec<u8>,
        /// The stream.
        stream: u32,
    },
    /// The exit code.
    Exit(u32),
    /// There is no more output.
    Eof,
    /// The channel is closed.
    Close,
    /// Anything else.
    Other,
}

/// The stream that errors are written to.
pub const ERROR_STREAM: u32 = 1;

/// All output among the messages.
pub open spec fn output_of(l: Seq<ChannelMessage>) -> Seq<u8>
    decreases l.len(),
{
    if l.len() == 0 {
        seq![]
    } else {
        output_of(l.drop_last()) + match l.last() {
            ChannelMessage::Data(d) => d@,
            _ => seq![],
        }
    }
}

/// All error output among the messages.
pub open spec fn errors_of(l: Seq<ChannelMessage>) -> Seq<u8>
    decreases l.len(),
{
    if l.len() == 0 {
        seq![]
    } else {
        errors_of(l.drop_last()) + match l.last() {
            ChannelMessage::Extended { data, stream } => if stream == ERROR_STREAM {
                data@
            } else {
                seq![]
            },
            _ => seq![],
        }
    }
}

/// The last exit code among the messages.
pub open spec fn exit_of(l: Seq<ChannelMessage>) -> Option<u32>
    decreases l.len(),
{
    if l.len() == 0 {
        None
    } else {
        match l.last() {
            ChannelMessage::Exit(code) => Some(code),
            _ => exit_of(l.drop_last()),
        }
    }
}

/// The exit code as a signed number of the same bits; -1 if there is none.
pub open spec fn signed_code(code: Option<u32>) -> int {
    match code {
        Some(c) => if c < 0x8000_0000 {
            c as int
        } else {
            c - 0x1_0000_0000
        },
        None => -1,
    }
}

/// What a command has left behind so far.
#[derive(Debug)]
pub struct ExecCollector {
    /// What it wrote.
    pub stdout: Vec<u8>,
    /// What it wrote to the error stream.
    pub stderr: Vec<u8>,
    /// Its exit code.
    pub code: Option<u32>,
}

/// What a command has left behind so far, as a mathematical value.
#[verifier::ext_equal]
pub ghost struct CollectorModel {
    /// What it wrote.
    pub stdout: Seq<u8>,
    /// What it wrote to the error stream.
    pub stderr: Seq<u8>,
    /// Its exit code.
    pub code: Option<u32>,
}

impl View for ExecCollector {
    type V = CollectorModel;

    open spec fn view(&self) -> CollectorModel {
        CollectorModel { stdout: self.stdout@, stderr: self.stderr@, code: self.code }
    }
}

/// What these messages leave behind.
pub open spec fn collected(l: Seq<ChannelMessage>) -> CollectorModel {
    CollectorModel { stdout: output_of(l), stderr: errors_of(l), code: exit_of(l) }
}

/// What is left behind once one more message came.
pub open spec fn with_message(c: CollectorModel, m: ChannelMessage) -> CollectorModel {
    match m {
        ChannelMessage::Data(d) => CollectorModel { stdout: c.stdout + d@, ..c },
        ChannelMessage::Extended { data, stream } => if stream == ERROR_STREAM {
            CollectorModel { stderr: c.stderr + data@, ..c }
        } else {
            c
        },
        ChannelMessage::Exit(code) => CollectorModel { code: Some(code), ..c },
        _ => c,
    }
}

impl ExecCollector {
    /// Nothing yet.
    pub fn new() -> (c: ExecCollector)
        ensures
            c@ == collected(seq![]),
    {
        let c = ExecCollector { stdout: Vec::new(), stderr: Vec::new(), code: None };
        assert(c@ =~= collected(seq![]));
        c
    }

    /// Take one more message in.
    pub fn add(&mut self, message: &ChannelMessage)
        ensures
            final(self)@ == with_message(old(self)@, *message),
    {
        match message {
            ChannelMessage::Data(d) => {
                bytes::push_bytes(&mut self.stdout, d.as_slice());
            },
            ChannelMessage::Extended { data, stream } => {
                if *stream == ERROR_STREAM {
                    bytes::push_bytes(&mut self.stderr, data.as_slice());
                }
            },
            ChannelMessage::Exit(code) => {
                self.code = Some(*code);
            },
            _ => {},
        }
        assert(self@ =~= with_message(old(self)@, *message));
    }

    /// What the command left behind.
    pub fn finish(self) -> (o: ExecOutput)
        ensures
            o.stdout@ == self@.stdout,
            o.stderr@ == self@.stderr,
            o.code == signed_code(self@.code),
    {
        let code: i32 = match self.code {
            Some(c) => if c < 0x8000_0000 {
                c as i32
            } else {
                (c as i64 - 0x1_0000_0000) as i32
            },
            None => -1,
        };
        ExecOutput { code, stdout: self.stdout, stderr: self.stderr }
    }
}

/// Taking messages in one by one leaves behind what all of them together do: the
/// output in order, the errors in order, and the last exit code.
pub proof fn messages_add_up(l: Seq<ChannelMessage>, m: ChannelMessage)
    ensures
        collected(l.push(m)) == with_message(collected(l), m),
{
    assert(l.push(m).drop_last() =~= l);
    assert(collected(l.push(m)) =~= with_message(collected(l), m));
}

/// How a failed command is described.
pub open spec fn exit_text(code: i32, said: Seq<char>) -> Seq<char> {
    "exit "@ + text::integer(code as int) + ": "@ + said
}

/// The error of a command that failed.
pub open spec fn command_trouble(cmd: Seq<char>, host: Seq<char>, out: ExecOutput) -> Trouble {
    Trouble::RemoteCommand {
        cmd,
        host,
        detail: exit_text(out.code, text::lossy_text(out.stderr@)),
    }
}

/// The error of a command that failed.
pub fn command_error(cmd: &str, host: &str, out: &ExecOutput) -> (e: TransportError)
    ensures
        e@ == command_trouble(cmd@, host@, *out),
{
    let mut v = text::chars_of("exit ");
    let n = text::integer_of(out.code as i64);
    text::push_all(&mut v, n.as_slice());
    text::push_text(&mut v, ": ");
    let said = out.stderr_lossy();
    text::push_text(&mut v, said.as_str());
    TransportError::RemoteCommand {
        cmd: cmd.to_owned(),
        host: host.to_owned(),
        detail: text::string_of(v.as_slice()),
    }
}

/// The error of a command that could not be started: at what stage, and why.
pub fn start_error(cmd: &str, host: &str, stage: &str, reason: &str) -> (e: TransportError)
    ensures
        e@ == (Trouble::RemoteCommand {
            cmd: cmd@,
            host: host@,
            detail: stage@ + ": "@ + reason@,
        }),
{
    TransportError::RemoteCommand {
        cmd: cmd.to_owned(),
        host: host.to_owned(),
        detail: text::three(stage, ": ", reason),
    }
}

// ---- the remote system -----------------------------------------------------
/// The command that tells what the remote system is.
pub const DETECT_COMMAND: &'static str = "uname -s -m";

/// What the system is that answers like this, or why it cannot be served.
pub open spec fn system_of(stdout: Seq<char>) -> Result<Seq<char>, Trouble> {
    let names = words::words(stdout);
    if names.len() != 2 {
        Err(
            Trouble::UnsupportedTarget {
                detected: text::trim(stdout),
                supported: triple::supported_text(),
            },
        )
    } else {
        match triple::triple_of(names[0], names[1]) {
            Some(t) => Ok(t),
            None => Err(
                Trouble::UnsupportedTarget {
                    detected: text::trim(names[0]) + " "@ + text::trim(names[1]),
                    supported: triple::supported_text(),
                },
            ),
        }
    }
}

/// What the remote system is, by the answer to the command that tells it. It
/// fails where the command failed, or no binary can serve the system.
pub fn detect_triple(host: &str, out: &ExecOutput) -> (r: Result<&'static str, TransportError>)
    ensures
        match r {
            Ok(t) => out.code == 0 && system_of(text::lossy_text(out.stdout@)) == Ok::<
                Seq<char>,
                Trouble,
            >(t@),
            Err(e) => if out.code != 0 {
                e@ == command_trouble(DETECT_COMMAND@, host@, *out)
            } else {
                system_of(text::lossy_text(out.stdout@)) == Err::<Seq<char>, Trouble>(e@)
            },
        },
{
    if out.code != 0 {
        return Err(command_error(DETECT_COMMAND, host, out));
    }
    let stdout = out.stdout_lossy();
    match triple::parse_uname(stdout.as_str()) {
        Err(e) => Err(e),
        Ok((os, arch)) => triple::uname_to_triple(os.as_str(), arch.as_str()),
    }
}

/// The system that is forced on a trial run, if it can be served.
pub fn forced_triple(forced: &str) -> (r: Result<&'static str, TransportError>)
    ensures
        match r {
            Ok(t) => t@ == forced@ && triple::supported_texts().contains(forced@),
            Err(e) => !triple::supported_texts().contains(forced@) && e@ == (
            Trouble::UnsupportedTarget {
                detected: forced@ + " (forced via TOMO_TEST_FORCE_REMOTE_TRIPLE)"@,
                supported: triple::supported_text(),
            }),
        },
{
    let all = triple::SUPPORTED;
    let mut i: usize = 0;
    while i < all.len()
        invariant
            i <= all@.len(),
            all == triple::SUPPORTED,
            forall|j: int| 0 <= j < i ==> (#[trigger] triple::supported_texts()[j]) != forced@,
        decreases all@.len() - i,
    {
        assert(triple::supported_texts()[i as int] == all@[i as int]@);
        if text::same_text(all[i], forced) {
            return Ok(all[i]);
        }
        i = i + 1;
    }
    assert(triple::supported_texts().len() == all@.len());
    let mut v = text::chars_of(forced);
    text::push_text(&mut v, " (forced via TOMO_TEST_FORCE_REMOTE_TRIPLE)");
    Err(
        TransportError::UnsupportedTarget {
            detected: text::string_of(v.as_slice()),
            supported: triple::supported_list(),
        },
    )
}

// ---- directories -----------------------------------------------------------
/// The parts of a path: what lies between slashes and is not empty.
pub open spec fn path_parts(pieces: Seq<Seq<char>>) -> Seq<Seq<char>>
    decreases pieces.len(),
{
    if pieces.len() == 0 {
        seq![]
    } else if pieces.last().len() == 0 {
        path_parts(pieces.drop_last())
    } else {
        path_parts(pieces.drop_last()).push(pieces.last())
    }
}

/// The directory that the first `n` parts of a path make up.
pub open spec fn front_of(path: Seq<char>, n: int) -> Seq<char> {
    (if path.len() > 0 && path[0] == '/' {
        seq!['/']
    } else {
        seq![]
    }) + text::join(path_parts(text::split(path, '/')).take(n), "/"@)
}

/// The directories on the way to a path, outermost first, and the path itself.
pub open spec fn fronts_of(path: Seq<char>) -> Seq<Seq<char>> {
    Seq::new(path_parts(text::split(path, '/')).len(), |i: int| front_of(path, i + 1))
}

/// The directories that are to be there for a path to be there, in the order in
/// which they are made.
pub fn directories_of(path: &str) -> (dirs: Vec<String>)
    ensures
        text::strings(dirs@) == fronts_of(path@),
{
    let chars = text::chars_of(path);
    let pieces = text::split_chars(chars.as_slice(), '/');
    let ghost model = text::split(path@, '/');
    let ghost all = path_parts(model);
    let ghost root = if path@.len() > 0 && path@[0] == '/' {
        seq!['/']
    } else {
        Seq::<char>::empty()
    };
    let mut parts: Vec<String> = Vec::new();
    let mut dirs: Vec<String> = Vec::new();
    let mut i: usize = 0;
    proof {
        assert(model.take(0) =~= Seq::<Seq<char>>::empty());
        assert(text::strings(parts@) =~= Seq::<Seq<char>>::empty());
    }
    while i < pieces.len()
        invariant
            i <= pieces@.len(),
            chars@ == path@,
            model == text::split(path@, '/'),
            text::texts(pieces@) == model,
            all == path_parts(model),
            root == (if path@.len() > 0 && path@[0] == '/' {
                seq!['/']
            } else {
                Seq::<char>::empty()
            }),
            text::strings(parts@) == path_parts(model.take(i as int)),
            dirs@.len() == parts@.len(),
            forall|j: int|
                0 <= j < dirs@.len() ==> (#[trigger] dirs@[j])@ == root + text::join(
                    text::strings(parts@).take(j + 1),
                    "/"@,
                ),
        decreases pieces@.len() - i,
    {
        proof {
            assert(model.take(i + 1).drop_last() =~= model.take(i as int));
            assert(model.take(i + 1).last() == pieces@[i as int]@);
        }
        let ghost before = text::strings(parts@);
        if pieces[i].len() > 0 {
            parts.push(text::string_of(pieces[i].as_slice()));
            let ghost after = text::strings(parts@);
            assert(after =~= before.push(pieces@[i as int]@));
            let mut v: Vec<char> = Vec::new();
            if chars.len() > 0 && chars[0] == '/' {
                v.push('/');
            }
            assert(v@ =~= root);
            let list = words::join_strings(&parts, "/");
            text::push_text(&mut v, list.as_str());
            let ghost old_dirs = dirs@;
            dirs.push(text::string_of(v.as_slice()));
            proof {
                assert(after.take(after.len() as int) =~= after);
                assert forall|j: int| 0 <= j < dirs@.len() implies (#[trigger] dirs@[j])@ == root
                    + text::join(text::strings(parts@).take(j + 1), "/"@) by {
                    if j < old_dirs.len() {
                        assert(dirs@[j] == old_dirs[j]);
                        assert(after.take(j + 1) =~= before.take(j + 1));
                    }
                }
            }
        }
        i = i + 1;
    }
    assert(model.take(i as int) =~= model);
    assert(text::strings(dirs@) =~= fronts_of(path@));
    dirs
}

/// The error of a file operation that failed.
pub fn sftp_err(op: &str, path: &str, host: &str, reason: &str) -> (e: TransportError)
    ensures
        e@ == (Trouble::Sftp { op: op@, path: path@, host: host@, reason: reason@ }),
{
    TransportError::Sftp {
        op: op.to_owned(),
        path: path.to_owned(),
        host: host.to_owned(),
        reason: reason.to_owned(),
    }
}

/// What to do about a directory that is to be there.
#[derive(Debug, Clone, Copy, PartialEq, Eq, Structural)]
pub enum MakeDir {
    /// Nothing: it is there.
    Keep,
    /// Make it, and look again.
    Make,
}

/// What to do about a directory that is to be there.
pub fn make_dir(exists: bool) -> (d: MakeDir)
    ensures
        d == (if exists {
            MakeDir::Keep
        } else {
            MakeDir::Make
        }),
{
    if exists {
        MakeDir::Keep
    } else {
        MakeDir::Make
    }
}

/// What comes of a directory that was to be made: only whether it is there now
/// counts.
pub fn made_dir(dir: &str, host: &str, exists: bool) -> (r: Result<(), TransportError>)
    ensures
        match r {
            Ok(_) => exists,
            Err(e) => !exists && e@ == (Trouble::Sftp {
                op: "mkdir"@,
                path: dir@,
                host: host@,
                reason: "could not create"@,
            }),
        },
{
    if exists {
        Ok(())
    } else {
        Err(sftp_err("mkdir", dir, host, "could not create"))
    }
}

// ---- the running peer ------------------------------------------------------
/// The command that starts the peer.
pub open spec fn serve_text(remote_path: Seq<char>, binary_rel: Seq<char>) -> Seq<char> {
    "cd "@ + quote::quoted_word(remote_path) + " && exec "@ + quote::quoted_word(binary_rel)
        + " serve --stdio"@
}

/// The command that starts the peer: in the project's directory, with its paths
/// quoted.
pub fn serve_command(remote_path: &str, binary_rel: &str) -> (s: String)
    ensures
        s@ == serve_text(remote_path@, binary_rel@),
{
    let mut v = text::chars_of("cd ");
    let dir = quote::shell_quote(remote_path);
    text::push_text(&mut v, dir.as_str());
    text::push_text(&mut v, " && exec ");
    let bin = quote::shell_quote(binary_rel);
    text::push_text(&mut v, bin.as_str());
    text::push_text(&mut v, " serve --stdio");
    text::string_of(v.as_slice())
}

/// How much of the peer's error output is kept.
pub const STDERR_CAP: usize = 16384;

/// The last bytes, at most as many as are kept.
pub open spec fn last_bytes(s: Seq<u8>) -> Seq<u8> {
    if s.len() > STDERR_CAP {
        s.skip(s.len() - STDERR_CAP)
    } else {
        s
    }
}

/// The end of the peer's error output.
#[derive(Debug)]
pub struct StderrTail {
    /// What is kept.
    pub bytes: Vec<u8>,
}

impl StderrTail {
    /// Nothing yet.
    pub fn new() -> (t: StderrTail)
        ensures
            t.bytes@ == Seq::<u8>::empty(),
    {
        StderrTail { bytes: Vec::new() }
    }

    /// Take more output in.
    pub fn push(&mut self, data: &[u8])
        ensures
            final(self).bytes@ == last_bytes(old(self).bytes@ + data@),
    {
        bytes::push_bytes(&mut self.bytes, data);
        let n: usize = self.bytes.len();
        if n > STDERR_CAP {
            let kept = bytes::copy_bytes(self.bytes.as_slice(), n - STDERR_CAP, n);
            proof {
                let all = self.bytes@;
                assert(kept@ =~= all.skip(all.len() - STDERR_CAP));
            }
            self.bytes = kept;
        }
    }

    /// What is kept, as text.
    pub fn stderr_tail(&self) -> (s: String)
        ensures
            s@ == text::lossy_text(self.bytes@),
            vstd::utf8::valid_utf8(self.bytes@) ==> s@ == vstd::utf8::decode_utf8(self.bytes@),
    {
        text::read_lossy(self.bytes.as_slice())
    }
}

/// However the error output comes in pieces, its last bytes are kept.
pub proof fn the_tail_is_the_end(before: Seq<u8>, data: Seq<u8>)
    ensures
        last_bytes(last_bytes(before) + data) == last_bytes(before + data),
        last_bytes(before).len() <= STDERR_CAP,
{
    assert(last_bytes(last_bytes(before) + data) =~= last_bytes(before + data));
}

/// What becomes of a message from the peer.
#[derive(Debug)]
pub enum PeerAction {
    /// Hand the output on; stop where nobody takes it.
    Forward(Vec<u8>),
    /// Nothing.
    Ignore,
    /// Stop.
    Stop,
}

/// What becomes of a message from the peer; error output is kept.
pub fn on_peer_message(message: ChannelMessage, tail: &mut StderrTail) -> (a: PeerAction)
    ensures
        match message {
            ChannelMessage::Data(d) => a == PeerAction::Forward(d),
            ChannelMessage::Eof => a is Stop,
            ChannelMessage::Close => a is Stop,
            _ => a is Ignore,
        },
        final(tail).bytes@ == (match message {
            ChannelMessage::Extended { data, stream } => if stream == ERROR_STREAM {
                last_bytes(old(tail).bytes@ + data@)
            } else {
                old(tail).bytes@
            },
            _ => old(tail).bytes@,
        }),
{
    match message {
        ChannelMessage::Data(d) => PeerAction::Forward(d),
        ChannelMessage::Extended { data, stream } => {
            if stream == ERROR_STREAM {
                tail.push(data.as_slice());
            }
            PeerAction::Ignore
        },
        ChannelMessage::Eof => PeerAction::Stop,
        ChannelMessage::Close => PeerAction::Stop,
        _ => PeerAction::Ignore,
    }
}

/// Output that has come in and has not been read.
#[derive(Debug)]
pub struct ReadBuffer {
    buf: Vec<u8>,
    pos: usize,
}

impl ReadBuffer {
    /// What has not been read.
    pub closed spec fn pending(&self) -> Seq<u8> {
        self.buf@.skip(self.pos as int)
    }

    /// The position lies within what has come in.
    #[verifier::type_invariant]
    spec fn wf(&self) -> bool {
        self.pos <= self.buf@.len()
    }

    /// Nothing has come in.
    pub fn new() -> (b: ReadBuffer)
        ensures
            b.pending() == Seq::<u8>::empty(),
    {
        let b = ReadBuffer { buf: Vec::new(), pos: 0 };
        assert(b.pending() =~= Seq::<u8>::empty());
        b
    }

    /// Whether there is nothing to read, so that more has to come in first.
    pub fn is_empty(&self) -> (r: bool)
        ensures
            r == (self.pending().len() == 0),
    {
        proof {
            use_type_invariant(self);
        }
        self.pos >= self.buf.len()
    }

    /// A chunk has come in. What was not read is dropped, so this is for an empty
    /// buffer.
    pub fn refill(&mut self, chunk: Vec<u8>)
        requires
            old(self).pending().len() == 0,
        ensures
            final(self).pending() == chunk@,
    {
        *self = ReadBuffer { buf: chunk, pos: 0 };
        assert(self.pending() =~= chunk@);
    }

    /// Read at most `n` bytes: as many as there are, up to that.
    pub fn take(&mut self, n: usize) -> (v: Vec<u8>)
        ensures
            v@ + final(self).pending() == old(self).pending(),
            v@.len() == n || (v@.len() < n && final(self).pending().len() == 0),
    {
        proof {
            use_type_invariant(&*self);
        }
        let ghost all = self.pending();
        let left: usize = self.buf.len() - self.pos;
        let take: usize = if left < n {
            left
        } else {
            n
        };
        let from: usize = self.pos;
        let v = bytes::copy_bytes(self.buf.as_slice(), from, from + take);
        self.pos = from + take;
        proof {
            assert(v@ + self.pending() =~= all);
        }
        v
    }
}

} // verus!
