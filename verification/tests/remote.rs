//! Commands on the remote, and the push of a binary.

use tomo::digest::hex_sha256;
use tomo::push::{read_digest, Push, PushEvent, PushStep};
use tomo::remote::{
    directories_of, made_dir, make_dir, on_peer_message, serve_command, start_error,
    ChannelMessage, ExecCollector, ExecOutput, MakeDir, PeerAction, ReadBuffer, StderrTail,
    STDERR_CAP,
};
use tomo::transport::TransportError;

#[test]
fn output_is_collected_by_stream() {
    let mut c = ExecCollector::new();
    c.add(&ChannelMessage::Data(b"ab".to_vec()));
    c.add(&ChannelMessage::Extended {
        data: b"err".to_vec(),
        stream: 1,
    });
    c.add(&ChannelMessage::Extended {
        data: b"other".to_vec(),
        stream: 2,
    });
    c.add(&ChannelMessage::Exit(3));
    c.add(&ChannelMessage::Data(b"c".to_vec()));
    let out = c.finish();
    assert_eq!(out.code, 3);
    assert_eq!(out.stdout_lossy(), "abc");
    assert_eq!(out.stderr_lossy(), "err");
}

#[test]
fn a_command_without_a_code_is_minus_one() {
    assert_eq!(ExecCollector::new().finish().code, -1);
    let mut c = ExecCollector::new();
    c.add(&ChannelMessage::Exit(u32::MAX));
    assert_eq!(c.finish().code, -1);
}

#[test]
fn bytes_that_are_no_text_are_replaced() {
    let out = ExecOutput {
        code: 0,
        stdout: vec![b'a', 0xff],
        stderr: Vec::new(),
    };
    assert_eq!(out.stdout_lossy(), "a\u{fffd}");
}

#[test]
fn a_command_that_does_not_start_is_an_error() {
    assert_eq!(
        start_error("ls", "h", "open channel", "gone"),
        TransportError::RemoteCommand {
            cmd: "ls".to_owned(),
            host: "h".to_owned(),
            detail: "open channel: gone".to_owned(),
        }
    );
}

#[test]
fn the_peer_is_started_in_its_directory() {
    assert_eq!(
        serve_command("/srv/my project", ".tomo/bin/tomo-1"),
        "cd '/srv/my project' && exec '.tomo/bin/tomo-1' serve --stdio"
    );
}

#[test]
fn directories_are_made_from_the_outside_in() {
    assert_eq!(directories_of("/a//b/c/"), vec!["/a", "/a/b", "/a/b/c"]);
    assert_eq!(directories_of("x/y"), vec!["x", "x/y"]);
    assert!(directories_of("/").is_empty());
    assert_eq!(make_dir(true), MakeDir::Keep);
    assert_eq!(make_dir(false), MakeDir::Make);
    assert!(made_dir("/a", "h", true).is_ok());
    assert_eq!(
        made_dir("/a", "h", false).unwrap_err(),
        TransportError::Sftp {
            op: "mkdir".to_owned(),
            path: "/a".to_owned(),
            host: "h".to_owned(),
            reason: "could not create".to_owned(),
        }
    );
}

#[test]
fn the_end_of_the_error_output_is_kept() {
    let mut tail = StderrTail::new();
    tail.push(&vec![b'x'; STDERR_CAP]);
    tail.push(b"end");
    assert_eq!(tail.bytes.len(), STDERR_CAP);
    assert!(tail.stderr_tail().ends_with("xend"));
}

#[test]
fn messages_of_the_peer() {
    let mut tail = StderrTail::new();
    assert!(matches!(
        on_peer_message(ChannelMessage::Data(vec![1]), &mut tail),
        PeerAction::Forward(ref d) if d == &[1]
    ));
    assert!(matches!(
        on_peer_message(
            ChannelMessage::Extended {
                data: b"oops".to_vec(),
                stream: 1
            },
            &mut tail
        ),
        PeerAction::Ignore
    ));
    assert_eq!(tail.stderr_tail(), "oops");
    assert!(matches!(
        on_peer_message(ChannelMessage::Eof, &mut tail),
        PeerAction::Stop
    ));
    assert!(matches!(
        on_peer_message(ChannelMessage::Close, &mut tail),
        PeerAction::Stop
    ));
    assert!(matches!(
        on_peer_message(ChannelMessage::Other, &mut tail),
        PeerAction::Ignore
    ));
}

#[test]
fn reads_take_what_there_is() {
    let mut b = ReadBuffer::new();
    assert!(b.is_empty());
    b.refill(vec![1, 2, 3]);
    assert_eq!(b.take(2), vec![1, 2]);
    assert!(!b.is_empty());
    assert_eq!(b.take(2), vec![3]);
    assert!(b.is_empty());
}

#[test]
fn sha256_in_hexadecimal() {
    assert_eq!(
        hex_sha256(b"abc"),
        "ba7816bf8f01cfea414140de5dae2223b00361a396177a9cb410ff61f20015ad"
    );
}

#[test]
fn printed_digests_are_read() {
    let hex = hex_sha256(b"abc");
    assert_eq!(
        read_digest(&format!("{}  /x\n", hex.to_uppercase())),
        Some(hex.clone())
    );
    assert_eq!(read_digest(&hex[1..]), None);
    assert_eq!(read_digest(&format!("g{}", &hex[1..])), None);
    assert_eq!(read_digest(""), None);
}

fn ran(code: i32, stdout: &str) -> PushEvent {
    PushEvent::Ran(ExecOutput {
        code,
        stdout: stdout.as_bytes().to_vec(),
        stderr: b"why".to_vec(),
    })
}

#[test]
fn a_push_checks_what_arrived() {
    let (push, step) = Push::start("h", "/b", "tomo-1", b"abc", 7, 2);
    let temp = "/b/.tomo-1.tmp.7.2";
    assert!(matches!(step, PushStep::Write(ref p) if p == temp));
    let step = push.next(step, PushEvent::Completed);
    assert!(matches!(step, PushStep::Chmod(ref c) if c == "chmod 755 '/b/.tomo-1.tmp.7.2'"));
    let step = push.next(step, ran(0, ""));
    assert!(matches!(step, PushStep::Hash { tool: 0, ref cmd } if cmd == "sha256sum '/b/.tomo-1.tmp.7.2'"));
    let step = push.next(step, ran(0, &format!("{}  x", hex_sha256(b"abc"))));
    match step {
        PushStep::Rename { ref from, ref to } => {
            assert_eq!(from, temp);
            assert_eq!(to, "/b/tomo-1");
        }
        ref other => panic!("wrong step: {other:?}"),
    }
    assert!(matches!(
        push.next(step, PushEvent::Completed),
        PushStep::Done
    ));
}

#[test]
fn a_push_falls_back_to_reading_the_binary() {
    let (push, step) = Push::start("h", "/b", "tomo-1", b"abc", 7, 2);
    let step = push.next(step, PushEvent::Completed);
    let step = push.next(step, ran(0, ""));
    let step = push.next(step, ran(127, ""));
    assert!(matches!(step, PushStep::Hash { tool: 1, ref cmd } if cmd.starts_with("shasum -a 256 '")));
    let step = push.next(step, ran(0, "nonsense"));
    assert!(matches!(step, PushStep::ReadBack(_)));
    match push.next(step, PushEvent::Read(b"abd".to_vec())) {
        PushStep::Failed { remove, error } => {
            assert_eq!(remove.as_deref(), Some("/b/.tomo-1.tmp.7.2"));
            assert_eq!(
                error,
                TransportError::Integrity {
                    host: "h".to_owned(),
                    expected: hex_sha256(b"abc"),
                    actual: hex_sha256(b"abd"),
                }
            );
        }
        other => panic!("wrong step: {other:?}"),
    }
}

#[test]
fn a_push_gives_up_where_a_step_fails() {
    let broke = || {
        PushEvent::Broke(TransportError::Sftp {
            op: "write".to_owned(),
            path: "/p".to_owned(),
            host: "h".to_owned(),
            reason: "full".to_owned(),
        })
    };
    let (push, step) = Push::start("h", "/b", "tomo-1", b"abc", 7, 2);
    assert!(matches!(
        push.next(step, broke()),
        PushStep::Failed { remove: None, .. }
    ));
    let (push, step) = Push::start("h", "/b", "tomo-1", b"abc", 7, 2);
    let step = push.next(step, PushEvent::Completed);
    match push.next(step, ran(1, "")) {
        PushStep::Failed { remove, error } => {
            assert!(remove.is_some());
            assert_eq!(
                error,
                TransportError::RemoteCommand {
                    cmd: "chmod 755".to_owned(),
                    host: "h".to_owned(),
                    detail: "exit 1: why".to_owned(),
                }
            );
        }
        other => panic!("wrong step: {other:?}"),
    }
}
