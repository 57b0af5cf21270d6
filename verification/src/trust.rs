//! Laws of host keys: which are accepted, which are recorded, and which are asked for.

use crate::hostkeys;
use crate::hostkeys::{CheckModel, KeyJudgement, LookupModel};
use crate::keyalgos;
use crate::sshhost::StrictHostKey;
use crate::words;
use vstd::prelude::*;

verus! {

// ---- what the files say ----------------------------------------------------
/// No file knows the host.
pub open spec fn unheard_of(l: Seq<LookupModel>) -> bool {
    forall|i: int| 0 <= i < l.len() ==> (#[trigger] l[i]) is NotFound
}

/// One of the files records the key.
pub open spec fn vouched(l: Seq<LookupModel>) -> bool {
    exists|i: int| 0 <= i < l.len() && (#[trigger] l[i]) is Match
}

/// One of the files records another key.
pub open spec fn contradicted(l: Seq<LookupModel>) -> bool {
    exists|i: int| 0 <= i < l.len() && (#[trigger] l[i]) is Changed
}

proof fn first_changed_at(l: Seq<LookupModel>, i: int)
    requires
        0 <= i <= l.len(),
    ensures
        match hostkeys::first_changed(l, i) {
            Some(line) => exists|k: int|
                i <= k < l.len() && #[trigger] l[k] == (LookupModel::Changed { line })
                    && forall|j: int| i <= j < k ==> !((#[trigger] l[j]) is Changed),
            None => forall|k: int| i <= k < l.len() ==> !((#[trigger] l[k]) is Changed),
        },
    decreases l.len() - i,
{
    if i < l.len() && !(l[i] is Changed) {
        first_changed_at(l, i + 1);
    }
}

proof fn first_unread_at(l: Seq<LookupModel>, i: int)
    requires
        0 <= i <= l.len(),
    ensures
        match hostkeys::first_unread(l, i) {
            Some(reason) => exists|k: int|
                i <= k < l.len() && #[trigger] l[k] == (LookupModel::ReadError { reason })
                    && forall|j: int| i <= j < k ==> !((#[trigger] l[j]) is ReadError),
            None => forall|k: int| i <= k < l.len() ==> !((#[trigger] l[k]) is ReadError),
        },
    decreases l.len() - i,
{
    if i < l.len() && !(l[i] is ReadError) {
        first_unread_at(l, i + 1);
    }
}

/// Law: what the files say together. A file that records the key outweighs all others;
/// then the first that records another key counts, then the first that cannot be read;
/// the host is unknown where no file knows it.
pub proof fn files_speak_together(l: Seq<LookupModel>)
    ensures
        ({
            let a = hostkeys::aggregated(l);
            &&& a is Match <==> vouched(l)
            &&& a is Changed <==> !vouched(l) && contradicted(l)
            &&& a is NotFound <==> unheard_of(l)
            &&& a is Changed ==> exists|k: int|
                0 <= k < l.len() && #[trigger] l[k] == a && forall|j: int|
                    0 <= j < k ==> !((#[trigger] l[j]) is Changed)
            &&& a is ReadError ==> exists|k: int|
                0 <= k < l.len() && #[trigger] l[k] == a && forall|j: int|
                    0 <= j < k ==> !((#[trigger] l[j]) is ReadError)
        }),
{
    first_changed_at(l, 0);
    first_unread_at(l, 0);
    if vouched(l) {
        let i = choose|i: int| 0 <= i < l.len() && (#[trigger] l[i]) is Match;
        assert(l[i] == LookupModel::Match);
        assert(l.contains(LookupModel::Match));
    }
    if l.contains(LookupModel::Match) {
        let i = l.index_of(LookupModel::Match);
        assert(l[i] is Match);
    }
    if hostkeys::aggregated(l) is NotFound {
        assert forall|i: int| 0 <= i < l.len() implies (#[trigger] l[i]) is NotFound by {
            assert(!(l[i] is Match));
        }
    }
}

// ---- what is made of it ----------------------------------------------------
/// The key is recorded for the host with its port; or, where the port is not 22 and no
/// file knows the host with its port, for the host alone.
pub open spec fn recorded(port: u16, with_port: Seq<LookupModel>, plain: Seq<LookupModel>) -> bool {
    vouched(with_port) || (port != 22 && unheard_of(with_port) && vouched(plain))
}

/// No file knows the host with its port, and, where the port is not 22, none records a
/// key for the host alone.
pub open spec fn unknown(port: u16, with_port: Seq<LookupModel>, plain: Seq<LookupModel>) -> bool {
    unheard_of(with_port) && (port == 22 || (!vouched(plain) && !contradicted(plain)))
}

/// Law: which keys are accepted. Under `no` every key is; else one that is recorded is,
/// and under `accept-new` also one whose host is unknown, which is then recorded in the
/// file that can hold it. No other key is accepted, and no other is recorded. A key that
/// contradicts what is recorded is called a mismatch.
pub proof fn which_keys_are_accepted(
    c: CheckModel,
    with_port: Seq<LookupModel>,
    plain: Seq<LookupModel>,
    j: KeyJudgement,
)
    requires
        ({
            let found = hostkeys::looked_up(
                c.port,
                hostkeys::aggregated(with_port),
                hostkeys::aggregated(plain),
            );
            hostkeys::judged(c, found.0, found.1, j)
        }),
    ensures
        j.accept <==> c.strict is No || recorded(c.port, with_port, plain) || (c.strict is AcceptNew
            && unknown(c.port, with_port, plain)),
        crate::hostspec::optional_text(j.record) == if c.strict is AcceptNew && unknown(
            c.port,
            with_port,
            plain,
        ) {
            c.record_target
        } else {
            None
        },
        j.verdict.trouble() is None <==> j.accept,
        !j.accept && unknown(c.port, with_port, plain) ==> j.verdict.trouble()->Some_0
            is HostKeyUnknown,
        !j.accept && contradicted(with_port) ==> j.verdict.trouble()->Some_0 is HostKeyMismatch,
        !j.accept && !unknown(c.port, with_port, plain) && unheard_of(with_port)
            ==> j.verdict.trouble()->Some_0 is HostKeyMismatch,
        !j.accept && !contradicted(with_port) && !unheard_of(with_port)
            ==> j.verdict.trouble()->Some_0 is KnownHosts,
{
    files_speak_together(with_port);
    files_speak_together(plain);
    if vouched(with_port) {
        let i = choose|i: int| 0 <= i < with_port.len() && (#[trigger] with_port[i]) is Match;
        assert(!(with_port[i] is NotFound));
    }
    if contradicted(with_port) {
        let i = choose|i: int| 0 <= i < with_port.len() && (#[trigger] with_port[i]) is Changed;
        assert(!(with_port[i] is NotFound));
    }
}

/// Law: the user is told of every key that is accepted without being recorded for the
/// host with its port, and of none that is.
pub proof fn what_the_user_is_told_of(
    c: CheckModel,
    with_port: Seq<LookupModel>,
    plain: Seq<LookupModel>,
    j: KeyJudgement,
)
    requires
        ({
            let found = hostkeys::looked_up(
                c.port,
                hostkeys::aggregated(with_port),
                hostkeys::aggregated(plain),
            );
            hostkeys::judged(c, found.0, found.1, j)
        }),
    ensures
        j.note is Some <==> j.accept && !vouched(with_port) && j.record is None,
{
    which_keys_are_accepted(c, with_port, plain, j);
    files_speak_together(with_port);
    files_speak_together(plain);
}

// ---- what is asked for -----------------------------------------------------
/// The name is one of those that RSA keys go by.
pub open spec fn rsa(name: Seq<char>) -> bool {
    name == "rsa-sha2-512"@ || name == "rsa-sha2-256"@ || name == "ssh-rsa"@
}

/// An algorithm that a recorded key is asked for by: its own; or, for an RSA key, any of
/// the three.
pub open spec fn asks(recorded: Seq<char>, algo: Seq<char>) -> bool {
    algo == recorded || (rsa(recorded) && rsa(algo))
}

/// Some key of some file is asked for by the algorithm.
pub open spec fn wanted(files: Seq<Seq<Seq<char>>>, algo: Seq<char>) -> bool {
    exists|f: int, i: int|
        0 <= f < files.len() && 0 <= i < files[f].len() && asks(#[trigger] files[f][i], algo)
}

proof fn extended_elements(l: Seq<Seq<char>>, more: Seq<Seq<char>>, x: Seq<char>)
    ensures
        words::extended(l, more).contains(x) <==> l.contains(x) || more.contains(x),
        l.is_prefix_of(words::extended(l, more)),
    decreases more.len(),
{
    if more.len() > 0 {
        let front = more.drop_last();
        extended_elements(l, front, x);
        let e = words::extended(l, front);
        assert(more.contains(x) == (front.contains(x) || x == more.last())) by {
            if more.contains(x) {
                let i = more.index_of(x);
                if i < front.len() {
                    assert(front[i] == x);
                }
            }
            if front.contains(x) {
                let i = front.index_of(x);
                assert(more[i] == x);
            }
            assert(more[more.len() - 1] == more.last());
        }
        if !e.contains(more.last()) {
            let p = e.push(more.last());
            assert(p.contains(x) == (e.contains(x) || x == more.last())) by {
                if e.contains(x) {
                    let i = e.index_of(x);
                    assert(p[i] == x);
                }
                assert(p[e.len() as int] == more.last());
                if p.contains(x) {
                    let i = p.index_of(x);
                    if i < e.len() {
                        assert(e[i] == x);
                    }
                }
            }
        }
    }
}

proof fn family_elements(name: Seq<char>, x: Seq<char>)
    ensures
        keyalgos::family(name).contains(x) <==> asks(name, x),
{
    let f = keyalgos::family(name);
    if rsa(name) {
        assert(f[0] == "rsa-sha2-512"@ && f[1] == "rsa-sha2-256"@ && f[2] == "ssh-rsa"@);
        assert(f.len() == 3);
    } else {
        assert(f[0] == name);
        assert(f.len() == 1);
    }
}

proof fn with_keys_elements(l: Seq<Seq<char>>, recorded: Seq<Seq<char>>, x: Seq<char>)
    ensures
        keyalgos::with_keys(l, recorded).contains(x) <==> l.contains(x) || exists|i: int|
            0 <= i < recorded.len() && asks(#[trigger] recorded[i], x),
        l.is_prefix_of(keyalgos::with_keys(l, recorded)),
    decreases recorded.len(),
{
    if recorded.len() > 0 {
        let front = recorded.drop_last();
        with_keys_elements(l, front, x);
        family_elements(recorded.last(), x);
        extended_elements(keyalgos::with_keys(l, front), keyalgos::family(recorded.last()), x);
        assert((exists|i: int| 0 <= i < recorded.len() && asks(#[trigger] recorded[i], x)) == ((
        exists|i: int| 0 <= i < front.len() && asks(#[trigger] front[i], x)) || asks(
            recorded.last(),
            x,
        ))) by {
            if exists|i: int| 0 <= i < front.len() && asks(#[trigger] front[i], x) {
                let i = choose|i: int| 0 <= i < front.len() && asks(#[trigger] front[i], x);
                assert(asks(recorded[i], x));
            }
            if exists|i: int| 0 <= i < recorded.len() && asks(#[trigger] recorded[i], x) {
                let i = choose|i: int| 0 <= i < recorded.len() && asks(#[trigger] recorded[i], x);
                if i < front.len() {
                    assert(asks(front[i], x));
                }
            }
            if asks(recorded.last(), x) {
                assert(asks(recorded[recorded.len() - 1], x));
            }
        }
    }
}

proof fn of_files_elements(files: Seq<Seq<Seq<char>>>, x: Seq<char>)
    ensures
        keyalgos::of_files(files).contains(x) <==> wanted(files, x),
    decreases files.len(),
{
    if files.len() > 0 {
        let front = files.drop_last();
        let last = files.last();
        of_files_elements(front, x);
        with_keys_elements(keyalgos::of_files(front), last, x);
        if wanted(files, x) {
            let (f, i) = choose|f: int, i: int|
                0 <= f < files.len() && 0 <= i < files[f].len() && asks(#[trigger] files[f][i], x);
            if f < front.len() {
                assert(front[f] == files[f]);
                assert(asks(front[f][i], x));
                assert(wanted(front, x));
            } else {
                assert(asks(last[i], x));
            }
        }
        if wanted(front, x) {
            let (f, i) = choose|f: int, i: int|
                0 <= f < front.len() && 0 <= i < front[f].len() && asks(#[trigger] front[f][i], x);
            assert(front[f] == files[f]);
            assert(asks(files[f][i], x));
        }
        if exists|i: int| 0 <= i < last.len() && asks(#[trigger] last[i], x) {
            let i = choose|i: int| 0 <= i < last.len() && asks(#[trigger] last[i], x);
            assert(asks(files[files.len() - 1][i], x));
        }
    }
}

/// Law: what leads in what is asked for of a host. Under `no`, nothing. Else exactly the
/// algorithms that the recorded keys are asked for by: those of the host with its port,
/// or, where the port is not 22 and no key is recorded so, those of the host alone.
pub proof fn recorded_keys_are_asked_for(
    strict: StrictHostKey,
    port: u16,
    with_port: Seq<Seq<Seq<char>>>,
    plain: Seq<Seq<Seq<char>>>,
    algo: Seq<char>,
)
    ensures
        ({
            let none = forall|f: int|
                0 <= f < with_port.len() ==> (#[trigger] with_port[f]).len() == 0;
            let asked = keyalgos::leading_algos(strict, port, with_port, plain);
            &&& strict is No ==> asked.len() == 0
            &&& !(strict is No) ==> (asked.contains(algo) <==> if port != 22 && none {
                wanted(plain, algo)
            } else {
                wanted(with_port, algo)
            })
        }),
{
    let none = forall|f: int| 0 <= f < with_port.len() ==> (#[trigger] with_port[f]).len() == 0;
    of_files_elements(with_port, algo);
    of_files_elements(plain, algo);
    let l = keyalgos::of_files(with_port);
    if l.len() > 0 {
        of_files_elements(with_port, l[0]);
        assert(l.contains(l[0]));
        assert(wanted(with_port, l[0]));
        assert(!none);
    } else if !none {
        let f = choose|f: int| 0 <= f < with_port.len() && (#[trigger] with_port[f]).len() != 0;
        let name = with_port[f][0];
        assert(asks(with_port[f][0], name));
        assert(wanted(with_port, name));
        of_files_elements(with_port, name);
        assert(l.contains(name));
    }
}

/// Law: keys that were recorded earlier are asked for earlier: what a further key or a
/// further file adds comes behind what was there.
pub proof fn earlier_keys_are_asked_for_first(
    files: Seq<Seq<Seq<char>>>,
    file: Seq<Seq<char>>,
    name: Seq<char>,
)
    ensures
        keyalgos::of_files(files).is_prefix_of(keyalgos::of_files(files.push(file))),
        keyalgos::of_files(files.push(file)).is_prefix_of(
            keyalgos::of_files(files.push(file.push(name))),
        ),
{
    assert(files.push(file).drop_last() =~= files);
    assert(files.push(file.push(name)).drop_last() =~= files);
    with_keys_elements(keyalgos::of_files(files), file, name);
    assert(file.push(name).drop_last() =~= file);
    extended_elements(
        keyalgos::with_keys(keyalgos::of_files(files), file),
        keyalgos::family(name),
        name,
    );
}

/// Law: nothing is asked for but what leads and the defaults.
pub proof fn nothing_else_is_asked_for(known: Seq<Seq<char>>, algo: Seq<char>)
    ensures
        words::extended(known, keyalgos::default_keys()).contains(algo) <==> known.contains(algo)
            || algo == "ssh-ed25519"@ || algo == "ecdsa-sha2-nistp256"@ || algo
            == "ecdsa-sha2-nistp384"@ || algo == "ecdsa-sha2-nistp521"@ || rsa(algo),
{
    extended_elements(known, keyalgos::default_keys(), algo);
    let d = keyalgos::default_keys();
    assert(d.len() == 7);
    assert(d[0] == "ssh-ed25519"@ && d[1] == "ecdsa-sha2-nistp256"@ && d[2]
        == "ecdsa-sha2-nistp384"@ && d[3] == "ecdsa-sha2-nistp521"@ && d[4] == "rsa-sha2-512"@
        && d[5] == "rsa-sha2-256"@ && d[6] == "ssh-rsa"@);
}

} // verus!
