//! Which host key algorithms to ask a server for.
//!
//! The algorithms of the keys that are recorded for a host come first, so that the
//! server shows a key that can be found again. Algorithms go by their names.

use crate::hostspec;
use crate::sshhost::StrictHostKey;
use crate::text;
use crate::words;
use vstd::prelude::*;

verus! {

/// The algorithm's name stands for RSA keys.
pub open spec fn is_rsa(name: Seq<char>) -> bool {
    name == "ssh-rsa"@ || name == "rsa-sha2-256"@ || name == "rsa-sha2-512"@
}

/// What is asked for to be shown a recorded key: an RSA key may be used with
/// either digest, or in the old way.
pub open spec fn family(name: Seq<char>) -> Seq<Seq<char>> {
    if is_rsa(name) {
        seq!["rsa-sha2-512"@, "rsa-sha2-256"@, "ssh-rsa"@]
    } else {
        seq![name]
    }
}

/// The list with what recorded keys are asked for by.
pub open spec fn with_keys(l: Seq<Seq<char>>, recorded: Seq<Seq<char>>) -> Seq<Seq<char>>
    decreases recorded.len(),
{
    if recorded.len() == 0 {
        l
    } else {
        words::extended(with_keys(l, recorded.drop_last()), family(recorded.last()))
    }
}

/// What the recorded keys of all files are asked for by, each once, in order.
pub open spec fn of_files(files: Seq<Seq<Seq<char>>>) -> Seq<Seq<char>>
    decreases files.len(),
{
    if files.len() == 0 {
        seq![]
    } else {
        with_keys(of_files(files.drop_last()), files.last())
    }
}

/// The names that the files hold.
pub open spec fn file_names(files: Seq<Vec<String>>) -> Seq<Seq<Seq<char>>> {
    Seq::new(files.len(), |i: int| text::strings(files[i]@))
}

fn push_family(l: &mut Vec<String>, name: &str)
    ensures
        text::strings(final(l)@) == words::extended(text::strings(old(l)@), family(name@)),
{
    let ghost start = text::strings(l@);
    if text::same_text(name, "ssh-rsa") || text::same_text(name, "rsa-sha2-256")
        || text::same_text(name, "rsa-sha2-512") {
        words::add_text(l, "rsa-sha2-512");
        words::add_text(l, "rsa-sha2-256");
        words::add_text(l, "ssh-rsa");
        proof {
            let one = seq!["rsa-sha2-512"@];
            let two = one.push("rsa-sha2-256"@);
            words::extended_in_turn(start, one, "rsa-sha2-256"@);
            words::extended_in_turn(start, two, "ssh-rsa"@);
            assert(two.push("ssh-rsa"@) =~= family(name@));
        }
    } else {
        words::add_text(l, name);
    }
}

/// What the recorded keys of one form of a host are asked for by: `files` holds,
/// for each file that can be read, the algorithms of the keys that it records.
pub fn known_key_algos_form(files: &Vec<Vec<String>>) -> (r: Vec<String>)
    ensures
        text::strings(r@) == of_files(file_names(files@)),
{
    let ghost model = file_names(files@);
    let mut out: Vec<String> = Vec::new();
    let mut i: usize = 0;
    assert(model.take(0) =~= Seq::<Seq<Seq<char>>>::empty());
    assert(text::strings(out@) =~= Seq::<Seq<char>>::empty());
    while i < files.len()
        invariant
            i <= files@.len(),
            model == file_names(files@),
            text::strings(out@) == of_files(model.take(i as int)),
        decreases files@.len() - i,
    {
        let ghost start = text::strings(out@);
        let keys = &files[i];
        let ghost names = text::strings(keys@);
        proof {
            assert(model.take(i + 1).drop_last() =~= model.take(i as int));
            assert(model.take(i + 1).last() == names);
            assert(names.take(0) =~= Seq::<Seq<char>>::empty());
        }
        let mut k: usize = 0;
        while k < keys.len()
            invariant
                k <= keys@.len(),
                names == text::strings(keys@),
                text::strings(out@) == with_keys(start, names.take(k as int)),
            decreases keys@.len() - k,
        {
            proof {
                assert(names.take(k + 1).drop_last() =~= names.take(k as int));
                assert(names.take(k + 1).last() == keys@[k as int]@);
            }
            push_family(&mut out, keys[k].as_str());
            k = k + 1;
        }
        assert(names.take(k as int) =~= names);
        i = i + 1;
    }
    assert(model.take(i as int) =~= model);
    out
}

/// What is asked for of a host: what is recorded with the port counts, and where
/// that is nothing and the port is not the default one, what is recorded without
/// it.
pub open spec fn algos_of(
    port: u16,
    with_port: Seq<Seq<Seq<char>>>,
    plain: Seq<Seq<Seq<char>>>,
) -> Seq<Seq<char>> {
    if port != hostspec::DEFAULT_SSH_PORT && of_files(with_port).len() == 0 {
        of_files(plain)
    } else {
        of_files(with_port)
    }
}

/// What the recorded keys of a host are asked for by, each once, in order.
pub fn known_key_algos(port: u16, with_port: &Vec<Vec<String>>, plain: &Vec<Vec<String>>) -> (r:
    Vec<String>)
    ensures
        text::strings(r@) == algos_of(port, file_names(with_port@), file_names(plain@)),
{
    let primary = known_key_algos_form(with_port);
    assert(text::strings(primary@).len() == primary@.len());
    if port != hostspec::DEFAULT_SSH_PORT && primary.len() == 0 {
        return known_key_algos_form(plain);
    }
    primary
}

/// What leads in what is asked for of a host. Where any key is accepted, nothing that
/// is recorded leads.
pub open spec fn leading_algos(
    strict: StrictHostKey,
    port: u16,
    with_port: Seq<Seq<Seq<char>>>,
    plain: Seq<Seq<Seq<char>>>,
) -> Seq<Seq<char>> {
    if strict is No {
        seq![]
    } else {
        algos_of(port, with_port, plain)
    }
}

/// What leads in what is asked for of a host, by the policy on its keys.
pub fn leading_key_algos(
    strict: StrictHostKey,
    port: u16,
    with_port: &Vec<Vec<String>>,
    plain: &Vec<Vec<String>>,
) -> (r: Vec<String>)
    ensures
        text::strings(r@) == leading_algos(
            strict,
            port,
            file_names(with_port@),
            file_names(plain@),
        ),
{
    match strict {
        StrictHostKey::No => {
            let none: Vec<String> = Vec::new();
            assert(text::strings(none@) =~= Seq::<Seq<char>>::empty());
            none
        },
        _ => known_key_algos(port, with_port, plain),
    }
}

/// The algorithms that are asked for by default.
pub open spec fn default_keys() -> Seq<Seq<char>> {
    seq![
        "ssh-ed25519"@,
        "ecdsa-sha2-nistp256"@,
        "ecdsa-sha2-nistp384"@,
        "ecdsa-sha2-nistp521"@,
        "rsa-sha2-512"@,
        "rsa-sha2-256"@,
        "ssh-rsa"@,
    ]
}

/// The names of the algorithms in `russh::Preferred::DEFAULT.key`, each as
/// `ssh_key::Algorithm::as_str` gives it: Ed25519, ECDSA over the three NIST
/// curves, and RSA with SHA-512, with SHA-256 and in the old way, in this order.
#[verifier::external_body]
fn default_key_names() -> (l: Vec<String>)
    ensures
        text::strings(l@) == default_keys(),
{
    russh::Preferred::DEFAULT.key.iter().map(|a| a.as_str().to_owned()).collect()
}

/// The order in which algorithms are asked for: those of recorded keys first, then
/// the others of the defaults. Nothing is left out.
pub fn preferred_key_order(known: &Vec<String>) -> (r: Vec<String>)
    ensures
        text::strings(r@) == words::extended(text::strings(known@), default_keys()),
{
    let defaults = default_key_names();
    let ghost model = text::strings(defaults@);
    let ghost start = text::strings(known@);
    let mut out = words::copy_strings(known);
    let mut i: usize = 0;
    assert(model.take(0) =~= Seq::<Seq<char>>::empty());
    while i < defaults.len()
        invariant
            i <= defaults@.len(),
            model == text::strings(defaults@),
            text::strings(out@) == words::extended(start, model.take(i as int)),
        decreases defaults@.len() - i,
    {
        proof {
            words::extended_in_turn(start, model.take(i as int), defaults@[i as int]@);
            assert(model.take(i + 1) =~= model.take(i as int).push(defaults@[i as int]@));
        }
        words::add_text(&mut out, defaults[i].as_str());
        i = i + 1;
    }
    assert(model.take(i as int) =~= model);
    out
}

// ---- laws ------------------------------------------------------------------
/// Extending a list keeps it as the front, lacks nothing of what was to be added,
/// and repeats nothing that it did not repeat.
proof fn extension_is_faithful(l: Seq<Seq<char>>, more: Seq<Seq<char>>)
    ensures
        l.is_prefix_of(words::extended(l, more)),
        forall|i: int| 0 <= i < more.len() ==> words::extended(l, more).contains(#[trigger] more[i]),
        l.no_duplicates() ==> words::extended(l, more).no_duplicates(),
    decreases more.len(),
{
    if more.len() > 0 {
        extension_is_faithful(l, more.drop_last());
        let rest = words::extended(l, more.drop_last());
        let r = words::extended(l, more);
        assert forall|i: int| 0 <= i < more.len() implies r.contains(#[trigger] more[i]) by {
            if i < more.len() - 1 {
                assert(more.drop_last()[i] == more[i]);
                assert(rest.contains(more.drop_last()[i]));
                let k = choose|k: int| 0 <= k < rest.len() && rest[k] == more[i];
                assert(r[k] == more[i]);
            } else if !rest.contains(more.last()) {
                assert(r[rest.len() as int] == more.last());
            }
        }
        if l.no_duplicates() && !rest.contains(more.last()) {
            assert forall|i: int, j: int| 0 <= i < r.len() && 0 <= j < r.len() && i != j implies r[i]
                != r[j] by {
                if i == rest.len() {
                    assert(rest[j] == r[j]);
                } else if j == rest.len() {
                    assert(rest[i] == r[i]);
                }
            }
        }
    }
}

/// The order in which algorithms are asked for begins with those that are known
/// and lacks none of the defaults; with nothing known it is the defaults.
pub proof fn known_algorithms_lead(known: Seq<Seq<char>>)
    ensures
        known.is_prefix_of(words::extended(known, default_keys())),
        forall|i: int|
            0 <= i < default_keys().len() ==> words::extended(known, default_keys()).contains(
                #[trigger] default_keys()[i],
            ),
        known.no_duplicates() ==> words::extended(known, default_keys()).no_duplicates(),
        words::extended(seq![], default_keys()) == default_keys(),
{
    extension_is_faithful(known, default_keys());
    reveal_strlit("ssh-ed25519");
    reveal_strlit("ecdsa-sha2-nistp256");
    reveal_strlit("ecdsa-sha2-nistp384");
    reveal_strlit("ecdsa-sha2-nistp521");
    reveal_strlit("rsa-sha2-512");
    reveal_strlit("rsa-sha2-256");
    reveal_strlit("ssh-rsa");
    let d = default_keys();
    assert(d[0].len() == 11 && d[4].len() == 12 && d[5].len() == 12 && d[6].len() == 7);
    assert(d[1].len() == 19 && d[2].len() == 19 && d[3].len() == 19);
    assert(d[1][16] != d[2][16]);
    assert(d[1][16] != d[3][16]);
    assert(d[2][16] != d[3][16]);
    assert(d[4][9] != d[5][9]);
    assert forall|i: int, j: int| 0 <= i < d.len() && 0 <= j < d.len() && i != j implies d[i]
        != d[j] by {
        assert(i == 0 || i == 1 || i == 2 || i == 3 || i == 4 || i == 5 || i == 6);
        assert(j == 0 || j == 1 || j == 2 || j == 3 || j == 4 || j == 5 || j == 6);
    }
    extending_nothing(d);
}

proof fn extending_nothing(d: Seq<Seq<char>>)
    requires
        d.no_duplicates(),
    ensures
        words::extended(seq![], d) == d,
    decreases d.len(),
{
    if d.len() > 0 {
        let front = d.drop_last();
        assert(front.no_duplicates());
        extending_nothing(front);
        assert(!front.contains(d.last()));
        assert(front.push(d.last()) =~= d);
    }
}

/// No algorithm is asked for twice for a host.
pub proof fn known_algorithms_are_distinct(
    port: u16,
    with_port: Seq<Seq<Seq<char>>>,
    plain: Seq<Seq<Seq<char>>>,
)
    ensures
        algos_of(port, with_port, plain).no_duplicates(),
{
    files_are_distinct(with_port);
    files_are_distinct(plain);
}

proof fn files_are_distinct(files: Seq<Seq<Seq<char>>>)
    ensures
        of_files(files).no_duplicates(),
    decreases files.len(),
{
    if files.len() > 0 {
        files_are_distinct(files.drop_last());
        keys_stay_distinct(of_files(files.drop_last()), files.last());
    }
}

proof fn keys_stay_distinct(l: Seq<Seq<char>>, recorded: Seq<Seq<char>>)
    requires
        l.no_duplicates(),
    ensures
        with_keys(l, recorded).no_duplicates(),
    decreases recorded.len(),
{
    if recorded.len() > 0 {
        keys_stay_distinct(l, recorded.drop_last());
        extension_is_faithful(with_keys(l, recorded.drop_last()), family(recorded.last()));
    }
}

} // verus!
