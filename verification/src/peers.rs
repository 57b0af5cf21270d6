//! Laws of the peer's binary and of its paths.

use crate::binsource;
use crate::binsource::BinaryPlan;
use crate::bootstrap;
use crate::directives;
use crate::remote;
use crate::remotepath;
use crate::targets;
use crate::text;
use crate::transport::Trouble;
use crate::triple;
use crate::ways;
use crate::words;
use vstd::prelude::*;

verus! {

// ---- triples ---------------------------------------------------------------
/// The text holds no dash.
pub open spec fn undashed(s: Seq<char>) -> bool {
    forall|i: int| 0 <= i < s.len() ==> (#[trigger] s[i]) != '-'
}

proof fn a_field_leads(f: Seq<char>, rest: Seq<char>)
    requires
        undashed(f),
    ensures
        text::split(f + seq!['-'] + rest, '-') == seq![f] + text::split(rest, '-'),
        text::split(rest, '-').len() > 0,
{
    ways::a_piece_leads(f, '-', rest);
}

/// Law: the first field of a triple tells its processor and the third its system,
/// whatever the second is and whatever comes behind.
pub proof fn a_triple_tells_processor_and_system(
    arch: Seq<char>,
    vendor: Seq<char>,
    os: Seq<char>,
    env: Seq<char>,
)
    requires
        undashed(arch),
        undashed(vendor),
        undashed(os),
    ensures
        triple::arch_os_of(arch + seq!['-'] + (vendor + seq!['-'] + (os + seq!['-'] + env)))
            == Some((arch, os)),
        triple::arch_os_of(arch + seq!['-'] + (vendor + seq!['-'] + os)) == Some((arch, os)),
        triple::arch_os_of(arch + seq!['-'] + vendor) is None,
        triple::arch_os_of(arch) is None,
{
    a_field_leads(os, env);
    a_field_leads(vendor, os + seq!['-'] + env);
    a_field_leads(arch, vendor + seq!['-'] + (os + seq!['-'] + env));
    alone(os);
    a_field_leads(vendor, os);
    a_field_leads(arch, vendor + seq!['-'] + os);
    alone(vendor);
    a_field_leads(arch, vendor);
    alone(arch);
}

proof fn alone(f: Seq<char>)
    requires
        undashed(f),
    ensures
        text::split(f, '-') == seq![f],
{
    ways::a_piece_alone(f, '-');
}

/// Law: what a system is mapped to tells the same processor and the same system, whatever
/// the letter case, with any white space around the names; and every 64-bit Intel, AMD or
/// ARM machine with Linux or macOS is mapped to something.
pub proof fn systems_are_mapped_to_their_own(os: Seq<char>, arch: Seq<char>)
    ensures
        ({
            let o = words::lowered(text::trim(os));
            let a = words::lowered(text::trim(arch));
            let known = (o == "linux"@ || o == "darwin"@) && (a == "x86_64"@ || a == "amd64"@ || a
                == "aarch64"@ || a == "arm64"@);
            let t = triple::triple_of(os, arch);
            &&& t is Some <==> known
            &&& known ==> triple::arch_os_of(t->Some_0) == Some(
                (
                    if a == "x86_64"@ || a == "amd64"@ {
                        "x86_64"@
                    } else {
                        "aarch64"@
                    },
                    o,
                ),
            )
        }),
{
    reveal_strlit("linux");
    reveal_strlit("darwin");
    reveal_strlit("x86_64");
    reveal_strlit("amd64");
    reveal_strlit("aarch64");
    reveal_strlit("arm64");
    reveal_strlit("unknown");
    reveal_strlit("apple");
    reveal_strlit("musl");
    reveal_strlit("x86_64-unknown-linux-musl");
    reveal_strlit("aarch64-unknown-linux-musl");
    reveal_strlit("x86_64-apple-darwin");
    reveal_strlit("aarch64-apple-darwin");
    assert("linux"@.len() == 5 && "darwin"@.len() == 6);
    assert("x86_64"@.len() == 6 && "amd64"@.len() == 5);
    assert("aarch64"@.len() == 7 && "arm64"@.len() == 5);
    assert("amd64"@[1] != "arm64"@[1]);
    a_triple_tells_processor_and_system("x86_64"@, "unknown"@, "linux"@, "musl"@);
    a_triple_tells_processor_and_system("aarch64"@, "unknown"@, "linux"@, "musl"@);
    a_triple_tells_processor_and_system("x86_64"@, "apple"@, "darwin"@, "musl"@);
    a_triple_tells_processor_and_system("aarch64"@, "apple"@, "darwin"@, "musl"@);
    let d = seq!['-'];
    assert("x86_64"@ + d + ("unknown"@ + d + ("linux"@ + d + "musl"@))
        =~= "x86_64-unknown-linux-musl"@);
    assert("aarch64"@ + d + ("unknown"@ + d + ("linux"@ + d + "musl"@))
        =~= "aarch64-unknown-linux-musl"@);
    assert("x86_64"@ + d + ("apple"@ + d + "darwin"@) =~= "x86_64-apple-darwin"@);
    assert("aarch64"@ + d + ("apple"@ + d + "darwin"@) =~= "aarch64-apple-darwin"@);
}

/// Law: white space around the names of a system does not matter.
pub proof fn white_space_around_names_does_not_matter(
    a: Seq<char>,
    os: Seq<char>,
    b: Seq<char>,
    arch: Seq<char>,
)
    requires
        targets::blank(a),
        targets::blank(b),
        targets::bare(os),
        targets::bare(arch),
    ensures
        triple::triple_of(a + os + b, arch) == triple::triple_of(os, arch),
        triple::triple_of(os, a + arch + b) == triple::triple_of(os, arch),
{
    let none = Seq::<char>::empty();
    targets::trimming_leaves_the_middle(a, os, b);
    targets::trimming_leaves_the_middle(none, os, none);
    targets::trimming_leaves_the_middle(a, arch, b);
    targets::trimming_leaves_the_middle(none, arch, none);
    assert(none + os + none =~= os);
    assert(none + arch + none =~= arch);
}

/// Law: the remote system is told by the two words that it answers: the system and the
/// processor. Any other answer is refused.
pub proof fn a_system_is_told_by_two_words(os: Seq<char>, sep: char, arch: Seq<char>, s: Seq<char>)
    requires
        directives::one_word(os),
        directives::one_word(arch),
        text::is_space(sep),
    ensures
        ({
            let r = remote::system_of(os + seq![sep] + arch);
            match triple::triple_of(os, arch) {
                Some(t) => r == Ok::<Seq<char>, Trouble>(t),
                None => r is Err && r->Err_0 is UnsupportedTarget,
            }
        }),
        words::words(s).len() != 2 ==> remote::system_of(s) is Err && remote::system_of(s)->Err_0
            is UnsupportedTarget,
{
    directives::a_word_leads(os, sep, arch);
    directives::a_word_leads(arch, sep, seq![]);
    let l = words::words(os + seq![sep] + arch);
    assert(l =~= seq![os, arch]);
}

// ---- binaries --------------------------------------------------------------
/// Law: which binary serves which remote. A binary serves a remote of its own triple, and
/// then it is no substitute. A development build serves, as a substitute, every other
/// remote of the same processor and system. No other remote is served.
pub proof fn which_remotes_are_served(
    arch: Seq<char>,
    vendor: Seq<char>,
    os: Seq<char>,
    env: Seq<char>,
    built_for: Seq<char>,
    dev: bool,
)
    requires
        undashed(arch),
        undashed(vendor),
        undashed(os),
    ensures
        ({
            let asked = arch + seq!['-'] + (vendor + seq!['-'] + (os + seq!['-'] + env));
            binsource::plan_of(asked, built_for, dev) == if asked == built_for {
                Some(BinaryPlan { dev_substitution: false })
            } else if dev && triple::arch_os_of(built_for) == Some((arch, os)) {
                Some(BinaryPlan { dev_substitution: true })
            } else {
                None
            }
        }),
{
    a_triple_tells_processor_and_system(arch, vendor, os, env);
}

/// Law: binaries for other triples stay untouched.
pub proof fn other_triples_stay_untouched(
    entries: Seq<Seq<char>>,
    version: Seq<char>,
    other: Seq<char>,
    i: int,
    j: int,
)
    requires
        0 <= i < 4,
        0 <= j < 4,
        i != j,
    ensures
        !bootstrap::stale_of(entries, version, triple::SUPPORTED@[i]@).contains(
            bootstrap::name_of(other, triple::SUPPORTED@[j]@),
        ),
{
    let t = triple::SUPPORTED@[i]@;
    let name = bootstrap::name_of(other, triple::SUPPORTED@[j]@);
    if bootstrap::stale_of(entries, version, t).contains(name) {
        bootstrap::only_stale_binaries_are_removed(entries, version, t, name);
        let v = choose|v: Seq<char>| v != version && name == #[trigger] bootstrap::name_of(v, t);
        ends_in_its_triple(other, triple::SUPPORTED@[j]@);
        ends_in_its_triple(v, t);
        if i < j {
            binsource::triples_differ(name, i, j);
        } else {
            binsource::triples_differ(name, j, i);
        }
    }
}

proof fn ends_in_its_triple(v: Seq<char>, t: Seq<char>)
    ensures
        words::ends(bootstrap::name_of(v, t), "-"@ + t),
{
    let name = bootstrap::name_of(v, t);
    let tail = "-"@ + t;
    assert(name.skip(name.len() - tail.len()) =~= tail);
}

// ---- home directories ------------------------------------------------------
/// The text is made of slashes.
pub open spec fn slashes(s: Seq<char>) -> bool {
    forall|i: int| 0 <= i < s.len() ==> (#[trigger] s[i]) == '/'
}

proof fn slashes_go(h: Seq<char>, s: Seq<char>)
    requires
        h.len() > 0 ==> h[h.len() - 1] != '/',
        slashes(s),
    ensures
        remotepath::without_slashes(h + s) == h,
    decreases s.len(),
{
    if s.len() > 0 {
        assert((h + s).last() == s[s.len() - 1]);
        assert((h + s).drop_last() =~= h + s.drop_last());
        slashes_go(h, s.drop_last());
    } else {
        assert(h + s =~= h);
    }
}

/// Law: a tilde stands for the home directory: alone, and before a slash, with one slash
/// between the directory and the rest, however many the directory ends in. Before anything
/// else it is refused. A path without a leading tilde stays as it is.
pub proof fn a_tilde_is_the_home_directory(h: Seq<char>, s: Seq<char>, rest: Seq<char>)
    requires
        h.len() > 0 ==> h[h.len() - 1] != '/',
        slashes(s),
    ensures
        remotepath::tilde_expanded(seq!['~'], h + s) == Ok::<Seq<char>, Trouble>(h),
        remotepath::tilde_expanded(seq!['~', '/'] + rest, h + s) == Ok::<Seq<char>, Trouble>(
            h + seq!['/'] + rest,
        ),
        rest.len() > 0 && rest[0] != '/' ==> remotepath::tilde_expanded(seq!['~'] + rest, h + s)
            is Err,
        rest.len() == 0 || rest[0] != '~' ==> remotepath::tilde_expanded(rest, h + s) == Ok::<
            Seq<char>,
            Trouble,
        >(rest),
{
    reveal_strlit("~");
    reveal_strlit("~/");
    reveal_strlit("/");
    slashes_go(h, s);
    assert(seq!['~'] =~= "~"@);
    let p = seq!['~', '/'] + rest;
    assert(p.take(2) =~= "~/"@);
    assert(p.skip(2) =~= rest);
    assert(p.len() >= 2);
    assert("/"@ =~= seq!['/']);
    let q = seq!['~'] + rest;
    if rest.len() > 0 && rest[0] != '/' {
        assert(q.len() > 1 && q[0] == '~' && q[1] == rest[0]);
        if words::begins(q, "~/"@) {
            assert(q.take(2)[1] == "~/"@[1]);
        }
    }
    if rest.len() == 0 || rest[0] != '~' {
        if words::begins(rest, "~/"@) {
            assert(rest.take(2)[0] == "~/"@[0]);
        }
    }
}

} // verus!
