//! Rewriting a remote path's leading `~` against the remote home directory.

use crate::text;
use crate::transport::{TransportError, Trouble};
use crate::words;
use vstd::prelude::*;

verus! {

/// `s` without trailing slashes.
pub open spec fn without_slashes(s: Seq<char>) -> Seq<char>
    decreases s.len(),
{
    if s.len() > 0 && s.last() == '/' {
        without_slashes(s.drop_last())
    } else {
        s
    }
}

/// Why a home directory of another user is not looked up.
pub open spec fn other_home() -> Seq<char> {
    "~user/ home expansion is not supported; use an explicit path or ~/…"@
}

/// The path with a leading `~` rewritten: `~` is the home directory and `~/rest`
/// lies in it; `~user` is an error; any other path stays as it is.
pub open spec fn tilde_expanded(p: Seq<char>, home: Seq<char>) -> Result<Seq<char>, Trouble> {
    let h = without_slashes(home);
    if p == "~"@ {
        Ok(h)
    } else if words::begins(p, "~/"@) {
        Ok(h + "/"@ + p.skip(2))
    } else if p.len() > 0 && p[0] == '~' {
        Err(Trouble::RemotePath { path: p, reason: other_home() })
    } else {
        Ok(p)
    }
}

fn trim_slashes(s: &str) -> (r: Vec<char>)
    ensures
        r@ == without_slashes(s@),
{
    let mut v = text::chars_of(s);
    while v.len() > 0 && v[v.len() - 1] == '/'
        invariant
            without_slashes(v@) == without_slashes(s@),
        decreases v@.len(),
    {
        v.pop();
    }
    v
}

/// Rewrite a remote path's leading `~` against the remote `home` directory.
pub fn expand_remote_tilde(path: &str, home: &str) -> (r: Result<String, TransportError>)
    ensures
        match r {
            Ok(p) => tilde_expanded(path@, home@) == Ok::<Seq<char>, Trouble>(p@),
            Err(e) => tilde_expanded(path@, home@) == Err::<Seq<char>, Trouble>(e@),
        },
{
    let mut h = trim_slashes(home);
    let p = text::chars_of(path);
    if text::reads(p.as_slice(), "~") {
        return Ok(text::string_of(h.as_slice()));
    }
    if words::begins_with(p.as_slice(), "~/") {
        proof {
            reveal_strlit("~/");
        }
        let rest = text::slice_of(p.as_slice(), 2, p.len());
        assert(rest@ =~= path@.skip(2));
        text::push_text(&mut h, "/");
        text::push_all(&mut h, rest.as_slice());
        return Ok(text::string_of(h.as_slice()));
    }
    if p.len() > 0 && p[0] == '~' {
        return Err(
            TransportError::RemotePath {
                path: path.to_owned(),
                reason: "~user/ home expansion is not supported; use an explicit path or ~/…".to_owned(),
            },
        );
    }
    Ok(path.to_owned())
}

/// Law: expanding never doubles the separator, and what is expanded is not
/// expanded again, where the home directory is an absolute path.
pub proof fn expansion_is_settled(p: Seq<char>, home: Seq<char>)
    requires
        home.len() > 0,
        home[0] == '/',
        tilde_expanded(p, home) is Ok,
    ensures
        tilde_expanded(tilde_expanded(p, home)->Ok_0, home) == tilde_expanded(p, home),
        without_slashes(home).len() > 0 ==> without_slashes(home).last() != '/',
{
    reveal_strlit("~");
    reveal_strlit("~/");
    reveal_strlit("/");
    trimmed_front(home);
    let q = tilde_expanded(p, home)->Ok_0;
    if p == "~"@ || words::begins(p, "~/"@) {
        if q.len() > 0 {
            assert(q[0] == '/');
        }
        if words::begins(q, "~/"@) {
            assert(q.take(2)[0] == "~/"@[0]);
        }
    }
}

proof fn trimmed_front(s: Seq<char>)
    ensures
        without_slashes(s).len() > 0 ==> s.len() > 0 && without_slashes(s)[0] == s[0]
            && without_slashes(s).last() != '/',
    decreases s.len(),
{
    if s.len() > 0 && s.last() == '/' {
        trimmed_front(s.drop_last());
    }
}

} // verus!
