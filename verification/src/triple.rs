//! Mapping what `uname` reports to a target triple.
//!
//! The mapping is conservative: an unknown system is an error that names what was
//! detected.

use crate::text;
use crate::transport::{TransportError, Trouble};
use crate::words;
use vstd::prelude::*;

verus! {

/// Static Linux on x86-64.
pub const X86_64_LINUX_MUSL: &'static str = "x86_64-unknown-linux-musl";

/// Static Linux on ARM64.
pub const AARCH64_LINUX_MUSL: &'static str = "aarch64-unknown-linux-musl";

/// Intel macOS.
pub const X86_64_DARWIN: &'static str = "x86_64-apple-darwin";

/// Apple-silicon macOS.
pub const AARCH64_DARWIN: &'static str = "aarch64-apple-darwin";

/// Every triple that can be served.
pub const SUPPORTED: [&'static str; 4] = [
    X86_64_LINUX_MUSL,
    AARCH64_LINUX_MUSL,
    X86_64_DARWIN,
    AARCH64_DARWIN,
];

/// The texts of the triples that can be served.
pub open spec fn supported_texts() -> Seq<Seq<char>> {
    Seq::new(SUPPORTED@.len(), |i: int| SUPPORTED@[i]@)
}

/// The triples that can be served, with commas between them.
pub open spec fn supported_text() -> Seq<char> {
    text::join(supported_texts(), ", "@)
}

/// The triples that can be served, with commas between them.
pub fn supported_list() -> (s: String)
    ensures
        s@ == supported_text(),
{
    let all = SUPPORTED;
    let mut parts: Vec<String> = Vec::new();
    let mut i: usize = 0;
    while i < all.len()
        invariant
            i <= all@.len(),
            all == SUPPORTED,
            parts@.len() == i,
            forall|j: int| 0 <= j < i ==> (#[trigger] parts@[j])@ == all@[j]@,
        decreases all@.len() - i,
    {
        parts.push(all[i].to_owned());
        i = i + 1;
    }
    assert(text::strings(parts@) =~= supported_texts());
    words::join_strings(&parts, ", ")
}

/// The name of an Intel or AMD 64-bit processor.
pub open spec fn is_x86_64(arch: Seq<char>) -> bool {
    arch == "x86_64"@ || arch == "amd64"@
}

/// The name of an ARM 64-bit processor.
pub open spec fn is_arm64(arch: Seq<char>) -> bool {
    arch == "aarch64"@ || arch == "arm64"@
}

/// The triple of a system, given its names as `uname` reports them; letter case
/// and surrounding white space do not matter.
pub open spec fn triple_of(os: Seq<char>, arch: Seq<char>) -> Option<Seq<char>> {
    let o = words::lowered(text::trim(os));
    let a = words::lowered(text::trim(arch));
    if o == "linux"@ && is_x86_64(a) {
        Some(X86_64_LINUX_MUSL@)
    } else if o == "linux"@ && is_arm64(a) {
        Some(AARCH64_LINUX_MUSL@)
    } else if o == "darwin"@ && is_x86_64(a) {
        Some(X86_64_DARWIN@)
    } else if o == "darwin"@ && is_arm64(a) {
        Some(AARCH64_DARWIN@)
    } else {
        None
    }
}

/// Map what `uname -s` and `uname -m` report to a triple that can be served.
pub fn uname_to_triple(os: &str, arch: &str) -> (r: Result<&'static str, TransportError>)
    ensures
        match r {
            Ok(t) => triple_of(os@, arch@) == Some(t@),
            Err(e) => triple_of(os@, arch@) is None && e@ == (Trouble::UnsupportedTarget {
                detected: text::trim(os@) + " "@ + text::trim(arch@),
                supported: supported_text(),
            }),
        },
{
    let os_chars = text::chars_of(os);
    let arch_chars = text::chars_of(arch);
    let os_trimmed = text::trim_chars(os_chars.as_slice());
    let arch_trimmed = text::trim_chars(arch_chars.as_slice());
    let o = words::lower_chars(os_trimmed.as_slice());
    let a = words::lower_chars(arch_trimmed.as_slice());
    let linux = text::reads(o.as_slice(), "linux");
    let darwin = text::reads(o.as_slice(), "darwin");
    let x86_64 = text::reads(a.as_slice(), "x86_64") || text::reads(a.as_slice(), "amd64");
    let arm64 = text::reads(a.as_slice(), "aarch64") || text::reads(a.as_slice(), "arm64");
    if linux && x86_64 {
        return Ok(X86_64_LINUX_MUSL);
    }
    if linux && arm64 {
        return Ok(AARCH64_LINUX_MUSL);
    }
    if darwin && x86_64 {
        return Ok(X86_64_DARWIN);
    }
    if darwin && arm64 {
        return Ok(AARCH64_DARWIN);
    }
    let mut detected: Vec<char> = os_trimmed;
    text::push_text(&mut detected, " ");
    text::push_all(&mut detected, arch_trimmed.as_slice());
    Err(
        TransportError::UnsupportedTarget {
            detected: text::string_of(detected.as_slice()),
            supported: supported_list(),
        },
    )
}

/// Split what `uname -s -m` printed into the two names. Anything but two words is
/// an error.
pub fn parse_uname(stdout: &str) -> (r: Result<(String, String), TransportError>)
    ensures
        match r {
            Ok((os, arch)) => {
                &&& words::words(stdout@).len() == 2
                &&& os@ == words::words(stdout@)[0]
                &&& arch@ == words::words(stdout@)[1]
            },
            Err(e) => words::words(stdout@).len() != 2 && e@ == (Trouble::UnsupportedTarget {
                detected: text::trim(stdout@),
                supported: supported_text(),
            }),
        },
{
    let chars = text::chars_of(stdout);
    let parts = words::split_words(chars.as_slice());
    assert(text::texts(parts@).len() == parts@.len());
    if parts.len() == 2 {
        assert(text::texts(parts@)[0] == parts@[0]@);
        assert(text::texts(parts@)[1] == parts@[1]@);
        Ok((text::string_of(parts[0].as_slice()), text::string_of(parts[1].as_slice())))
    } else {
        let t = text::trim_chars(chars.as_slice());
        Err(
            TransportError::UnsupportedTarget {
                detected: text::string_of(t.as_slice()),
                supported: supported_list(),
            },
        )
    }
}

/// The processor and the system of a triple, its first and third field.
pub open spec fn arch_os_of(t: Seq<char>) -> Option<(Seq<char>, Seq<char>)> {
    let fields = text::split(t, '-');
    if fields.len() >= 3 {
        Some((fields[0], fields[2]))
    } else {
        None
    }
}

/// The processor and the system of a triple, whatever its vendor and its C
/// runtime are; `None` where it has fewer than three fields.
pub fn arch_os(triple: &str) -> (r: Option<(&str, &str)>)
    ensures
        match r {
            Some((arch, os)) => arch_os_of(triple@) == Some((arch@, os@)),
            None => arch_os_of(triple@) is None,
        },
{
    let chars = text::chars_of(triple);
    let n: usize = chars.len();
    let a: usize = text::find_char(chars.as_slice(), '-', 0);
    proof {
        text::find_spec(triple@, '-', 0);
    }
    if a >= n {
        assert(text::split(triple@, '-').len() == 1);
        return None;
    }
    let b: usize = text::find_char(chars.as_slice(), '-', a + 1);
    proof {
        text::find_spec(triple@, '-', a + 1);
    }
    if b >= n {
        assert(text::split_from(triple@, '-', a + 1).len() == 1);
        return None;
    }
    let c: usize = text::find_char(chars.as_slice(), '-', b + 1);
    proof {
        text::find_spec(triple@, '-', b + 1);
        let rest = text::split_from(triple@, '-', b + 1);
        let middle = text::split_from(triple@, '-', a + 1);
        let all = text::split(triple@, '-');
        assert(rest.len() >= 1);
        assert(middle[1] == rest[0]);
        assert(all[2] == middle[1]);
        assert(all[0] == triple@.subrange(0, a as int));
        assert(rest[0] =~= triple@.subrange(b + 1, c as int));
    }
    Some((triple.substring_char(0, a), triple.substring_char(b + 1, c)))
}

/// Law: what a system maps to is a triple that can be served.
pub proof fn mapped_triples_are_supported(os: Seq<char>, arch: Seq<char>)
    requires
        triple_of(os, arch) is Some,
    ensures
        supported_texts().contains(triple_of(os, arch)->Some_0),
{
    assert(supported_texts()[0] == X86_64_LINUX_MUSL@);
    assert(supported_texts()[1] == AARCH64_LINUX_MUSL@);
    assert(supported_texts()[2] == X86_64_DARWIN@);
    assert(supported_texts()[3] == AARCH64_DARWIN@);
}

} // verus!
