//! Laws of targets: what is written is what is read.

use crate::hostspec;
use crate::hostspec::TargetModel;
use crate::sshconfig;
use crate::sshconfig::HopModel;
use crate::text;
use crate::words;
use vstd::prelude::*;

verus! {

// ---- white space -----------------------------------------------------------
/// The text is white space.
pub open spec fn blank(s: Seq<char>) -> bool {
    forall|i: int| 0 <= i < s.len() ==> text::is_space(#[trigger] s[i])
}

/// The text begins and ends with something that is no white space.
pub open spec fn bare(s: Seq<char>) -> bool {
    s.len() > 0 && !text::is_space(s[0]) && !text::is_space(s[s.len() - 1])
}

/// What is left of a text without the white space around it.
pub proof fn trimming_leaves_the_middle(a: Seq<char>, s: Seq<char>, b: Seq<char>)
    requires
        blank(a),
        blank(b),
        bare(s) || s.len() == 0,
    ensures
        text::trim(a + s + b) == s,
{
    let t = a + s + b;
    text::first_word_bounds(t, 0);
    let f = text::first_word(t, 0);
    if s.len() == 0 {
        assert forall|i: int| 0 <= i < t.len() implies text::is_space(#[trigger] t[i]) by {
            if i < a.len() {
                assert(t[i] == a[i]);
            } else {
                assert(t[i] == b[i - a.len()]);
            }
        }
        assert(f == t.len());
        assert(text::trim(t) =~= s);
    } else {
        assert(t[a.len() as int] == s[0]);
        assert(f == a.len()) by {
            if f < a.len() {
                assert(t[f] == a[f]);
            }
        }
        let u = s + b;
        assert(text::trim_start(t) =~= u);
        text::last_word_bounds(u, 0, u.len() as int);
        let l = text::last_word(u, 0, u.len() as int);
        assert(l == s.len()) by {
            if l > s.len() {
                assert(u[l - 1] == b[l - 1 - s.len()]);
            }
            if l < s.len() {
                assert(u[s.len() - 1] == s[s.len() - 1]);
            }
        }
        assert(text::trim_end(u) =~= s);
    }
}

/// A text is white space, what is left of it, and white space.
proof fn around_the_middle(s: Seq<char>) -> (ends: (Seq<char>, Seq<char>))
    ensures
        blank(ends.0),
        blank(ends.1),
        bare(text::trim(s)) || text::trim(s).len() == 0,
        s == ends.0 + text::trim(s) + ends.1,
{
    text::first_word_bounds(s, 0);
    let f = text::first_word(s, 0);
    let u = text::trim_start(s);
    text::last_word_bounds(u, 0, u.len() as int);
    let l = text::last_word(u, 0, u.len() as int);
    let m = text::trim(s);
    let a = s.take(f);
    let b = u.skip(l);
    assert(s =~= a + m + b);
    if m.len() > 0 {
        assert(m[0] == s[f]);
        assert(m[m.len() - 1] == u[l - 1]);
    }
    (a, b)
}

/// Law: white space around a target does not matter.
pub proof fn white_space_does_not_matter(a: Seq<char>, s: Seq<char>, b: Seq<char>)
    requires
        blank(a),
        blank(b),
    ensures
        hostspec::target_of(a + s + b) == hostspec::target_of(s),
{
    let ends = around_the_middle(s);
    let m = text::trim(s);
    assert(a + s + b =~= (a + ends.0) + m + (ends.1 + b));
    trimming_leaves_the_middle(a + ends.0, m, ends.1 + b);
}

// ---- numerals --------------------------------------------------------------
/// Law: a numeral is read as its number.
pub proof fn numerals_are_read(n: nat)
    ensures
        words::digits_value(text::decimal(n)) == Some(n),
        text::decimal(n).len() > 0,
        '0' <= text::decimal(n)[0] <= '9',
    decreases n,
{
    let d = text::decimal(n);
    if n < 10 {
        assert(d.drop_last() =~= Seq::<char>::empty());
        assert(words::digits_value(d.drop_last()) == Some(0nat));
    } else {
        numerals_are_read(n / 10);
        assert(d.drop_last() =~= text::decimal(n / 10));
        assert(d.last() == text::digit(n % 10));
        assert(words::digit_value(d.last()) == Some(n % 10));
        assert(d[0] == text::decimal(n / 10)[0]);
    }
}

/// Law: which numbers are read: those up to 65535, a plus sign before them or not; larger
/// ones are refused, and so is a text with anything but digits in it, or with nothing.
pub proof fn which_numbers_are_read(n: nat, s: Seq<char>, i: int)
    ensures
        n <= 65535 ==> words::number16(text::decimal(n)) == Some(n as u16),
        n <= 65535 ==> words::number16(seq!['+'] + text::decimal(n)) == Some(n as u16),
        n > 65535 ==> words::number16(text::decimal(n)) is None,
        0 <= i < s.len() && !('0' <= s[i] <= '9') && (i > 0 || s[i] != '+') ==> words::number16(
            s,
        ) is None,
        words::number16(seq![]) is None,
        words::number16(seq!['+']) is None,
{
    numerals_are_read(n);
    let p = seq!['+'] + text::decimal(n);
    assert(p.skip(1) =~= text::decimal(n));
    assert(seq!['+'].skip(1) =~= Seq::<char>::empty());
    if 0 <= i < s.len() && !('0' <= s[i] <= '9') && (i > 0 || s[i] != '+') {
        let d = words::unsigned(s);
        if s[0] == '+' {
            assert(d[i - 1] == s[i]);
            no_other_digit(d, i - 1);
        } else {
            no_other_digit(d, i);
        }
    }
}

proof fn no_other_digit(d: Seq<char>, i: int)
    requires
        0 <= i < d.len(),
        !('0' <= d[i] <= '9'),
    ensures
        words::digits_value(d) is None,
    decreases d.len(),
{
    if i < d.len() - 1 {
        no_other_digit(d.drop_last(), i);
    }
}

proof fn port_is_read(p: u16)
    requires
        p > 0,
    ensures
        hostspec::port_of(text::decimal(p as nat)) == Ok::<u16, Seq<char>>(p),
{
    numerals_are_read(p as nat);
}

// ---- targets ---------------------------------------------------------------
/// How a target is written: the user, if there is one, an at sign, and the place.
pub open spec fn written(user: Option<Seq<char>>, place: Seq<char>) -> Seq<char> {
    match user {
        Some(u) => u + seq!['@'] + place,
        None => place,
    }
}

/// The text begins with an opening bracket.
pub open spec fn bracketed(s: Seq<char>) -> bool {
    s.len() > 0 && s[0] == '['
}

/// The user is one that can be written: not empty, and without an at sign.
pub open spec fn writable(user: Option<Seq<char>>) -> bool {
    user is Some ==> user->Some_0.len() > 0 && !user->Some_0.contains('@')
}

proof fn the_place_is_read(user: Option<Seq<char>>, place: Seq<char>)
    requires
        writable(user),
        !place.contains('@'),
        bare(written(user, place)),
    ensures
        hostspec::target_of(written(user, place)) == hostspec::with_user(user, place),
{
    let s = written(user, place);
    let none = Seq::<char>::empty();
    trimming_leaves_the_middle(none, s, none);
    assert(none + s + none =~= s);
    match user {
        Some(u) => {
            assert forall|j: int| 0 <= j < u.len() implies s[j] != '@' by {
                assert(s[j] == u[j]);
                assert(u.contains(u[j]));
            }
            text::find_at(s, '@', 0, u.len() as int);
            assert(s.take(u.len() as int) =~= u);
            assert(s.skip(u.len() as int + 1) =~= place);
        },
        None => {
            assert forall|j: int| 0 <= j < s.len() implies s[j] != '@' by {
                assert(s.contains(s[j]));
            }
            text::find_absent(s, '@', 0);
        },
    }
}

proof fn last_colon(s: Seq<char>, k: int, n: int)
    requires
        0 <= k < n <= s.len(),
        s[k] == ':',
        forall|j: int| k < j < n ==> s[j] != ':',
    ensures
        hostspec::rfind(s, ':', n) == k,
    decreases n,
{
    if n - 1 > k {
        last_colon(s, k, n - 1);
    }
}

proof fn no_colon(s: Seq<char>, n: int)
    requires
        0 <= n <= s.len(),
        forall|j: int| 0 <= j < n ==> s[j] != ':',
    ensures
        hostspec::rfind(s, ':', n) == -1,
    decreases n,
{
    if n > 0 {
        no_colon(s, n - 1);
    }
}

/// Where the last colon is.
proof fn some_colon(s: Seq<char>, n: int)
    requires
        0 <= n <= s.len(),
    ensures
        -1 <= hostspec::rfind(s, ':', n) < n,
        hostspec::rfind(s, ':', n) >= 0 ==> s[hostspec::rfind(s, ':', n)] == ':',
        forall|j: int| hostspec::rfind(s, ':', n) < j < n ==> s[j] != ':',
    decreases n,
{
    if n > 0 {
        some_colon(s, n - 1);
    }
}

proof fn digits_hold_no_colon(n: nat, j: int)
    requires
        0 <= j < text::decimal(n).len(),
    ensures
        text::decimal(n)[j] != ':',
    decreases n,
{
    if n >= 10 && j < text::decimal(n).len() - 1 {
        digits_hold_no_colon(n / 10, j);
    }
}

/// Law: a host that is written without a port is read with port 22. A host with more
/// than one colon, as an address has them, is a host without a port.
pub proof fn a_host_is_read(user: Option<Seq<char>>, host: Seq<char>)
    requires
        writable(user),
        host.len() > 0,
        !host.contains('@'),
        !bracketed(host),
        !host.contains(':') || exists|i: int, j: int|
            0 <= i < j < host.len() && host[i] == ':' && host[j] == ':',
        bare(written(user, host)),
    ensures
        hostspec::target_of(written(user, host)) == Ok::<TargetModel, Seq<char>>(
            TargetModel { user, host, port: 22 },
        ),
{
    the_place_is_read(user, host);
    let at = hostspec::rfind(host, ':', host.len() as int);
    some_colon(host, host.len() as int);
    if host.contains(':') {
        let (i, j) = choose|i: int, j: int|
            0 <= i < j < host.len() && host[i] == ':' && host[j] == ':';
        assert(j <= at);
        assert(host.take(at)[i] == ':');
        assert(host.take(at).contains(':'));
    } else if at >= 0 {
        assert(host.contains(host[at]));
    }
}

/// Law: a host and a port that are written are read.
pub proof fn a_host_and_port_are_read(user: Option<Seq<char>>, host: Seq<char>, port: u16)
    requires
        writable(user),
        host.len() > 0,
        !host.contains('@'),
        !bracketed(host),
        !host.contains(':'),
        port > 0,
        ({
            let place = host + seq![':'] + text::decimal(port as nat);
            bare(written(user, place)) && !place.contains('@')
        }),
    ensures
        hostspec::target_of(written(user, host + seq![':'] + text::decimal(port as nat))) == Ok::<
            TargetModel,
            Seq<char>,
        >(TargetModel { user, host, port }),
{
    let d = text::decimal(port as nat);
    let s = host + seq![':'] + d;
    the_place_is_read(user, s);
    port_is_read(port);
    assert(s[0] == host[0]);
    assert forall|j: int| host.len() < j < s.len() implies s[j] != ':' by {
        digits_hold_no_colon(port as nat, j - host.len() - 1);
    }
    last_colon(s, host.len() as int, s.len() as int);
    assert(s.take(host.len() as int) =~= host);
    assert(s.skip(host.len() as int + 1) =~= d);
}

/// Law: an address in brackets is read, with the port behind it, or with port 22.
pub proof fn an_address_is_read(user: Option<Seq<char>>, addr: Seq<char>, port: u16)
    requires
        writable(user),
        addr.len() > 0,
        !addr.contains('@'),
        !addr.contains(']'),
        port > 0,
    ensures
        ({
            let alone = seq!['['] + addr + seq![']'];
            let place = alone + seq![':'] + text::decimal(port as nat);
            &&& bare(written(user, alone)) && !alone.contains('@') ==> hostspec::target_of(
                written(user, alone),
            ) == Ok::<TargetModel, Seq<char>>(TargetModel { user, host: addr, port: 22 })
            &&& bare(written(user, place)) && !place.contains('@') ==> hostspec::target_of(
                written(user, place),
            ) == Ok::<TargetModel, Seq<char>>(TargetModel { user, host: addr, port })
        }),
{
    let d = text::decimal(port as nat);
    let alone = seq!['['] + addr + seq![']'];
    let place = alone + seq![':'] + d;
    let close = addr.len() as int + 1;
    port_is_read(port);
    assert forall|j: int| 1 <= j < close implies alone[j] != ']' && place[j] != ']' by {
        assert(alone[j] == addr[j - 1] && place[j] == addr[j - 1]);
        assert(addr.contains(addr[j - 1]));
    }
    if bare(written(user, alone)) && !alone.contains('@') {
        the_place_is_read(user, alone);
        text::find_at(alone, ']', 1, close);
        assert(alone.subrange(1, close) =~= addr);
        assert(alone.skip(close + 1) =~= Seq::<char>::empty());
    }
    if bare(written(user, place)) && !place.contains('@') {
        the_place_is_read(user, place);
        text::find_at(place, ']', 1, close);
        assert(place.subrange(1, close) =~= addr);
        let after = place.skip(close + 1);
        assert(after =~= seq![':'] + d);
        assert(after.skip(1) =~= d);
    }
}

/// The host with a colon and a numeral behind it.
pub open spec fn numbered(shown: Seq<char>, numeral: Seq<char>) -> Seq<char> {
    shown + seq![':'] + numeral
}

/// The place stands for the host and the port.
pub open spec fn places(place: Seq<char>, host: Seq<char>, port: u16) -> bool {
    if bracketed(place) {
        shows(place, seq!['['] + host + seq![']'], port)
    } else {
        shows(place, host, port)
    }
}

/// The place is what is shown of a host, alone or with the numeral of the port.
pub open spec fn shows(place: Seq<char>, shown: Seq<char>, port: u16) -> bool {
    (place == shown && port == 22) || exists|numeral: Seq<char>|
        place == #[trigger] numbered(shown, numeral) && words::number16(numeral) == Some(port)
}

/// Law: nothing else is read. A target that is read is, but for white space around it,
/// the user, if there is one, with the only at sign, and then the host, which is not empty, or
/// an address in brackets, alone or with a colon and the numeral of the port.
pub proof fn what_is_read_was_written(target: Seq<char>, m: TargetModel)
    requires
        hostspec::target_of(target) == Ok::<TargetModel, Seq<char>>(m),
    ensures
        exists|place: Seq<char>|
            text::trim(target) == #[trigger] written(m.user, place) && places(
                place,
                m.host,
                m.port,
            ) && !place.contains('@'),
        writable(m.user),
        m.host.len() > 0,
        m.port > 0,
{
    let s = text::trim(target);
    text::find_spec(s, '@', 0);
    let at = text::find(s, '@', 0);
    let place = if at >= s.len() {
        s
    } else {
        s.skip(at + 1)
    };
    assert(!place.contains('@')) by {
        if at >= s.len() && s.contains('@') {
            let i = s.index_of('@');
            assert(s[i] != '@');
        }
    }
    if at < s.len() {
        let u = s.take(at);
        assert(!u.contains('@')) by {
            if u.contains('@') {
                let i = u.index_of('@');
                assert(s[i] == u[i]);
            }
        }
        assert(s =~= u + seq!['@'] + place);
    }
    assert(s == written(m.user, place));
    the_place_stands(place, m.host, m.port);
}

proof fn the_place_stands(place: Seq<char>, host: Seq<char>, port: u16)
    requires
        hostspec::host_port_of(place) == Ok::<(Seq<char>, u16), Seq<char>>((host, port)),
    ensures
        places(place, host, port),
{
    if bracketed(place) {
        text::find_spec(place, ']', 1);
        let close = text::find(place, ']', 1);
        let after = place.skip(close + 1);
        let shown = seq!['['] + host + seq![']'];
        assert(place.subrange(1, close) == host);
        assert(shown =~= place.take(close + 1));
        if after.len() == 0 {
            assert(place =~= shown);
            assert(shows(place, shown, port));
        } else {
            let numeral = after.skip(1);
            assert(numbered(shown, numeral) =~= place);
            assert(words::number16(numeral) == Some(port));
            assert(shows(place, shown, port));
        }
    } else {
        some_colon(place, place.len() as int);
        let k = hostspec::rfind(place, ':', place.len() as int);
        if k >= 0 && !place.take(k).contains(':') {
            let numeral = place.skip(k + 1);
            assert(numbered(host, numeral) =~= place);
            assert(words::number16(numeral) == Some(port));
            assert(shows(place, host, port));
        } else {
            assert(shows(place, host, port));
        }
    }
}

// ---- hops ------------------------------------------------------------------
proof fn a_hop_place_is_read(user: Option<Seq<char>>, place: Seq<char>)
    requires
        writable(user),
        !place.contains('@'),
        bare(written(user, place)),
    ensures
        ({
            let (host, port) = sshconfig::hop_host(place);
            sshconfig::hop_of(written(user, place)) == if host.len() == 0 {
                None
            } else {
                Some(HopModel { user, host, port })
            }
        }),
{
    let s = written(user, place);
    let none = Seq::<char>::empty();
    trimming_leaves_the_middle(none, s, none);
    assert(none + s + none =~= s);
    match user {
        Some(u) => {
            assert forall|j: int| 0 <= j < u.len() implies s[j] != '@' by {
                assert(s[j] == u[j]);
                assert(u.contains(u[j]));
            }
            text::find_at(s, '@', 0, u.len() as int);
            assert(s.take(u.len() as int) =~= u);
            assert(s.skip(u.len() as int + 1) =~= place);
        },
        None => {
            assert forall|j: int| 0 <= j < s.len() implies s[j] != '@' by {
                assert(s.contains(s[j]));
            }
            text::find_absent(s, '@', 0);
        },
    }
}

/// Law: a hop is read as it is written: a user, if there is one, and a host, alone or with
/// a port. A host with more than one colon has no port.
pub proof fn a_hop_is_read(user: Option<Seq<char>>, host: Seq<char>, port: u16)
    requires
        writable(user),
        host.len() > 0,
        !host.contains('@'),
        !bracketed(host),
    ensures
        ({
            let place = host + seq![':'] + text::decimal(port as nat);
            let several = exists|i: int, j: int|
                0 <= i < j < host.len() && host[i] == ':' && host[j] == ':';
            &&& bare(written(user, host)) && (!host.contains(':') || several) ==> sshconfig::hop_of(
                written(user, host),
            ) == Some(HopModel { user, host, port: None })
            &&& bare(written(user, place)) && !place.contains('@') && !host.contains(':')
                ==> sshconfig::hop_of(written(user, place)) == Some(
                HopModel { user, host, port: Some(port) },
            )
        }),
{
    let d = text::decimal(port as nat);
    let place = host + seq![':'] + d;
    let several = exists|i: int, j: int|
        0 <= i < j < host.len() && host[i] == ':' && host[j] == ':';
    if bare(written(user, host)) && (!host.contains(':') || several) {
        a_hop_place_is_read(user, host);
        let at = hostspec::rfind(host, ':', host.len() as int);
        some_colon(host, host.len() as int);
        if several {
            let (i, j) = choose|i: int, j: int|
                0 <= i < j < host.len() && host[i] == ':' && host[j] == ':';
            assert(j <= at);
            assert(host.take(at)[i] == ':');
            assert(host.take(at).contains(':'));
        } else if at >= 0 {
            assert(host.contains(host[at]));
        }
    }
    if bare(written(user, place)) && !place.contains('@') && !host.contains(':') {
        a_hop_place_is_read(user, place);
        numerals_are_read(port as nat);
        assert(place[0] == host[0]);
        assert forall|j: int| host.len() < j < place.len() implies place[j] != ':' by {
            digits_hold_no_colon(port as nat, j - host.len() - 1);
        }
        last_colon(place, host.len() as int, place.len() as int);
        assert(place.take(host.len() as int) =~= host);
        assert(place.skip(host.len() as int + 1) =~= d);
    }
}

/// Law: a hop that is an address in brackets is read, alone or with a port behind it.
pub proof fn a_hop_in_brackets_is_read(user: Option<Seq<char>>, addr: Seq<char>, port: u16)
    requires
        writable(user),
        addr.len() > 0,
        !addr.contains(']'),
    ensures
        ({
            let alone = seq!['['] + addr + seq![']'];
            let place = alone + seq![':'] + text::decimal(port as nat);
            &&& bare(written(user, alone)) && !alone.contains('@') ==> sshconfig::hop_of(
                written(user, alone),
            ) == Some(HopModel { user, host: addr, port: None })
            &&& bare(written(user, place)) && !place.contains('@') ==> sshconfig::hop_of(
                written(user, place),
            ) == Some(HopModel { user, host: addr, port: Some(port) })
        }),
{
    let d = text::decimal(port as nat);
    let alone = seq!['['] + addr + seq![']'];
    let place = alone + seq![':'] + d;
    let close = addr.len() as int + 1;
    numerals_are_read(port as nat);
    assert forall|j: int| 1 <= j < close implies alone[j] != ']' && place[j] != ']' by {
        assert(alone[j] == addr[j - 1] && place[j] == addr[j - 1]);
        assert(addr.contains(addr[j - 1]));
    }
    if bare(written(user, alone)) && !alone.contains('@') {
        a_hop_place_is_read(user, alone);
        text::find_at(alone, ']', 1, close);
        assert(alone.subrange(1, close) =~= addr);
        assert(alone.skip(close + 1) =~= Seq::<char>::empty());
    }
    if bare(written(user, place)) && !place.contains('@') {
        a_hop_place_is_read(user, place);
        text::find_at(place, ']', 1, close);
        assert(place.subrange(1, close) =~= addr);
        let after = place.skip(close + 1);
        assert(after =~= seq![':'] + d);
        assert(after.skip(1) =~= d);
    }
}

/// Law: a hop without a host is none.
pub proof fn a_hop_needs_a_host(s: Seq<char>)
    requires
        blank(s),
    ensures
        sshconfig::hop_of(s) is None,
{
    let none = Seq::<char>::empty();
    trimming_leaves_the_middle(s, none, none);
    assert(s + none + none =~= s);
}

// ---- a target and a path ---------------------------------------------------
/// The text holds no brackets.
pub open spec fn open_text(s: Seq<char>) -> bool {
    forall|i: int| 0 <= i < s.len() ==> (#[trigger] s[i]) != '[' && s[i] != ']'
}

proof fn colon_passes(s: Seq<char>, i: int, j: int, depth: nat)
    requires
        0 <= i <= j <= s.len(),
        forall|k: int| i <= k < j ==> (#[trigger] s[k]) != '[' && s[k] != ']' && (depth > 0 || s[k] != ':'),
    ensures
        hostspec::outer_colon(s, i, depth) == hostspec::outer_colon(s, j, depth),
    decreases j - i,
{
    if i < j {
        colon_passes(s, i + 1, j, depth);
    }
}

/// Law: an argument is split at the first colon that stands outside brackets: what is
/// before it is the target, and what is behind it the path, whatever that holds.
pub proof fn an_argument_is_split(target: Seq<char>, path: Seq<char>)
    requires
        open_text(target),
        !target.contains(':'),
    ensures
        hostspec::outer_colon(target + seq![':'] + path, 0, 0) == target.len(),
        hostspec::outer_colon(target, 0, 0) == target.len(),
{
    let s = target + seq![':'] + path;
    assert forall|k: int| 0 <= k < target.len() implies (#[trigger] s[k]) != '[' && s[k] != ']'
        && s[k] != ':' by {
        assert(s[k] == target[k]);
        assert(target.contains(target[k]));
    }
    assert forall|k: int| 0 <= k < target.len() implies (#[trigger] target[k]) != ':' by {
        assert(target.contains(target[k]));
    }
    colon_passes(s, 0, target.len() as int, 0);
    colon_passes(target, 0, target.len() as int, 0);
}

/// Law: colons of an address in brackets do not split an argument.
pub proof fn an_address_is_not_split(
    before: Seq<char>,
    addr: Seq<char>,
    after: Seq<char>,
    path: Seq<char>,
)
    requires
        open_text(before),
        !before.contains(':'),
        open_text(addr),
        open_text(after),
        !after.contains(':'),
    ensures
        ({
            let target = before + seq!['['] + addr + seq![']'] + after;
            &&& hostspec::outer_colon(target + seq![':'] + path, 0, 0) == target.len()
            &&& hostspec::outer_colon(target, 0, 0) == target.len()
        }),
{
    let target = before + seq!['['] + addr + seq![']'] + after;
    let s = target + seq![':'] + path;
    assert forall|k: int| 0 <= k < target.len() implies s[k] == target[k] by {}
    address_passes(before, addr, after, s);
    address_passes(before, addr, after, target);
}

proof fn address_passes(before: Seq<char>, addr: Seq<char>, after: Seq<char>, s: Seq<char>)
    requires
        open_text(before),
        !before.contains(':'),
        open_text(addr),
        open_text(after),
        !after.contains(':'),
        ({
            let target = before + seq!['['] + addr + seq![']'] + after;
            target.len() <= s.len() && forall|k: int| 0 <= k < target.len() ==> s[k] == target[k]
        }),
    ensures
        hostspec::outer_colon(s, 0, 0) == hostspec::outer_colon(
            s,
            before.len() as int + addr.len() + after.len() + 2,
            0,
        ),
{
    let target = before + seq!['['] + addr + seq![']'] + after;
    let p = before.len() as int;
    let q = p + 1 + addr.len();
    let r = target.len() as int;
    assert forall|k: int| 0 <= k < p implies (#[trigger] s[k]) != '[' && s[k] != ']' && s[k]
        != ':' by {
        assert(s[k] == target[k] && target[k] == before[k]);
        assert(before.contains(before[k]));
    }
    colon_passes(s, 0, p, 0);
    assert(s[p] == target[p] && target[p] == '[');
    assert forall|k: int| p + 1 <= k < q implies (#[trigger] s[k]) != '[' && s[k] != ']' by {
        assert(s[k] == target[k] && target[k] == addr[k - p - 1]);
    }
    colon_passes(s, p + 1, q, 1);
    assert(s[q] == target[q] && target[q] == ']');
    assert forall|k: int| q + 1 <= k < r implies (#[trigger] s[k]) != '[' && s[k] != ']' && s[k]
        != ':' by {
        assert(s[k] == target[k] && target[k] == after[k - q - 1]);
        assert(after.contains(after[k - q - 1]));
    }
    colon_passes(s, q + 1, r, 0);
}

} // verus!
