//! Parsing and normalisation of the network endpoints that nodes are
//! configured with: orchestrator URLs, discovery targets and status URLs.

use crate::scan::{
    all_digits, chars_of, digits_value, find_first, find_last, first_of, has_prefix_at, is_ws, last_of,
    list_pieces, parse_unsigned, parse_unsigned_at, split_list, starts_with, trim, trim_bounds,
};
use crate::text::{decimal, decimal_spec};
use vstd::prelude::*;
use vstd::string::*;

verus! {

/// The text after an `http://` or `https://` scheme, if it has one.
pub open spec fn strip_scheme(t: Seq<char>) -> Seq<char> {
    if starts_with(t, "http://"@) {
        t.skip(7)
    } else if starts_with(t, "https://"@) {
        t.skip(8)
    } else {
        t
    }
}

/// The authority part of an address: trimmed, without scheme, up to the
/// first `/`.
pub open spec fn authority(addr: Seq<char>) -> Seq<char> {
    let w = strip_scheme(trim(addr));
    w.take(first_of(w, '/'))
}

/// The host and port of an address, as `host:port` or `[host]:port`,
/// optionally with an HTTP scheme and a path.
pub open spec fn host_port_spec(addr: Seq<char>) -> Option<(Seq<char>, u16)> {
    let p = authority(addr);
    if p.len() > 0 && p[0] == '[' {
        let e = first_of(p, ']');
        if e >= p.len() {
            None
        } else {
            let rest = p.skip(e + 1);
            if rest.len() > 0 && rest[0] == ':' {
                match parse_unsigned(rest.skip(1), 65535) {
                    Some(n) => Some((p.subrange(1, e), n as u16)),
                    None => None,
                }
            } else {
                None
            }
        }
    } else {
        let l = last_of(p, ':');
        if l < 0 {
            None
        } else {
            match parse_unsigned(p.skip(l + 1), 65535) {
                Some(n) => Some((p.take(l), n as u16)),
                None => None,
            }
        }
    }
}

/// Splits an address into host and port.
#[verifier::rlimit(80)]
pub fn split_host_port(addr: &str) -> (r: Option<(String, u16)>)
    ensures
        match r {
            Some((h, port)) => host_port_spec(addr@) == Some((h@, port)),
            None => host_port_spec(addr@) is None,
        },
{
    proof {
        reveal_strlit("http://");
        reveal_strlit("https://");
    }
    let v = chars_of(addr);
    let n = v.len();
    let (a, b) = trim_bounds(&v, 0, n);
    assert(v@.subrange(0, n as int) =~= addr@);
    let ghost t = v@.subrange(a as int, b as int);
    let mut w0 = a;
    if has_prefix_at(&v, a, b, "http://") {
        w0 = a + 7;
    } else if has_prefix_at(&v, a, b, "https://") {
        w0 = a + 8;
    }
    assert(strip_scheme(t) =~= v@.subrange(w0 as int, b as int));
    let p_end = find_first(&v, w0, b, '/');
    let ghost p = v@.subrange(w0 as int, p_end as int);
    assert(authority(addr@) =~= p);
    if w0 < p_end && v[w0] == '[' {
        assert(p[0] == v@[w0 as int]);
        let e = find_first(&v, w0, p_end, ']');
        if e == p_end {
            return None;
        }
        assert(e > w0);
        let ghost rest = p.skip(e - w0 + 1);
        assert(rest =~= v@.subrange(e + 1, p_end as int));
        if e + 1 < p_end && v[e + 1] == ':' {
            assert(rest[0] == v@[e + 1]);
            assert(rest.skip(1) =~= v@.subrange(e + 2, p_end as int));
            assert(p.subrange(1, e - w0) =~= v@.subrange(w0 + 1, e as int));
            match parse_unsigned_at(&v, e + 2, p_end, 65535) {
                Some(port) => {
                    let host = String::from_str(addr.substring_char(w0 + 1, e));
                    Some((host, port as u16))
                },
                None => None,
            }
        } else {
            None
        }
    } else {
        match find_last(&v, w0, p_end, ':') {
            None => None,
            Some(l) => {
                assert(p.skip(l - w0 + 1) =~= v@.subrange(l + 1, p_end as int));
                assert(p.take(l - w0) =~= v@.subrange(w0 as int, l as int));
                match parse_unsigned_at(&v, l + 1, p_end, 65535) {
                    Some(port) => {
                        let host = String::from_str(addr.substring_char(w0, l));
                        Some((host, port as u16))
                    },
                    None => None,
                }
            },
        }
    }
}

/// `host:port`, with an IPv6 host in brackets.
pub open spec fn host_port_text(host: Seq<char>, port: u16) -> Seq<char> {
    if host.contains(':') {
        "["@ + host + "]:"@ + decimal_spec(port as nat)
    } else {
        host + ":"@ + decimal_spec(port as nat)
    }
}

/// Joins a host and a port; a host containing `:` is bracketed.
pub fn format_host_port(host: &str, port: u16) -> (r: String)
    ensures
        r@ == host_port_text(host@, port),
{
    let v = chars_of(host);
    let mut has_colon = false;
    let mut i: usize = 0;
    while i < v.len()
        invariant
            v@ == host@,
            i <= v@.len(),
            has_colon == exists|k: int| 0 <= k < i && v@[k] == ':',
        decreases v@.len() - i,
    {
        if v[i] == ':' {
            has_colon = true;
        }
        i = i + 1;
    }
    assert(has_colon == host@.contains(':'));
    let digits = decimal(port as u64);
    if has_colon {
        let mut out = String::from_str("[");
        out.append(host);
        out.append("]:");
        out.append(digits.as_str());
        out
    } else {
        let mut out = String::from_str(host);
        out.append(":");
        out.append(digits.as_str());
        out
    }
}

pub open spec fn is_slash(c: char) -> bool {
    c == '/'
}

pub open spec fn slash() -> spec_fn(char) -> bool {
    |c: char| c == '/'
}

/// Whether the text names an HTTP or HTTPS URL.
pub open spec fn has_http_scheme(s: Seq<char>) -> bool {
    starts_with(s, "http://"@) || starts_with(s, "https://"@)
}

/// The text with an `http://` scheme added when it has none.
pub open spec fn with_http_scheme(s: Seq<char>) -> Seq<char> {
    if has_http_scheme(s) {
        s
    } else {
        "http://"@ + s
    }
}

/// The endpoint that one list piece names: trimmed, without trailing `/`, and
/// with a scheme.
pub open spec fn endpoint_core(piece: Seq<char>) -> Seq<char> {
    crate::scan::trim_end_by(trim(piece), slash())
}

/// The endpoints named by list pieces, in order, skipping empty pieces.
pub open spec fn endpoint_candidates(pieces: Seq<Seq<char>>) -> Seq<Seq<char>>
    decreases pieces.len(),
{
    if pieces.len() == 0 {
        Seq::empty()
    } else {
        let rest = endpoint_candidates(pieces.drop_last());
        let core = endpoint_core(pieces.last());
        if core.len() == 0 {
            rest
        } else {
            rest.push(with_http_scheme(core))
        }
    }
}

/// The endpoints named by every value, in order.
pub open spec fn all_endpoint_candidates(values: Seq<Seq<char>>) -> Seq<Seq<char>>
    decreases values.len(),
{
    if values.len() == 0 {
        Seq::empty()
    } else {
        all_endpoint_candidates(values.drop_last()) + endpoint_candidates(list_pieces(values.last(), true))
    }
}

/// The items in order of first occurrence, each once.
pub open spec fn dedupe(xs: Seq<Seq<char>>) -> Seq<Seq<char>>
    decreases xs.len(),
{
    if xs.len() == 0 {
        Seq::empty()
    } else {
        let d = dedupe(xs.drop_last());
        if d.contains(xs.last()) {
            d
        } else {
            d.push(xs.last())
        }
    }
}

pub open spec fn strings_view(v: Seq<String>) -> Seq<Seq<char>> {
    v.map_values(|s: String| s@)
}

pub open spec fn strs_view(v: Seq<&str>) -> Seq<Seq<char>> {
    v.map_values(|s: &str| s@)
}

/// Appends `s` unless an equal string is already present.
pub fn push_unique(out: &mut Vec<String>, s: String)
    ensures
        strings_view(final(out)@) == (if strings_view(old(out)@).contains(s@) {
            strings_view(old(out)@)
        } else {
            strings_view(old(out)@).push(s@)
        }),
{
    let mut i: usize = 0;
    while i < out.len()
        invariant
            i <= out@.len(),
            out@ == old(out)@,
            forall|k: int| 0 <= k < i ==> strings_view(out@)[k] != s@,
        decreases out@.len() - i,
    {
        if out[i] == s {
            assert(strings_view(out@)[i as int] == s@);
            return;
        }
        i = i + 1;
    }
    let ghost before = out@;
    out.push(s);
    assert(strings_view(out@) =~= strings_view(before).push(s@));
}

/// `s`, or `s` with an `http://` scheme when it has none.
fn ensure_http_scheme(text: &str) -> (r: String)
    ensures
        r@ == with_http_scheme(text@),
{
    proof {
        reveal_strlit("http://");
        reveal_strlit("https://");
    }
    let v = chars_of(text);
    let n = v.len();
    assert(v@.subrange(0, n as int) =~= text@);
    if has_prefix_at(&v, 0, n, "http://") || has_prefix_at(&v, 0, n, "https://") {
        String::from_str(text)
    } else {
        let mut out = String::from_str("http://");
        out.append(text);
        out
    }
}

/// Normalises and de-duplicates orchestrator endpoints, keeping preference
/// order. Each value may list several endpoints separated by commas,
/// semicolons or any whitespace; an endpoint without scheme gets `http://`.
pub fn merge_orchestrator_endpoints(values: &[&str]) -> (out: Vec<String>)
    ensures
        strings_view(out@) == dedupe(all_endpoint_candidates(strs_view(values@))),
{
    let mut out: Vec<String> = Vec::new();
    let ghost vals = strs_view(values@);
    let mut vi: usize = 0;
    assert(vals.take(0) =~= Seq::<Seq<char>>::empty());
    assert(strings_view(out@) =~= dedupe(all_endpoint_candidates(vals.take(0))));
    while vi < values.len()
        invariant
            vals == strs_view(values@),
            vi <= values@.len(),
            strings_view(out@) == dedupe(all_endpoint_candidates(vals.take(vi as int))),
        decreases values@.len() - vi,
    {
        let value: &str = values[vi];
        let v = chars_of(value);
        let pieces = split_list(&v, true);
        let ghost base = all_endpoint_candidates(vals.take(vi as int));
        let mut k: usize = 0;
        assert(list_pieces(v@, true).take(0) =~= Seq::<Seq<char>>::empty());
        assert(base + endpoint_candidates(list_pieces(v@, true).take(0)) =~= base);
        while k < pieces.len()
            invariant
                v@ == value@,
                pieces@.len() == list_pieces(v@, true).len(),
                forall|j: int|
                    0 <= j < pieces@.len() ==> (#[trigger] pieces@[j]).0 <= pieces@[j].1 <= v@.len()
                        && v@.subrange(pieces@[j].0 as int, pieces@[j].1 as int) == list_pieces(v@, true)[j],
                k <= pieces@.len(),
                strings_view(out@) == dedupe(base + endpoint_candidates(list_pieces(v@, true).take(k as int))),
            decreases pieces@.len() - k,
        {
            let (s0, e0) = pieces[k];
            let (s1, e1) = trim_bounds(&v, s0, e0);
            let e2 = crate::scan::trim_end_char(&v, s1, e1, '/');
            let ghost piece = list_pieces(v@, true)[k as int];
            assert(v@.subrange(s1 as int, e2 as int) == endpoint_core(piece));
            let ghost cands = endpoint_candidates(list_pieces(v@, true).take(k as int));
            assert(list_pieces(v@, true).take(k + 1).drop_last() =~= list_pieces(v@, true).take(k as int));
            assert(list_pieces(v@, true).take(k + 1).last() == piece);
            if s1 < e2 {
                let raw = value.substring_char(s1, e2);
                let endpoint = ensure_http_scheme(raw);
                let ghost e = endpoint@;
                assert(e == with_http_scheme(endpoint_core(piece)));
                assert(endpoint_candidates(list_pieces(v@, true).take(k + 1)) == cands.push(e));
                assert((base + cands).push(e) =~= base + cands.push(e));
                assert((base + cands).push(e).drop_last() =~= base + cands);
                assert(dedupe(base + cands.push(e)) == (if dedupe(base + cands).contains(e) {
                    dedupe(base + cands)
                } else {
                    dedupe(base + cands).push(e)
                }));
                push_unique(&mut out, endpoint);
            } else {
                assert(endpoint_core(piece).len() == 0);
                assert(endpoint_candidates(list_pieces(v@, true).take(k + 1)) == cands);
            }
            k = k + 1;
        }
        proof {
            assert(list_pieces(v@, true).take(pieces@.len() as int) =~= list_pieces(v@, true));
            assert(vals.take(vi + 1).drop_last() =~= vals.take(vi as int));
            assert(vals.take(vi + 1).last() == value@);
        }
        vi = vi + 1;
    }
    assert(vals.take(values@.len() as int) =~= vals);
    out
}

/// The discovery target one list piece names: trimmed, without `udp://`
/// prefixes and trailing `/`, with the default port added when it has none.
pub open spec fn discovery_core(piece: Seq<char>) -> Seq<char> {
    crate::scan::trim_end_by(crate::scan::strip_all_prefix(trim(piece), "udp://"@), slash())
}

pub open spec fn discovery_target(core: Seq<char>) -> Seq<char> {
    if host_port_spec(core) is Some {
        core
    } else {
        core + ":50050"@
    }
}

/// The discovery targets named by list pieces, in order.
pub open spec fn discovery_candidates(pieces: Seq<Seq<char>>) -> Seq<Seq<char>>
    decreases pieces.len(),
{
    if pieces.len() == 0 {
        Seq::empty()
    } else {
        let rest = discovery_candidates(pieces.drop_last());
        let core = discovery_core(pieces.last());
        if core.len() == 0 {
            rest
        } else {
            rest.push(discovery_target(core))
        }
    }
}

/// The targets always probed: local broadcast and loopback.
pub open spec fn default_discovery_targets() -> Seq<Seq<char>> {
    seq!["255.255.255.255:50050"@, "127.0.0.1:50050"@]
}

/// The discovery targets: broadcast and loopback first, then each configured
/// target once, in order.
pub fn discovery_target_tokens(configured: Option<&str>) -> (out: Vec<String>)
    ensures
        strings_view(out@) == dedupe(default_discovery_targets() + discovery_candidates(
            list_pieces(
                match configured {
                    Some(c) => c@,
                    None => Seq::empty(),
                },
                false,
            ),
        )),
{
    proof {
        reveal_strlit("255.255.255.255:50050");
        reveal_strlit("127.0.0.1:50050");
        reveal_strlit("udp://");
    }
    let text: &str = match configured {
        Some(c) => c,
        None => "",
    };
    proof {
        reveal_strlit("");
    }
    let mut out: Vec<String> = Vec::new();
    out.push(String::from_str("255.255.255.255:50050"));
    out.push(String::from_str("127.0.0.1:50050"));
    let ghost defaults = default_discovery_targets();
    proof {
        let d = defaults;
        assert(d.drop_last() =~= seq!["255.255.255.255:50050"@]);
        assert(seq!["255.255.255.255:50050"@].drop_last() =~= Seq::<Seq<char>>::empty());
        assert(dedupe(Seq::<Seq<char>>::empty()) == Seq::<Seq<char>>::empty());
        assert(dedupe(seq!["255.255.255.255:50050"@]) =~= seq!["255.255.255.255:50050"@]);
        assert("255.255.255.255:50050"@.len() == 21);
        assert("127.0.0.1:50050"@.len() == 15);
        assert("255.255.255.255:50050"@ != "127.0.0.1:50050"@);
        assert(!seq!["255.255.255.255:50050"@].contains("127.0.0.1:50050"@));
        assert(dedupe(d) =~= d);
        assert(strings_view(out@) =~= d);
    }
    let v = chars_of(text);
    let pieces = split_list(&v, false);
    let mut k: usize = 0;
    assert(list_pieces(v@, false).take(0) =~= Seq::<Seq<char>>::empty());
    assert(defaults + discovery_candidates(list_pieces(v@, false).take(0)) =~= defaults);
    while k < pieces.len()
        invariant
            v@ == text@,
            pieces@.len() == list_pieces(v@, false).len(),
            forall|j: int|
                0 <= j < pieces@.len() ==> (#[trigger] pieces@[j]).0 <= pieces@[j].1 <= v@.len()
                    && v@.subrange(pieces@[j].0 as int, pieces@[j].1 as int) == list_pieces(v@, false)[j],
            k <= pieces@.len(),
            "udp://"@.len() == 6,
            strings_view(out@) == dedupe(defaults + discovery_candidates(list_pieces(v@, false).take(k as int))),
        decreases pieces@.len() - k,
    {
        let (s0, e0) = pieces[k];
        let (mut s1, e1) = trim_bounds(&v, s0, e0);
        while has_prefix_at(&v, s1, e1, "udp://")
            invariant
                s0 <= s1 <= e1 <= v@.len(),
                "udp://"@.len() == 6,
                crate::scan::strip_all_prefix(trim(v@.subrange(s0 as int, e0 as int)), "udp://"@)
                    == crate::scan::strip_all_prefix(v@.subrange(s1 as int, e1 as int), "udp://"@),
            decreases e1 - s1,
        {
            assert(v@.subrange(s1 as int, e1 as int).skip(6) =~= v@.subrange(s1 + 6, e1 as int));
            s1 = s1 + 6;
        }
        assert(crate::scan::strip_all_prefix(v@.subrange(s1 as int, e1 as int), "udp://"@) == v@.subrange(s1 as int, e1 as int));
        let e2 = crate::scan::trim_end_char(&v, s1, e1, '/');
        let ghost piece = list_pieces(v@, false)[k as int];
        assert(v@.subrange(s1 as int, e2 as int) == discovery_core(piece));
        let ghost cands = discovery_candidates(list_pieces(v@, false).take(k as int));
        assert(list_pieces(v@, false).take(k + 1).drop_last() =~= list_pieces(v@, false).take(k as int));
        assert(list_pieces(v@, false).take(k + 1).last() == piece);
        if s1 < e2 {
            let raw = text.substring_char(s1, e2);
            let target = if split_host_port(raw).is_some() {
                String::from_str(raw)
            } else {
                let mut t = String::from_str(raw);
                t.append(":50050");
                t
            };
            proof {
                reveal_strlit(":50050");
            }
            let ghost e = target@;
            assert(e == discovery_target(discovery_core(piece)));
            assert(discovery_candidates(list_pieces(v@, false).take(k + 1)) == cands.push(e));
            assert((defaults + cands).push(e) =~= defaults + cands.push(e));
            assert((defaults + cands).push(e).drop_last() =~= defaults + cands);
            assert(dedupe(defaults + cands.push(e)) == (if dedupe(defaults + cands).contains(e) {
                dedupe(defaults + cands)
            } else {
                dedupe(defaults + cands).push(e)
            }));
            push_unique(&mut out, target);
        } else {
            assert(discovery_candidates(list_pieces(v@, false).take(k + 1)) == cands);
        }
        k = k + 1;
    }
    assert(list_pieces(v@, false).take(pieces@.len() as int) =~= list_pieces(v@, false));
    out
}

/// Lowercase ASCII letters; other characters are unchanged.
pub open spec fn ascii_lower(c: char) -> char {
    if 'A' <= c && c <= 'Z' {
        ((c as u32) + 32) as char
    } else {
        c
    }
}

pub open spec fn ascii_lower_seq(s: Seq<char>) -> Seq<char> {
    s.map_values(|c: char| ascii_lower(c))
}

/// Settings that turn the status probe off.
pub open spec fn is_disabled_setting(s: Seq<char>) -> bool {
    let l = ascii_lower_seq(s);
    l == "0"@ || l == "false"@ || l == "off"@ || l == "disable"@ || l == "disabled"@
}

/// Whether `v[from..to]`, with ASCII letters lowered, equals `lit`.
pub(crate) fn lower_equals(v: &Vec<char>, from: usize, to: usize, lit: &str) -> (r: bool)
    requires
        from <= to <= v@.len(),
    ensures
        r == (ascii_lower_seq(v@.subrange(from as int, to as int)) == lit@),
{
    let l = chars_of(lit);
    let ghost s = v@.subrange(from as int, to as int);
    if l.len() != to - from {
        assert(ascii_lower_seq(s).len() != lit@.len());
        return false;
    }
    let mut i: usize = 0;
    while i < l.len()
        invariant
            l@ == lit@,
            s == v@.subrange(from as int, to as int),
            to <= v@.len(),
            l@.len() == to - from,
            i <= l@.len(),
            forall|k: int| 0 <= k < i ==> ascii_lower(s[k]) == l@[k],
        decreases l@.len() - i,
    {
        let c = v[from + i];
        let lc = if 'A' <= c && c <= 'Z' {
            char_from_u32_lower(c)
        } else {
            c
        };
        assert(s[i as int] == c);
        if lc != l[i] {
            assert(ascii_lower_seq(s)[i as int] != lit@[i as int]);
            return false;
        }
        i = i + 1;
    }
    assert(ascii_lower_seq(s) =~= lit@);
    true
}

fn char_from_u32_lower(c: char) -> (r: char)
    requires
        'A' <= c && c <= 'Z',
    ensures
        r == ascii_lower(c),
{
    let code = (c as u32) + 32;
    let r = if code == 97 { 'a' } else if code == 98 { 'b' } else if code == 99 { 'c' } else if code == 100 { 'd' }
    else if code == 101 { 'e' } else if code == 102 { 'f' } else if code == 103 { 'g' } else if code == 104 { 'h' }
    else if code == 105 { 'i' } else if code == 106 { 'j' } else if code == 107 { 'k' } else if code == 108 { 'l' }
    else if code == 109 { 'm' } else if code == 110 { 'n' } else if code == 111 { 'o' } else if code == 112 { 'p' }
    else if code == 113 { 'q' } else if code == 114 { 'r' } else if code == 115 { 's' } else if code == 116 { 't' }
    else if code == 117 { 'u' } else if code == 118 { 'v' } else if code == 119 { 'w' } else if code == 120 { 'x' }
    else if code == 121 { 'y' } else { 'z' };
    r
}

/// The status URL a setting names: trimmed, with a scheme, ending in
/// `/status`; empty and disabling settings name none.
pub open spec fn tracey_url_spec(raw: Seq<char>) -> Option<Seq<char>> {
    let t = trim(raw);
    if t.len() == 0 || is_disabled_setting(t) {
        None
    } else {
        let url = with_http_scheme(t);
        let base = crate::scan::trim_end_by(url, slash());
        if crate::scan::ends_with(base, "/status"@) {
            Some(url)
        } else {
            Some(base + "/status"@)
        }
    }
}

/// Normalises a telemetry status URL setting.
pub fn normalize_tracey_status_url(raw: &str) -> (r: Option<String>)
    ensures
        match r {
            Some(u) => tracey_url_spec(raw@) == Some(u@),
            None => tracey_url_spec(raw@) is None,
        },
{
    let v = chars_of(raw);
    let n = v.len();
    assert(v@.subrange(0, n as int) =~= raw@);
    let (a, b) = trim_bounds(&v, 0, n);
    if a == b {
        return None;
    }
    if lower_equals(&v, a, b, "0") || lower_equals(&v, a, b, "false") || lower_equals(&v, a, b, "off")
        || lower_equals(&v, a, b, "disable") || lower_equals(&v, a, b, "disabled") {
        return None;
    }
    let trimmed = raw.substring_char(a, b);
    let url = ensure_http_scheme(trimmed);
    let u = chars_of(url.as_str());
    let un = u.len();
    assert(u@.subrange(0, un as int) =~= url@);
    let end = crate::scan::trim_end_char(&u, 0, un, '/');
    let base_len = end;
    proof {
        reveal_strlit("/status");
    }
    if base_len >= 7 && has_prefix_at(&u, base_len - 7, base_len, "/status") {
        assert(u@.subrange(0, base_len as int).subrange(base_len - 7, base_len as int) =~= u@.subrange(base_len - 7, base_len as int));
        assert(u@.subrange(base_len - 7, base_len as int).subrange(0, 7) =~= u@.subrange(base_len - 7, base_len as int));
        Some(url)
    } else {
        proof {
            let base = u@.subrange(0, base_len as int);
            if base.len() >= 7 {
                assert(base.subrange(base.len() - 7, base.len() as int) =~= u@.subrange(base_len - 7, base_len as int));
                assert(u@.subrange(base_len - 7, base_len as int).subrange(0, 7) =~= u@.subrange(base_len - 7, base_len as int));
            }
        }
        let mut out = String::from_str(url.as_str().substring_char(0, end));
        out.append("/status");
        Some(out)
    }
}

/// Checks the production setting for the cluster snapshot catalogue root.
pub fn validate_cluster_snapshot_root(root: Option<&str>) -> (r: Result<(), String>)
    ensures
        root is None ==> (r matches Err(e) && e@
            == "NM_PRODUCTION_CUTOVER requires NM_CLUSTER_SNAPSHOT_ROOT for durable cluster cuts"@),
        (root matches Some(s) && trim(s@).len() == 0) ==> (r matches Err(e) && e@
            == "NM_CLUSTER_SNAPSHOT_ROOT must not be empty"@),
        r is Ok <==> (root matches Some(s) && trim(s@).len() > 0),
{
    match root {
        None => Err(
            String::from_str(
                "NM_PRODUCTION_CUTOVER requires NM_CLUSTER_SNAPSHOT_ROOT for durable cluster cuts",
            ),
        ),
        Some(s) => {
            let v = chars_of(s);
            let n = v.len();
            assert(v@.subrange(0, n as int) =~= s@);
            let (a, b) = trim_bounds(&v, 0, n);
            if a == b {
                Err(String::from_str("NM_CLUSTER_SNAPSHOT_ROOT must not be empty"))
            } else {
                Ok(())
            }
        },
    }
}

/// What a node observes of the peer on the other end of a connection: its IP
/// address as text and whether that address is a loopback address.
#[derive(Clone, Debug)]
pub struct RemotePeer {
    pub ip: String,
    pub is_loopback: bool,
}

/// An advertised host that stands for "wherever I am" and should be replaced
/// by the address the peer was actually seen at.
pub open spec fn replaces_host(host_lower: Seq<char>, remote_is_loopback: bool) -> bool {
    ||| host_lower == "0.0.0.0"@
    ||| host_lower == "::"@
    ||| host_lower == "0:0:0:0:0:0:0:0"@
    ||| host_lower == "localhost"@
    ||| ((host_lower == "127.0.0.1"@ || host_lower == "::1"@) && !remote_is_loopback)
}

/// The display and connect addresses of a peer that advertised `advertised`
/// and was seen at `remote`.
pub open spec fn peer_address_spec(advertised: Seq<char>, remote: Option<(Seq<char>, bool)>) -> (Seq<char>, Seq<char>) {
    let t = trim(advertised);
    match host_port_spec(t) {
        None => (t, with_http_scheme(t)),
        Some((host, port)) => {
            let h = match remote {
                Some((ip, loopback)) => if replaces_host(ascii_lower_seq(host), loopback) {
                    ip
                } else {
                    host
                },
                None => host,
            };
            (host_port_text(h, port), "http://"@ + host_port_text(h, port))
        },
    }
}

pub open spec fn remote_view(remote: Option<RemotePeer>) -> Option<(Seq<char>, bool)> {
    match remote {
        Some(r) => Some((r.ip@, r.is_loopback)),
        None => None,
    }
}

fn host_is_replaced(host: &str, remote_is_loopback: bool) -> (r: bool)
    ensures
        r == replaces_host(ascii_lower_seq(host@), remote_is_loopback),
{
    let v = chars_of(host);
    let n = v.len();
    assert(v@.subrange(0, n as int) =~= host@);
    if lower_equals(&v, 0, n, "0.0.0.0") || lower_equals(&v, 0, n, "::") || lower_equals(
        &v,
        0,
        n,
        "0:0:0:0:0:0:0:0",
    ) || lower_equals(&v, 0, n, "localhost") {
        return true;
    }
    (lower_equals(&v, 0, n, "127.0.0.1") || lower_equals(&v, 0, n, "::1")) && !remote_is_loopback
}

/// Normalises the address a peer advertised: an address that names a host
/// and port is re-spelled, with a wildcard or loopback host replaced by the
/// address the peer was seen at; anything else is kept as it is, with an
/// `http://` scheme for connecting.
pub fn normalize_peer_address(advertised: &str, remote: Option<RemotePeer>) -> (r: (String, String))
    ensures
        (r.0@, r.1@) == peer_address_spec(advertised@, remote_view(remote)),
{
    proof {
        reveal_strlit("http://");
    }
    let v = chars_of(advertised);
    let n = v.len();
    let (a, b) = trim_bounds(&v, 0, n);
    assert(v@.subrange(0, n as int) =~= advertised@);
    let trimmed = advertised.substring_char(a, b);
    match split_host_port(trimmed) {
        None => (String::from_str(trimmed), ensure_http_scheme(trimmed)),
        Some((host, port)) => {
            let h = match remote {
                Some(peer) => if host_is_replaced(host.as_str(), peer.is_loopback) {
                    peer.ip
                } else {
                    host
                },
                None => host,
            };
            let display = format_host_port(h.as_str(), port);
            let mut connect = String::from_str("http://");
            connect.append(display.as_str());
            (display, connect)
        },
    }
}

/// The address to connect to a node at: its known peer address, or else its
/// advertised address (trimmed, with an `http://` scheme when it has none);
/// an empty advertised address gives none.
pub fn connect_addr_for_node(peer_addr: Option<&str>, advertised: Option<&str>) -> (r: Option<String>)
    ensures
        match peer_addr {
            Some(p) => r matches Some(x) && x@ == p@,
            None => match advertised {
                None => r is None,
                Some(a) => if trim(a@).len() == 0 {
                    r is None
                } else {
                    r matches Some(x) && x@ == with_http_scheme(trim(a@))
                },
            },
        },
{
    match peer_addr {
        Some(p) => Some(String::from_str(p)),
        None => match advertised {
            None => None,
            Some(a) => {
                let v = chars_of(a);
                let n = v.len();
                let (lo, hi) = trim_bounds(&v, 0, n);
                assert(v@.subrange(0, n as int) =~= a@);
                if lo == hi {
                    None
                } else {
                    let trimmed = a.substring_char(lo, hi);
                    Some(ensure_http_scheme(trimmed))
                }
            },
        },
    }
}

/// De-duplication keeps every item once and nothing else.
pub proof fn lemma_dedupe(xs: Seq<Seq<char>>)
    ensures
        forall|i: int, j: int|
            0 <= i < j < dedupe(xs).len() ==> #[trigger] dedupe(xs)[i] != #[trigger] dedupe(xs)[j],
        forall|x: Seq<char>| #[trigger] dedupe(xs).contains(x) <==> xs.contains(x),
    decreases xs.len(),
{
    if xs.len() > 0 {
        let d0 = xs.drop_last();
        lemma_dedupe(d0);
        let d = dedupe(d0);
        let last = xs.last();
        let dx = dedupe(xs);
        if d.contains(last) {
            assert(dx == d);
        } else {
            assert(dx == d.push(last));
        }
        assert forall|x: Seq<char>| #[trigger] dedupe(xs).contains(x) <==> xs.contains(x) by {
            assert(xs.contains(x) <==> (d0.contains(x) || x == last)) by {
                if xs.contains(x) {
                    let k = choose|k: int| 0 <= k < xs.len() && xs[k] == x;
                    if k < xs.len() - 1 {
                        assert(d0[k] == x);
                    }
                }
                if d0.contains(x) {
                    let k = choose|k: int| 0 <= k < d0.len() && d0[k] == x;
                    assert(xs[k] == x);
                }
                if x == last {
                    assert(xs[xs.len() - 1] == x);
                }
            }
            if !d.contains(last) {
                assert(dx.contains(x) <==> (d.contains(x) || x == last)) by {
                    if dx.contains(x) {
                        let k = choose|k: int| 0 <= k < dx.len() && dx[k] == x;
                        if k < d.len() {
                            assert(d[k] == x);
                        }
                    }
                    if d.contains(x) {
                        let k = choose|k: int| 0 <= k < d.len() && d[k] == x;
                        assert(dx[k] == x);
                    }
                    if x == last {
                        assert(dx[d.len() as int] == x);
                    }
                }
            }
        }
        if !d.contains(xs.last()) {
            assert forall|i: int, j: int| 0 <= i < j < dedupe(xs).len() implies #[trigger] dedupe(xs)[i]
                != #[trigger] dedupe(xs)[j] by {
                if j == d.len() {
                    assert(dedupe(xs)[i] == d[i]);
                }
            }
        }
    }
}

/// Every endpoint candidate carries an HTTP or HTTPS scheme.
pub proof fn lemma_endpoint_candidates_schemed(pieces: Seq<Seq<char>>)
    ensures
        forall|i: int| 0 <= i < endpoint_candidates(pieces).len() ==> has_http_scheme(
            #[trigger] endpoint_candidates(pieces)[i],
        ),
    decreases pieces.len(),
{
    reveal_strlit("http://");
    if pieces.len() > 0 {
        lemma_endpoint_candidates_schemed(pieces.drop_last());
        let core = endpoint_core(pieces.last());
        let h = with_http_scheme(core);
        if !has_http_scheme(core) {
            assert(("http://"@ + core).subrange(0, 7) =~= "http://"@);
        }
        assert(has_http_scheme(h));
        let rest = endpoint_candidates(pieces.drop_last());
        if core.len() != 0 {
            assert(endpoint_candidates(pieces) == rest.push(h));
            assert forall|i: int| 0 <= i < rest.push(h).len() implies has_http_scheme(#[trigger] rest.push(h)[i]) by {
                if i < rest.len() {
                    assert(rest.push(h)[i] == rest[i]);
                }
            }
        }
    }
}

proof fn lemma_all_endpoint_candidates_schemed(values: Seq<Seq<char>>)
    ensures
        forall|i: int| 0 <= i < all_endpoint_candidates(values).len() ==> has_http_scheme(
            #[trigger] all_endpoint_candidates(values)[i],
        ),
    decreases values.len(),
{
    if values.len() > 0 {
        lemma_all_endpoint_candidates_schemed(values.drop_last());
        let a = all_endpoint_candidates(values.drop_last());
        let b = endpoint_candidates(list_pieces(values.last(), true));
        lemma_endpoint_candidates_schemed(list_pieces(values.last(), true));
        assert forall|i: int| 0 <= i < (a + b).len() implies has_http_scheme(#[trigger] (a + b)[i]) by {
            if i < a.len() {
                assert((a + b)[i] == a[i]);
            } else {
                assert((a + b)[i] == b[i - a.len()]);
            }
        }
    }
}

/// Merged orchestrator endpoints are distinct, each carries an HTTP or HTTPS
/// scheme, and every endpoint named by the values is among them.
pub proof fn lemma_merged_endpoints_normalized(values: Seq<Seq<char>>)
    ensures
        ({
            let out = dedupe(all_endpoint_candidates(values));
            &&& forall|i: int, j: int| 0 <= i < j < out.len() ==> #[trigger] out[i] != #[trigger] out[j]
            &&& forall|i: int| 0 <= i < out.len() ==> has_http_scheme(#[trigger] out[i])
            &&& forall|x: Seq<char>| #[trigger] out.contains(x) <==> all_endpoint_candidates(values).contains(x)
        }),
{
    let c = all_endpoint_candidates(values);
    lemma_dedupe(c);
    lemma_all_endpoint_candidates_schemed(values);
    let out = dedupe(c);
    assert forall|i: int| 0 <= i < out.len() implies has_http_scheme(#[trigger] out[i]) by {
        assert(out.contains(out[i]));
        assert(c.contains(out[i]));
        let k = choose|k: int| 0 <= k < c.len() && c[k] == out[i];
        assert(has_http_scheme(c[k]));
    }
}

/// De-duplicating a longer list keeps what de-duplicating its start gave, in
/// front.
pub proof fn lemma_dedupe_prefix(xs: Seq<Seq<char>>, ys: Seq<Seq<char>>)
    ensures
        dedupe(xs).len() <= dedupe(xs + ys).len(),
        dedupe(xs + ys).take(dedupe(xs).len() as int) == dedupe(xs),
    decreases ys.len(),
{
    if ys.len() == 0 {
        assert(xs + ys =~= xs);
        assert(dedupe(xs).take(dedupe(xs).len() as int) =~= dedupe(xs));
    } else {
        let yl = ys.drop_last();
        lemma_dedupe_prefix(xs, yl);
        assert((xs + ys).drop_last() =~= xs + yl);
        let d = dedupe(xs + yl);
        let n = dedupe(xs).len() as int;
        if !d.contains((xs + ys).last()) {
            assert(d.push((xs + ys).last()).take(n) =~= d.take(n));
        }
    }
}

/// Discovery always probes the local broadcast address first and loopback
/// second, whatever is configured.
pub proof fn lemma_discovery_keeps_defaults_first(configured: Seq<char>)
    ensures
        ({
            let out = dedupe(default_discovery_targets() + discovery_candidates(list_pieces(configured, false)));
            &&& out.len() >= 2
            &&& out[0] == "255.255.255.255:50050"@
            &&& out[1] == "127.0.0.1:50050"@
        }),
{
    reveal_strlit("255.255.255.255:50050");
    reveal_strlit("127.0.0.1:50050");
    let d = default_discovery_targets();
    let a = "255.255.255.255:50050"@;
    let b = "127.0.0.1:50050"@;
    assert(a[0] != b[0]);
    assert(d.drop_last() =~= seq![a]);
    assert(seq![a].drop_last() =~= Seq::<Seq<char>>::empty());
    assert(dedupe(Seq::<Seq<char>>::empty()) =~= Seq::<Seq<char>>::empty());
    assert(!Seq::<Seq<char>>::empty().contains(a));
    assert(Seq::<Seq<char>>::empty().push(a) =~= seq![a]);
    assert(seq![a].last() == a);
    assert(dedupe(seq![a]) =~= seq![a]);
    assert(!seq![a].contains(b));
    assert(dedupe(d) =~= seq![a, b]);
    lemma_dedupe_prefix(d, discovery_candidates(list_pieces(configured, false)));
    let out = dedupe(d + discovery_candidates(list_pieces(configured, false)));
    assert(out.take(2)[0] == out[0]);
    assert(out.take(2)[1] == out[1]);
}

/// No piece of a split holds a separator.
proof fn lemma_split_no_sep(s: Seq<char>, sep: spec_fn(char) -> bool)
    ensures
        forall|k: int, j: int|
            0 <= k < split_by_pieces(s, sep).len() && 0 <= j < split_by_pieces(s, sep)[k].len() ==> !sep(
                #[trigger] split_by_pieces(s, sep)[k][j],
            ),
    decreases s.len(),
{
    if s.len() > 0 {
        let d = s.drop_last();
        lemma_split_no_sep(d, sep);
        crate::scan::lemma_split_nonempty(d, sep);
        let t = split_by_pieces(d, sep);
        let u = split_by_pieces(s, sep);
        if !sep(s.last()) {
            assert forall|k: int, j: int| 0 <= k < u.len() && 0 <= j < u[k].len() implies !sep(#[trigger] u[k][j]) by {
                if k == t.len() - 1 {
                    if j < t.last().len() {
                        assert(u[k][j] == t[k][j]);
                    }
                } else {
                    assert(u[k] == t[k]);
                }
            }
        } else {
            assert forall|k: int, j: int| 0 <= k < u.len() && 0 <= j < u[k].len() implies !sep(#[trigger] u[k][j]) by {
                assert(u[k] == t[k]);
            }
        }
    }
}

pub open spec fn split_by_pieces(s: Seq<char>, sep: spec_fn(char) -> bool) -> Seq<Seq<char>> {
    crate::scan::split_by(s, sep)
}

/// Trimming the start keeps a suffix.
proof fn lemma_trim_start_suffix(s: Seq<char>)
    ensures
        exists|m: int| 0 <= m <= s.len() && #[trigger] crate::scan::trim_start(s) == s.skip(m),
    decreases s.len(),
{
    if s.len() > 0 && is_ws(s[0]) {
        lemma_trim_start_suffix(s.drop_first());
        let m = choose|m: int| 0 <= m <= s.drop_first().len() && #[trigger] crate::scan::trim_start(s.drop_first())
            == s.drop_first().skip(m);
        assert(s.drop_first().skip(m) =~= s.skip(m + 1));
    } else {
        assert(s.skip(0) =~= s);
    }
}

/// Trimming the end keeps a prefix, which ends in no stripped character.
proof fn lemma_trim_end_prefix(s: Seq<char>, strip: spec_fn(char) -> bool)
    ensures
        exists|m: int| 0 <= m <= s.len() && #[trigger] crate::scan::trim_end_by(s, strip) == s.take(m),
        crate::scan::trim_end_by(s, strip).len() > 0 ==> !strip(crate::scan::trim_end_by(s, strip).last()),
    decreases s.len(),
{
    if s.len() > 0 && strip(s.last()) {
        lemma_trim_end_prefix(s.drop_last(), strip);
        let m = choose|m: int| 0 <= m <= s.drop_last().len() && #[trigger] crate::scan::trim_end_by(s.drop_last(), strip)
            == s.drop_last().take(m);
        assert(s.drop_last().take(m) =~= s.take(m));
    } else {
        assert(s.take(s.len() as int) =~= s);
    }
}

/// The characters an endpoint may hold: no list separator.
pub open spec fn clean_endpoint(x: Seq<char>) -> bool {
    &&& x.len() > 0
    &&& x.last() != '/'
    &&& forall|j: int| 0 <= j < x.len() ==> !crate::scan::is_list_sep(#[trigger] x[j], true)
}

proof fn lemma_core_clean(piece: Seq<char>)
    requires
        forall|j: int| 0 <= j < piece.len() ==> !crate::scan::is_list_sep(#[trigger] piece[j], true),
        endpoint_core(piece).len() > 0,
    ensures
        clean_endpoint(endpoint_core(piece)),
        clean_endpoint(with_http_scheme(endpoint_core(piece))),
{
    reveal_strlit("http://");
    let t0 = crate::scan::trim_start(piece);
    lemma_trim_start_suffix(piece);
    let m = choose|m: int| 0 <= m <= piece.len() && #[trigger] crate::scan::trim_start(piece) == piece.skip(m);
    let t = trim(piece);
    lemma_trim_end_prefix(t0, crate::scan::ws_char());
    let m2 = choose|m2: int| 0 <= m2 <= t0.len() && #[trigger] crate::scan::trim_end_by(t0, crate::scan::ws_char())
        == t0.take(m2);
    assert(t == t0.take(m2));
    let core = endpoint_core(piece);
    lemma_trim_end_prefix(t, slash());
    let m3 = choose|m3: int| 0 <= m3 <= t.len() && #[trigger] crate::scan::trim_end_by(t, slash()) == t.take(m3);
    assert forall|j: int| 0 <= j < core.len() implies !crate::scan::is_list_sep(#[trigger] core[j], true) by {
        assert(core[j] == t[j]);
        assert(t[j] == t0[j]);
        assert(t0[j] == piece[j + m]);
    }
    assert(!slash()(core.last()));
    let h = with_http_scheme(core);
    if !has_http_scheme(core) {
        let pre = "http://"@;
        assert(pre =~= seq!['h', 't', 't', 'p', ':', '/', '/']);
        assert(h == pre + core);
        assert(h.last() == core.last());
        assert forall|j: int| 0 <= j < h.len() implies !crate::scan::is_list_sep(#[trigger] h[j], true) by {
            if j >= 7 {
                assert(h[j] == core[j - 7]);
            } else {
                assert(h[j] == pre[j]);
            }
        }
    }
}

proof fn lemma_candidates_clean(pieces: Seq<Seq<char>>)
    requires
        forall|k: int, j: int|
            0 <= k < pieces.len() && 0 <= j < pieces[k].len() ==> !crate::scan::is_list_sep(#[trigger] pieces[k][j], true),
    ensures
        forall|i: int| 0 <= i < endpoint_candidates(pieces).len() ==> clean_endpoint(#[trigger] endpoint_candidates(pieces)[i]),
    decreases pieces.len(),
{
    if pieces.len() > 0 {
        let d = pieces.drop_last();
        assert forall|k: int, j: int| 0 <= k < d.len() && 0 <= j < d[k].len() implies !crate::scan::is_list_sep(
            #[trigger] d[k][j],
            true,
        ) by {
            assert(d[k] == pieces[k]);
        }
        lemma_candidates_clean(d);
        let last = pieces.last();
        let core = endpoint_core(last);
        let rest = endpoint_candidates(d);
        if core.len() > 0 {
            assert forall|j: int| 0 <= j < last.len() implies !crate::scan::is_list_sep(#[trigger] last[j], true) by {
                assert(last[j] == pieces[pieces.len() - 1][j]);
            }
            lemma_core_clean(last);
            let h = with_http_scheme(core);
            assert(endpoint_candidates(pieces) == rest.push(h));
            assert forall|i: int| 0 <= i < rest.push(h).len() implies clean_endpoint(#[trigger] rest.push(h)[i]) by {
                if i < rest.len() {
                    assert(rest.push(h)[i] == rest[i]);
                }
            }
        }
    }
}

proof fn lemma_all_candidates_clean(values: Seq<Seq<char>>)
    ensures
        forall|i: int| 0 <= i < all_endpoint_candidates(values).len() ==> clean_endpoint(
            #[trigger] all_endpoint_candidates(values)[i],
        ),
    decreases values.len(),
{
    if values.len() > 0 {
        lemma_all_candidates_clean(values.drop_last());
        let pieces = list_pieces(values.last(), true);
        lemma_split_no_sep(values.last(), crate::scan::list_sep(true));
        assert forall|k: int, j: int| 0 <= k < pieces.len() && 0 <= j < pieces[k].len() implies !crate::scan::is_list_sep(
            #[trigger] pieces[k][j],
            true,
        ) by {
            assert(!crate::scan::list_sep(true)(split_by_pieces(values.last(), crate::scan::list_sep(true))[k][j]));
        }
        lemma_candidates_clean(pieces);
        let a = all_endpoint_candidates(values.drop_last());
        let b = endpoint_candidates(pieces);
        assert forall|i: int| 0 <= i < (a + b).len() implies clean_endpoint(#[trigger] (a + b)[i]) by {
            if i < a.len() {
                assert((a + b)[i] == a[i]);
            } else {
                assert((a + b)[i] == b[i - a.len()]);
            }
        }
    }
}

/// No merged orchestrator endpoint is empty, ends with `/`, or holds a comma,
/// a semicolon or any whitespace.
pub proof fn lemma_merged_endpoints_clean(values: Seq<Seq<char>>)
    ensures
        forall|i: int| 0 <= i < dedupe(all_endpoint_candidates(values)).len() ==> clean_endpoint(
            #[trigger] dedupe(all_endpoint_candidates(values))[i],
        ),
{
    let c = all_endpoint_candidates(values);
    lemma_dedupe(c);
    lemma_all_candidates_clean(values);
    let out = dedupe(c);
    assert forall|i: int| 0 <= i < out.len() implies clean_endpoint(#[trigger] out[i]) by {
        assert(out.contains(out[i]));
        assert(c.contains(out[i]));
        let k = choose|k: int| 0 <= k < c.len() && c[k] == out[i];
        assert(clean_endpoint(c[k]));
    }
}

/// A text without separators splits into itself.
proof fn lemma_split_whole(s: Seq<char>, sep: spec_fn(char) -> bool)
    requires
        forall|j: int| 0 <= j < s.len() ==> !sep(#[trigger] s[j]),
    ensures
        crate::scan::split_by(s, sep) == seq![s],
    decreases s.len(),
{
    if s.len() > 0 {
        let d = s.drop_last();
        assert forall|j: int| 0 <= j < d.len() implies !sep(#[trigger] d[j]) by {
            assert(d[j] == s[j]);
        }
        lemma_split_whole(d, sep);
        assert(!sep(s[s.len() - 1]));
        assert(d.push(s.last()) =~= s);
        assert(seq![d].last() == d);
        assert(seq![d].update(0, s) =~= seq![s]);
    } else {
        assert(s =~= Seq::<char>::empty());
    }
}

/// A text with no whitespace is its own trim.
proof fn lemma_trim_clean(x: Seq<char>)
    requires
        forall|j: int| 0 <= j < x.len() ==> !is_ws(#[trigger] x[j]),
    ensures
        trim(x) == x,
{
    assert(crate::scan::trim_start(x) == x);
    if x.len() > 0 {
        assert(!crate::scan::ws_char()(x.last()));
    }
    assert(crate::scan::trim_end_by(x, crate::scan::ws_char()) == x);
}

/// Dedupe keeps a list with no repeats as it is.
proof fn lemma_dedupe_distinct(xs: Seq<Seq<char>>)
    requires
        forall|i: int, j: int| 0 <= i < j < xs.len() ==> xs[i] != xs[j],
    ensures
        dedupe(xs) == xs,
    decreases xs.len(),
{
    if xs.len() > 0 {
        let d = xs.drop_last();
        lemma_dedupe_distinct(d);
        assert(!d.contains(xs.last())) by {
            if d.contains(xs.last()) {
                let k = choose|k: int| 0 <= k < d.len() && d[k] == xs.last();
                assert(xs[k] == xs[xs.len() - 1]);
            }
        }
        assert(d.push(xs.last()) =~= xs);
    }
}

/// A clean endpoint with a scheme is its own only candidate.
proof fn lemma_clean_candidate(x: Seq<char>)
    requires
        clean_endpoint(x),
        has_http_scheme(x),
    ensures
        endpoint_candidates(list_pieces(x, true)) == seq![x],
{
    assert forall|j: int| 0 <= j < x.len() implies !crate::scan::list_sep(true)(#[trigger] x[j]) by {}
    lemma_split_whole(x, crate::scan::list_sep(true));
    let p = list_pieces(x, true);
    assert(p == seq![x]);
    assert forall|j: int| 0 <= j < x.len() implies !is_ws(#[trigger] x[j]) by {
        assert(!crate::scan::is_list_sep(x[j], true));
    }
    lemma_trim_clean(x);
    assert(!slash()(x.last()));
    assert(crate::scan::trim_end_by(x, slash()) == x);
    assert(endpoint_core(x) == x);
    assert(p.drop_last() =~= Seq::<Seq<char>>::empty());
    assert(endpoint_candidates(p.drop_last()) == Seq::<Seq<char>>::empty());
    assert(Seq::<Seq<char>>::empty().push(x) =~= seq![x]);
}

proof fn lemma_candidates_of_clean(xs: Seq<Seq<char>>)
    requires
        forall|i: int| 0 <= i < xs.len() ==> clean_endpoint(#[trigger] xs[i]) && has_http_scheme(xs[i]),
    ensures
        all_endpoint_candidates(xs) == xs,
    decreases xs.len(),
{
    if xs.len() > 0 {
        let d = xs.drop_last();
        assert forall|i: int| 0 <= i < d.len() implies clean_endpoint(#[trigger] d[i]) && has_http_scheme(d[i]) by {
            assert(d[i] == xs[i]);
        }
        lemma_candidates_of_clean(d);
        lemma_clean_candidate(xs.last());
        assert(d + seq![xs.last()] =~= xs);
    } else {
        assert(xs =~= Seq::<Seq<char>>::empty());
    }
}

/// Merging the merged endpoints again gives them back.
pub proof fn lemma_merge_idempotent(values: Seq<Seq<char>>)
    ensures
        dedupe(all_endpoint_candidates(dedupe(all_endpoint_candidates(values)))) == dedupe(
            all_endpoint_candidates(values),
        ),
{
    let out = dedupe(all_endpoint_candidates(values));
    lemma_merged_endpoints_normalized(values);
    lemma_merged_endpoints_clean(values);
    lemma_candidates_of_clean(out);
    lemma_dedupe_distinct(out);
}

/// The decimal spelling of a number reads back as that number.
pub proof fn lemma_decimal_reads_back(n: nat)
    ensures
        decimal_spec(n).len() > 0,
        all_digits(decimal_spec(n)),
        digits_value(decimal_spec(n)) == n,
    decreases n,
{
    let d = crate::text::digit_char((n % 10) as nat);
    assert(('0' as int) + (n % 10) < 0x110000);
    assert(d as int == ('0' as int) + (n % 10));
    if n < 10 {
        let s = decimal_spec(n);
        assert(s == seq![d]);
        assert(s.drop_last() =~= Seq::<char>::empty());
        assert(digits_value(Seq::<char>::empty()) == 0);
    } else {
        lemma_decimal_reads_back(n / 10);
        let a = decimal_spec(n / 10);
        let s = decimal_spec(n);
        assert(s == a + seq![d]);
        assert(s.drop_last() =~= a);
        assert(s.last() == d);
        assert forall|i: int| 0 <= i < s.len() implies crate::scan::is_digit(#[trigger] s[i]) by {
            if i < a.len() {
                assert(s[i] == a[i]);
            }
        }
        assert(n == (n / 10) * 10 + n % 10);
    }
}

/// `host:port` parses back into the host and the port, for a host without
/// `:`, `/` or whitespace that does not start with `[`.
pub proof fn lemma_host_port_reads_back(host: Seq<char>, port: u16)
    requires
        host.len() > 0,
        host[0] != '[',
        forall|j: int| 0 <= j < host.len() ==> #[trigger] host[j] != ':' && host[j] != '/' && !is_ws(host[j]),
    ensures
        host_port_spec(host_port_text(host, port)) == Some((host, port)),
{
    reveal_strlit(":");
    reveal_strlit("http://");
    reveal_strlit("https://");
    lemma_decimal_reads_back(port as nat);
    let ds = decimal_spec(port as nat);
    assert(!host.contains(':')) by {
        if host.contains(':') {
            let k = choose|k: int| 0 <= k < host.len() && host[k] == ':';
        }
    }
    let q = host + ":"@ + ds;
    assert(host_port_text(host, port) == q);
    let hl = host.len() as int;
    assert(q[hl] == ':');
    assert forall|j: int| 0 <= j < q.len() implies !is_ws(#[trigger] q[j]) && q[j] != '/' by {
        if j < hl {
            assert(q[j] == host[j]);
        } else if j > hl {
            assert(q[j] == ds[j - hl - 1]);
            assert(crate::scan::is_digit(ds[j - hl - 1]));
        }
    }
    lemma_trim_clean(q);
    assert(!starts_with(q, "http://"@)) by {
        if starts_with(q, "http://"@) {
            assert(q.subrange(0, 7)[6] == "http://"@[6]);
            assert(q[6] == '/');
        }
    }
    assert(!starts_with(q, "https://"@)) by {
        if starts_with(q, "https://"@) {
            assert(q.subrange(0, 8)[7] == "https://"@[7]);
            assert(q[7] == '/');
        }
    }
    assert(strip_scheme(q) == q);
    crate::scan::lemma_first_of(q, '/', q.len() as int);
    assert(q.take(q.len() as int) =~= q);
    assert(authority(q) == q);
    assert forall|k: int| hl < k < q.len() implies q[k] != ':' by {
        assert(q[k] == ds[k - hl - 1]);
        assert(crate::scan::is_digit(ds[k - hl - 1]));
    }
    crate::scan::lemma_last_of(q, ':', hl);
    assert(q.skip(hl + 1) =~= ds);
    assert(q.take(hl) =~= host);
    assert(crate::scan::unsigned_digits(ds) == ds) by {
        assert(crate::scan::is_digit(ds[0]));
    }
}

/// ASCII lowering leaves a text without capital letters as it is.
proof fn lemma_lower_plain(s: Seq<char>)
    requires
        forall|j: int| 0 <= j < s.len() ==> !('A' <= #[trigger] s[j] && s[j] <= 'Z'),
    ensures
        ascii_lower_seq(s) == s,
{
    assert(ascii_lower_seq(s) =~= s);
}

/// `[host]:port` parses back into the host and the port, for a host with a
/// `:` and without `]`, `/` or whitespace.
pub proof fn lemma_bracketed_host_port_reads_back(host: Seq<char>, port: u16)
    requires
        host.contains(':'),
        forall|j: int| 0 <= j < host.len() ==> #[trigger] host[j] != ']' && host[j] != '/' && !is_ws(host[j]),
    ensures
        host_port_spec(host_port_text(host, port)) == Some((host, port)),
        trim(host_port_text(host, port)) == host_port_text(host, port),
{
    reveal_strlit("[");
    reveal_strlit("]:");
    reveal_strlit("http://");
    reveal_strlit("https://");
    lemma_decimal_reads_back(port as nat);
    let ds = decimal_spec(port as nat);
    let q = "["@ + host + "]:"@ + ds;
    assert(host_port_text(host, port) == q);
    let hl = host.len() as int;
    assert(q[0] == '[');
    assert(q[hl + 1] == ']');
    assert(q[hl + 2] == ':');
    assert forall|j: int| 0 <= j < q.len() implies !is_ws(#[trigger] q[j]) && q[j] != '/' by {
        if 1 <= j <= hl {
            assert(q[j] == host[j - 1]);
        } else if j > hl + 2 {
            assert(q[j] == ds[j - hl - 3]);
            assert(crate::scan::is_digit(ds[j - hl - 3]));
        }
    }
    lemma_trim_clean(q);
    assert(!starts_with(q, "http://"@)) by {
        if starts_with(q, "http://"@) {
            assert(q.subrange(0, 7)[0] == "http://"@[0]);
        }
    }
    assert(!starts_with(q, "https://"@)) by {
        if starts_with(q, "https://"@) {
            assert(q.subrange(0, 8)[0] == "https://"@[0]);
        }
    }
    assert(strip_scheme(q) == q);
    crate::scan::lemma_first_of(q, '/', q.len() as int);
    assert(q.take(q.len() as int) =~= q);
    assert(authority(q) == q);
    assert forall|k: int| 0 <= k < hl + 1 implies q[k] != ']' by {
        if k >= 1 {
            assert(q[k] == host[k - 1]);
        }
    }
    crate::scan::lemma_first_of(q, ']', hl + 1);
    let rest = q.skip(hl + 2);
    assert(rest[0] == ':');
    assert(rest.skip(1) =~= ds);
    assert(q.subrange(1, hl + 1) =~= host);
    assert(crate::scan::unsigned_digits(ds) == ds) by {
        assert(crate::scan::is_digit(ds[0]));
    }
}

/// The addresses of a peer that advertised `host:port` for a host that reads
/// back unchanged and has no capital letters.
proof fn lemma_plain_peer_address(host: Seq<char>, port: u16, ip: Seq<char>, loopback: bool)
    requires
        host_port_spec(host_port_text(host, port)) == Some((host, port)),
        trim(host_port_text(host, port)) == host_port_text(host, port),
        ascii_lower_seq(host) == host,
    ensures
        peer_address_spec(host_port_text(host, port), Some((ip, loopback))) == (if replaces_host(host, loopback) {
            (host_port_text(ip, port), "http://"@ + host_port_text(ip, port))
        } else {
            (host_port_text(host, port), "http://"@ + host_port_text(host, port))
        }),
{
}

proof fn lemma_dotted_reads_back(h: Seq<char>, port: u16)
    requires
        h.len() > 0,
        h[0] != '[',
        forall|j: int| 0 <= j < h.len() ==> #[trigger] h[j] != ':' && h[j] != '/' && !is_ws(h[j]) && !('A' <= h[j]
            && h[j] <= 'Z'),
    ensures
        host_port_spec(host_port_text(h, port)) == Some((h, port)),
        trim(host_port_text(h, port)) == host_port_text(h, port),
        ascii_lower_seq(h) == h,
{
    lemma_host_port_reads_back(h, port);
    lemma_trim_clean_host_port(h, port);
    lemma_lower_plain(h);
}

/// A worker that advertises a loopback address (`127.0.0.1` or `::1`) and is
/// seen from another machine is addressed at the address it was seen at: its
/// display address is the observed address with the advertised port, and its
/// connect address is that with `http://`.
pub proof fn lemma_loopback_replaced_by_observed(ip: Seq<char>, port: u16)
    ensures
        peer_address_spec(host_port_text("127.0.0.1"@, port), Some((ip, false))) == (
            host_port_text(ip, port),
            "http://"@ + host_port_text(ip, port),
        ),
        peer_address_spec(host_port_text("::1"@, port), Some((ip, false))) == (
            host_port_text(ip, port),
            "http://"@ + host_port_text(ip, port),
        ),
{
    reveal_strlit("127.0.0.1");
    reveal_strlit("::1");
    let h = "127.0.0.1"@;
    assert(h =~= seq!['1', '2', '7', '.', '0', '.', '0', '.', '1']);
    lemma_dotted_reads_back(h, port);
    lemma_plain_peer_address(h, port, ip, false);
    let v = "::1"@;
    assert(v =~= seq![':', ':', '1']);
    assert(v[0] == ':');
    lemma_bracketed_host_port_reads_back(v, port);
    lemma_lower_plain(v);
    lemma_plain_peer_address(v, port, ip, false);
}

/// A worker that advertises a loopback address and is seen over loopback
/// keeps its advertised address.
pub proof fn lemma_loopback_kept_for_local_peer(ip: Seq<char>, port: u16)
    ensures
        peer_address_spec(host_port_text("127.0.0.1"@, port), Some((ip, true))) == (
            host_port_text("127.0.0.1"@, port),
            "http://"@ + host_port_text("127.0.0.1"@, port),
        ),
        peer_address_spec(host_port_text("::1"@, port), Some((ip, true))) == (
            host_port_text("::1"@, port),
            "http://"@ + host_port_text("::1"@, port),
        ),
{
    reveal_strlit("127.0.0.1");
    reveal_strlit("::1");
    reveal_strlit("0.0.0.0");
    reveal_strlit("::");
    reveal_strlit("0:0:0:0:0:0:0:0");
    reveal_strlit("localhost");
    let h = "127.0.0.1"@;
    assert(h =~= seq!['1', '2', '7', '.', '0', '.', '0', '.', '1']);
    lemma_dotted_reads_back(h, port);
    lemma_plain_peer_address(h, port, ip, true);
    assert(h != "0.0.0.0"@ && h != "::"@ && h != "0:0:0:0:0:0:0:0"@ && h != "localhost"@) by {
        assert(h[0] != "0.0.0.0"@[0] && h[0] != "::"@[0] && h[0] != "0:0:0:0:0:0:0:0"@[0] && h[0] != "localhost"@[0]);
    }
    let v = "::1"@;
    assert(v =~= seq![':', ':', '1']);
    assert(v[0] == ':');
    lemma_bracketed_host_port_reads_back(v, port);
    lemma_lower_plain(v);
    lemma_plain_peer_address(v, port, ip, true);
    assert(v != "0.0.0.0"@ && v != "::"@ && v != "0:0:0:0:0:0:0:0"@ && v != "localhost"@) by {
        assert(v.len() != "::"@.len());
        assert(v[0] != "0.0.0.0"@[0] && v[0] != "0:0:0:0:0:0:0:0"@[0] && v[0] != "localhost"@[0]);
    }
}

/// A worker that advertises `0.0.0.0` or `localhost` is addressed at the
/// address it was seen at, however it was seen.
pub proof fn lemma_wildcard_host_replaced(ip: Seq<char>, loopback: bool, port: u16)
    ensures
        peer_address_spec(host_port_text("0.0.0.0"@, port), Some((ip, loopback))) == (
            host_port_text(ip, port),
            "http://"@ + host_port_text(ip, port),
        ),
        peer_address_spec(host_port_text("localhost"@, port), Some((ip, loopback))) == (
            host_port_text(ip, port),
            "http://"@ + host_port_text(ip, port),
        ),
{
    reveal_strlit("0.0.0.0");
    reveal_strlit("localhost");
    let h = "0.0.0.0"@;
    assert(h =~= seq!['0', '.', '0', '.', '0', '.', '0']);
    lemma_dotted_reads_back(h, port);
    lemma_plain_peer_address(h, port, ip, loopback);
    let l = "localhost"@;
    assert(l =~= seq!['l', 'o', 'c', 'a', 'l', 'h', 'o', 's', 't']);
    lemma_dotted_reads_back(l, port);
    lemma_plain_peer_address(l, port, ip, loopback);
}

/// A worker that advertises a host other than a wildcard or loopback
/// spelling (lower case, without `:`, `/` or whitespace) keeps its advertised
/// address, however it was seen.
pub proof fn lemma_routable_host_kept(host: Seq<char>, port: u16, ip: Seq<char>, loopback: bool)
    requires
        host.len() > 0,
        host[0] != '[',
        forall|j: int| 0 <= j < host.len() ==> #[trigger] host[j] != ':' && host[j] != '/' && !is_ws(host[j]) && !(
        'A' <= host[j] && host[j] <= 'Z'),
        host != "0.0.0.0"@,
        host != "localhost"@,
        host != "127.0.0.1"@,
    ensures
        peer_address_spec(host_port_text(host, port), Some((ip, loopback))) == (
            host_port_text(host, port),
            "http://"@ + host_port_text(host, port),
        ),
{
    reveal_strlit("::");
    reveal_strlit("::1");
    reveal_strlit("0:0:0:0:0:0:0:0");
    lemma_dotted_reads_back(host, port);
    lemma_plain_peer_address(host, port, ip, loopback);
    assert(host != "::"@ && host != "::1"@ && host != "0:0:0:0:0:0:0:0"@) by {
        assert("::"@[0] == ':' && "::1"@[0] == ':' && "0:0:0:0:0:0:0:0"@[1] == ':');
    }
}

proof fn lemma_trim_clean_host_port(host: Seq<char>, port: u16)
    requires
        forall|j: int| 0 <= j < host.len() ==> !is_ws(#[trigger] host[j]) && host[j] != ':',
    ensures
        trim(host_port_text(host, port)) == host_port_text(host, port),
{
    reveal_strlit(":");
    lemma_decimal_reads_back(port as nat);
    let ds = decimal_spec(port as nat);
    assert(!host.contains(':')) by {
        if host.contains(':') {
            let k = choose|k: int| 0 <= k < host.len() && host[k] == ':';
        }
    }
    let q = host + ":"@ + ds;
    assert(host_port_text(host, port) == q);
    let hl = host.len() as int;
    assert forall|j: int| 0 <= j < q.len() implies !is_ws(#[trigger] q[j]) by {
        if j < hl {
            assert(q[j] == host[j]);
        } else if j > hl {
            assert(q[j] == ds[j - hl - 1]);
            assert(crate::scan::is_digit(ds[j - hl - 1]));
        }
    }
    lemma_trim_clean(q);
}

} // verus!
