//! Character-level scanning of configuration text: whitespace trimming,
//! separator splitting, prefixes and decimal parsing.

use vstd::prelude::*;
use vstd::string::*;

verus! {

/// Unicode `White_Space`, the set that `char::is_whitespace` and `str::trim` use.
pub open spec fn is_ws(c: char) -> bool {
    c == '\t' || c == '\n' || c == '\u{0B}' || c == '\u{0C}' || c == '\r' || c == ' ' || c
        == '\u{85}' || c == '\u{A0}' || c == '\u{1680}' || ('\u{2000}' <= c && c <= '\u{200A}')
        || c == '\u{2028}' || c == '\u{2029}' || c == '\u{202F}' || c == '\u{205F}' || c
        == '\u{3000}'
}

pub fn char_is_ws(c: char) -> (r: bool)
    ensures
        r == is_ws(c),
{
    c == '\t' || c == '\n' || c == '\u{0B}' || c == '\u{0C}' || c == '\r' || c == ' ' || c
        == '\u{85}' || c == '\u{A0}' || c == '\u{1680}' || ('\u{2000}' <= c && c <= '\u{200A}')
        || c == '\u{2028}' || c == '\u{2029}' || c == '\u{202F}' || c == '\u{205F}' || c
        == '\u{3000}'
}

/// The text without leading whitespace.
pub open spec fn trim_start(s: Seq<char>) -> Seq<char>
    decreases s.len(),
{
    if s.len() > 0 && is_ws(s[0]) {
        trim_start(s.drop_first())
    } else {
        s
    }
}

/// The text without trailing characters satisfying `strip`.
pub open spec fn trim_end_by(s: Seq<char>, strip: spec_fn(char) -> bool) -> Seq<char>
    decreases s.len(),
{
    if s.len() > 0 && strip(s.last()) {
        trim_end_by(s.drop_last(), strip)
    } else {
        s
    }
}

/// The text without trailing whitespace.
pub open spec fn trim_end(s: Seq<char>) -> Seq<char> {
    trim_end_by(s, ws_char())
}

/// The whitespace test as a predicate.
pub open spec fn ws_char() -> spec_fn(char) -> bool {
    |c: char| is_ws(c)
}

/// The text without leading or trailing whitespace, as `str::trim` gives it.
pub open spec fn trim(s: Seq<char>) -> Seq<char> {
    trim_end(trim_start(s))
}

/// The pieces of `s` between separators, as `str::split` gives them: empty
/// pieces are kept, and there is always at least one piece.
pub open spec fn split_by(s: Seq<char>, sep: spec_fn(char) -> bool) -> Seq<Seq<char>>
    decreases s.len(),
{
    if s.len() == 0 {
        seq![Seq::empty()]
    } else {
        let t = split_by(s.drop_last(), sep);
        if sep(s.last()) {
            t.push(Seq::empty())
        } else {
            t.update(t.len() - 1, t.last().push(s.last()))
        }
    }
}

pub proof fn lemma_split_nonempty(s: Seq<char>, sep: spec_fn(char) -> bool)
    ensures
        split_by(s, sep).len() >= 1,
    decreases s.len(),
{
    if s.len() > 0 {
        lemma_split_nonempty(s.drop_last(), sep);
    }
}

/// Whether `s` starts with `p`.
pub open spec fn starts_with(s: Seq<char>, p: Seq<char>) -> bool {
    p.len() <= s.len() && s.subrange(0, p.len() as int) == p
}

/// Whether `s` ends with `p`.
pub open spec fn ends_with(s: Seq<char>, p: Seq<char>) -> bool {
    p.len() <= s.len() && s.subrange(s.len() - p.len(), s.len() as int) == p
}

/// The characters of a string.
pub fn chars_of(s: &str) -> (v: Vec<char>)
    ensures
        v@ == s@,
{
    let n = s.unicode_len();
    let mut v: Vec<char> = Vec::new();
    let mut i: usize = 0;
    while i < n
        invariant
            n == s@.len(),
            i <= n,
            v@ == s@.subrange(0, i as int),
        decreases n - i,
    {
        v.push(s.get_char(i));
        i = i + 1;
        assert(v@ =~= s@.subrange(0, i as int));
    }
    assert(s@.subrange(0, n as int) =~= s@);
    v
}

/// Whether `v[from..to]` starts with `p`.
pub fn has_prefix_at(v: &Vec<char>, from: usize, to: usize, p: &str) -> (r: bool)
    requires
        from <= to <= v@.len(),
    ensures
        r == starts_with(v@.subrange(from as int, to as int), p@),
{
    let pc = chars_of(p);
    if pc.len() > to - from {
        return false;
    }
    let mut i: usize = 0;
    while i < pc.len()
        invariant
            i <= pc@.len(),
            pc@ == p@,
            to <= v@.len(),
            from + pc@.len() <= to,
            forall|j: int| 0 <= j < i ==> v@[from + j] == pc@[j],
        decreases pc@.len() - i,
    {
        if v[from + i] != pc[i] {
            assert(v@.subrange(from as int, to as int).subrange(0, pc@.len() as int)[i as int] != p@[i as int]);
            return false;
        }
        i = i + 1;
    }
    assert(v@.subrange(from as int, to as int).subrange(0, p@.len() as int) =~= p@);
    true
}

/// `i` is the index of the first `c` in `s`, or `s.len()` when there is none.
pub open spec fn is_first(s: Seq<char>, c: char, i: int) -> bool {
    0 <= i <= s.len() && (forall|k: int| 0 <= k < i ==> s[k] != c) && (i < s.len() ==> s[i] == c)
}

/// The index of the first `c` in `s`, or `s.len()`.
pub open spec fn first_of(s: Seq<char>, c: char) -> int {
    choose|i: int| is_first(s, c, i)
}

pub proof fn lemma_first_of(s: Seq<char>, c: char, i: int)
    requires
        is_first(s, c, i),
    ensures
        first_of(s, c) == i,
{
    let j = first_of(s, c);
    assert(is_first(s, c, j));
    if j < i {
        assert(s[j] == c);
    } else if j > i {
        assert(s[i] == c);
    }
}

/// `i` is the index of the last `c` in `s`, or `-1` when there is none.
pub open spec fn is_last(s: Seq<char>, c: char, i: int) -> bool {
    -1 <= i < s.len() && (forall|k: int| i < k < s.len() ==> s[k] != c) && (i >= 0 ==> s[i] == c)
}

/// The index of the last `c` in `s`, or `-1`.
pub open spec fn last_of(s: Seq<char>, c: char) -> int {
    choose|i: int| is_last(s, c, i)
}

pub proof fn lemma_last_of(s: Seq<char>, c: char, i: int)
    requires
        is_last(s, c, i),
    ensures
        last_of(s, c) == i,
{
    let j = last_of(s, c);
    assert(is_last(s, c, j));
    if j < i {
        assert(s[i] == c);
    } else if j > i {
        assert(s[j] == c);
    }
}

/// The index in `v` of the first `c` in `v[from..to]`, or `to`.
pub fn find_first(v: &Vec<char>, from: usize, to: usize, c: char) -> (r: usize)
    requires
        from <= to <= v@.len(),
    ensures
        from <= r <= to,
        first_of(v@.subrange(from as int, to as int), c) == r - from,
        is_first(v@.subrange(from as int, to as int), c, r - from),
{
    let mut i = from;
    while i < to && v[i] != c
        invariant
            from <= i <= to,
            to <= v@.len(),
            forall|k: int| from <= k < i ==> v@[k] != c,
        decreases to - i,
    {
        i = i + 1;
    }
    proof {
        let s = v@.subrange(from as int, to as int);
        assert forall|k: int| 0 <= k < i - from implies s[k] != c by {
            assert(s[k] == v@[from + k]);
        }
        lemma_first_of(s, c, i - from);
    }
    i
}

/// The index in `v` of the last `c` in `v[from..to]`, if there is one.
pub fn find_last(v: &Vec<char>, from: usize, to: usize, c: char) -> (r: Option<usize>)
    requires
        from <= to <= v@.len(),
    ensures
        r matches Some(i) ==> from <= i < to && last_of(v@.subrange(from as int, to as int), c) == i - from
            && is_last(v@.subrange(from as int, to as int), c, i - from),
        r is None ==> last_of(v@.subrange(from as int, to as int), c) == -1,
{
    let mut i = to;
    while i > from && v[i - 1] != c
        invariant
            from <= i <= to,
            to <= v@.len(),
            forall|k: int| i <= k < to ==> v@[k] != c,
        decreases i - from,
    {
        i = i - 1;
    }
    let ghost s = v@.subrange(from as int, to as int);
    if i == from {
        proof {
            assert forall|k: int| -1 < k < s.len() implies s[k] != c by {
                assert(s[k] == v@[from + k]);
            }
            lemma_last_of(s, c, -1);
        }
        None
    } else {
        proof {
            assert forall|k: int| i - 1 - from < k < s.len() implies s[k] != c by {
                assert(s[k] == v@[from + k]);
            }
            lemma_last_of(s, c, i - 1 - from);
        }
        Some(i - 1)
    }
}

/// The text with every leading copy of `p` removed.
pub open spec fn strip_all_prefix(s: Seq<char>, p: Seq<char>) -> Seq<char>
    decreases s.len(),
{
    if p.len() > 0 && starts_with(s, p) {
        strip_all_prefix(s.skip(p.len() as int), p)
    } else {
        s
    }
}

/// Trims whitespace from both ends of `v[from..to]`, returning the bounds of
/// what remains.
pub fn trim_bounds(v: &Vec<char>, from: usize, to: usize) -> (r: (usize, usize))
    requires
        from <= to <= v@.len(),
    ensures
        from <= r.0 <= r.1 <= to,
        v@.subrange(r.0 as int, r.1 as int) == trim(v@.subrange(from as int, to as int)),
{
    let mut a = from;
    while a < to && char_is_ws(v[a])
        invariant
            from <= a <= to,
            to <= v@.len(),
            trim_start(v@.subrange(from as int, to as int)) == trim_start(
                v@.subrange(a as int, to as int),
            ),
        decreases to - a,
    {
        assert(v@.subrange(a as int, to as int).drop_first() =~= v@.subrange(a + 1, to as int));
        a = a + 1;
    }
    assert(trim_start(v@.subrange(a as int, to as int)) == v@.subrange(a as int, to as int));
    let mut b = to;
    while b > a && char_is_ws(v[b - 1])
        invariant
            a <= b <= to,
            to <= v@.len(),
            trim_end(v@.subrange(a as int, to as int)) == trim_end(v@.subrange(a as int, b as int)),
        decreases b - a,
    {
        assert(v@.subrange(a as int, b as int).drop_last() =~= v@.subrange(a as int, b - 1));
        b = b - 1;
    }
    assert(trim_end(v@.subrange(a as int, b as int)) == v@.subrange(a as int, b as int));
    (a, b)
}

/// Removes every trailing `c` from `v[from..to]`, returning the new end.
pub fn trim_end_char(v: &Vec<char>, from: usize, to: usize, c: char) -> (r: usize)
    requires
        from <= to <= v@.len(),
    ensures
        from <= r <= to,
        v@.subrange(from as int, r as int) == trim_end_by(
            v@.subrange(from as int, to as int),
            |x: char| x == c,
        ),
{
    let mut b = to;
    while b > from && v[b - 1] == c
        invariant
            from <= b <= to,
            to <= v@.len(),
            trim_end_by(v@.subrange(from as int, to as int), |x: char| x == c) == trim_end_by(
                v@.subrange(from as int, b as int),
                |x: char| x == c,
            ),
        decreases b - from,
    {
        assert(v@.subrange(from as int, b as int).drop_last() =~= v@.subrange(from as int, b - 1));
        b = b - 1;
    }
    b
}

/// Decimal spelling, most significant digit first, of a natural number.
pub open spec fn digits_value(s: Seq<char>) -> nat
    decreases s.len(),
{
    if s.len() == 0 {
        0
    } else {
        (digits_value(s.drop_last()) * 10 + ((s.last() as int) - ('0' as int))) as nat
    }
}

pub open spec fn is_digit(c: char) -> bool {
    '0' <= c && c <= '9'
}

/// The value `str::parse::<u64>` gives: an optional `+`, then one or more
/// decimal digits, within range.
pub open spec fn parse_unsigned(s: Seq<char>, max: nat) -> Option<nat> {
    let d = unsigned_digits(s);
    if d.len() > 0 && all_digits(d) && digits_value(d) <= max {
        Some(digits_value(d))
    } else {
        None
    }
}

/// The digits of an unsigned literal: the text after an optional `+`.
pub open spec fn unsigned_digits(s: Seq<char>) -> Seq<char> {
    if s.len() > 0 && s[0] == '+' {
        s.drop_first()
    } else {
        s
    }
}

pub open spec fn all_digits(d: Seq<char>) -> bool {
    forall|i: int| 0 <= i < d.len() ==> is_digit(#[trigger] d[i])
}

/// Parses `v[from..to]` as an unsigned integer no larger than `max`.
pub fn parse_unsigned_at(v: &Vec<char>, from: usize, to: usize, max: u64) -> (r: Option<u64>)
    requires
        from <= to <= v@.len(),
    ensures
        r matches Some(x) ==> parse_unsigned(v@.subrange(from as int, to as int), max as nat) == Some(x as nat),
        r is None ==> parse_unsigned(v@.subrange(from as int, to as int), max as nat) is None,
{
    let ghost s = v@.subrange(from as int, to as int);
    let mut a = from;
    if a < to && v[a] == '+' {
        a = a + 1;
    }
    let ghost d = v@.subrange(a as int, to as int);
    assert(d == unsigned_digits(s));
    if a == to {
        assert(d.len() == 0);
        return None;
    }
    let mut value: u64 = 0;
    let mut i = a;
    while i < to
        invariant
            from <= a <= i <= to,
            to <= v@.len(),
            s == v@.subrange(from as int, to as int),
            d == unsigned_digits(s),
            d == v@.subrange(a as int, to as int),
            forall|k: int| a <= k < i ==> is_digit(#[trigger] v@[k]),
            value == digits_value(v@.subrange(a as int, i as int)),
            value <= max,
        decreases to - i,
    {
        let c = v[i];
        if !('0' <= c && c <= '9') {
            assert(d[i - a] == c);
            assert(!is_digit(d[i - a]));
            assert(!all_digits(d));
            return None;
        }
        let digit: u64 = ((c as u32) - ('0' as u32)) as u64;
        assert(v@.subrange(a as int, i + 1).drop_last() =~= v@.subrange(a as int, i as int));
        let next: u128 = (value as u128) * 10 + (digit as u128);
        assert(digits_value(v@.subrange(a as int, i + 1)) == next);
        if next > max as u128 {
            proof {
                if all_digits(d) {
                    lemma_digits_prefix_monotone(d, (i + 1 - a) as int);
                    assert(d.subrange(0, i + 1 - a) =~= v@.subrange(a as int, i + 1));
                }
            }
            return None;
        }
        value = next as u64;
        i = i + 1;
    }
    proof {
        assert forall|k: int| 0 <= k < d.len() implies is_digit(#[trigger] d[k]) by {
            assert(d[k] == v@[a + k]);
        }
        assert(all_digits(d));
    }
    Some(value)
}

/// A longer run of digits never has a smaller value.
pub proof fn lemma_digits_prefix_monotone(s: Seq<char>, k: int)
    requires
        0 <= k <= s.len(),
        all_digits(s),
    ensures
        digits_value(s.subrange(0, k)) <= digits_value(s),
    decreases s.len() - k,
{
    if k == s.len() {
        assert(s.subrange(0, k) =~= s);
    } else {
        lemma_digits_prefix_monotone(s, k + 1);
        assert(s.subrange(0, k + 1).drop_last() =~= s.subrange(0, k));
        assert(s.subrange(0, k + 1).last() == s[k]);
        assert(is_digit(s[k]));
        assert((s[k] as int) >= ('0' as int));
        assert(digits_value(s.subrange(0, k + 1)) == (digits_value(s.subrange(0, k)) * 10 + ((
        s[k] as int) - ('0' as int))) as nat);
    }
}

/// The separators of configuration lists: comma, semicolon, and either every
/// whitespace character (`all_ws`) or just space, tab and newline.
pub open spec fn is_list_sep(c: char, all_ws: bool) -> bool {
    c == ',' || c == ';' || if all_ws {
        is_ws(c)
    } else {
        c == ' ' || c == '\t' || c == '\n'
    }
}

pub open spec fn list_sep(all_ws: bool) -> spec_fn(char) -> bool {
    |c: char| is_list_sep(c, all_ws)
}

/// The pieces of a configuration list.
pub open spec fn list_pieces(s: Seq<char>, all_ws: bool) -> Seq<Seq<char>> {
    split_by(s, list_sep(all_ws))
}

/// The bounds in `v` of each piece of the configuration list `v`.
pub fn split_list(v: &Vec<char>, all_ws: bool) -> (out: Vec<(usize, usize)>)
    ensures
        out@.len() == list_pieces(v@, all_ws).len(),
        forall|k: int|
            0 <= k < out@.len() ==> (#[trigger] out@[k]).0 <= out@[k].1 <= v@.len() && v@.subrange(
                out@[k].0 as int,
                out@[k].1 as int,
            ) == list_pieces(v@, all_ws)[k],
{
    let mut out: Vec<(usize, usize)> = Vec::new();
    let mut start: usize = 0;
    let mut i: usize = 0;
    assert(v@.take(0) =~= Seq::<char>::empty());
    while i < v.len()
        invariant
            start <= i <= v@.len(),
            out@.len() + 1 == split_by(v@.take(i as int), list_sep(all_ws)).len(),
            forall|k: int|
                0 <= k < out@.len() ==> (#[trigger] out@[k]).0 <= out@[k].1 <= i && v@.subrange(
                    out@[k].0 as int,
                    out@[k].1 as int,
                ) == split_by(v@.take(i as int), list_sep(all_ws))[k],
            split_by(v@.take(i as int), list_sep(all_ws)).last() == v@.subrange(start as int, i as int),
        decreases v@.len() - i,
    {
        let ghost before = split_by(v@.take(i as int), list_sep(all_ws));
        assert(v@.take(i + 1).drop_last() =~= v@.take(i as int));
        assert(v@.take(i + 1).last() == v@[i as int]);
        let c = v[i];
        if c == ',' || c == ';' || (if all_ws { char_is_ws(c) } else { c == ' ' || c == '\t' || c == '\n' }) {
            out.push((start, i));
            start = i + 1;
            proof {
                let after = split_by(v@.take(i + 1), list_sep(all_ws));
                assert(after == before.push(Seq::empty()));
                assert(v@.subrange(start as int, i + 1) =~= Seq::<char>::empty());
            }
        } else {
            proof {
                let after = split_by(v@.take(i + 1), list_sep(all_ws));
                lemma_split_nonempty(v@.take(i as int), list_sep(all_ws));
                assert(after == before.update(before.len() - 1, before.last().push(c)));
                assert(v@.subrange(start as int, i + 1) =~= v@.subrange(start as int, i as int).push(c));
            }
        }
        i = i + 1;
    }
    out.push((start, i));
    proof {
        assert(v@.take(v@.len() as int) =~= v@);
        lemma_split_nonempty(v@, list_sep(all_ws));
    }
    out
}

} // verus!
