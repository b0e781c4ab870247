//! Text building blocks: decimal numbers, joined lists, quoted tokens, and the character
//! sequences every message and parser in the crate is specified over.

use vstd::prelude::*;

verus! {

/// The character of one decimal digit.
pub open spec fn digit_char(d: nat) -> char {
    if d == 0 {
        '0'
    } else if d == 1 {
        '1'
    } else if d == 2 {
        '2'
    } else if d == 3 {
        '3'
    } else if d == 4 {
        '4'
    } else if d == 5 {
        '5'
    } else if d == 6 {
        '6'
    } else if d == 7 {
        '7'
    } else if d == 8 {
        '8'
    } else {
        '9'
    }
}

/// The value of a decimal digit character, `None` for any other character.
pub open spec fn digit_value(c: char) -> Option<nat> {
    if '0' <= c && c <= '9' {
        Some((c as nat - '0' as nat) as nat)
    } else {
        None
    }
}

/// `n` in decimal, no leading zeros, as `{}` prints an unsigned integer.
pub open spec fn decimal(n: nat) -> Seq<char>
    decreases n,
{
    if n < 10 {
        seq![digit_char(n)]
    } else {
        decimal(n / 10).push(digit_char(n % 10))
    }
}

/// `n` with exactly two decimal digits, zero-padded: the fraction part of a two-place number.
pub open spec fn two_digits(n: nat) -> Seq<char> {
    seq![digit_char((n / 10) % 10), digit_char(n % 10)]
}

/// Every character of `s` is a decimal digit.
pub open spec fn all_digits(s: Seq<char>) -> bool {
    forall|i: int| 0 <= i < s.len() ==> digit_value(#[trigger] s[i]) is Some
}

/// The value of a string of decimal digits, most significant first.
pub open spec fn digits_value(s: Seq<char>) -> nat
    decreases s.len(),
{
    if s.len() == 0 {
        0
    } else {
        digits_value(s.drop_last()) * 10 + match digit_value(s.last()) {
            Some(d) => d,
            None => 0,
        }
    }
}

/// `parts` joined with `sep` between each neighbouring pair.
pub open spec fn joined(parts: Seq<Seq<char>>, sep: Seq<char>) -> Seq<char>
    decreases parts.len(),
{
    if parts.len() == 0 {
        Seq::empty()
    } else if parts.len() == 1 {
        parts[0]
    } else {
        joined(parts.drop_last(), sep) + sep + parts.last()
    }
}

/// Whether `s` starts with `prefix`.
pub open spec fn starts_with(s: Seq<char>, prefix: Seq<char>) -> bool {
    prefix.len() <= s.len() && s.subrange(0, prefix.len() as int) == prefix
}

/// What `{:?}` prints for a string: the string quoted, with Rust's escapes.
pub uninterp spec fn debug_quoted(s: Seq<char>) -> Seq<char>;

/// A character `{:?}` prints as itself inside a quoted string: printable ASCII, neither `"`
/// nor `\`.
pub open spec fn plain_char(c: char) -> bool {
    ' ' <= c <= '~' && c != '"' && c != '\\'
}

/// `s` as `{:?}` prints it, quoted and escaped. std documents the escapes as
/// `char::escape_debug`'s, which leaves printable ASCII other than `"` and `\` as it is, so a
/// string of such characters comes back between double quotes; the escapes of the others
/// (control characters, non-printable and grapheme-extending code points) rest on Unicode
/// tables and are named, not restated.
#[verifier::external_body]
pub(crate) fn debug_quote(s: &str) -> (r: String)
    ensures
        r@ == debug_quoted(s@),
        (forall|i: int| 0 <= i < s@.len() ==> plain_char(#[trigger] s@[i])) ==> r@ == seq!['"']
            + s@ + seq!['"'],
{
    format!("{:?}", s)
}

/// Append one character to a string.
#[verifier::external_body]
pub(crate) fn push_char(s: &mut String, c: char)
    ensures
        final(s)@ == old(s)@.push(c),
{
    s.push(c);
}

/// What `Path::extension` gives for a path spelled `path`: the part of its file name after the
/// last `.`, `None` when it has no file name, no `.`, or only a leading one.
pub uninterp spec fn path_extension(path: Seq<char>) -> Option<Seq<char>>;

/// The extension of the path spelled `path`, through `std::path::Path::extension`. The contract
/// says only that the result is the extension the path has; the path grammar that decides it,
/// components, trailing separators and `..`, is std's and is not restated here.
#[verifier::external_body]
pub(crate) fn extension(path: &str) -> (r: Option<String>)
    ensures
        match r {
            Some(e) => path_extension(path@) == Some(e@),
            None => path_extension(path@) is None,
        },
{
    match std::path::Path::new(path).extension() {
        Some(e) => e.to_str().map(String::from),
        None => None,
    }
}

/// Append a string slice to a string.
pub fn push_str(s: &mut String, t: &str)
    ensures
        final(s)@ == old(s)@ + t@,
{
    s.append(t);
}

/// A fresh string holding `t`.
pub fn string_of(t: &str) -> (s: String)
    ensures
        s@ == t@,
{
    String::from_str(t)
}

/// The character of the decimal digit `d`.
pub fn digit(d: u64) -> (c: char)
    requires
        d < 10,
    ensures
        c == digit_char(d as nat),
{
    if d == 0 {
        '0'
    } else if d == 1 {
        '1'
    } else if d == 2 {
        '2'
    } else if d == 3 {
        '3'
    } else if d == 4 {
        '4'
    } else if d == 5 {
        '5'
    } else if d == 6 {
        '6'
    } else if d == 7 {
        '7'
    } else if d == 8 {
        '8'
    } else {
        '9'
    }
}

/// Append `n` in decimal.
pub fn push_decimal(s: &mut String, n: u64)
    ensures
        final(s)@ == old(s)@ + decimal(n as nat),
    decreases n,
{
    if n >= 10 {
        push_decimal(s, n / 10);
    }
    push_char(s, digit(n % 10));
    proof {
        if n >= 10 {
            assert(decimal(n as nat) == decimal((n / 10) as nat).push(digit_char((n % 10) as nat)));
        }
        assert(final(s)@ =~= old(s)@ + decimal(n as nat));
    }
}

/// The characters of `s`, in order.
pub fn chars_of(s: &str) -> (v: Vec<char>)
    ensures
        v@ == s@,
{
    let n = s.unicode_len();
    let mut v: Vec<char> = Vec::new();
    let mut i: usize = 0;
    while i < n
        invariant
            n == s@.len(),
            i <= n,
            v@ == s@.subrange(0, i as int),
        decreases n - i,
    {
        v.push(s.get_char(i));
        i = i + 1;
        assert(v@ =~= s@.subrange(0, i as int));
    }
    assert(v@ =~= s@);
    v
}

/// A string holding exactly the characters `v[lo..hi]`.
pub fn string_from_chars(v: &Vec<char>, lo: usize, hi: usize) -> (s: String)
    requires
        lo <= hi <= v.len(),
    ensures
        s@ == v@.subrange(lo as int, hi as int),
{
    let mut s = String::new();
    let mut i = lo;
    while i < hi
        invariant
            lo <= i <= hi <= v.len(),
            s@ == v@.subrange(lo as int, i as int),
        decreases hi - i,
    {
        push_char(&mut s, v[i]);
        i = i + 1;
        assert(s@ =~= v@.subrange(lo as int, i as int));
    }
    s
}

/// Whether two character sequences are equal.
pub fn chars_eq(a: &Vec<char>, b: &Vec<char>) -> (r: bool)
    ensures
        r == (a@ == b@),
{
    if a.len() != b.len() {
        return false;
    }
    let mut i: usize = 0;
    while i < a.len()
        invariant
            a.len() == b.len(),
            i <= a.len(),
            forall|j: int| 0 <= j < i ==> a@[j] == b@[j],
        decreases a.len() - i,
    {
        if a[i] != b[i] {
            return false;
        }
        i = i + 1;
    }
    assert(a@ =~= b@);
    true
}

/// Whether two string slices hold the same characters.
pub fn str_eq(a: &str, b: &str) -> (r: bool)
    ensures
        r == (a@ == b@),
{
    let va = chars_of(a);
    let vb = chars_of(b);
    chars_eq(&va, &vb)
}

/// Whether `v` holds a string equal to `s`.
pub fn contains_string(v: &Vec<String>, s: &String) -> (r: bool)
    ensures
        r == v.deep_view().contains(s@),
{
    let mut i: usize = 0;
    while i < v.len()
        invariant
            i <= v.len(),
            forall|j: int| 0 <= j < i ==> v@[j]@ != s@,
        decreases v.len() - i,
    {
        if v[i] == *s {
            assert(v.deep_view()[i as int] == s@);
            return true;
        }
        i = i + 1;
    }
    assert forall|j: int| 0 <= j < v.deep_view().len() implies v.deep_view()[j] != s@ by {
        assert(v.deep_view()[j] == v@[j]@);
    }
    false
}

/// One step of [`joined`]: joining one more part onto a joined prefix.
pub proof fn lemma_joined_step(parts: Seq<Seq<char>>, sep: Seq<char>, i: int)
    requires
        0 <= i < parts.len(),
    ensures
        joined(parts.take(i + 1), sep) == if i == 0 {
            parts[0]
        } else {
            joined(parts.take(i), sep) + sep + parts[i]
        },
{
    let t = parts.take(i + 1);
    assert(t.drop_last() =~= parts.take(i));
    assert(t.last() == parts[i]);
    if i == 0 {
        assert(t.len() == 1);
    }
}

/// The strings of `parts` joined with `sep` between neighbours, as `join` does.
pub fn join(parts: &Vec<String>, sep: &str) -> (r: String)
    ensures
        r@ == joined(parts.deep_view(), sep@),
{
    let ghost ps = parts.deep_view();
    let mut r = String::new();
    let mut i: usize = 0;
    while i < parts.len()
        invariant
            i <= parts.len(),
            ps == parts.deep_view(),
            r@ == joined(ps.take(i as int), sep@),
        decreases parts.len() - i,
    {
        proof {
            lemma_joined_step(ps, sep@, i as int);
        }
        if i > 0 {
            push_str(&mut r, sep);
        }
        push_str(&mut r, parts[i].as_str());
        assert(ps[i as int] == parts@[i as int]@);
        i = i + 1;
    }
    assert(ps.take(parts.len() as int) =~= ps);
    r
}

/// What `str::parse::<u64>` gives for `s`: an optional `+`, then one or more decimal digits
/// whose value fits in a `u64`.
pub open spec fn spec_parse_u64(s: Seq<char>) -> Option<u64> {
    let d = if s.len() > 0 && s[0] == '+' {
        s.drop_first()
    } else {
        s
    };
    if d.len() > 0 && all_digits(d) && digits_value(d) <= u64::MAX {
        Some(digits_value(d) as u64)
    } else {
        None
    }
}

/// A longer run of digits is worth at least its prefix.
pub proof fn lemma_digits_value_grows(s: Seq<char>, i: int, j: int)
    requires
        0 <= i <= j <= s.len(),
    ensures
        digits_value(s.take(i)) <= digits_value(s.take(j)),
    decreases j - i,
{
    if i < j {
        lemma_digits_value_grows(s, i, j - 1);
        assert(s.take(j).drop_last() =~= s.take(j - 1));
    }
}

/// The value of the decimal digit character `c`, when it is one.
pub fn digit_of(c: char) -> (r: Option<u64>)
    ensures
        match r {
            Some(d) => digit_value(c) == Some(d as nat) && d < 10,
            None => digit_value(c) is None,
        },
{
    if '0' <= c && c <= '9' {
        Some((c as u32 - '0' as u32) as u64)
    } else {
        None
    }
}

/// `v[lo..hi]` parsed as `str::parse::<u64>` parses a string.
pub fn parse_u64_chars(v: &Vec<char>, lo: usize, hi: usize) -> (r: Option<u64>)
    requires
        lo <= hi <= v.len(),
    ensures
        r == spec_parse_u64(v@.subrange(lo as int, hi as int)),
{
    let ghost s = v@.subrange(lo as int, hi as int);
    let mut start = lo;
    if lo < hi && v[lo] == '+' {
        start = lo + 1;
    }
    let ghost d = v@.subrange(start as int, hi as int);
    assert(d =~= (if s.len() > 0 && s[0] == '+' { s.drop_first() } else { s }));
    if start == hi {
        return None;
    }
    let mut acc: u64 = 0;
    let mut i = start;
    while i < hi
        invariant
            lo <= start <= i <= hi <= v.len(),
            d == v@.subrange(start as int, hi as int),
            s == v@.subrange(lo as int, hi as int),
            d == (if s.len() > 0 && s[0] == '+' { s.drop_first() } else { s }),
            d.len() > 0,
            acc == digits_value(d.take(i - start)),
            forall|j: int| 0 <= j < i - start ==> digit_value(#[trigger] d[j]) is Some,
        decreases hi - i,
    {
        let ghost k = i - start;
        assert(d.take(k + 1).drop_last() =~= d.take(k));
        assert(d.take(k + 1).last() == d[k]);
        assert(d[k] == v@[i as int]);
        match digit_of(v[i]) {
            None => {
                assert(!all_digits(d));
                return None;
            },
            Some(dg) => {
                if acc > 1844674407370955161 || (acc == 1844674407370955161 && dg > 5) {
                    proof {
                        assert(digits_value(d.take(k + 1)) == acc * 10 + dg);
                        if all_digits(d) {
                            lemma_digits_value_grows(d, k + 1, d.len() as int);
                            assert(d.take(d.len() as int) =~= d);
                        }
                    }
                    return None;
                }
                acc = acc * 10 + dg;
            },
        }
        i = i + 1;
    }
    assert(d.take(d.len() as int) =~= d);
    Some(acc)
}

/// `s` parsed as `str::parse::<u64>` parses it.
pub fn parse_u64(s: &str) -> (r: Option<u64>)
    ensures
        r == spec_parse_u64(s@),
{
    let v = chars_of(s);
    assert(v@.subrange(0, v@.len() as int) =~= s@);
    parse_u64_chars(&v, 0, v.len())
}

/// Whitespace as `char::is_whitespace` sees it: the Unicode `White_Space` characters.
pub open spec fn is_white(c: char) -> bool {
    ('\t' <= c && c <= '\r') || c == ' ' || c == '\u{85}' || c == '\u{a0}' || c == '\u{1680}' || (
    '\u{2000}' <= c && c <= '\u{200a}') || c == '\u{2028}' || c == '\u{2029}' || c == '\u{202f}'
        || c == '\u{205f}' || c == '\u{3000}'
}

/// Whether `c` is whitespace, as `char::is_whitespace` says.
pub fn white(c: char) -> (r: bool)
    ensures
        r == is_white(c),
{
    ('\t' <= c && c <= '\r') || c == ' ' || c == '\u{85}' || c == '\u{a0}' || c == '\u{1680}' || (
    '\u{2000}' <= c && c <= '\u{200a}') || c == '\u{2028}' || c == '\u{2029}' || c == '\u{202f}'
        || c == '\u{205f}' || c == '\u{3000}'
}

/// `s` without its leading whitespace.
pub open spec fn trim_start(s: Seq<char>) -> Seq<char>
    decreases s.len(),
{
    if s.len() > 0 && is_white(s[0]) {
        trim_start(s.drop_first())
    } else {
        s
    }
}

/// `s` without its trailing whitespace.
pub open spec fn trim_end(s: Seq<char>) -> Seq<char>
    decreases s.len(),
{
    if s.len() > 0 && is_white(s.last()) {
        trim_end(s.drop_last())
    } else {
        s
    }
}

/// `s` without whitespace at either end, as `str::trim` gives it.
pub open spec fn trimmed(s: Seq<char>) -> Seq<char> {
    trim_end(trim_start(s))
}

/// The bounds of `v[lo..hi]` with whitespace trimmed from both ends.
pub fn trim_bounds(v: &Vec<char>, lo: usize, hi: usize) -> (r: (usize, usize))
    requires
        lo <= hi <= v.len(),
    ensures
        lo <= r.0 <= r.1 <= hi,
        v@.subrange(r.0 as int, r.1 as int) == trimmed(v@.subrange(lo as int, hi as int)),
{
    let ghost s = v@.subrange(lo as int, hi as int);
    let mut a = lo;
    while a < hi && white(v[a])
        invariant
            lo <= a <= hi <= v.len(),
            s == v@.subrange(lo as int, hi as int),
            trim_start(s) == trim_start(v@.subrange(a as int, hi as int)),
        decreases hi - a,
    {
        assert(v@.subrange(a as int, hi as int).drop_first() =~= v@.subrange(a + 1, hi as int));
        a = a + 1;
    }
    assert(trim_start(s) == v@.subrange(a as int, hi as int));
    let ghost t = v@.subrange(a as int, hi as int);
    let mut b = hi;
    while b > a && white(v[b - 1])
        invariant
            lo <= a <= b <= hi <= v.len(),
            t == v@.subrange(a as int, hi as int),
            trim_end(t) == trim_end(v@.subrange(a as int, b as int)),
        decreases b - a,
    {
        assert(v@.subrange(a as int, b as int).drop_last() =~= v@.subrange(a as int, b - 1));
        b = b - 1;
    }
    (a, b)
}

/// `s` with whitespace trimmed from both ends, as a fresh string.
pub fn trim(s: &str) -> (r: String)
    ensures
        r@ == trimmed(s@),
{
    let v = chars_of(s);
    assert(v@.subrange(0, v@.len() as int) =~= s@);
    let (a, b) = trim_bounds(&v, 0, v.len());
    string_from_chars(&v, a, b)
}

/// Whether `v` holds `prefix` at index `at`.
pub fn chars_at(v: &Vec<char>, at: usize, prefix: &str) -> (r: bool)
    requires
        at <= v.len(),
    ensures
        r == starts_with(v@.subrange(at as int, v@.len() as int), prefix@),
{
    let p = chars_of(prefix);
    if v.len() - at < p.len() {
        return false;
    }
    let mut i: usize = 0;
    while i < p.len()
        invariant
            at + p.len() <= v.len(),
            p@ == prefix@,
            i <= p.len(),
            forall|j: int| 0 <= j < i ==> v@[at + j] == p@[j],
        decreases p.len() - i,
    {
        if v[at + i] != p[i] {
            assert(v@.subrange(at as int, v@.len() as int).subrange(0, p@.len() as int)[i as int]
                != p@[i as int]);
            return false;
        }
        i = i + 1;
    }
    assert(v@.subrange(at as int, v@.len() as int).subrange(0, p@.len() as int) =~= p@);
    true
}

/// Where the line starting at `i` ends: the next `\n` at or after `i`, or the end of `s`.
pub open spec fn line_end(s: Seq<char>, i: int) -> int
    decreases s.len() - i,
{
    if i < 0 || i >= s.len() || s[i] == '\n' {
        i
    } else {
        line_end(s, i + 1)
    }
}

/// A line ends no earlier than it starts, and no later than the text.
pub proof fn lemma_line_end_bounds(s: Seq<char>, i: int)
    requires
        0 <= i <= s.len(),
    ensures
        i <= line_end(s, i) <= s.len(),
        line_end(s, i) < s.len() ==> s[line_end(s, i)] == '\n',
        forall|k: int| i <= k < line_end(s, i) ==> s[k] != '\n',
    decreases s.len() - i,
{
    if i < s.len() && s[i] != '\n' {
        lemma_line_end_bounds(s, i + 1);
    }
}

/// The line starting at `i`, as `str::lines` yields it: without its `\n`, and without a `\r`
/// just before that `\n`.
pub open spec fn line_at(s: Seq<char>, i: int) -> Seq<char> {
    let e = line_end(s, i);
    let l = s.subrange(i, e);
    if e < s.len() && l.len() > 0 && l.last() == '\r' {
        l.drop_last()
    } else {
        l
    }
}

/// The first line of `s` from index `i` on that starts with `prefix`, as `lines().find(..)`
/// finds it.
pub open spec fn find_line(s: Seq<char>, i: int, prefix: Seq<char>) -> Option<Seq<char>>
    decreases s.len() + 1 - i,
    via find_line_decreases
{
    if i < 0 || i >= s.len() {
        None
    } else {
        let e = line_end(s, i);
        if starts_with(line_at(s, i), prefix) {
            Some(line_at(s, i))
        } else {
            find_line(s, e + 1, prefix)
        }
    }
}

/// Each line searched moves the search forward.
#[via_fn]
proof fn find_line_decreases(s: Seq<char>, i: int, prefix: Seq<char>) {
    if 0 <= i < s.len() {
        lemma_line_end_bounds(s, i);
    }
}

/// The bounds of the first line of `v` from `from` on that starts with `prefix`.
pub fn find_line_bounds(v: &Vec<char>, from: usize, prefix: &str) -> (r: Option<(usize, usize)>)
    requires
        from <= v.len(),
    ensures
        match r {
            Some((a, b)) => a <= b <= v.len() && find_line(v@, from as int, prefix@) == Some(
                v@.subrange(a as int, b as int),
            ),
            None => find_line(v@, from as int, prefix@) is None,
        },
{
    let mut i = from;
    while i < v.len()
        invariant
            from <= i <= v.len(),
            find_line(v@, from as int, prefix@) == find_line(v@, i as int, prefix@),
        decreases v.len() - i,
    {
        let mut e = i;
        while e < v.len() && v[e] != '\n'
            invariant
                i <= e <= v.len(),
                line_end(v@, i as int) == line_end(v@, e as int),
            decreases v.len() - e,
        {
            e = e + 1;
        }
        let mut b = e;
        if e < v.len() && e > i && v[e - 1] == '\r' {
            b = e - 1;
        }
        assert(line_at(v@, i as int) =~= v@.subrange(i as int, b as int));
        let ghost line = v@.subrange(i as int, b as int);
        let line_v = string_from_chars(v, i, b);
        let lc = chars_of(line_v.as_str());
        if chars_at(&lc, 0, prefix) {
            assert(lc@.subrange(0, lc@.len() as int) =~= line);
            return Some((i, b));
        }
        assert(lc@.subrange(0, lc@.len() as int) =~= line);
        assert(line_end(v@, e as int) == e);
        if e >= v.len() {
            assert(find_line(v@, (e + 1) as int, prefix@) is None);
            i = v.len();
        } else {
            i = e + 1;
        }
    }
    None
}

/// The index of the first `c` in `s` from `i` on, the length of `s` when there is none.
pub open spec fn find_char(s: Seq<char>, i: int, c: char) -> int
    decreases s.len() - i,
{
    if i < 0 || i >= s.len() || s[i] == c {
        i
    } else {
        find_char(s, i + 1, c)
    }
}

/// The first `c` in `v[lo..hi]`, `hi` when there is none.
pub fn find_char_in(v: &Vec<char>, lo: usize, hi: usize, c: char) -> (r: usize)
    requires
        lo <= hi <= v.len(),
    ensures
        lo <= r <= hi,
        r == lo + find_char(v@.subrange(lo as int, hi as int), 0, c),
{
    let ghost s = v@.subrange(lo as int, hi as int);
    let mut i = lo;
    while i < hi && v[i] != c
        invariant
            lo <= i <= hi <= v.len(),
            s == v@.subrange(lo as int, hi as int),
            find_char(s, 0, c) == find_char(s, i - lo, c),
        decreases hi - i,
    {
        i = i + 1;
    }
    i
}

/// Past the whitespace of `s` from `i`.
pub open spec fn skip_white(s: Seq<char>, i: int) -> int
    decreases s.len() - i,
{
    if 0 <= i < s.len() && is_white(s[i]) {
        skip_white(s, i + 1)
    } else {
        i
    }
}

/// Past the non-whitespace of `s` from `i`.
pub open spec fn skip_word(s: Seq<char>, i: int) -> int
    decreases s.len() - i,
{
    if 0 <= i < s.len() && !is_white(s[i]) {
        skip_word(s, i + 1)
    } else {
        i
    }
}

/// Past the whitespace (or, with `word`, the non-whitespace) of `v` from `i`, up to `hi`.
pub fn skip_in(v: &Vec<char>, i: usize, hi: usize, word: bool) -> (r: usize)
    requires
        i <= hi <= v.len(),
    ensures
        i <= r <= hi,
        r - i == if word {
            skip_word(v@.subrange(i as int, hi as int), 0)
        } else {
            skip_white(v@.subrange(i as int, hi as int), 0)
        },
{
    let ghost s = v@.subrange(i as int, hi as int);
    let mut k = i;
    while k < hi && white(v[k]) != word
        invariant
            i <= k <= hi <= v.len(),
            s == v@.subrange(i as int, hi as int),
            word ==> skip_word(s, 0) == skip_word(s, k - i),
            !word ==> skip_white(s, 0) == skip_white(s, k - i),
        decreases hi - k,
    {
        k = k + 1;
    }
    k
}

/// Skipping within a subrange is skipping within the text from there.
pub proof fn lemma_skip_shift(s: Seq<char>, a: int, b: int, i: int, word: bool)
    requires
        0 <= a <= i <= b <= s.len(),
    ensures
        word ==> a + skip_word(s.subrange(a, b), i - a) == i + skip_word(s.subrange(i, b), 0),
        !word ==> a + skip_white(s.subrange(a, b), i - a) == i + skip_white(s.subrange(i, b), 0),
    decreases b - i,
{
    if i < b {
        assert(s.subrange(a, b)[i - a] == s.subrange(i, b)[0]);
        lemma_skip_shift(s, a, b, i + 1, word);
        lemma_skip_shift(s, i, b, i + 1, word);
    }
}


/// Skipping whitespace never moves backwards, stays in the text, and stops at a word.
pub proof fn lemma_skip_white_stops(s: Seq<char>, i: int)
    requires
        0 <= i <= s.len(),
    ensures
        i <= skip_white(s, i) <= s.len(),
        skip_white(s, i) < s.len() ==> !is_white(s[skip_white(s, i)]),
    decreases s.len() - i,
{
    if i < s.len() && is_white(s[i]) {
        lemma_skip_white_stops(s, i + 1);
    }
}

/// Skipping a word never moves backwards and stays in the text.
pub proof fn lemma_skip_word_bounds(s: Seq<char>, i: int)
    requires
        0 <= i <= s.len(),
    ensures
        i <= skip_word(s, i) <= s.len(),
    decreases s.len() - i,
{
    if i < s.len() && !is_white(s[i]) {
        lemma_skip_word_bounds(s, i + 1);
    }
}

/// The whitespace-separated words of `s` from index `i`, as `split_whitespace` yields them.
pub open spec fn words_from(s: Seq<char>, i: int) -> Seq<Seq<char>>
    decreases s.len() + 1 - i,
    via words_from_decreases
{
    let a = skip_white(s, i);
    if i < 0 || i > s.len() || a >= s.len() {
        Seq::empty()
    } else {
        seq![s.subrange(a, skip_word(s, a))] + words_from(s, skip_word(s, a))
    }
}

/// Each word read moves the reading forward.
#[via_fn]
proof fn words_from_decreases(s: Seq<char>, i: int) {
    if 0 <= i <= s.len() {
        lemma_skip_white_stops(s, i);
        let a = skip_white(s, i);
        if a < s.len() {
            lemma_skip_word_bounds(s, a + 1);
        }
    }
}

/// The whitespace-separated words of `text`, as `split_whitespace` yields them.
pub fn words(text: &str) -> (r: Vec<String>)
    ensures
        r.deep_view() == words_from(text@, 0),
{
    let v = chars_of(text);
    let n = v.len();
    assert(v@ == text@) by {
        assert(v@.subrange(0, n as int) =~= v@);
    }
    let mut out: Vec<String> = Vec::new();
    let mut i: usize = 0;
    loop
        invariant_except_break
            i <= n,
            words_from(text@, 0) == out.deep_view() + words_from(text@, i as int),
        invariant
            n == v.len(),
            v@ == text@,
        ensures
            words_from(text@, 0) == out.deep_view(),
        decreases n - i,
    {
        let a = skip_in(&v, i, n, false);
        proof {
            lemma_skip_shift(v@, 0, n as int, i as int, false);
            assert(v@.subrange(0, n as int) =~= v@);
            lemma_skip_white_stops(v@, i as int);
        }
        if a >= n {
            assert(words_from(text@, i as int) =~= Seq::<Seq<char>>::empty());
            assert(out.deep_view() + words_from(text@, i as int) =~= out.deep_view());
            break;
        }
        let b = skip_in(&v, a, n, true);
        proof {
            lemma_skip_shift(v@, 0, n as int, a as int, true);
            lemma_skip_word_bounds(v@, a as int + 1);
        }
        let w = string_from_chars(&v, a, b);
        let ghost before = out.deep_view();
        out.push(w);
        assert(out.deep_view() =~= before.push(v@.subrange(a as int, b as int)));
        assert(words_from(text@, i as int) == seq![v@.subrange(a as int, b as int)] + words_from(
            text@,
            b as int,
        ));
        assert(before + words_from(text@, i as int) =~= out.deep_view() + words_from(
            text@,
            b as int,
        ));
        i = b;
    }
    out
}

/// `a` sorts before `b`, by character, as `String`'s order sorts.
pub open spec fn text_lt(a: Seq<char>, b: Seq<char>) -> bool
    decreases a.len(),
{
    if a.len() == 0 {
        b.len() > 0
    } else if b.len() == 0 {
        false
    } else if a[0] != b[0] {
        a[0] < b[0]
    } else {
        text_lt(a.drop_first(), b.drop_first())
    }
}

/// Whether `a` sorts before `b`, by character.
pub fn less_text(a: &str, b: &str) -> (r: bool)
    ensures
        r == text_lt(a@, b@),
{
    let va = chars_of(a);
    let vb = chars_of(b);
    assert(va@ == a@) by {
        assert(va@.subrange(0, va@.len() as int) =~= va@);
    }
    assert(vb@ == b@) by {
        assert(vb@.subrange(0, vb@.len() as int) =~= vb@);
    }
    assert(a@.skip(0) =~= a@);
    assert(b@.skip(0) =~= b@);
    let mut i: usize = 0;
    while i < va.len() && i < vb.len() && va[i] == vb[i]
        invariant
            i <= va.len(),
            i <= vb.len(),
            va@ == a@,
            vb@ == b@,
            text_lt(a@, b@) == text_lt(a@.skip(i as int), b@.skip(i as int)),
        decreases va.len() - i,
    {
        assert(a@.skip(i as int).drop_first() =~= a@.skip(i + 1));
        assert(b@.skip(i as int).drop_first() =~= b@.skip(i + 1));
        i = i + 1;
    }
    if i == va.len() {
        i < vb.len()
    } else if i == vb.len() {
        false
    } else {
        assert(a@.skip(i as int)[0] == va@[i as int]);
        assert(b@.skip(i as int)[0] == vb@[i as int]);
        va[i] < vb[i]
    }
}


/// No text sorts before itself.
pub proof fn lemma_text_lt_irreflexive(a: Seq<char>)
    ensures
        !text_lt(a, a),
    decreases a.len(),
{
    if a.len() > 0 {
        lemma_text_lt_irreflexive(a.drop_first());
    }
}

/// Sorting before is transitive.
pub proof fn lemma_text_lt_transitive(a: Seq<char>, b: Seq<char>, c: Seq<char>)
    requires
        text_lt(a, b),
        text_lt(b, c),
    ensures
        text_lt(a, c),
    decreases a.len(),
{
    if a.len() > 0 && b.len() > 0 && c.len() > 0 && a[0] == b[0] && b[0] == c[0] {
        lemma_text_lt_transitive(a.drop_first(), b.drop_first(), c.drop_first());
    }
}

/// Of two different texts, one sorts before the other.
pub proof fn lemma_text_lt_total(a: Seq<char>, b: Seq<char>)
    requires
        a != b,
    ensures
        text_lt(a, b) || text_lt(b, a),
    decreases a.len(),
{
    if a.len() > 0 && b.len() > 0 && a[0] == b[0] {
        if a.drop_first() == b.drop_first() {
            assert(a =~= seq![a[0]] + a.drop_first());
            assert(b =~= seq![b[0]] + b.drop_first());
        }
        lemma_text_lt_total(a.drop_first(), b.drop_first());
    } else if a.len() == 0 && b.len() == 0 {
        assert(a =~= b);
    }
}

/// Texts in strictly ascending order, so none twice.
pub open spec fn strictly_sorted(q: Seq<Seq<char>>) -> bool {
    forall|i: int, j: int| 0 <= i < j < q.len() ==> text_lt(#[trigger] q[i], #[trigger] q[j])
}

/// The texts of a set, in ascending order.
pub open spec fn sorted_of(s: Set<Seq<char>>) -> Seq<Seq<char>> {
    choose|q: Seq<Seq<char>>| strictly_sorted(q) && q.to_set() == s
}

/// Two ascending sequences of the same texts are one sequence.
pub proof fn lemma_sorted_unique(p: Seq<Seq<char>>, q: Seq<Seq<char>>)
    requires
        strictly_sorted(p),
        strictly_sorted(q),
        p.to_set() == q.to_set(),
    ensures
        p == q,
    decreases p.len(),
{
    if p.len() == 0 || q.len() == 0 {
        if p.len() > 0 {
            assert(p.to_set().contains(p[0]));
        }
        if q.len() > 0 {
            assert(q.to_set().contains(q[0]));
        }
        assert(p =~= q);
    } else {
        let a = p[0];
        let b = q[0];
        assert(p.to_set().contains(a));
        assert(q.to_set().contains(b));
        let j = choose|j: int| 0 <= j < q.len() && q[j] == a;
        let i = choose|i: int| 0 <= i < p.len() && p[i] == b;
        if j > 0 && i > 0 {
            assert(text_lt(q[0], q[j]));
            assert(text_lt(p[0], p[i]));
            lemma_text_lt_transitive(a, b, a);
            lemma_text_lt_irreflexive(a);
        }
        assert(a == b);
        let p1 = p.drop_first();
        let q1 = q.drop_first();
        assert forall|x: Seq<char>| p1.to_set().contains(x) implies q1.to_set().contains(x) by {
            let k = choose|k: int| 0 <= k < p1.len() && p1[k] == x;
            assert(p.to_set().contains(x));
            let m = choose|m: int| 0 <= m < q.len() && q[m] == x;
            assert(text_lt(p[0], p[k + 1]));
            if m == 0 {
                lemma_text_lt_irreflexive(a);
            }
            assert(q1[m - 1] == x);
        }
        assert forall|x: Seq<char>| q1.to_set().contains(x) implies p1.to_set().contains(x) by {
            let k = choose|k: int| 0 <= k < q1.len() && q1[k] == x;
            assert(q.to_set().contains(x));
            let m = choose|m: int| 0 <= m < p.len() && p[m] == x;
            assert(text_lt(q[0], q[k + 1]));
            if m == 0 {
                lemma_text_lt_irreflexive(a);
            }
            assert(p1[m - 1] == x);
        }
        assert(p1.to_set() =~= q1.to_set());
        lemma_sorted_unique(p1, q1);
        assert(p =~= seq![a] + p1);
        assert(q =~= seq![b] + q1);
    }
}

/// An ascending sequence of a set's texts is the set's ascending order.
pub proof fn lemma_sorted_of(q: Seq<Seq<char>>, s: Set<Seq<char>>)
    requires
        strictly_sorted(q),
        q.to_set() == s,
    ensures
        sorted_of(s) == q,
{
    let c = sorted_of(s);
    assert(strictly_sorted(c) && c.to_set() == s);
    lemma_sorted_unique(c, q);
}

/// Add `x` to the ascending texts `v`, where it sorts, unless it is there already.
pub fn insert_text(v: &mut Vec<String>, x: String)
    requires
        strictly_sorted(old(v).deep_view()),
    ensures
        strictly_sorted(final(v).deep_view()),
        final(v).deep_view().to_set() == old(v).deep_view().to_set().insert(x@),
{
    let ghost o = v.deep_view();
    let mut p: usize = 0;
    while p < v.len() && less_text(v[p].as_str(), x.as_str())
        invariant
            p <= v.len(),
            o == v.deep_view(),
            forall|h: int| 0 <= h < p ==> text_lt(#[trigger] o[h], x@),
        decreases v.len() - p,
    {
        assert(o[p as int] == v@[p as int]@);
        p = p + 1;
    }
    if p < v.len() {
        assert(o[p as int] == v@[p as int]@);
        if str_eq(v[p].as_str(), x.as_str()) {
            assert(o.to_set().insert(x@) =~= o.to_set());
            return;
        }
        proof {
            lemma_text_lt_total(o[p as int], x@);
        }
    }
    v.insert(p, x);
    let ghost n = v.deep_view();
    assert(n =~= o.insert(p as int, x@));
    assert forall|i: int, j: int| 0 <= i < j < n.len() implies text_lt(#[trigger] n[i], #[trigger] n[j]) by {
        if j < p {
        } else if j == p {
        } else if i < p {
            assert(text_lt(o[i], x@));
            assert(text_lt(x@, o[p as int]));
            lemma_text_lt_transitive(o[i], x@, o[p as int]);
            if j - 1 > p {
                lemma_text_lt_transitive(o[i], o[p as int], o[j - 1]);
            }
        } else if i == p {
            if j - 1 > p {
                lemma_text_lt_transitive(x@, o[p as int], o[j - 1]);
            }
        } else {
            assert(n[i] == o[i - 1] && n[j] == o[j - 1]);
        }
    }
    assert forall|y: Seq<char>| n.to_set().contains(y) <==> o.to_set().insert(x@).contains(y) by {
        if n.to_set().contains(y) {
            let k = choose|k: int| 0 <= k < n.len() && n[k] == y;
            if k < p {
                assert(o[k] == y);
            } else if k > p {
                assert(o[k - 1] == y);
            }
        }
        if o.to_set().contains(y) {
            let k = choose|k: int| 0 <= k < o.len() && o[k] == y;
            if k < p {
                assert(n[k] == y);
            } else {
                assert(n[k + 1] == y);
            }
        }
        if y == x@ {
            assert(n[p as int] == y);
        }
    }
    assert(n.to_set() =~= o.to_set().insert(x@));
}

/// Whether two lists of strings are the same texts in the same order.
pub fn texts_eq(a: &Vec<String>, b: &Vec<String>) -> (r: bool)
    ensures
        r == (a.deep_view() == b.deep_view()),
{
    if a.len() != b.len() {
        assert(a.deep_view().len() != b.deep_view().len());
        return false;
    }
    let mut i: usize = 0;
    while i < a.len()
        invariant
            i <= a.len() == b.len(),
            forall|j: int| 0 <= j < i ==> a.deep_view()[j] == b.deep_view()[j],
        decreases a.len() - i,
    {
        if !str_eq(a[i].as_str(), b[i].as_str()) {
            assert(a.deep_view()[i as int] != b.deep_view()[i as int]);
            return false;
        }
        i = i + 1;
    }
    assert(a.deep_view() =~= b.deep_view());
    true
}
/// The lines of `s` from index `i` on, as `str::lines` yields them.
pub open spec fn lines_from(s: Seq<char>, i: int) -> Seq<Seq<char>>
    decreases s.len() + 1 - i,
    via lines_from_decreases
{
    if i < 0 || i >= s.len() {
        Seq::empty()
    } else {
        seq![line_at(s, i)] + lines_from(s, line_end(s, i) + 1)
    }
}

/// Each line read moves the reading forward.
#[via_fn]
proof fn lines_from_decreases(s: Seq<char>, i: int) {
    if 0 <= i < s.len() {
        lemma_line_end_bounds(s, i);
    }
}

/// Where the line starting at `i` ends: `b` past its last character, `e` at its newline or the
/// text's end.
pub fn line_bounds(v: &Vec<char>, i: usize) -> (r: (usize, usize))
    requires
        i < v.len(),
    ensures
        i <= r.0 <= r.1 <= v.len(),
        r.1 == line_end(v@, i as int),
        v@.subrange(i as int, r.0 as int) == line_at(v@, i as int),
{
    let n = v.len();
    let mut e = i;
    while e < n && v[e] != '\n'
        invariant
            i <= e <= n == v.len(),
            line_end(v@, i as int) == line_end(v@, e as int),
        decreases n - e,
    {
        e = e + 1;
    }
    proof {
        lemma_line_end_bounds(v@, i as int);
    }
    let mut b = e;
    if e < n && e > i && v[e - 1] == '\r' {
        b = e - 1;
    }
    assert(line_at(v@, i as int) =~= v@.subrange(i as int, b as int));
    (b, e)
}

} // verus!
