//! Character-level helpers shared by the scanner parsers and the wire codecs.

use vstd::prelude::*;

verus! {

/// Unicode `White_Space` property, the set of characters that `char::is_whitespace`
/// and `str::trim` treat as whitespace.
pub open spec fn is_ws(c: char) -> bool {
    ||| c == '\t' || c == '\n' || c == '\u{0B}' || c == '\u{0C}' || c == '\r' || c == ' '
    ||| c == '\u{85}' || c == '\u{A0}' || c == '\u{1680}'
    ||| ('\u{2000}' <= c && c <= '\u{200A}')
    ||| c == '\u{2028}' || c == '\u{2029}' || c == '\u{202F}' || c == '\u{205F}' || c == '\u{3000}'
}

/// `s` with leading whitespace removed.
pub open spec fn trim_start(s: Seq<char>) -> Seq<char>
    decreases s.len(),
{
    if s.len() > 0 && is_ws(s[0]) {
        trim_start(s.drop_first())
    } else {
        s
    }
}

/// `s` with trailing whitespace removed.
pub open spec fn trim_end(s: Seq<char>) -> Seq<char>
    decreases s.len(),
{
    if s.len() > 0 && is_ws(s.last()) {
        trim_end(s.drop_last())
    } else {
        s
    }
}

/// `s` with leading and trailing whitespace removed (what `str::trim` returns).
pub open spec fn trim(s: Seq<char>) -> Seq<char> {
    trim_end(trim_start(s))
}

/// Executable whitespace test.
pub fn char_is_ws(c: char) -> (b: bool)
    ensures
        b == is_ws(c),
{
    c == '\t' || c == '\n' || c == '\u{0B}' || c == '\u{0C}' || c == '\r' || c == ' '
        || c == '\u{85}' || c == '\u{A0}' || c == '\u{1680}' || ('\u{2000}' <= c && c
        <= '\u{200A}') || c == '\u{2028}' || c == '\u{2029}' || c == '\u{202F}' || c
        == '\u{205F}' || c == '\u{3000}'
}

/// The characters of `s`, in order.
pub fn chars_of(s: &str) -> (v: Vec<char>)
    ensures
        v@ == s@,
{
    let mut v: Vec<char> = Vec::new();
    for c in it: s.chars()
        invariant
            v@ == it.seq().take(it.index() as int),
    {
        v.push(c);
    }
    v
}


/// Bounds `(lo, hi)` of the trimmed part of `s`.
pub fn trim_bounds(s: &[char]) -> (r: (usize, usize))
    ensures
        r.0 <= r.1 <= s@.len(),
        s@.subrange(r.0 as int, r.1 as int) == trim(s@),
{
    let mut lo: usize = 0;
    assert(s@.subrange(0, s@.len() as int) =~= s@);
    while lo < s.len() && char_is_ws(s[lo])
        invariant
            lo <= s@.len(),
            trim_start(s@) == trim_start(s@.subrange(lo as int, s@.len() as int)),
        decreases s.len() - lo,
    {
        assert(s@.subrange(lo as int, s@.len() as int).drop_first() =~= s@.subrange(
            lo + 1,
            s@.len() as int,
        ));
        lo = lo + 1;
    }
    let mut hi: usize = s.len();
    assert(trim_start(s@) == s@.subrange(lo as int, hi as int));
    while hi > lo && char_is_ws(s[hi - 1])
        invariant
            lo <= hi <= s@.len(),
            trim(s@) == trim_end(s@.subrange(lo as int, hi as int)),
        decreases hi,
    {
        assert(s@.subrange(lo as int, hi as int).drop_last() =~= s@.subrange(
            lo as int,
            hi - 1,
        ));
        hi = hi - 1;
    }
    (lo, hi)
}

/// Bounds `(a, b)` of the trimmed part of `s[lo..hi]`.
pub fn trim_range(s: &[char], lo: usize, hi: usize) -> (r: (usize, usize))
    requires
        lo <= hi <= s@.len(),
    ensures
        lo <= r.0 <= r.1 <= hi,
        s@.subrange(r.0 as int, r.1 as int) == trim(s@.subrange(lo as int, hi as int)),
{
    let ghost t = s@.subrange(lo as int, hi as int);
    let mut a = lo;
    while a < hi && char_is_ws(s[a])
        invariant
            lo <= a <= hi <= s@.len(),
            t == s@.subrange(lo as int, hi as int),
            trim_start(t) == trim_start(s@.subrange(a as int, hi as int)),
        decreases hi - a,
    {
        assert(s@.subrange(a as int, hi as int).drop_first() =~= s@.subrange(a + 1, hi as int));
        a = a + 1;
    }
    let mut b = hi;
    assert(trim_start(t) == s@.subrange(a as int, b as int));
    while b > a && char_is_ws(s[b - 1])
        invariant
            lo <= a <= b <= hi <= s@.len(),
            trim(t) == trim_end(s@.subrange(a as int, b as int)),
        decreases b,
    {
        assert(s@.subrange(a as int, b as int).drop_last() =~= s@.subrange(a as int, b - 1));
        b = b - 1;
    }
    (a, b)
}

/// Appends `c` to `s`.
///
/// Trusted: calls `String::push`, which std documents as appending the
/// character to the end of the string.
#[verifier::external_body]
pub(crate) fn push_char(s: &mut String, c: char)
    ensures
        final(s)@ == old(s)@.push(c),
{
    s.push(c);
}

/// A `String` holding the characters `cs[lo..hi]`.
pub fn string_of_range(cs: &[char], lo: usize, hi: usize) -> (r: String)
    requires
        lo <= hi <= cs@.len(),
    ensures
        r@ == cs@.subrange(lo as int, hi as int),
{
    let mut r = String::new();
    let mut i = lo;
    while i < hi
        invariant
            lo <= i <= hi <= cs@.len(),
            r@ == cs@.subrange(lo as int, i as int),
        decreases hi - i,
    {
        push_char(&mut r, cs[i]);
        assert(cs@.subrange(lo as int, i + 1) =~= cs@.subrange(lo as int, i as int).push(cs@[i as int]));
        i = i + 1;
    }
    r
}

/// The characters of each string.
pub open spec fn strings_view(v: Seq<String>) -> Seq<Seq<char>> {
    v.map_values(|s: String| s@)
}

/// Whether `a` and `b` hold the same characters.
pub fn chars_eq(a: &[char], b: &[char]) -> (r: bool)
    ensures
        r == (a@ == b@),
{
    if a.len() != b.len() {
        return false;
    }
    let mut i: usize = 0;
    while i < a.len()
        invariant
            a@.len() == b@.len(),
            i <= a@.len(),
            forall|j: int| 0 <= j < i ==> a@[j] == b@[j],
        decreases a.len() - i,
    {
        if a[i] != b[i] {
            return false;
        }
        i = i + 1;
    }
    assert(a@ =~= b@);
    true
}

/// Whether two strings hold the same characters.
pub fn str_eq(a: &str, b: &str) -> (r: bool)
    ensures
        r == (a@ == b@),
{
    let ca = chars_of(a);
    let cb = chars_of(b);
    chars_eq(ca.as_slice(), cb.as_slice())
}

/// Whether `c` is an ASCII character.
pub open spec fn is_ascii_char(c: char) -> bool {
    (c as u32) < 128
}

/// ASCII upper-casing of a single character: `a`..=`z` map to `A`..=`Z`,
/// everything else is unchanged.
pub open spec fn ascii_upper(c: char) -> char {
    if 'a' <= c && c <= 'z' {
        ((c as u32) - 32) as char
    } else {
        c
    }
}

/// What `str::to_uppercase` returns for `s`: the Unicode upper-case mapping
/// (Derived Core Property `Uppercase`), which can change the length of `s`.
pub uninterp spec fn unicode_upper(s: Seq<char>) -> Seq<char>;

/// Upper-cases `s`.
///
/// Trusted: calls `str::to_uppercase`. The contract names its result
/// `unicode_upper(s@)` and states the one fact that std's documentation and
/// the Unicode tables give plainly: on ASCII input the mapping is the ASCII
/// one (letters `a`..=`z` to `A`..=`Z`, all else unchanged).
#[verifier::external_body]
pub(crate) fn to_uppercase(s: &str) -> (r: String)
    ensures
        r@ == unicode_upper(s@),
        (forall|i: int| 0 <= i < s@.len() ==> is_ascii_char(#[trigger] s@[i])) ==> r@ == s@.map_values(
            |c: char| ascii_upper(c),
        ),
{
    s.to_uppercase()
}

/// What `String::from_utf8_lossy` returns for `b`: UTF-8 decoding in which
/// each maximal invalid sequence becomes U+FFFD.
pub uninterp spec fn utf8_lossy(b: Seq<u8>) -> Seq<char>;

/// Decodes `b` as UTF-8, replacing invalid sequences.
///
/// Trusted: calls `String::from_utf8_lossy`. Its result is named
/// `utf8_lossy(b@)`; std documents that valid UTF-8 input decodes unchanged,
/// which the second clause states.
#[verifier::external_body]
pub(crate) fn from_utf8_lossy(b: &[u8]) -> (r: String)
    ensures
        r@ == utf8_lossy(b@),
        vstd::utf8::valid_utf8(b@) ==> r@ == vstd::utf8::decode_utf8(b@),
{
    String::from_utf8_lossy(b).to_string()
}


// ---------------------------------------------------------------------------
// Decimal integers
// ---------------------------------------------------------------------------

/// `c` is an ASCII decimal digit.
pub open spec fn is_digit(c: char) -> bool {
    '0' <= c && c <= '9'
}

/// All characters of `s` are ASCII digits.
pub open spec fn all_digits(s: Seq<char>) -> bool {
    forall|i: int| 0 <= i < s.len() ==> is_digit(#[trigger] s[i])
}

/// The number that the decimal digits `s` spell (0 for no digits).
pub open spec fn digits_value(s: Seq<char>) -> nat
    decreases s.len(),
{
    if s.len() == 0 {
        0
    } else {
        10 * digits_value(s.drop_last()) + ((s.last() as u32) - ('0' as u32)) as nat
    }
}

/// What `str::parse` gives for a signed integer of unbounded width:
/// an optional `+` or `-`, then one or more ASCII digits, nothing else.
pub open spec fn parse_int(s: Seq<char>) -> Option<int> {
    if s.len() > 0 && (s[0] == '-' || s[0] == '+') {
        let body = s.drop_first();
        if body.len() > 0 && all_digits(body) {
            if s[0] == '-' {
                Some(-(digits_value(body) as int))
            } else {
                Some(digits_value(body) as int)
            }
        } else {
            None
        }
    } else if s.len() > 0 && all_digits(s) {
        Some(digits_value(s) as int)
    } else {
        None
    }
}

/// What `str::parse::<i32>` returns: the integer when it is in range.
pub open spec fn parse_i32_spec(s: Seq<char>) -> Option<i32> {
    match parse_int(s) {
        Some(v) => if i32::MIN <= v <= i32::MAX {
            Some(v as i32)
        } else {
            None
        },
        None => None,
    }
}

/// What `str::parse::<i64>` returns: the integer when it is in range.
pub open spec fn parse_i64_spec(s: Seq<char>) -> Option<i64> {
    match parse_int(s) {
        Some(v) => if i64::MIN <= v <= i64::MAX {
            Some(v as i64)
        } else {
            None
        },
        None => None,
    }
}

/// Cap on the magnitude tracked while reading digits.
pub open spec fn digit_cap() -> nat {
    0x1_0000_0000_0000_0000
}

proof fn lemma_digits_value_step(s: Seq<char>, c: char)
    ensures
        digits_value(s.push(c)) == 10 * digits_value(s) + ((c as u32) - ('0' as u32)) as nat,
{
    assert(s.push(c).drop_last() =~= s);
}

/// Reads the digits `cs[lo..hi]` (all ASCII digits), returning their value
/// capped at `digit_cap()`.
fn read_digits_capped(cs: &[char], lo: usize, hi: usize) -> (r: u128)
    requires
        lo <= hi <= cs@.len(),
        all_digits(cs@.subrange(lo as int, hi as int)),
    ensures
        r as nat == if digits_value(cs@.subrange(lo as int, hi as int)) < digit_cap() {
            digits_value(cs@.subrange(lo as int, hi as int))
        } else {
            digit_cap()
        },
{
    read_digits_upto(cs, lo, hi, 0x1_0000_0000_0000_0000)
}

/// Reads the digits `cs[lo..hi]` (all ASCII digits), returning their value
/// capped at `cap`.
fn read_digits_upto(cs: &[char], lo: usize, hi: usize, cap: u128) -> (r: u128)
    requires
        lo <= hi <= cs@.len(),
        all_digits(cs@.subrange(lo as int, hi as int)),
        1 <= cap <= 0x1_0000_0000_0000_0000_0000,
    ensures
        r as nat == if digits_value(cs@.subrange(lo as int, hi as int)) < cap {
            digits_value(cs@.subrange(lo as int, hi as int))
        } else {
            cap as nat
        },
{
    let mut acc: u128 = 0;
    let mut i = lo;
    assert(cs@.subrange(lo as int, lo as int) =~= Seq::<char>::empty());
    while i < hi
        invariant
            lo <= i <= hi <= cs@.len(),
            all_digits(cs@.subrange(lo as int, hi as int)),
            1 <= cap <= 0x1_0000_0000_0000_0000_0000,
            acc as nat == if digits_value(cs@.subrange(lo as int, i as int)) < cap {
                digits_value(cs@.subrange(lo as int, i as int))
            } else {
                cap as nat
            },
        decreases hi - i,
    {
        let c = cs[i];
        assert(cs@.subrange(lo as int, hi as int)[i - lo] == c);
        let d = (c as u32 - '0' as u32) as u128;
        proof {
            assert(cs@.subrange(lo as int, i + 1) =~= cs@.subrange(lo as int, i as int).push(c));
            lemma_digits_value_step(cs@.subrange(lo as int, i as int), c);
        }
        if acc >= cap {
            acc = cap;
        } else {
            let next = acc * 10 + d;
            if next >= cap {
                acc = cap;
            } else {
                acc = next;
            }
        }
        i = i + 1;
    }
    acc
}

/// Whether `cs[lo..hi]` consists of ASCII digits only.
fn digits_only(cs: &[char], lo: usize, hi: usize) -> (r: bool)
    requires
        lo <= hi <= cs@.len(),
    ensures
        r == all_digits(cs@.subrange(lo as int, hi as int)),
{
    let mut i = lo;
    while i < hi
        invariant
            lo <= i <= hi <= cs@.len(),
            forall|j: int| lo <= j < i ==> is_digit(#[trigger] cs@[j]),
        decreases hi - i,
    {
        if !('0' <= cs[i] && cs[i] <= '9') {
            assert(!is_digit(cs@.subrange(lo as int, hi as int)[i - lo]));
            return false;
        }
        i = i + 1;
    }
    assert forall|j: int| 0 <= j < hi - lo implies is_digit(#[trigger] cs@.subrange(lo as int, hi as int)[j]) by {
        assert(cs@.subrange(lo as int, hi as int)[j] == cs@[lo + j]);
    }
    true
}

/// Parses `cs[lo..hi]` as a signed integer; returns the sign and the
/// magnitude capped at `digit_cap()`.
fn parse_int_capped(cs: &[char], lo: usize, hi: usize) -> (r: Option<(bool, u128)>)
    requires
        lo <= hi <= cs@.len(),
    ensures
        r is None <==> parse_int(cs@.subrange(lo as int, hi as int)) is None,
        r matches Some((neg, mag)) ==> ({
            let v = parse_int(cs@.subrange(lo as int, hi as int))->0;
            &&& (neg ==> v <= 0) && (!neg ==> v >= 0)
            &&& mag as nat == if (if neg { -v } else { v }) < digit_cap() {
                (if neg { -v } else { v }) as nat
            } else {
                digit_cap()
            }
        }),
{
    parse_int_upto(cs, lo, hi, 0x1_0000_0000_0000_0000)
}

/// Parses `cs[lo..hi]` as a signed integer; returns the sign and the
/// magnitude capped at `cap`.
fn parse_int_upto(cs: &[char], lo: usize, hi: usize, cap: u128) -> (r: Option<(bool, u128)>)
    requires
        lo <= hi <= cs@.len(),
        1 <= cap <= 0x1_0000_0000_0000_0000_0000,
    ensures
        r is None <==> parse_int(cs@.subrange(lo as int, hi as int)) is None,
        r matches Some((neg, mag)) ==> ({
            let v = parse_int(cs@.subrange(lo as int, hi as int))->0;
            &&& (neg ==> v <= 0) && (!neg ==> v >= 0)
            &&& mag as nat == if (if neg { -v } else { v }) < cap {
                (if neg { -v } else { v }) as nat
            } else {
                cap as nat
            }
        }),
{
    let ghost s = cs@.subrange(lo as int, hi as int);
    if lo < hi && (cs[lo] == '-' || cs[lo] == '+') {
        assert(s[0] == cs@[lo as int]);
        assert(s.drop_first() =~= cs@.subrange(lo + 1, hi as int));
        if lo + 1 < hi && digits_only(cs, lo + 1, hi) {
            let mag = read_digits_upto(cs, lo + 1, hi, cap);
            Some((cs[lo] == '-', mag))
        } else {
            None
        }
    } else if lo < hi && digits_only(cs, lo, hi) {
        let mag = read_digits_upto(cs, lo, hi, cap);
        Some((false, mag))
    } else {
        if lo < hi {
            assert(s[0] == cs@[lo as int]);
        }
        None
    }
}

/// `str::parse::<i32>` on `cs[lo..hi]`.
pub fn parse_i32_range(cs: &[char], lo: usize, hi: usize) -> (r: Option<i32>)
    requires
        lo <= hi <= cs@.len(),
    ensures
        r == parse_i32_spec(cs@.subrange(lo as int, hi as int)),
{
    match parse_int_capped(cs, lo, hi) {
        None => None,
        Some((neg, mag)) => {
            if neg {
                if mag <= 0x8000_0000 {
                    Some((0 - (mag as i64)) as i32)
                } else {
                    None
                }
            } else {
                if mag <= 0x7fff_ffff {
                    Some(mag as i32)
                } else {
                    None
                }
            }
        },
    }
}

/// `str::parse::<i64>` on `cs[lo..hi]`.
pub fn parse_i64_range(cs: &[char], lo: usize, hi: usize) -> (r: Option<i64>)
    requires
        lo <= hi <= cs@.len(),
    ensures
        r == parse_i64_spec(cs@.subrange(lo as int, hi as int)),
{
    match parse_int_capped(cs, lo, hi) {
        None => None,
        Some((neg, mag)) => {
            if neg {
                if mag <= 0x8000_0000_0000_0000 {
                    Some((0 - (mag as i128)) as i64)
                } else {
                    None
                }
            } else {
                if mag <= 0x7fff_ffff_ffff_ffff {
                    Some(mag as i64)
                } else {
                    None
                }
            }
        },
    }
}


// ---------------------------------------------------------------------------
// Splitting, prefixes, escapes
// ---------------------------------------------------------------------------

/// `s` cut at every `sep`; the separators are dropped and there is always
/// one more piece than there are separators.
pub open spec fn split_on(s: Seq<char>, sep: char) -> Seq<Seq<char>>
    decreases s.len(),
{
    if s.len() == 0 {
        seq![Seq::<char>::empty()]
    } else if s.last() == sep {
        split_on(s.drop_last(), sep).push(Seq::empty())
    } else {
        let r = split_on(s.drop_last(), sep);
        r.update(r.len() - 1, r.last().push(s.last()))
    }
}

proof fn lemma_split_on_nonempty(s: Seq<char>, sep: char)
    ensures
        split_on(s, sep).len() >= 1,
    decreases s.len(),
{
    if s.len() > 0 {
        lemma_split_on_nonempty(s.drop_last(), sep);
    }
}

/// The pieces of `cs` between occurrences of `sep`, as index ranges.
pub fn split_ranges(cs: &[char], sep: char) -> (r: Vec<(usize, usize)>)
    ensures
        forall|k: int| 0 <= k < r@.len() ==> (#[trigger] r@[k]).0 <= r@[k].1 <= cs@.len(),
        r@.len() == split_on(cs@, sep).len(),
        forall|k: int| 0 <= k < r@.len() ==> cs@.subrange((#[trigger] r@[k]).0 as int, r@[k].1 as int) == split_on(cs@, sep)[k],
{
    let mut r: Vec<(usize, usize)> = Vec::new();
    let mut start: usize = 0;
    let mut i: usize = 0;
    assert(cs@.take(0) =~= Seq::<char>::empty());
    while i < cs.len()
        invariant
            start <= i <= cs@.len(),
            r@.len() + 1 == split_on(cs@.take(i as int), sep).len(),
            forall|k: int| 0 <= k < r@.len() ==> (#[trigger] r@[k]).0 <= r@[k].1 <= i,
            forall|k: int| 0 <= k < r@.len() ==> cs@.subrange((#[trigger] r@[k]).0 as int, r@[k].1 as int) == split_on(cs@.take(i as int), sep)[k],
            cs@.subrange(start as int, i as int) == split_on(cs@.take(i as int), sep).last(),
        decreases cs.len() - i,
    {
        let ghost pre = cs@.take(i as int);
        assert(cs@.take(i + 1).drop_last() =~= pre);
        assert(cs@.take(i + 1).last() == cs@[i as int]);
        proof {
            lemma_split_on_nonempty(pre, sep);
        }
        if cs[i] == sep {
            r.push((start, i));
            start = i + 1;
            assert(cs@.subrange(start as int, i + 1) =~= Seq::<char>::empty());
        } else {
            assert(cs@.subrange(start as int, i + 1) =~= cs@.subrange(start as int, i as int).push(cs@[i as int]));
        }
        i = i + 1;
    }
    r.push((start, cs.len()));
    assert(cs@.take(cs@.len() as int) =~= cs@);
    r
}

/// `cs[lo..hi]` starts with the characters of `prefix`.
pub fn starts_with(cs: &[char], lo: usize, hi: usize, prefix: &str) -> (r: bool)
    requires
        lo <= hi <= cs@.len(),
    ensures
        r == (prefix@.len() <= hi - lo && cs@.subrange(lo as int, lo + prefix@.len()) == prefix@),
{
    let p = chars_of(prefix);
    if p.len() > hi - lo {
        return false;
    }
    let mut i: usize = 0;
    while i < p.len()
        invariant
            p@ == prefix@,
            p@.len() <= hi - lo,
            lo <= hi <= cs@.len(),
            i <= p@.len(),
            forall|j: int| 0 <= j < i ==> cs@[lo + j] == p@[j],
        decreases p.len() - i,
    {
        if cs[lo + i] != p[i] {
            assert(cs@.subrange(lo as int, lo + prefix@.len())[i as int] != prefix@[i as int]);
            return false;
        }
        i = i + 1;
    }
    assert(cs@.subrange(lo as int, lo + prefix@.len()) =~= prefix@);
    true
}

/// `s` with every `\:` replaced by `:`, scanning left to right
/// (what `str::replace("\\:", ":")` returns).
pub open spec fn unescape_colons(s: Seq<char>) -> Seq<char>
    decreases s.len(),
{
    if s.len() >= 2 && s[0] == '\\' && s[1] == ':' {
        seq![':'] + unescape_colons(s.skip(2))
    } else if s.len() == 0 {
        s
    } else {
        seq![s[0]] + unescape_colons(s.drop_first())
    }
}

/// `str::replace("\\:", ":")` on `cs`.
pub fn unescape_colons_exec(cs: &[char]) -> (r: String)
    ensures
        r@ == unescape_colons(cs@),
{
    let mut r = String::new();
    let mut i: usize = 0;
    assert(cs@.skip(0) =~= cs@);
    assert(unescape_colons(cs@) =~= r@ + unescape_colons(cs@.skip(0)));
    while i < cs.len()
        invariant
            i <= cs@.len(),
            unescape_colons(cs@) == r@ + unescape_colons(cs@.skip(i as int)),
        decreases cs.len() - i,
    {
        let ghost rest = cs@.skip(i as int);
        if i + 1 < cs.len() && cs[i] == '\\' && cs[i + 1] == ':' {
            let ghost r0 = r@;
            push_char(&mut r, ':');
            assert(rest[0] == '\\' && rest[1] == ':');
            assert(rest.skip(2) =~= cs@.skip(i + 2));
            assert(r@ + unescape_colons(cs@.skip(i + 2)) =~= r0 + (seq![':'] + unescape_colons(rest.skip(2))));
            i = i + 2;
        } else {
            let ghost r0 = r@;
            push_char(&mut r, cs[i]);
            assert(rest[0] == cs@[i as int]);
            assert(!(rest.len() >= 2 && rest[0] == '\\' && rest[1] == ':'));
            assert(rest.drop_first() =~= cs@.skip(i + 1));
            assert(r@ + unescape_colons(cs@.skip(i + 1)) =~= r0 + (seq![rest[0]] + unescape_colons(rest.drop_first())));
            i = i + 1;
        }
    }
    assert(cs@.skip(cs@.len() as int) =~= Seq::<char>::empty());
    r
}

// ---------------------------------------------------------------------------
// Numbers in floating-point notation
// ---------------------------------------------------------------------------

/// First index of `c` in `s` at `i` or later, or -1.
pub open spec fn index_of_from(s: Seq<char>, c: char, i: int) -> int
    decreases s.len() - i,
{
    if i < 0 || i >= s.len() {
        -1
    } else if s[i] == c {
        i
    } else {
        index_of_from(s, c, i + 1)
    }
}

/// First index at `i` or later of an exponent marker (`e` or `E`) in `s`, or -1.
pub open spec fn exp_marker_from(s: Seq<char>, i: int) -> int
    decreases s.len() - i,
{
    if i < 0 || i >= s.len() {
        -1
    } else if s[i] == 'e' || s[i] == 'E' {
        i
    } else {
        exp_marker_from(s, i + 1)
    }
}

/// Ten to the power `n`.
pub open spec fn pow10(n: nat) -> nat
    decreases n,
{
    if n == 0 {
        1
    } else {
        10 * pow10((n - 1) as nat)
    }
}

/// The integer part of the number whose digits are `d`, with the decimal
/// point after the first `p` of them (zeros appended where `p` is past the end).
pub open spec fn shifted_trunc(d: Seq<char>, p: int) -> nat {
    if p <= 0 {
        0
    } else if p <= d.len() {
        digits_value(d.take(p))
    } else {
        digits_value(d) * pow10((p - d.len()) as nat)
    }
}

/// The part of `s` before its exponent marker (all of `s` when it has none).
pub open spec fn mantissa_of(s: Seq<char>) -> Seq<char> {
    let m = exp_marker_from(s, 0);
    if m < 0 {
        s
    } else {
        s.take(m)
    }
}

/// The exponent written after the marker (0 when there is no marker), or
/// None when what follows the marker is not a signed integer.
pub open spec fn exponent_of(s: Seq<char>) -> Option<int> {
    let m = exp_marker_from(s, 0);
    if m < 0 {
        Some(0)
    } else {
        parse_int(s.skip(m + 1))
    }
}

/// The digits of a mantissa before its decimal point.
pub open spec fn int_digits(mant: Seq<char>) -> Seq<char> {
    let dot = index_of_from(mant, '.', 0);
    if dot < 0 {
        mant
    } else {
        mant.take(dot)
    }
}

/// The digits of a mantissa after its decimal point.
pub open spec fn frac_digits(mant: Seq<char>) -> Seq<char> {
    let dot = index_of_from(mant, '.', 0);
    if dot < 0 {
        Seq::empty()
    } else {
        mant.skip(dot + 1)
    }
}

/// The integer part of an unsigned number in the notation that
/// `str::parse::<f64>` reads (`digits`, `digits.digits`, `digits.` or
/// `.digits`, then optionally `e` or `E` and a signed exponent), or None when
/// `s` is not one.
pub open spec fn unsigned_decimal_trunc(s: Seq<char>) -> Option<nat> {
    let int_part = int_digits(mantissa_of(s));
    let frac = frac_digits(mantissa_of(s));
    if all_digits(int_part) && all_digits(frac) && int_part.len() + frac.len() >= 1 && exponent_of(s) is Some {
        Some(shifted_trunc(int_part + frac, int_part.len() + exponent_of(s)->0))
    } else {
        None
    }
}

/// Whether `c` is the letter written `lower` in lower case and `upper` in upper case.
pub open spec fn letter_is(c: char, lower: char, upper: char) -> bool {
    c == lower || c == upper
}

/// Whether `s` spells `inf` or `infinity`, in any mix of cases.
pub open spec fn is_infinity_word(s: Seq<char>) -> bool {
    &&& s.len() == 3 || s.len() == 8
    &&& letter_is(s[0], 'i', 'I') && letter_is(s[1], 'n', 'N') && letter_is(s[2], 'f', 'F')
    &&& s.len() == 8 ==> {
        &&& letter_is(s[3], 'i', 'I') && letter_is(s[4], 'n', 'N') && letter_is(s[5], 'i', 'I')
        &&& letter_is(s[6], 't', 'T') && letter_is(s[7], 'y', 'Y')
    }
}

/// Whether `s` spells `nan`, in any mix of cases.
pub open spec fn is_nan_word(s: Seq<char>) -> bool {
    s.len() == 3 && letter_is(s[0], 'n', 'N') && letter_is(s[1], 'a', 'A') && letter_is(s[2], 'n', 'N')
}

/// The `i32` that a reading in floating-point notation stands for: `s` is
/// an optional sign and then a number as `str::parse::<f64>` accepts it, or
/// `inf`, `infinity` or `nan` in any case. A number counts by its exact value,
/// truncated toward zero and clamped to the range of `i32`; the infinities
/// give the ends of that range and `nan` gives 0, as a float-to-`i32` cast
/// does. None when `s` is none of these.
pub open spec fn float_text_as_i32(s: Seq<char>) -> Option<i32> {
    let signed = s.len() > 0 && (s[0] == '-' || s[0] == '+');
    let neg = signed && s[0] == '-';
    let body = if signed { s.drop_first() } else { s };
    if is_nan_word(body) {
        Some(0i32)
    } else if is_infinity_word(body) {
        Some(if neg { i32::MIN } else { i32::MAX })
    } else {
        match unsigned_decimal_trunc(body) {
            Some(v) => Some(saturate_i32(if neg { -(v as int) } else { v as int })),
            None => None,
        }
    }
}

/// `v` clamped to the range of `i32` (what a float-to-`i32` cast does).
pub open spec fn saturate_i32(v: int) -> i32 {
    if v < i32::MIN {
        i32::MIN
    } else if v > i32::MAX {
        i32::MAX
    } else {
        v as i32
    }
}

/// Index of the first `c` in `cs[lo..hi]`, if any.
pub fn index_of_range(cs: &[char], lo: usize, hi: usize, c: char) -> (r: Option<usize>)
    requires
        lo <= hi <= cs@.len(),
    ensures
        r matches Some(k) ==> lo <= k < hi && index_of_from(cs@.subrange(lo as int, hi as int), c, 0) == k - lo,
        r is None ==> index_of_from(cs@.subrange(lo as int, hi as int), c, 0) == -1,
{
    let ghost s = cs@.subrange(lo as int, hi as int);
    let mut i = lo;
    while i < hi
        invariant
            lo <= i <= hi <= cs@.len(),
            s == cs@.subrange(lo as int, hi as int),
            index_of_from(s, c, 0) == index_of_from(s, c, i - lo),
        decreases hi - i,
    {
        assert(s[i - lo] == cs@[i as int]);
        if cs[i] == c {
            return Some(i);
        }
        i = i + 1;
    }
    None
}

/// Index of the first exponent marker (`e` or `E`) in `cs[lo..hi]`, if any.
fn exp_marker_range(cs: &[char], lo: usize, hi: usize) -> (r: Option<usize>)
    requires
        lo <= hi <= cs@.len(),
    ensures
        r matches Some(k) ==> lo <= k < hi && exp_marker_from(cs@.subrange(lo as int, hi as int), 0) == k - lo,
        r is None ==> exp_marker_from(cs@.subrange(lo as int, hi as int), 0) == -1,
{
    let ghost s = cs@.subrange(lo as int, hi as int);
    let mut i = lo;
    while i < hi
        invariant
            lo <= i <= hi <= cs@.len(),
            s == cs@.subrange(lo as int, hi as int),
            exp_marker_from(s, 0) == exp_marker_from(s, i - lo),
        decreases hi - i,
    {
        assert(s[i - lo] == cs@[i as int]);
        if cs[i] == 'e' || cs[i] == 'E' {
            return Some(i);
        }
        i = i + 1;
    }
    None
}

/// `x` capped at `digit_cap()`.
pub open spec fn capped(x: nat) -> nat {
    if x < digit_cap() {
        x
    } else {
        digit_cap()
    }
}

proof fn lemma_pow10_at_least(n: nat)
    requires
        n >= 20,
    ensures
        pow10(n) > digit_cap(),
    decreases n,
{
    if n == 20 {
        reveal_with_fuel(pow10, 21);
    } else {
        lemma_pow10_at_least((n - 1) as nat);
    }
}

proof fn lemma_capped_step(v: nat, i: nat)
    ensures
        capped(capped(v * pow10(i)) * 10) == capped(v * pow10(i + 1)),
{
    assert(v * pow10(i + 1) == (v * pow10(i)) * 10) by (nonlinear_arith)
        requires
            pow10(i + 1) == 10 * pow10(i),
    ;
}

proof fn lemma_capped_far(v: nat, n: nat, m: nat)
    requires
        n >= 20,
        m >= 20,
    ensures
        capped(v * pow10(n)) == capped(v * pow10(m)),
{
    lemma_pow10_at_least(n);
    lemma_pow10_at_least(m);
    if v == 0 {
        assert(v * pow10(n) == 0 && v * pow10(m) == 0) by (nonlinear_arith)
            requires
                v == 0,
        ;
    } else {
        assert(v * pow10(n) >= pow10(n) && v * pow10(m) >= pow10(m)) by (nonlinear_arith)
            requires
                v >= 1,
        ;
    }
}

/// Cap on the exponent's magnitude tracked while reading a number.
pub open spec fn exp_cap() -> nat {
    0x1_0000_0000_0000_0000_0000
}

/// Finds the exponent of the number in `cs[lo..hi]`: where its mantissa
/// ends, and the exponent's sign and magnitude (capped at `exp_cap()`).
fn split_exponent(cs: &[char], lo: usize, hi: usize) -> (r: Option<(usize, bool, u128)>)
    requires
        lo <= hi <= cs@.len(),
    ensures
        r is None <==> exponent_of(cs@.subrange(lo as int, hi as int)) is None,
        r matches Some((me, neg, k)) ==> ({
            let e = exponent_of(cs@.subrange(lo as int, hi as int))->0;
            &&& lo <= me <= hi
            &&& cs@.subrange(lo as int, me as int) == mantissa_of(cs@.subrange(lo as int, hi as int))
            &&& (neg ==> e <= 0) && (!neg ==> e >= 0)
            &&& k as nat == if (if neg { -e } else { e }) < exp_cap() {
                (if neg { -e } else { e }) as nat
            } else {
                exp_cap()
            }
        }),
{
    let ghost s = cs@.subrange(lo as int, hi as int);
    match exp_marker_range(cs, lo, hi) {
        None => Some((hi, false, 0)),
        Some(m) => {
            assert(cs@.subrange(lo as int, m as int) =~= s.take(m - lo));
            assert(cs@.subrange(m + 1, hi as int) =~= s.skip(m - lo + 1));
            match parse_int_upto(cs, m + 1, hi, 0x1_0000_0000_0000_0000_0000) {
                None => None,
                Some((neg, k)) => Some((m, neg, k)),
            }
        },
    }
}

/// Finds the decimal point of the mantissa `cs[lo..me]`: where its integer
/// digits end and where its fraction digits start.
fn split_mantissa(cs: &[char], lo: usize, me: usize) -> (r: (usize, usize))
    requires
        lo <= me <= cs@.len(),
    ensures
        lo <= r.0 <= r.1 <= me,
        cs@.subrange(lo as int, r.0 as int) == int_digits(cs@.subrange(lo as int, me as int)),
        cs@.subrange(r.1 as int, me as int) == frac_digits(cs@.subrange(lo as int, me as int)),
{
    let ghost mant = cs@.subrange(lo as int, me as int);
    match index_of_range(cs, lo, me, '.') {
        Some(d) => {
            assert(cs@.subrange(lo as int, d as int) =~= mant.take(d - lo));
            assert(cs@.subrange(d + 1, me as int) =~= mant.skip(d - lo + 1));
            (d, d + 1)
        },
        None => {
            assert(cs@.subrange(lo as int, me as int) =~= mant);
            assert(cs@.subrange(me as int, me as int) =~= Seq::<char>::empty());
            (me, me)
        },
    }
}

/// The characters `cs[lo..ie]` followed by `cs[fs..fe]`, in a vector.
fn concat_ranges(cs: &[char], lo: usize, ie: usize, fs: usize, fe: usize) -> (w: Vec<char>)
    requires
        lo <= ie <= cs@.len(),
        fs <= fe <= cs@.len(),
    ensures
        w@ == cs@.subrange(lo as int, ie as int) + cs@.subrange(fs as int, fe as int),
{
    let mut w: Vec<char> = Vec::new();
    let mut j = lo;
    while j < ie
        invariant
            lo <= j <= ie <= cs@.len(),
            w@ == cs@.subrange(lo as int, j as int),
        decreases ie - j,
    {
        w.push(cs[j]);
        j = j + 1;
        assert(w@ =~= cs@.subrange(lo as int, j as int));
    }
    let mut j = fs;
    while j < fe
        invariant
            fs <= j <= fe <= cs@.len(),
            lo <= ie <= cs@.len(),
            w@ == cs@.subrange(lo as int, ie as int) + cs@.subrange(fs as int, j as int),
        decreases fe - j,
    {
        w.push(cs[j]);
        j = j + 1;
        assert(w@ =~= cs@.subrange(lo as int, ie as int) + cs@.subrange(fs as int, j as int));
    }
    w
}

/// `capped(v * 10^extra)`, given `a == capped(v)`.
fn scale_capped(a: u128, extra: u128, Ghost(v): Ghost<nat>) -> (r: u128)
    requires
        a as nat == capped(v),
    ensures
        r as nat == capped(v * pow10(extra as nat)),
{
    let cap: u128 = 0x1_0000_0000_0000_0000;
    let mut a = a;
    let mut i: u128 = 0;
    assert(v * pow10(0) == v) by {
        assert(pow10(0) == 1);
    }
    while i < extra && i < 20
        invariant
            i <= extra,
            i <= 20,
            cap == digit_cap(),
            a as nat == capped(v * pow10(i as nat)),
        decreases 20 - i,
    {
        proof {
            lemma_capped_step(v, i as nat);
        }
        if a * 10 >= cap {
            a = cap;
        } else {
            a = a * 10;
        }
        i = i + 1;
    }
    if i < extra {
        proof {
            lemma_capped_far(v, i as nat, extra as nat);
        }
    }
    a
}

/// How the unsigned reader computes a shifted value: from the integer
/// digits and the first `kept` fraction digits, scaled up by what remains of
/// the (capped) exponent `k`.
proof fn lemma_shifted_kept(int_part: Seq<char>, frac: Seq<char>, e: int, k: nat, kept: nat)
    requires
        e >= 0,
        k == if e < exp_cap() { e as nat } else { exp_cap() },
        frac.len() < digit_cap(),
        kept == if k < frac.len() { k } else { frac.len() },
    ensures
        capped(shifted_trunc(int_part + frac, int_part.len() + e)) == capped(
            digits_value(int_part + frac.take(kept as int)) * pow10((k - kept) as nat),
        ),
{
    let d = int_part + frac;
    let p = int_part.len() + e;
    let w = int_part + frac.take(kept as int);
    let v = digits_value(w);
    assert(pow10(0) == 1);
    assert(v * pow10(0) == v) by (nonlinear_arith)
        requires
            pow10(0) == 1,
    ;
    if k < frac.len() {
        assert(d.take(p) =~= w);
        if p <= 0 {
            assert(w.len() == 0);
            assert(v == 0);
        }
    } else {
        assert(frac.take(kept as int) =~= frac);
        if p <= d.len() {
            assert(d.take(p) =~= d);
        } else if k >= exp_cap() {
            lemma_capped_far(v, (k - kept) as nat, (p - d.len()) as nat);
        }
    }
}

/// The integer part of the number with integer digits `cs[lo..ie]`,
/// fraction digits `cs[fs..me]` and exponent `e` (of sign `neg` and magnitude
/// `k`, capped at `exp_cap()`), capped at `digit_cap()`.
fn shifted_value(cs: &[char], lo: usize, ie: usize, fs: usize, me: usize, neg: bool, k: u128, Ghost(e): Ghost<int>) -> (r: u128)
    requires
        lo <= ie <= cs@.len(),
        fs <= me <= cs@.len(),
        all_digits(cs@.subrange(lo as int, ie as int)),
        all_digits(cs@.subrange(fs as int, me as int)),
        neg ==> e <= 0,
        !neg ==> e >= 0,
        k as nat == if (if neg { -e } else { e }) < exp_cap() {
            (if neg { -e } else { e }) as nat
        } else {
            exp_cap()
        },
    ensures
        r as nat == capped(shifted_trunc(
            cs@.subrange(lo as int, ie as int) + cs@.subrange(fs as int, me as int),
            (ie - lo) + e,
        )),
{
    let ghost int_part = cs@.subrange(lo as int, ie as int);
    let ghost frac = cs@.subrange(fs as int, me as int);
    let ghost d = int_part + frac;
    let ghost p: int = int_part.len() + e;
    let int_len = ie - lo;
    let frac_len = me - fs;
    if neg {
        if k >= int_len as u128 {
            return 0;
        }
        let q: usize = int_len - (k as usize);
        assert(d.take(p) =~= cs@.subrange(lo as int, lo + q));
        return read_digits_capped(cs, lo, lo + q);
    }
    let kept: usize = if k < frac_len as u128 {
        k as usize
    } else {
        frac_len
    };
    let w = concat_ranges(cs, lo, ie, fs, fs + kept);
    assert(w@ == int_part + frac.take(kept as int));
    assert(w@.subrange(0, w@.len() as int) =~= w@);
    assert(all_digits(w@)) by {
        assert forall|i: int| 0 <= i < w@.len() implies is_digit(#[trigger] w@[i]) by {
            if i < int_part.len() {
                assert(w@[i] == int_part[i]);
            } else {
                assert(w@[i] == frac[i - int_part.len()]);
            }
        }
    }
    let a = read_digits_capped(w.as_slice(), 0, w.len());
    let r = scale_capped(a, k - kept as u128, Ghost(digits_value(w@)));
    proof {
        lemma_shifted_kept(int_part, frac, e, k as nat, kept as nat);
    }
    r
}

/// The integer part of the unsigned number in `cs[lo..hi]` (see
/// `unsigned_decimal_trunc`), capped at `digit_cap()`.
fn unsigned_decimal_exec(cs: &[char], lo: usize, hi: usize) -> (r: Option<u128>)
    requires
        lo <= hi <= cs@.len(),
    ensures
        r is None <==> unsigned_decimal_trunc(cs@.subrange(lo as int, hi as int)) is None,
        r matches Some(m) ==> m as nat == capped(unsigned_decimal_trunc(cs@.subrange(lo as int, hi as int))->0),
{
    let ghost s = cs@.subrange(lo as int, hi as int);
    let (me, neg, k) = match split_exponent(cs, lo, hi) {
        None => {
            return None;
        },
        Some(x) => x,
    };
    let (ie, fs) = split_mantissa(cs, lo, me);
    if !(digits_only(cs, lo, ie) && digits_only(cs, fs, me) && (ie - lo) + (me - fs) >= 1) {
        return None;
    }
    Some(shifted_value(cs, lo, ie, fs, me, neg, k, Ghost(exponent_of(s)->0)))
}

/// Whether `cs[lo..hi]` spells `nan`, in any mix of cases.
fn nan_word_range(cs: &[char], lo: usize, hi: usize) -> (r: bool)
    requires
        lo <= hi <= cs@.len(),
    ensures
        r == is_nan_word(cs@.subrange(lo as int, hi as int)),
{
    let ghost s = cs@.subrange(lo as int, hi as int);
    if hi - lo != 3 {
        return false;
    }
    assert(s[0] == cs@[lo as int] && s[1] == cs@[lo + 1] && s[2] == cs@[lo + 2]);
    (cs[lo] == 'n' || cs[lo] == 'N') && (cs[lo + 1] == 'a' || cs[lo + 1] == 'A') && (cs[lo + 2] == 'n'
        || cs[lo + 2] == 'N')
}

/// Whether `cs[lo..hi]` spells `inf` or `infinity`, in any mix of cases.
fn infinity_word_range(cs: &[char], lo: usize, hi: usize) -> (r: bool)
    requires
        lo <= hi <= cs@.len(),
    ensures
        r == is_infinity_word(cs@.subrange(lo as int, hi as int)),
{
    let ghost s = cs@.subrange(lo as int, hi as int);
    let n = hi - lo;
    if n != 3 && n != 8 {
        return false;
    }
    assert(s[0] == cs@[lo as int] && s[1] == cs@[lo + 1] && s[2] == cs@[lo + 2]);
    let head = (cs[lo] == 'i' || cs[lo] == 'I') && (cs[lo + 1] == 'n' || cs[lo + 1] == 'N') && (cs[lo
        + 2] == 'f' || cs[lo + 2] == 'F');
    if n == 3 {
        return head;
    }
    assert(s[3] == cs@[lo + 3] && s[4] == cs@[lo + 4] && s[5] == cs@[lo + 5]);
    assert(s[6] == cs@[lo + 6] && s[7] == cs@[lo + 7]);
    head && (cs[lo + 3] == 'i' || cs[lo + 3] == 'I') && (cs[lo + 4] == 'n' || cs[lo + 4] == 'N') && (
    cs[lo + 5] == 'i' || cs[lo + 5] == 'I') && (cs[lo + 6] == 't' || cs[lo + 6] == 'T') && (cs[lo + 7]
        == 'y' || cs[lo + 7] == 'Y')
}

/// Reads a reading in floating-point notation in `cs[lo..hi]` and gives the
/// `i32` it stands for (see `float_text_as_i32`).
pub fn float_text_to_i32(cs: &[char], lo: usize, hi: usize) -> (r: Option<i32>)
    requires
        lo <= hi <= cs@.len(),
    ensures
        r == float_text_as_i32(cs@.subrange(lo as int, hi as int)),
{
    let ghost s = cs@.subrange(lo as int, hi as int);
    if lo < hi {
        assert(s[0] == cs@[lo as int]);
    }
    let signed = lo < hi && (cs[lo] == '-' || cs[lo] == '+');
    let neg = signed && cs[lo] == '-';
    let b = if signed {
        lo + 1
    } else {
        lo
    };
    assert(cs@.subrange(b as int, hi as int) =~= (if signed { s.drop_first() } else { s }));
    if nan_word_range(cs, b, hi) {
        return Some(0);
    }
    if infinity_word_range(cs, b, hi) {
        return Some(
            if neg {
                i32::MIN
            } else {
                i32::MAX
            },
        );
    }
    match unsigned_decimal_exec(cs, b, hi) {
        None => None,
        Some(m) => {
            if neg {
                if m >= 0x8000_0000 {
                    Some(i32::MIN)
                } else {
                    Some((0 - (m as i64)) as i32)
                }
            } else {
                if m >= 0x7fff_ffff {
                    Some(i32::MAX)
                } else {
                    Some(m as i32)
                }
            }
        },
    }
}

/// First index at `i` or later of a whitespace character of `s`, or `s.len()`.
pub open spec fn ws_index_from(s: Seq<char>, i: int) -> int
    decreases s.len() - i,
{
    if i < 0 || i >= s.len() {
        s.len() as int
    } else if is_ws(s[i]) {
        i
    } else {
        ws_index_from(s, i + 1)
    }
}

/// The first whitespace-separated word of `s`, or nothing when `s` is blank
/// (what `s.split_whitespace().next().unwrap_or("")` gives).
pub open spec fn first_token(s: Seq<char>) -> Seq<char> {
    let t = trim_start(s);
    t.take(ws_index_from(t, 0))
}

/// Start of the part of `cs[lo..hi]` that is left after its leading whitespace.
pub fn skip_ws(cs: &[char], lo: usize, hi: usize) -> (r: usize)
    requires
        lo <= hi <= cs@.len(),
    ensures
        lo <= r <= hi,
        cs@.subrange(r as int, hi as int) == trim_start(cs@.subrange(lo as int, hi as int)),
{
    let mut a = lo;
    while a < hi && char_is_ws(cs[a])
        invariant
            lo <= a <= hi <= cs@.len(),
            trim_start(cs@.subrange(lo as int, hi as int)) == trim_start(cs@.subrange(a as int, hi as int)),
        decreases hi - a,
    {
        assert(cs@.subrange(a as int, hi as int).drop_first() =~= cs@.subrange(a + 1, hi as int));
        a = a + 1;
    }
    a
}

/// Index of the first whitespace character in `cs[lo..hi]`, or `hi`.
pub fn find_ws(cs: &[char], lo: usize, hi: usize) -> (r: usize)
    requires
        lo <= hi <= cs@.len(),
    ensures
        lo <= r <= hi,
        r - lo == ws_index_from(cs@.subrange(lo as int, hi as int), 0),
{
    let ghost s = cs@.subrange(lo as int, hi as int);
    let mut i = lo;
    while i < hi && !char_is_ws(cs[i])
        invariant
            lo <= i <= hi <= cs@.len(),
            s == cs@.subrange(lo as int, hi as int),
            ws_index_from(s, 0) == ws_index_from(s, i - lo),
        decreases hi - i,
    {
        assert(s[i - lo] == cs@[i as int]);
        i = i + 1;
    }
    if i < hi {
        assert(s[i - lo] == cs@[i as int]);
    }
    i
}

// ---------------------------------------------------------------------------
// Building strings
// ---------------------------------------------------------------------------

/// Appends the characters of `t` to `s`.
pub fn push_str(s: &mut String, t: &str)
    ensures
        final(s)@ == old(s)@ + t@,
{
    let cs = chars_of(t);
    let ghost s0 = s@;
    let mut i: usize = 0;
    while i < cs.len()
        invariant
            i <= cs@.len(),
            cs@ == t@,
            s@ == s0 + cs@.take(i as int),
        decreases cs.len() - i,
    {
        push_char(s, cs[i]);
        assert(cs@.take(i + 1) =~= cs@.take(i as int).push(cs@[i as int]));
        i = i + 1;
    }
    assert(cs@.take(cs@.len() as int) =~= cs@);
}

/// The ASCII digit for `d` (0..=9).
pub open spec fn digit_char(d: nat) -> char {
    if d == 0 { '0' }
    else if d == 1 { '1' }
    else if d == 2 { '2' }
    else if d == 3 { '3' }
    else if d == 4 { '4' }
    else if d == 5 { '5' }
    else if d == 6 { '6' }
    else if d == 7 { '7' }
    else if d == 8 { '8' }
    else { '9' }
}

/// The decimal spelling of `n`, without sign or leading zeros (what
/// `to_string` gives for an unsigned integer).
pub open spec fn decimal(n: nat) -> Seq<char>
    decreases n,
{
    if n < 10 {
        seq![digit_char(n)]
    } else {
        decimal(n / 10).push(digit_char(n % 10))
    }
}

fn digit_of(d: u64) -> (c: char)
    requires
        d < 10,
    ensures
        c == digit_char(d as nat),
{
    if d == 0 { '0' }
    else if d == 1 { '1' }
    else if d == 2 { '2' }
    else if d == 3 { '3' }
    else if d == 4 { '4' }
    else if d == 5 { '5' }
    else if d == 6 { '6' }
    else if d == 7 { '7' }
    else if d == 8 { '8' }
    else { '9' }
}

/// Appends the decimal spelling of `n` to `s`.
pub fn push_decimal(s: &mut String, n: u64)
    ensures
        final(s)@ == old(s)@ + decimal(n as nat),
    decreases n,
{
    if n < 10 {
        push_char(s, digit_of(n));
        assert(old(s)@.push(digit_char(n as nat)) =~= old(s)@ + decimal(n as nat));
    } else {
        push_decimal(s, n / 10);
        push_char(s, digit_of(n % 10));
        assert((old(s)@ + decimal((n / 10) as nat)).push(digit_char((n % 10) as nat)) =~= old(s)@ + decimal(n as nat));
    }
}

/// The decimal spelling of `n`.
pub fn decimal_string(n: u64) -> (r: String)
    ensures
        r@ == decimal(n as nat),
{
    let mut r = String::new();
    push_decimal(&mut r, n);
    assert(Seq::<char>::empty() + decimal(n as nat) =~= decimal(n as nat));
    r
}

proof fn lemma_digit_char(d: nat)
    requires
        d < 10,
    ensures
        is_digit(digit_char(d)),
        ((digit_char(d) as u32) - ('0' as u32)) as nat == d,
{
}

proof fn lemma_decimal_digits(n: nat)
    ensures
        decimal(n).len() >= 1,
        all_digits(decimal(n)),
        digits_value(decimal(n)) == n,
        decimal(n)[0] != '0' || n == 0,
    decreases n,
{
    if n < 10 {
        lemma_digit_char(n);
        assert(decimal(n).drop_last() =~= Seq::<char>::empty());
        assert(digits_value(decimal(n)) == 10 * digits_value(Seq::<char>::empty()) + ((digit_char(n) as u32) - ('0' as u32)) as nat);
    } else {
        lemma_digit_char(n % 10);
        lemma_decimal_digits(n / 10);
        let d = decimal(n / 10);
        assert(decimal(n) == d.push(digit_char(n % 10)));
        assert(decimal(n).drop_last() =~= d);
        assert(decimal(n).last() == digit_char(n % 10));
        assert(digits_value(decimal(n)) == 10 * digits_value(d) + ((digit_char(n % 10) as u32) - ('0' as u32)) as nat);
        assert(10 * (n / 10) + n % 10 == n);
        assert forall|i: int| 0 <= i < decimal(n).len() implies is_digit(#[trigger] decimal(n)[i]) by {
            if i < d.len() {
                assert(decimal(n)[i] == d[i]);
            }
        }
        assert(decimal(n).drop_last() =~= d);
        assert(decimal(n)[0] == d[0]);
    }
}

/// The decimal spelling of `n` is made of digits only.
pub proof fn lemma_decimal_is_digits(n: nat)
    ensures
        decimal(n).len() >= 1,
        all_digits(decimal(n)),
{
    lemma_decimal_digits(n);
}

/// Reading back the decimal spelling of `n` gives `n`.
pub proof fn lemma_decimal_parses(n: nat)
    ensures
        parse_int(decimal(n)) == Some(n as int),
{
    lemma_decimal_digits(n);
}

/// What `str::parse::<u32>` returns: unsigned parsing takes an optional `+`
/// but no `-`, then one or more ASCII digits, and the value must fit.
pub open spec fn parse_u32_spec(s: Seq<char>) -> Option<u32> {
    if s.len() > 0 && s[0] == '-' {
        None
    } else {
        match parse_int(s) {
            Some(v) => if 0 <= v <= u32::MAX {
                Some(v as u32)
            } else {
                None
            },
            None => None,
        }
    }
}

/// `str::parse::<u32>` on a whole string.
pub fn parse_u32_str(s: &str) -> (r: Option<u32>)
    ensures
        r == parse_u32_spec(s@),
{
    let cs = chars_of(s);
    assert(cs@.subrange(0, cs@.len() as int) =~= cs@);
    if cs.len() > 0 && cs[0] == '-' {
        return None;
    }
    match parse_int_capped(cs.as_slice(), 0, cs.len()) {
        None => None,
        Some((neg, mag)) => {
            if mag <= 0xffff_ffff {
                if neg {
                    Some(0)
                } else {
                    Some(mag as u32)
                }
            } else {
                None
            }
        },
    }
}

/// `needle` occurs in `hay`.
pub open spec fn contains_seq(hay: Seq<char>, needle: Seq<char>) -> bool {
    exists|i: int| 0 <= i && i + needle.len() <= hay.len() && #[trigger] hay.subrange(i, i + needle.len()) == needle
}

/// Whether `needle` occurs in `hay` (what `str::contains` answers).
pub fn str_contains(hay: &str, needle: &str) -> (r: bool)
    ensures
        r == contains_seq(hay@, needle@),
{
    let h = chars_of(hay);
    let n = chars_of(needle);
    if n.len() > h.len() {
        return false;
    }
    let mut i: usize = 0;
    let last = h.len() - n.len();
    while i <= last
        invariant
            h@ == hay@,
            n@ == needle@,
            n@.len() <= h@.len(),
            last == h@.len() - n@.len(),
            i <= last + 1,
            forall|j: int| 0 <= j < i ==> #[trigger] h@.subrange(j, j + n@.len()) != n@,
        decreases h.len() - i,
    {
        let mut k: usize = 0;
        let mut same = true;
        while k < n.len()
            invariant
                i + n@.len() <= h@.len(),
                h@.len() == h.len(),
                n@.len() == n.len(),
                k <= n@.len(),
                same == (forall|m: int| 0 <= m < k ==> h@[i + m] == n@[m]),
            decreases n.len() - k,
        {
            if h[i + k] != n[k] {
                same = false;
            }
            k = k + 1;
        }
        if same {
            assert(h@.subrange(i as int, i + n@.len()) =~= n@);
            return true;
        }
        assert(h@.subrange(i as int, i + n@.len()) != n@) by {
            let m = choose|m: int| 0 <= m < n@.len() && h@[i + m] != n@[m];
            assert(h@.subrange(i as int, i + n@.len())[m] == h@[i + m]);
        }
        i = i + 1;
    }
    false
}

} // verus!
