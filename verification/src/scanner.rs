//! Parsers for the output of the Wi-Fi scanning tools (`nmcli -t` and
//! `iw scan dump`), and the conversion of a scan into a debounce sample.

use vstd::prelude::*;
use crate::debounce::{opt_chars, sample_insert, EntryV, SampleV, ScanEntry, ScanSample};
use crate::text::{
    ascii_upper, chars_of, float_text_as_i32, float_text_to_i32, find_ws, first_token, index_of_from,
    index_of_range, is_ascii_char, is_ws, parse_i32_range, parse_i32_spec, push_char,
    skip_ws, split_on, contains_seq, str_contains, split_ranges, starts_with, string_of_range, strings_view,
    to_uppercase, trim, trim_bounds, trim_end, trim_range, trim_start, unescape_colons,
    unescape_colons_exec, unicode_upper,
};

verus! {

/// A single observed Wi-Fi network from a scan.
#[derive(Debug, Clone)]
pub struct ScannedNetwork {
    pub bssid: String,
    pub ssid: Option<String>,
    pub signal_dbm: i32,
    pub channel: Option<i32>,
    pub frequency: Option<i32>,
}

/// Abstract network: BSSID, SSID, signal (dBm), channel, frequency (MHz).
pub type NetV = (Seq<char>, Option<Seq<char>>, i32, Option<i32>, Option<i32>);

impl View for ScannedNetwork {
    type V = NetV;

    open spec fn view(&self) -> NetV {
        (self.bssid@, opt_chars(self.ssid), self.signal_dbm, self.channel, self.frequency)
    }
}

/// The abstract networks of `v`.
pub open spec fn nets_view(v: Seq<ScannedNetwork>) -> Seq<NetV> {
    v.map_values(|n: ScannedNetwork| n@)
}

/// The abstract network of an optional one.
pub open spec fn opt_net(o: Option<ScannedNetwork>) -> Option<NetV> {
    match o {
        Some(n) => Some(n@),
        None => None,
    }
}

/// The canonical spelling of a BSSID: whitespace trimmed, then upper-cased.
pub open spec fn normalized(s: Seq<char>) -> Seq<char> {
    unicode_upper(trim(s))
}

/// All characters of `s` are ASCII.
pub open spec fn all_ascii(s: Seq<char>) -> bool {
    forall|i: int| 0 <= i < s.len() ==> is_ascii_char(#[trigger] s[i])
}

/// What normalization gives on ASCII input: trim, then ASCII upper-casing.
pub open spec fn ascii_normalized(s: Seq<char>) -> Seq<char> {
    trim(s).map_values(|c: char| ascii_upper(c))
}

/// Normalize BSSID to uppercase, colon-separated.
pub fn normalize_bssid(bssid: &str) -> (r: String)
    ensures
        r@ == normalized(bssid@),
        all_ascii(bssid@) ==> r@ == ascii_normalized(bssid@),
{
    let cs = chars_of(bssid);
    let (lo, hi) = trim_bounds(cs.as_slice());
    let t = string_of_range(cs.as_slice(), lo, hi);
    proof {
        lemma_trim_is_slice(bssid@);
        if all_ascii(bssid@) {
            assert forall|i: int| 0 <= i < t@.len() implies is_ascii_char(#[trigger] t@[i]) by {
                assert(t@[i] == cs@[lo + i]);
            }
        }
    }
    to_uppercase(t.as_str())
}

proof fn lemma_trim_start_shape(s: Seq<char>) -> (k: int)
    ensures
        0 <= k <= s.len(),
        trim_start(s) == s.subrange(k, s.len() as int),
        k < s.len() ==> !is_ws(s[k]),
    decreases s.len(),
{
    if s.len() > 0 && is_ws(s[0]) {
        let k1 = lemma_trim_start_shape(s.drop_first());
        assert(s.drop_first().subrange(k1, s.drop_first().len() as int) =~= s.subrange(k1 + 1, s.len() as int));
        k1 + 1
    } else {
        assert(s.subrange(0, s.len() as int) =~= s);
        0
    }
}

proof fn lemma_trim_end_shape(s: Seq<char>) -> (k: int)
    ensures
        0 <= k <= s.len(),
        trim_end(s) == s.subrange(0, k),
        k > 0 ==> !is_ws(s[k - 1]),
    decreases s.len(),
{
    if s.len() > 0 && is_ws(s.last()) {
        let k1 = lemma_trim_end_shape(s.drop_last());
        assert(s.drop_last().subrange(0, k1) =~= s.subrange(0, k1));
        k1
    } else {
        assert(s.subrange(0, s.len() as int) =~= s);
        s.len() as int
    }
}

/// `trim(s)` is a slice of `s` whose ends are not whitespace.
proof fn lemma_trim_is_slice(s: Seq<char>) -> (r: (int, int))
    ensures
        0 <= r.0 <= r.1 <= s.len(),
        trim(s) == s.subrange(r.0, r.1),
        r.0 < r.1 ==> !is_ws(s[r.0]) && !is_ws(s[r.1 - 1]),
{
    let a = lemma_trim_start_shape(s);
    let u = s.subrange(a, s.len() as int);
    let b = lemma_trim_end_shape(u);
    assert(u.subrange(0, b) =~= s.subrange(a, a + b));
    if b > 0 {
        assert(u[0] == s[a]);
        assert(u[b - 1] == s[a + b - 1]);
    }
    (a, a + b)
}

/// A sequence whose ends are not whitespace is its own trim.
proof fn lemma_trim_fixed(t: Seq<char>)
    requires
        t.len() > 0 ==> !is_ws(t[0]) && !is_ws(t.last()),
    ensures
        trim(t) == t,
{
}

/// Normalizing an ASCII BSSID twice gives what normalizing it once gives,
/// and the result is ASCII again.
pub proof fn lemma_normalize_idempotent(s: Seq<char>)
    requires
        all_ascii(s),
    ensures
        all_ascii(ascii_normalized(s)),
        ascii_normalized(ascii_normalized(s)) == ascii_normalized(s),
{
    let (a, b) = lemma_trim_is_slice(s);
    let t = trim(s);
    let u = ascii_normalized(s);
    assert forall|i: int| 0 <= i < u.len() implies is_ascii_char(#[trigger] u[i]) by {
        assert(t[i] == s[a + i]);
    }
    if t.len() > 0 {
        assert(t[0] == s[a]);
        assert(t.last() == s[b - 1]);
        assert(u[0] == ascii_upper(t[0]));
        assert(u.last() == ascii_upper(t.last()));
    }
    lemma_trim_fixed(u);
    assert(u.map_values(|c: char| ascii_upper(c)) =~= u);
}

// ---------------------------------------------------------------------------
// nmcli terse fields
// ---------------------------------------------------------------------------

/// `fields` with `f` put in front of its first field.
pub open spec fn prepend_field(f: Seq<char>, fields: Seq<Seq<char>>) -> Seq<Seq<char>> {
    fields.update(0, f + fields[0])
}

/// The fields of the rest `s` of an `nmcli -t` line, `after_bs` telling
/// whether the character just before `s` was a backslash kept as it is. The
/// line is cut at every `:` that is not escaped; `\:` stands for `:`, unless
/// its backslash follows such a backslash (then the backslashes stay and the
/// `:` cuts); any other backslash is kept as it is.
pub open spec fn fields_from(s: Seq<char>, after_bs: bool) -> Seq<Seq<char>>
    decreases s.len(),
{
    if s.len() == 0 {
        seq![Seq::<char>::empty()]
    } else if !after_bs && s.len() >= 2 && s[0] == '\\' && s[1] == ':' {
        prepend_field(seq![':'], fields_from(s.skip(2), false))
    } else if s[0] == ':' {
        seq![Seq::<char>::empty()] + fields_from(s.skip(1), false)
    } else {
        prepend_field(seq![s[0]], fields_from(s.skip(1), s[0] == '\\'))
    }
}

/// The fields of an `nmcli -t` line (see `fields_from`).
pub open spec fn nmcli_fields(s: Seq<char>) -> Seq<Seq<char>> {
    fields_from(s, false)
}

proof fn lemma_fields_nonempty(s: Seq<char>, b: bool)
    ensures
        fields_from(s, b).len() >= 1,
    decreases s.len(),
{
    if !b && s.len() >= 2 && s[0] == '\\' && s[1] == ':' {
        lemma_fields_nonempty(s.skip(2), false);
    } else if s.len() > 0 {
        lemma_fields_nonempty(s.skip(1), s[0] == '\\');
        lemma_fields_nonempty(s.skip(1), false);
    }
}

proof fn lemma_nmcli_fields_nonempty(s: Seq<char>)
    ensures
        nmcli_fields(s).len() >= 1,
{
    lemma_fields_nonempty(s, false);
}

proof fn lemma_prepend_twice(a: Seq<char>, b: Seq<char>, t: Seq<Seq<char>>)
    requires
        t.len() >= 1,
    ensures
        prepend_field(a, prepend_field(b, t)) == prepend_field(a + b, t),
{
    assert(a + (b + t[0]) =~= (a + b) + t[0]);
    assert(prepend_field(a, prepend_field(b, t)) =~= prepend_field(a + b, t));
}

/// Split an nmcli -t line on unescaped ':' characters.
/// In nmcli terse mode, literal colons in values are escaped as '\:'.
pub fn split_nmcli_fields(line: &str) -> (r: Vec<String>)
    ensures
        strings_view(r@) == nmcli_fields(line@),
        forall|k: int| 0 <= k < r@.len() ==> !has_escaped_colon(#[trigger] r@[k]@),
{
    let cs = chars_of(line);
    let ghost s = cs@;
    let mut fields: Vec<String> = Vec::new();
    let mut current = String::new();
    let mut after_bs = false;
    let mut i: usize = 0;
    proof {
        lemma_nmcli_fields_nonempty(s);
        assert(s.skip(0) =~= s);
        assert(Seq::<char>::empty() + nmcli_fields(s)[0] =~= nmcli_fields(s)[0]);
        assert(strings_view(fields@) + prepend_field(current@, nmcli_fields(s)) =~= nmcli_fields(s));
    }
    while i < cs.len()
        invariant
            s == cs@,
            i <= s.len(),
            nmcli_fields(s) == strings_view(fields@) + prepend_field(current@, fields_from(s.skip(i as int), after_bs)),
        decreases cs.len() - i,
    {
        let ghost rest = s.skip(i as int);
        let ghost fv = strings_view(fields@);
        let ghost cur = current@;
        let ghost b0 = after_bs;
        let c = cs[i];
        assert(rest[0] == c);
        if !after_bs && c == '\\' && i + 1 < cs.len() && cs[i + 1] == ':' {
            push_char(&mut current, ':');
            proof {
                assert(rest[1] == ':');
                assert(rest.skip(2) =~= s.skip(i + 2));
                lemma_fields_nonempty(rest.skip(2), false);
                lemma_prepend_twice(cur, seq![':'], fields_from(rest.skip(2), false));
                assert(cur + seq![':'] =~= current@);
            }
            after_bs = false;
            i = i + 2;
        } else if c == ':' {
            fields.push(current);
            current = String::new();
            proof {
                assert(rest.skip(1) =~= s.skip(i + 1));
                let t = fields_from(rest.skip(1), false);
                lemma_fields_nonempty(rest.skip(1), false);
                assert(Seq::<char>::empty() + t[0] =~= t[0]);
                assert(prepend_field(current@, t) =~= t);
                assert(cur + Seq::<char>::empty() =~= cur);
                assert(prepend_field(cur, seq![Seq::<char>::empty()] + t) =~= seq![cur] + t);
                assert(strings_view(fields@) =~= fv.push(cur));
                assert(fv + (seq![cur] + t) =~= fv.push(cur) + t);
            }
            after_bs = false;
            i = i + 1;
        } else {
            push_char(&mut current, c);
            proof {
                assert(!(!b0 && rest.len() >= 2 && rest[0] == '\\' && rest[1] == ':'));
                assert(rest.skip(1) =~= s.skip(i + 1));
                lemma_fields_nonempty(rest.skip(1), c == '\\');
                lemma_prepend_twice(cur, seq![c], fields_from(rest.skip(1), c == '\\'));
                assert(cur + seq![c] =~= current@);
            }
            after_bs = c == '\\';
            i = i + 1;
        }
    }
    let ghost fv = strings_view(fields@);
    let ghost cur = current@;
    fields.push(current);
    proof {
        assert(s.skip(i as int) =~= Seq::<char>::empty());
        assert(cur + Seq::<char>::empty() =~= cur);
        assert(prepend_field(cur, seq![Seq::<char>::empty()]) =~= seq![cur]);
        assert(strings_view(fields@) =~= fv.push(cur));
        assert(fv + seq![cur] =~= fv.push(cur));
        lemma_nmcli_fields_unescaped(s);
        assert forall|k: int| 0 <= k < fields@.len() implies !has_escaped_colon(#[trigger] fields@[k]@) by {
            assert(strings_view(fields@)[k] == fields@[k]@);
        }
    }
    fields
}

/// A field as `nmcli -t` writes it: every `:` becomes `\:`.
pub open spec fn nmcli_escape(f: Seq<char>) -> Seq<char>
    decreases f.len(),
{
    if f.len() == 0 {
        f
    } else {
        (if f[0] == ':' {
            seq!['\\', ':']
        } else {
            seq![f[0]]
        }) + nmcli_escape(f.drop_first())
    }
}

/// Fields joined into an `nmcli -t` line: each escaped, then joined with `:`.
pub open spec fn nmcli_join(fs: Seq<Seq<char>>) -> Seq<char>
    decreases fs.len(),
{
    if fs.len() == 0 {
        Seq::empty()
    } else if fs.len() == 1 {
        nmcli_escape(fs[0])
    } else {
        nmcli_escape(fs[0]) + seq![':'] + nmcli_join(fs.drop_first())
    }
}

/// `f` holds no backslash.
pub open spec fn no_backslash(f: Seq<char>) -> bool {
    forall|i: int| 0 <= i < f.len() ==> f[i] != '\\'
}

proof fn lemma_escaped_field(f: Seq<char>, r: Seq<char>)
    requires
        no_backslash(f),
    ensures
        nmcli_fields(nmcli_escape(f) + r) == prepend_field(f, nmcli_fields(r)),
    decreases f.len(),
{
    lemma_nmcli_fields_nonempty(r);
    if f.len() == 0 {
        assert(nmcli_escape(f) + r =~= r);
        assert(f + nmcli_fields(r)[0] =~= nmcli_fields(r)[0]);
        assert(prepend_field(f, nmcli_fields(r)) =~= nmcli_fields(r));
    } else {
        let c = f[0];
        let f1 = f.drop_first();
        assert(no_backslash(f1)) by {
            assert forall|i: int| 0 <= i < f1.len() implies f1[i] != '\\' by {
                assert(f1[i] == f[i + 1]);
            }
        }
        lemma_escaped_field(f1, r);
        lemma_nmcli_fields_nonempty(nmcli_escape(f1) + r);
        let s = nmcli_escape(f) + r;
        if c == ':' {
            assert(s =~= seq!['\\', ':'] + (nmcli_escape(f1) + r));
            assert(s.skip(2) =~= nmcli_escape(f1) + r);
            lemma_prepend_twice(seq![':'], f1, nmcli_fields(r));
            assert(seq![':'] + f1 =~= f);
        } else {
            assert(s =~= seq![c] + (nmcli_escape(f1) + r));
            assert(s.skip(1) =~= nmcli_escape(f1) + r);
            assert(s[0] == c);
            lemma_prepend_twice(seq![c], f1, nmcli_fields(r));
            assert(seq![c] + f1 =~= f);
        }
    }
}

/// Splitting a line that was made by escaping and joining fields without
/// backslashes gives those fields back.
pub proof fn lemma_nmcli_round_trip(fs: Seq<Seq<char>>)
    requires
        fs.len() >= 1,
        forall|k: int| 0 <= k < fs.len() ==> no_backslash(#[trigger] fs[k]),
    ensures
        nmcli_fields(nmcli_join(fs)) == fs,
    decreases fs.len(),
{
    if fs.len() == 1 {
        lemma_escaped_field(fs[0], Seq::empty());
        assert(nmcli_escape(fs[0]) + Seq::<char>::empty() =~= nmcli_escape(fs[0]));
        assert(fs[0] + Seq::<char>::empty() =~= fs[0]);
        assert(prepend_field(fs[0], seq![Seq::<char>::empty()]) =~= fs);
    } else {
        let rest = fs.drop_first();
        lemma_nmcli_round_trip(rest);
        let j = nmcli_join(rest);
        let tail = seq![':'] + j;
        lemma_escaped_field(fs[0], tail);
        assert(nmcli_join(fs) =~= nmcli_escape(fs[0]) + tail);
        assert(tail.skip(1) =~= j);
        assert(nmcli_fields(tail) == seq![Seq::<char>::empty()] + rest);
        assert(fs[0] + Seq::<char>::empty() =~= fs[0]);
        assert(prepend_field(fs[0], seq![Seq::<char>::empty()] + rest) =~= fs);
    }
}

/// `s` holds a backslash directly followed by a colon (an unprocessed `\:`).
pub open spec fn has_escaped_colon(s: Seq<char>) -> bool {
    exists|i: int| 0 <= i && i + 1 < s.len() && #[trigger] s[i] == '\\' && s[i + 1] == ':'
}

/// A first field starts with `:` only from an escape, which a kept
/// backslash just before rules out.
proof fn lemma_first_field_colon(s: Seq<char>, b: bool)
    ensures
        fields_from(s, b)[0].len() > 0 && fields_from(s, b)[0][0] == ':' ==> !b,
{
    if s.len() > 0 && !(!b && s.len() >= 2 && s[0] == '\\' && s[1] == ':') && s[0] != ':' {
        lemma_fields_nonempty(s.skip(1), s[0] == '\\');
        assert(fields_from(s, b)[0] == seq![s[0]] + fields_from(s.skip(1), s[0] == '\\')[0]);
    }
    if s.len() > 0 && s[0] == ':' && !(!b && s.len() >= 2 && s[0] == '\\' && s[1] == ':') {
        assert(fields_from(s, b)[0] =~= Seq::<char>::empty());
    }
}

/// `c` put in front of a field without `\:` gives a field without `\:`,
/// unless `c` is a backslash and the field starts with `:`.
proof fn lemma_prefix_char_unescaped(c: char, f: Seq<char>)
    requires
        !has_escaped_colon(f),
        !(c == '\\' && f.len() > 0 && f[0] == ':'),
    ensures
        !has_escaped_colon(seq![c] + f),
{
    let g = seq![c] + f;
    if has_escaped_colon(g) {
        let i = choose|i: int| 0 <= i && i + 1 < g.len() && #[trigger] g[i] == '\\' && g[i + 1] == ':';
        if i > 0 {
            assert(f[i - 1] == g[i] && f[i] == g[i + 1]);
        } else {
            assert(g[0] == c && g[1] == f[0]);
        }
    }
}

proof fn lemma_fields_unescaped(s: Seq<char>, b: bool)
    ensures
        forall|k: int| 0 <= k < fields_from(s, b).len() ==> !has_escaped_colon(#[trigger] fields_from(s, b)[k]),
    decreases s.len(),
{
    let fs = fields_from(s, b);
    if s.len() == 0 {
        assert(fs =~= seq![Seq::<char>::empty()]);
        assert(!has_escaped_colon(fs[0]));
    } else if !b && s.len() >= 2 && s[0] == '\\' && s[1] == ':' {
        let r = s.skip(2);
        lemma_fields_unescaped(r, false);
        lemma_fields_nonempty(r, false);
        let f = fields_from(r, false);
        assert forall|k: int| 0 <= k < fs.len() implies !has_escaped_colon(#[trigger] fs[k]) by {
            if k == 0 {
                lemma_prefix_char_unescaped(':', f[0]);
            } else {
                assert(fs[k] == f[k]);
            }
        }
    } else if s[0] == ':' {
        let r = s.skip(1);
        lemma_fields_unescaped(r, false);
        let f = fields_from(r, false);
        assert forall|k: int| 0 <= k < fs.len() implies !has_escaped_colon(#[trigger] fs[k]) by {
            if k == 0 {
                assert(fs[0] =~= Seq::<char>::empty());
            } else {
                assert(fs[k] == f[k - 1]);
            }
        }
    } else {
        let r = s.skip(1);
        let nb = s[0] == '\\';
        lemma_fields_unescaped(r, nb);
        lemma_fields_nonempty(r, nb);
        lemma_first_field_colon(r, nb);
        let f = fields_from(r, nb);
        assert forall|k: int| 0 <= k < fs.len() implies !has_escaped_colon(#[trigger] fs[k]) by {
            if k == 0 {
                lemma_prefix_char_unescaped(s[0], f[0]);
            } else {
                assert(fs[k] == f[k]);
            }
        }
    }
}

/// Law: splitting any line leaves no unprocessed `\:` in any field.
pub proof fn lemma_nmcli_fields_unescaped(s: Seq<char>)
    ensures
        forall|k: int| 0 <= k < nmcli_fields(s).len() ==> !has_escaped_colon(#[trigger] nmcli_fields(s)[k]),
{
    lemma_fields_unescaped(s, false);
}

/// Replacing `\:` by `:` leaves a text without `\:` as it is.
pub proof fn lemma_unescape_without_escapes(s: Seq<char>)
    requires
        !has_escaped_colon(s),
    ensures
        unescape_colons(s) == s,
    decreases s.len(),
{
    if s.len() > 0 {
        let t = s.drop_first();
        if has_escaped_colon(t) {
            let i = choose|i: int| 0 <= i && i + 1 < t.len() && #[trigger] t[i] == '\\' && t[i + 1] == ':';
            assert(s[i + 1] == t[i] && s[i + 2] == t[i + 1]);
        }
        lemma_unescape_without_escapes(t);
        if s.len() >= 2 && s[0] == '\\' && s[1] == ':' {
            assert(s[0] == '\\' && s[1] == ':');
        }
        assert(seq![s[0]] + t =~= s);
    }
}

// ---------------------------------------------------------------------------
// nmcli output
// ---------------------------------------------------------------------------

/// `a / b` rounded toward zero, for `b > 0` (Rust's integer division, and
/// what a float-to-integer cast does to the exact quotient).
pub open spec fn div_trunc(a: int, b: int) -> int {
    if a >= 0 {
        a / b
    } else {
        -((-a) / b)
    }
}

/// nmcli's signal percentage as approximate dBm: 100 % is about -30 dBm and
/// 0 % about -90 dBm, so `-90 + pct * 60 / 100`, rounded toward zero.
pub open spec fn pct_dbm(pct: i32) -> i32 {
    (-90 + div_trunc(pct * 60, 100)) as i32
}

/// `Some(s)` for a non-empty `s`, `None` for an empty one.
pub open spec fn nonempty(s: Seq<char>) -> Option<Seq<char>> {
    if s.len() == 0 {
        None
    } else {
        Some(s)
    }
}

/// The network one line of `nmcli -t -f BSSID,SSID,SIGNAL,CHAN,FREQ` output
/// describes. Blank lines, lines with fewer than five fields and lines whose
/// signal field is not an integer describe none.
pub open spec fn nmcli_row(line: Seq<char>) -> Option<NetV> {
    let t = trim(line);
    let f = nmcli_fields(t);
    if t.len() == 0 || f.len() < 5 {
        None
    } else {
        match parse_i32_spec(f[2]) {
            None => None,
            Some(pct) => Some(
                (
                    normalized(unescape_colons(f[0])),
                    nonempty(unescape_colons(f[1])),
                    pct_dbm(pct),
                    parse_i32_spec(f[3]),
                    parse_i32_spec(f[4]),
                ),
            ),
        }
    }
}

/// The networks that `lines` describe, in order.
pub open spec fn nmcli_rows(lines: Seq<Seq<char>>) -> Seq<NetV>
    decreases lines.len(),
{
    if lines.len() == 0 {
        Seq::empty()
    } else {
        let before = nmcli_rows(lines.drop_last());
        match nmcli_row(lines.last()) {
            Some(n) => before.push(n),
            None => before,
        }
    }
}

fn pct_to_dbm(pct: i32) -> (r: i32)
    ensures
        r == pct_dbm(pct),
{
    let v: i64 = (pct as i64) * 60;
    let q: i64 = if v >= 0 {
        ((v as u64) / 100) as i64
    } else {
        0 - (((0 - v) as u64) / 100) as i64
    };
    (-90 + q) as i32
}

/// `str::parse::<i32>` on a whole string.
fn parse_i32_str(s: &str) -> (r: Option<i32>)
    ensures
        r == parse_i32_spec(s@),
{
    let cs = chars_of(s);
    assert(cs@.subrange(0, cs@.len() as int) =~= cs@);
    parse_i32_range(cs.as_slice(), 0, cs.len())
}

fn parse_nmcli_line(cs: &[char], lo: usize, hi: usize) -> (r: Option<ScannedNetwork>)
    requires
        lo <= hi <= cs@.len(),
    ensures
        opt_net(r) == nmcli_row(cs@.subrange(lo as int, hi as int)),
{
    let (a, b) = trim_range(cs, lo, hi);
    if a == b {
        return None;
    }
    let line = string_of_range(cs, a, b);
    let fields = split_nmcli_fields(line.as_str());
    if fields.len() < 5 {
        return None;
    }
    proof {
        assert(strings_view(fields@)[2] == fields@[2]@);
        assert(strings_view(fields@)[0] == fields@[0]@);
        assert(strings_view(fields@)[1] == fields@[1]@);
        assert(strings_view(fields@)[3] == fields@[3]@);
        assert(strings_view(fields@)[4] == fields@[4]@);
    }
    let signal_pct = match parse_i32_str(fields[2].as_str()) {
        Some(p) => p,
        None => {
            return None;
        },
    };
    let channel = parse_i32_str(fields[3].as_str());
    let frequency = parse_i32_str(fields[4].as_str());
    let f0 = chars_of(fields[0].as_str());
    let bssid = unescape_colons_exec(f0.as_slice());
    let f1 = chars_of(fields[1].as_str());
    let ssid_raw = unescape_colons_exec(f1.as_slice());
    let ssid_chars = chars_of(ssid_raw.as_str());
    let ssid = if ssid_chars.len() == 0 {
        None
    } else {
        Some(ssid_raw)
    };
    Some(
        ScannedNetwork {
            bssid: normalize_bssid(bssid.as_str()),
            ssid,
            signal_dbm: pct_to_dbm(signal_pct),
            channel,
            frequency,
        },
    )
}

/// Parse nmcli terse output. In -t mode, nmcli escapes ':' in field values as '\:'.
/// The field separator is an unescaped ':'.
/// Fields: BSSID:SSID:SIGNAL:CHAN:FREQ
/// Signal is 0-100 percentage, convert to approximate dBm.
pub fn parse_nmcli_output(output: &str) -> (r: Vec<ScannedNetwork>)
    ensures
        nets_view(r@) == nmcli_rows(split_on(output@, '\n')),
{
    let cs = chars_of(output);
    let ranges = split_ranges(cs.as_slice(), '\n');
    let ghost lines = split_on(cs@, '\n');
    let mut networks: Vec<ScannedNetwork> = Vec::new();
    let mut k: usize = 0;
    assert(lines.take(0) =~= Seq::<Seq<char>>::empty());
    assert(nets_view(networks@) =~= Seq::<NetV>::empty());
    while k < ranges.len()
        invariant
            k <= ranges@.len(),
            lines == split_on(cs@, '\n'),
            ranges@.len() == lines.len(),
            forall|j: int| 0 <= j < ranges@.len() ==> (#[trigger] ranges@[j]).0 <= ranges@[j].1 <= cs@.len(),
            forall|j: int| 0 <= j < ranges@.len() ==> cs@.subrange((#[trigger] ranges@[j]).0 as int, ranges@[j].1 as int) == lines[j],
            nets_view(networks@) == nmcli_rows(lines.take(k as int)),
        decreases ranges.len() - k,
    {
        let (lo, hi) = ranges[k];
        let ghost before = nets_view(networks@);
        let row = parse_nmcli_line(cs.as_slice(), lo, hi);
        proof {
            assert(lines.take(k + 1).drop_last() =~= lines.take(k as int));
            assert(lines.take(k + 1).last() == lines[k as int]);
        }
        match row {
            Some(n) => {
                networks.push(n);
                assert(nets_view(networks@) =~= before.push(n@));
            },
            None => {},
        }
        k = k + 1;
    }
    assert(lines.take(lines.len() as int) =~= lines);
    networks
}

// ---------------------------------------------------------------------------
// iw output
// ---------------------------------------------------------------------------

/// Wi-Fi channel of a frequency in MHz: the 2.4 GHz channels 1-14, the
/// 5 GHz band (`(f - 5000) / 5` for 5180..=5885) and the 6 GHz band
/// (`(f - 5950) / 5` for 5955..=7115).
pub open spec fn freq_channel(f: i32) -> Option<i32> {
    if f == 2484 {
        Some(14)
    } else if 2412 <= f <= 2472 && (f - 2407) % 5 == 0 {
        Some(((f - 2407) / 5) as i32)
    } else if 5180 <= f <= 5885 {
        Some(((f - 5000) / 5) as i32)
    } else if 5955 <= f <= 7115 {
        Some(((f - 5950) / 5) as i32)
    } else {
        None
    }
}

/// Convert Wi-Fi frequency (MHz) to channel number.
pub fn freq_to_channel(freq: i32) -> (r: Option<i32>)
    ensures
        r == freq_channel(freq),
{
    if freq == 2484 {
        Some(14)
    } else if 2412 <= freq && freq <= 2472 && (freq - 2407) % 5 == 0 {
        Some((freq - 2407) / 5)
    } else if 5180 <= freq && freq <= 5885 {
        Some((freq - 5000) / 5)
    } else if 5955 <= freq && freq <= 7115 {
        Some((freq - 5950) / 5)
    } else {
        None
    }
}

/// `s` starts with `p`.
pub open spec fn has_prefix(s: Seq<char>, p: Seq<char>) -> bool {
    p.len() <= s.len() && s.take(p.len() as int) == p
}

/// `s` up to (not including) its first `c`, or all of `s`.
pub open spec fn before_char(s: Seq<char>, c: char) -> Seq<char> {
    let k = index_of_from(s, c, 0);
    if k < 0 {
        s
    } else {
        s.take(k)
    }
}

/// Line tag that opens a BSS block.
pub open spec fn bss_tag() -> Seq<char> {
    seq!['B', 'S', 'S', ' ']
}

/// Line tag of the signal strength.
pub open spec fn signal_tag() -> Seq<char> {
    seq!['s', 'i', 'g', 'n', 'a', 'l', ':']
}

/// Line tag of the network name.
pub open spec fn ssid_tag() -> Seq<char> {
    seq!['S', 'S', 'I', 'D', ':']
}

/// Line tag of the DS parameter set's channel.
pub open spec fn ds_channel_tag() -> Seq<char> {
    seq![
        'D', 'S', ' ', 'P', 'a', 'r', 'a', 'm', 'e', 't', 'e', 'r', ' ', 's', 'e', 't', ':', ' ',
        'c', 'h', 'a', 'n', 'n', 'e', 'l',
    ]
}

/// Line tag of the frequency.
pub open spec fn freq_tag() -> Seq<char> {
    seq!['f', 'r', 'e', 'q', ':']
}

/// The address a `BSS` line (trimmed) names: what follows the tag, up to
/// the first `(`, trimmed.
pub open spec fn bss_address(t: Seq<char>) -> Seq<char> {
    trim(before_char(t.skip(4), '('))
}

/// `c` is a hexadecimal digit.
pub open spec fn is_hex_digit(c: char) -> bool {
    ('0' <= c && c <= '9') || ('a' <= c && c <= 'f') || ('A' <= c && c <= 'F')
}

/// `s` is six two-digit hexadecimal octets separated by colons.
pub open spec fn well_formed_bssid(s: Seq<char>) -> bool {
    &&& s.len() == 17
    &&& forall|i: int| 0 <= i < 17 ==> if i % 3 == 2 {
        #[trigger] s[i] == ':'
    } else {
        is_hex_digit(s[i])
    }
}

/// Whether `cs[lo..hi]` is a well-formed BSSID.
fn well_formed_range(cs: &[char], lo: usize, hi: usize) -> (b: bool)
    requires
        lo <= hi <= cs@.len(),
    ensures
        b == well_formed_bssid(cs@.subrange(lo as int, hi as int)),
{
    let ghost t = cs@.subrange(lo as int, hi as int);
    if hi - lo != 17 {
        return false;
    }
    let mut i: usize = 0;
    while i < 17
        invariant
            lo + 17 == hi <= cs@.len(),
            t == cs@.subrange(lo as int, hi as int),
            i <= 17,
            forall|j: int| 0 <= j < i ==> if j % 3 == 2 {
                #[trigger] t[j] == ':'
            } else {
                is_hex_digit(t[j])
            },
        decreases 17 - i,
    {
        let c = cs[lo + i];
        assert(t[i as int] == c);
        if i % 3 == 2 {
            if c != ':' {
                return false;
            }
        } else if !(('0' <= c && c <= '9') || ('a' <= c && c <= 'f') || ('A' <= c && c <= 'F')) {
            return false;
        }
        i = i + 1;
    }
    true
}

/// A well-formed BSSID is ASCII, and normalizing it gives a well-formed BSSID.
proof fn lemma_well_formed_normalizes(b: Seq<char>)
    requires
        well_formed_bssid(b),
    ensures
        all_ascii(b),
        well_formed_bssid(ascii_normalized(b)),
{
    assert(is_hex_digit(b[0]) && is_hex_digit(b[16]));
    assert(b.last() == b[16]);
    lemma_trim_fixed(b);
    assert forall|i: int| 0 <= i < b.len() implies is_ascii_char(#[trigger] b[i]) by {
        if i % 3 == 2 {
            assert(b[i] == ':');
        } else {
            assert(is_hex_digit(b[i]));
        }
    }
    let u = ascii_normalized(b);
    assert forall|i: int| 0 <= i < 17 implies if i % 3 == 2 {
        #[trigger] u[i] == ':'
    } else {
        is_hex_digit(u[i])
    } by {
        assert(u[i] == ascii_upper(b[i]));
        if i % 3 == 2 {
            assert(b[i] == ':');
        } else {
            assert(is_hex_digit(b[i]));
        }
    }
}

/// What the `iw` parser holds between lines: BSSID, SSID, signal, channel
/// and frequency of the BSS block being read.
pub type IwState = (Option<Seq<char>>, Option<Seq<char>>, Option<i32>, Option<i32>, Option<i32>);

/// The state before the first line.
pub open spec fn iw_start() -> IwState {
    (None, None, None, None, None)
}

/// The network a finished block describes: one needs both a BSSID and a signal.
pub open spec fn iw_emit(st: IwState) -> Option<NetV> {
    if st.0 is Some && st.2 is Some {
        Some((normalized(st.0->0), st.1, st.2->0, st.3, st.4))
    } else {
        None
    }
}

/// One line of `iw scan dump` output read in state `st`: the next state and
/// the network that the line closes, if any. A `BSS` line opens a new block,
/// which holds the line's address only when that is a well-formed BSSID; a
/// block without one describes no network.
pub open spec fn iw_step(st: IwState, line: Seq<char>) -> (IwState, Option<NetV>) {
    let t = trim(line);
    if has_prefix(t, bss_tag()) {
        (
            (if well_formed_bssid(bss_address(t)) {
                Some(bss_address(t))
            } else {
                None
            }, None, None, None, None),
            iw_emit(st),
        )
    } else if has_prefix(t, signal_tag()) {
        match float_text_as_i32(first_token(t.skip(7))) {
            Some(v) => ((st.0, st.1, Some(v), st.3, st.4), None),
            None => (st, None),
        }
    } else if has_prefix(t, ssid_tag()) {
        let name = trim(t.skip(5));
        if name.len() > 0 {
            ((st.0, Some(name), st.2, st.3, st.4), None)
        } else {
            (st, None)
        }
    } else if has_prefix(t, ds_channel_tag()) {
        match parse_i32_spec(trim(t.skip(25))) {
            Some(ch) => ((st.0, st.1, st.2, Some(ch), st.4), None),
            None => (st, None),
        }
    } else if has_prefix(t, freq_tag()) {
        match parse_i32_spec(trim(t.skip(5))) {
            Some(f) => (
                (st.0, st.1, st.2, if st.3 is None {
                    freq_channel(f)
                } else {
                    st.3
                }, Some(f)),
                None,
            ),
            None => (st, None),
        }
    } else {
        (st, None)
    }
}

/// The state after `lines` and the networks they closed, in order.
pub open spec fn iw_fold(lines: Seq<Seq<char>>) -> (IwState, Seq<NetV>)
    decreases lines.len(),
{
    if lines.len() == 0 {
        (iw_start(), Seq::empty())
    } else {
        let (st, out) = iw_fold(lines.drop_last());
        let (st2, e) = iw_step(st, lines.last());
        (
            st2,
            match e {
                Some(n) => out.push(n),
                None => out,
            },
        )
    }
}

/// The networks described by the `iw scan dump` output `output`.
pub open spec fn iw_networks(output: Seq<char>) -> Seq<NetV> {
    let (st, out) = iw_fold(split_on(output, '\n'));
    match iw_emit(st) {
        Some(n) => out.push(n),
        None => out,
    }
}

struct IwBlock {
    bssid: Option<String>,
    ssid: Option<String>,
    signal: Option<i32>,
    channel: Option<i32>,
    freq: Option<i32>,
}

impl View for IwBlock {
    type V = IwState;

    closed spec fn view(&self) -> IwState {
        (opt_chars(self.bssid), opt_chars(self.ssid), self.signal, self.channel, self.freq)
    }
}

impl IwBlock {
    fn finish(self) -> (r: Option<ScannedNetwork>)
        ensures
            opt_net(r) == iw_emit(self@),
            r matches Some(n) ==> (all_ascii(self@.0->0) ==> n.bssid@ == ascii_normalized(self@.0->0)),
    {
        match self.bssid {
            Some(b) => match self.signal {
                Some(sig) => Some(
                    ScannedNetwork {
                        bssid: normalize_bssid(b.as_str()),
                        ssid: self.ssid,
                        signal_dbm: sig,
                        channel: self.channel,
                        frequency: self.freq,
                    },
                ),
                None => None,
            },
            None => None,
        }
    }

    fn step(&mut self, cs: &[char], lo: usize, hi: usize) -> (r: Option<ScannedNetwork>)
        requires
            lo <= hi <= cs@.len(),
        ensures
            (final(self)@, opt_net(r)) == iw_step(old(self)@, cs@.subrange(lo as int, hi as int)),
            r matches Some(n) ==> (all_ascii(old(self)@.0->0) ==> n.bssid@ == ascii_normalized(old(self)@.0->0)),
    {
        let ghost t = cs@.subrange(lo as int, hi as int);
        let (a, b) = trim_range(cs, lo, hi);
        let ghost u = cs@.subrange(a as int, b as int);
        proof {
            reveal_strlit("BSS ");
            reveal_strlit("signal:");
            reveal_strlit("SSID:");
            reveal_strlit("DS Parameter set: channel");
            reveal_strlit("freq:");
            assert("BSS "@ =~= bss_tag());
            assert("signal:"@ =~= signal_tag());
            assert("SSID:"@ =~= ssid_tag());
            assert("DS Parameter set: channel"@ =~= ds_channel_tag());
            assert("freq:"@ =~= freq_tag());
            assert forall|n: int| 0 <= n <= u.len() implies #[trigger] u.take(n) == cs@.subrange(a as int, a + n) by {
                assert(u.take(n) =~= cs@.subrange(a as int, a + n));
            }
            assert(u.take(4) == cs@.subrange(a as int, a + 4) || u.len() < 4);
            assert(u.take(5) == cs@.subrange(a as int, a + 5) || u.len() < 5);
            assert(u.take(7) == cs@.subrange(a as int, a + 7) || u.len() < 7);
            assert(u.take(25) == cs@.subrange(a as int, a + 25) || u.len() < 25);
        }
        if starts_with(cs, a, b, "BSS ") {
            assert(u.take(4) =~= cs@.subrange(a as int, a + 4));
            assert(u.skip(4) =~= cs@.subrange(a + 4, b as int));
            let end = match index_of_range(cs, a + 4, b, '(') {
                Some(k) => k,
                None => b,
            };
            assert(before_char(u.skip(4), '(') =~= cs@.subrange(a + 4, end as int));
            let (pa, pb) = trim_range(cs, a + 4, end);
            let address = if well_formed_range(cs, pa, pb) {
                Some(string_of_range(cs, pa, pb))
            } else {
                None
            };
            let mut fresh = IwBlock {
                bssid: address,
                ssid: None,
                signal: None,
                channel: None,
                freq: None,
            };
            std::mem::swap(self, &mut fresh);
            fresh.finish()
        } else if starts_with(cs, a, b, "signal:") {
            assert(u.take(7) =~= cs@.subrange(a as int, a + 7));
            assert(u.skip(7) =~= cs@.subrange(a + 7, b as int));
            let p = skip_ws(cs, a + 7, b);
            let q = find_ws(cs, p, b);
            assert(first_token(u.skip(7)) =~= cs@.subrange(p as int, q as int));
            match float_text_to_i32(cs, p, q) {
                Some(v) => {
                    self.signal = Some(v);
                },
                None => {},
            }
            None
        } else if starts_with(cs, a, b, "SSID:") {
            assert(u.take(5) =~= cs@.subrange(a as int, a + 5));
            assert(u.skip(5) =~= cs@.subrange(a + 5, b as int));
            let (x, y) = trim_range(cs, a + 5, b);
            if x < y {
                self.ssid = Some(string_of_range(cs, x, y));
            }
            None
        } else if starts_with(cs, a, b, "DS Parameter set: channel") {
            assert(u.take(25) =~= cs@.subrange(a as int, a + 25));
            assert(u.skip(25) =~= cs@.subrange(a + 25, b as int));
            let (x, y) = trim_range(cs, a + 25, b);
            match parse_i32_range(cs, x, y) {
                Some(ch) => {
                    self.channel = Some(ch);
                },
                None => {},
            }
            None
        } else if starts_with(cs, a, b, "freq:") {
            assert(u.take(5) =~= cs@.subrange(a as int, a + 5));
            assert(u.skip(5) =~= cs@.subrange(a + 5, b as int));
            let (x, y) = trim_range(cs, a + 5, b);
            match parse_i32_range(cs, x, y) {
                Some(f) => {
                    self.freq = Some(f);
                    if self.channel.is_none() {
                        self.channel = freq_to_channel(f);
                    }
                },
                None => {},
            }
            None
        } else {
            None
        }
    }
}

/// Parse the output of `iw dev <iface> scan dump`.
pub fn parse_iw_output(output: &str) -> (r: Vec<ScannedNetwork>)
    ensures
        nets_view(r@) == iw_networks(output@),
        forall|i: int| 0 <= i < r@.len() ==> well_formed_bssid(#[trigger] r@[i].bssid@),
{
    let cs = chars_of(output);
    let ranges = split_ranges(cs.as_slice(), '\n');
    let ghost lines = split_on(cs@, '\n');
    let mut networks: Vec<ScannedNetwork> = Vec::new();
    let mut block = IwBlock { bssid: None, ssid: None, signal: None, channel: None, freq: None };
    let mut k: usize = 0;
    assert(lines.take(0) =~= Seq::<Seq<char>>::empty());
    assert(nets_view(networks@) =~= Seq::<NetV>::empty());
    while k < ranges.len()
        invariant
            k <= ranges@.len(),
            lines == split_on(cs@, '\n'),
            ranges@.len() == lines.len(),
            forall|j: int| 0 <= j < ranges@.len() ==> (#[trigger] ranges@[j]).0 <= ranges@[j].1 <= cs@.len(),
            forall|j: int| 0 <= j < ranges@.len() ==> cs@.subrange((#[trigger] ranges@[j]).0 as int, ranges@[j].1 as int) == lines[j],
            (block@, nets_view(networks@)) == iw_fold(lines.take(k as int)),
            cs@ == output@,
            block@.0 matches Some(b) ==> well_formed_bssid(b),
            forall|i: int| 0 <= i < networks@.len() ==> well_formed_bssid(#[trigger] networks@[i].bssid@),
        decreases ranges.len() - k,
    {
        let (lo, hi) = ranges[k];
        let ghost before = nets_view(networks@);
        let ghost old_block = block@;
        let closed = block.step(cs.as_slice(), lo, hi);
        proof {
            assert(lines.take(k + 1).drop_last() =~= lines.take(k as int));
            assert(lines.take(k + 1).last() == lines[k as int]);
            if old_block.0 is Some {
                lemma_well_formed_normalizes(old_block.0->0);
            }
        }
        match closed {
            Some(n) => {
                networks.push(n);
                assert(nets_view(networks@) =~= before.push(n@));
            },
            None => {},
        }
        k = k + 1;
    }
    assert(lines.take(lines.len() as int) =~= lines);
    let ghost before = nets_view(networks@);
    let ghost last_block = block@;
    proof {
        if last_block.0 is Some {
            lemma_well_formed_normalizes(last_block.0->0);
        }
    }
    match block.finish() {
        Some(n) => {
            networks.push(n);
            assert(nets_view(networks@) =~= before.push(n@));
        },
        None => {},
    }
    networks
}

// ---------------------------------------------------------------------------
// Ordering and conversion
// ---------------------------------------------------------------------------

/// First index at `i` or later of a network in `s` weaker than `sig`, or the end.
pub open spec fn insert_pos(s: Seq<NetV>, sig: i32, i: int) -> int
    decreases s.len() - i,
{
    if i < 0 || i >= s.len() {
        s.len() as int
    } else if s[i].2 < sig {
        i
    } else {
        insert_pos(s, sig, i + 1)
    }
}

/// `s` sorted by signal, strongest first, networks of equal signal in their
/// order in `s` (a stable sort): each network in turn goes after every
/// network already placed that is at least as strong.
pub open spec fn by_signal(s: Seq<NetV>) -> Seq<NetV>
    decreases s.len(),
{
    if s.len() == 0 {
        Seq::empty()
    } else {
        let a = by_signal(s.drop_last());
        a.insert(insert_pos(a, s.last().2, 0), s.last())
    }
}

/// Strongest first.
pub open spec fn signal_sorted(s: Seq<NetV>) -> bool {
    forall|i: int, j: int| 0 <= i < j < s.len() ==> (#[trigger] s[i]).2 >= (#[trigger] s[j]).2
}

proof fn lemma_insert_pos(s: Seq<NetV>, sig: i32, i: int)
    requires
        0 <= i <= s.len(),
    ensures
        i <= insert_pos(s, sig, i) <= s.len(),
        forall|j: int| i <= j < insert_pos(s, sig, i) ==> (#[trigger] s[j]).2 >= sig,
        insert_pos(s, sig, i) < s.len() ==> s[insert_pos(s, sig, i)].2 < sig,
    decreases s.len() - i,
{
    if i < s.len() && s[i].2 >= sig {
        lemma_insert_pos(s, sig, i + 1);
    }
}

/// Sorting by signal gives the networks it was given, each as often, strongest first.
pub proof fn lemma_by_signal(s: Seq<NetV>)
    ensures
        signal_sorted(by_signal(s)),
        by_signal(s).to_multiset() == s.to_multiset(),
        by_signal(s).len() == s.len(),
    decreases s.len(),
{
    if s.len() == 0 {
        assert(by_signal(s) =~= s);
    } else {
        let a = by_signal(s.drop_last());
        lemma_by_signal(s.drop_last());
        let x = s.last();
        let p = insert_pos(a, x.2, 0);
        lemma_insert_pos(a, x.2, 0);
        let r = a.insert(p, x);
        assert forall|i: int, j: int| 0 <= i < j < r.len() implies (#[trigger] r[i]).2 >= (#[trigger] r[j]).2 by {
            if j < p {
                assert(r[i] == a[i] && r[j] == a[j]);
            } else if j == p {
                assert(r[i] == a[i]);
            } else if i < p {
                assert(r[i] == a[i] && r[j] == a[j - 1]);
                assert(a[p].2 < x.2);
                if j - 1 > p {
                    assert(a[p].2 >= a[j - 1].2);
                }
            } else if i == p {
                assert(r[j] == a[j - 1]);
                if j - 1 > p {
                    assert(a[p].2 >= a[j - 1].2);
                }
            } else {
                assert(r[i] == a[i - 1] && r[j] == a[j - 1]);
            }
        }
        assert(s =~= s.drop_last().push(x));
        vstd::seq_lib::to_multiset_insert(a, p, x);
        vstd::seq_lib::to_multiset_build(s.drop_last(), x);
    }
}

/// `networks` sorted by signal, strongest first; networks of equal signal
/// keep their order.
pub fn sort_by_signal(networks: Vec<ScannedNetwork>) -> (r: Vec<ScannedNetwork>)
    ensures
        nets_view(r@) == by_signal(nets_view(networks@)),
{
    let ghost s = nets_view(networks@);
    let ghost mut k: int = 0;
    let mut rest = networks;
    let mut out: Vec<ScannedNetwork> = Vec::new();
    assert(s.skip(0) =~= s);
    assert(s.take(0) =~= Seq::<NetV>::empty());
    assert(nets_view(out@) =~= Seq::<NetV>::empty());
    while rest.len() > 0
        invariant
            0 <= k <= s.len(),
            s.len() == k + rest@.len(),
            nets_view(rest@) == s.skip(k),
            nets_view(out@) == by_signal(s.take(k)),
        decreases rest.len(),
    {
        let ghost ov = nets_view(out@);
        let ghost rv = nets_view(rest@);
        assert(rv[0] == rest@[0]@);
        let x = rest.remove(0);
        assert(x@ == s[k]);
        assert(nets_view(rest@) =~= rv.drop_first());
        let mut j: usize = 0;
        while j < out.len() && out[j].signal_dbm >= x.signal_dbm
            invariant
                j <= out@.len(),
                ov == nets_view(out@),
                insert_pos(ov, x.signal_dbm, 0) == insert_pos(ov, x.signal_dbm, j as int),
            decreases out.len() - j,
        {
            assert(ov[j as int] == out@[j as int]@);
            j = j + 1;
        }
        if j < out.len() {
            assert(ov[j as int] == out@[j as int]@);
        }
        out.insert(j, x);
        proof {
            assert(nets_view(out@) =~= ov.insert(j as int, x@));
            assert(s.take(k + 1).drop_last() =~= s.take(k));
            assert(s.take(k + 1).last() == s[k]);
            assert(nets_view(rest@) =~= s.skip(k + 1));
            k = k + 1;
        }
    }
    assert(s.take(k) =~= s);
    out
}

/// The debounce sample of a scan: each network's BSSID with its signal,
/// SSID and channel; a BSSID seen twice keeps its first place and its last
/// entry.
pub open spec fn sample_of(nets: Seq<NetV>) -> SampleV
    decreases nets.len(),
{
    if nets.len() == 0 {
        Seq::empty()
    } else {
        let n = nets.last();
        sample_insert(sample_of(nets.drop_last()), n.0, (n.2, n.1, n.3))
    }
}

/// Convert scan results to a ScanSample for the debounce ring buffer.
/// Preserves SSID, channel, and signal for each AP.
pub fn scan_to_sample(networks: &[ScannedNetwork]) -> (r: ScanSample)
    ensures
        r@ == sample_of(nets_view(networks@)),
{
    let ghost s = nets_view(networks@);
    let mut sample = ScanSample::new();
    let mut i: usize = 0;
    assert(s.take(0) =~= Seq::<NetV>::empty());
    while i < networks.len()
        invariant
            i <= networks@.len(),
            s == nets_view(networks@),
            sample@ == sample_of(s.take(i as int)),
        decreases networks.len() - i,
    {
        let n = &networks[i];
        let ssid = match &n.ssid {
            Some(x) => Some(x.clone()),
            None => None,
        };
        let entry = ScanEntry { signal_dbm: n.signal_dbm, ssid, channel: n.channel };
        sample.insert(n.bssid.clone(), entry);
        proof {
            assert(s.take(i + 1).drop_last() =~= s.take(i as int));
            assert(s.take(i + 1).last() == s[i as int]);
        }
        i = i + 1;
    }
    assert(s.take(s.len() as int) =~= s);
    sample
}

// ---------------------------------------------------------------------------
// Driving the tools
// ---------------------------------------------------------------------------

/// The nmcli result is used when it listed at least one network; otherwise
/// (failure or an empty list) the scan falls back to `iw`.
pub fn nmcli_result_used(ok: bool, networks: usize) -> (r: bool)
    ensures
        r == (ok && networks > 0),
{
    ok && networks > 0
}

/// What to do after an `iw scan trigger` attempt.
#[derive(Debug, Clone, Copy, PartialEq, Eq, Structural)]
pub enum TriggerStep {
    /// The trigger succeeded: dump the results.
    Dump,
    /// The device is busy: wait a second and try again.
    Retry,
    /// The interface is down: the scan fails.
    InterfaceDown,
    /// Any other failure: warn, then dump whatever results are cached.
    DumpAfterWarning,
}

/// Decides the next step after a trigger attempt from its success, its
/// standard error and the retries left.
pub fn iw_trigger_step(success: bool, stderr: &str, retries_left: u32) -> (r: TriggerStep)
    ensures
        r == (if success {
            TriggerStep::Dump
        } else if contains_seq(stderr@, "Device or resource busy"@) && retries_left > 0 {
            TriggerStep::Retry
        } else if contains_seq(stderr@, "command failed: Network is down"@) {
            TriggerStep::InterfaceDown
        } else {
            TriggerStep::DumpAfterWarning
        }),
{
    if success {
        TriggerStep::Dump
    } else if str_contains(stderr, "Device or resource busy") && retries_left > 0 {
        TriggerStep::Retry
    } else if str_contains(stderr, "command failed: Network is down") {
        TriggerStep::InterfaceDown
    } else {
        TriggerStep::DumpAfterWarning
    }
}

/// The networks listed by `nmcli -t` output bytes, strongest first.
pub fn networks_from_nmcli(stdout: &[u8]) -> (r: Vec<ScannedNetwork>)
    ensures
        nets_view(r@) == by_signal(nmcli_rows(split_on(crate::text::utf8_lossy(stdout@), '\n'))),
{
    let text = crate::text::from_utf8_lossy(stdout);
    sort_by_signal(parse_nmcli_output(text.as_str()))
}

/// The networks listed by `iw scan dump` output bytes, strongest first.
pub fn networks_from_iw(stdout: &[u8]) -> (r: Vec<ScannedNetwork>)
    ensures
        nets_view(r@) == by_signal(iw_networks(crate::text::utf8_lossy(stdout@))),
{
    let text = crate::text::from_utf8_lossy(stdout);
    sort_by_signal(parse_iw_output(text.as_str()))
}

} // verus!
