//! The line grammars of a captured response: client noise, the status line,
//! header fields, and media types.
use vstd::prelude::*;
use vstd::string::StringSliceAdditionalSpecFns;

use crate::bytes::{
    bytes_eq, copy_range, digit_end, exec_digit_end, exec_find_from, exec_is_digit, find_from,
    has_prefix, is_digit, lemma_find_from_bounds, lemma_find_from_lower, lemma_to_lower_idempotent,
    lemma_to_lower_subrange, lemma_trim_lower, lower_bytes, starts_with, to_lower, trim, trim_bytes,
    NEWLINE,
};

verus! {

pub const COLON: u8 = 58;

pub const SLASH: u8 = 47;

pub const PLUS: u8 = 43;

pub const SEMICOLON: u8 = 59;

pub const SPACE: u8 = 32;

pub const DOT: u8 = 46;

/// Letters, digits, `_` and `-`.
pub open spec fn is_word_byte(b: u8) -> bool {
    (65 <= b <= 90) || (97 <= b <= 122) || is_digit(b) || b == 95 || b == 45
}

/// Index just past the run of word bytes that starts at `i`.
pub open spec fn word_end(s: Seq<u8>, i: int) -> int
    decreases s.len() - i,
{
    if 0 <= i < s.len() && is_word_byte(s[i]) {
        word_end(s, i + 1)
    } else {
        i
    }
}

/// A sanitizer report: `<file>:<line>:<column>: runtime error:` at the start.
pub open spec fn is_runtime_error_line(l: Seq<u8>) -> bool {
    let c = find_from(l, 0, COLON);
    let d1 = digit_end(l, c + 1);
    let d2 = digit_end(l, d1 + 1);
    &&& 0 < c < l.len()
    &&& c + 1 < d1 < l.len()
    &&& l[d1] == COLON
    &&& d1 + 1 < d2
    &&& starts_with(l.subrange(d2, l.len() as int), ": runtime error:".spec_bytes())
}

/// A sanitizer summary: `SUMMARY: <word>:` at the start.
pub open spec fn is_summary_line(l: Seq<u8>) -> bool {
    let p = "SUMMARY: ".spec_bytes();
    let w = word_end(l, p.len() as int);
    &&& starts_with(l, p)
    &&& p.len() < w < l.len()
    &&& l[w] == COLON
}

/// A verbose client's own line: `* `, `> `, `{ ` or `} ` at the start.
pub open spec fn is_marker_line(l: Seq<u8>) -> bool {
    &&& l.len() >= 2
    &&& l[1] == SPACE
    &&& (l[0] == 42 || l[0] == 62 || l[0] == 123 || l[0] == 125)
}

/// A line that a capturing tool wrote and that is no part of a response.
pub open spec fn is_noise(l: Seq<u8>) -> bool {
    is_runtime_error_line(l) || is_summary_line(l) || is_marker_line(l)
}

/// Where a response line's content starts: after a leading `< `, if any.
pub open spec fn line_start(l: Seq<u8>) -> int {
    if starts_with(l, "< ".spec_bytes()) {
        "< ".spec_bytes().len() as int
    } else {
        0
    }
}

/// Index just past the protocol token `HTTP/<major>[.<minor>]` whose major
/// version starts at `v`.
pub open spec fn version_end(l: Seq<u8>, v: int) -> int {
    let d1 = digit_end(l, v);
    if d1 < l.len() && l[d1] == DOT && digit_end(l, d1 + 1) > d1 + 1 {
        digit_end(l, d1 + 1)
    } else {
        d1
    }
}

/// The protocol token and the status code digits of a status line
/// `[< ]HTTP/<major>[.<minor>] <code>...`, or `None` where `l` is none.
pub open spec fn status_line(l: Seq<u8>) -> Option<(Seq<u8>, Seq<u8>)> {
    let p = line_start(l);
    let v = p + "HTTP/".spec_bytes().len();
    let pe = version_end(l, v);
    let se = digit_end(l, pe + 1);
    if starts_with(l.subrange(p, l.len() as int), "HTTP/".spec_bytes()) && digit_end(l, v) > v
        && pe < l.len() && l[pe] == SPACE && se > pe + 1 {
        Some((l.subrange(p, pe), l.subrange(pe + 1, se)))
    } else {
        None
    }
}

/// The name and value of a header field line `[< ]<name>:<value>`, untrimmed:
/// the name runs to the first colon, the value to the end of the line.
pub open spec fn header_line(l: Seq<u8>) -> Option<(Seq<u8>, Seq<u8>)> {
    let c = find_from(l, 0, COLON);
    let e = find_from(l, c + 1, NEWLINE);
    let s = if line_start(l) < c {
        line_start(l)
    } else {
        0
    };
    if 0 < c < l.len() && e > c + 1 {
        Some((l.subrange(s, c), l.subrange(c + 1, e)))
    } else {
        None
    }
}

/// A line that ends a header block: blank, or a lone `<`, once trimmed.
pub open spec fn is_header_end(l: Seq<u8>) -> bool {
    trim(l).len() == 0 || trim(l) == "<".spec_bytes()
}

/// The number a run of decimal digits spells.
pub open spec fn decimal_value(s: Seq<u8>) -> nat
    decreases s.len(),
{
    if s.len() == 0 {
        0
    } else {
        decimal_value(s.drop_last()) * 10 + (s.last() - 48) as nat
    }
}

pub open spec fn all_digits(s: Seq<u8>) -> bool {
    forall|i: int| 0 <= i < s.len() ==> is_digit(#[trigger] s[i])
}

/// A length written in decimal, with an optional leading `+`, that fits in
/// `usize`.
pub open spec fn length_value(s: Seq<u8>) -> Option<nat> {
    let d = if s.len() > 0 && s[0] == PLUS {
        s.drop_first()
    } else {
        s
    };
    if d.len() > 0 && all_digits(d) && decimal_value(d) <= usize::MAX {
        Some(decimal_value(d))
    } else {
        None
    }
}

/// A media type `<category>/[<secondary>+]<primary>[;<parameters>]`, each part
/// trimmed; the secondary type is empty where there is no `+` part.
#[derive(Debug, PartialEq, Eq)]
pub struct MimeType {
    pub t1: Vec<u8>,
    pub t2: Vec<u8>,
    pub t3: Vec<u8>,
}

/// The untrimmed category, primary type and secondary type of `s`. The
/// parameters, from the first `;` after the `/`, are left out, and a `+`
/// before them ends a secondary type. All parts are empty where `s` has no
/// category before a `/` or no type after it.
pub open spec fn mime_parts(s: Seq<u8>) -> (Seq<u8>, Seq<u8>, Seq<u8>) {
    let slash = find_from(s, 0, SLASH);
    let a = slash + 1;
    let e = find_from(s, a, SEMICOLON);
    let q = find_from(s, a, PLUS);
    if 0 < slash < s.len() && a < e {
        if a < q && q + 1 < e {
            (s.subrange(0, slash), s.subrange(q + 1, e), s.subrange(a, q))
        } else {
            (s.subrange(0, slash), s.subrange(a, e), Seq::empty())
        }
    } else {
        (Seq::empty(), Seq::empty(), Seq::empty())
    }
}

/// The trimmed parts of the media type `s`.
pub open spec fn mime_type(s: Seq<u8>) -> (Seq<u8>, Seq<u8>, Seq<u8>) {
    let (c, p, t) = mime_parts(s);
    (trim(c), trim(p), trim(t))
}

/// Whether a body of media type `s` holds JSON: category `application` and
/// primary type `json`, in any case.
pub open spec fn is_json_type(s: Seq<u8>) -> bool {
    let (c, p, t) = mime_type(s);
    to_lower(c) == "application".spec_bytes() && to_lower(p) == "json".spec_bytes()
}


fn exec_is_word_byte(b: u8) -> (r: bool)
    ensures
        r == is_word_byte(b),
{
    (65 <= b && b <= 90) || (97 <= b && b <= 122) || exec_is_digit(b) || b == 95 || b == 45
}

/// Index just past the run of word bytes that starts at `i`.
fn exec_word_end(s: &[u8], i: usize) -> (r: usize)
    requires
        i <= s@.len(),
    ensures
        r as int == word_end(s@, i as int),
        i <= r <= s@.len(),
{
    let mut j: usize = i;
    while j < s.len() && exec_is_word_byte(s[j])
        invariant
            i <= j <= s@.len(),
            word_end(s@, i as int) == word_end(s@, j as int),
        decreases s@.len() - j,
    {
        j = j + 1;
    }
    j
}

/// Whether `l` begins with `p` at index `at`.
fn has_prefix_at(l: &[u8], at: usize, p: &[u8]) -> (r: bool)
    requires
        at <= l@.len(),
    ensures
        r == starts_with(l@.subrange(at as int, l@.len() as int), p@),
{
    let rest = copy_range(l, at, l.len());
    has_prefix(rest.as_slice(), p)
}

fn is_runtime_error(l: &[u8]) -> (r: bool)
    ensures
        r == is_runtime_error_line(l@),
{
    let c = exec_find_from(l, 0, COLON);
    if c == 0 || c >= l.len() {
        return false;
    }
    let d1 = exec_digit_end(l, c + 1);
    if !(c + 1 < d1 && d1 < l.len()) || l[d1] != COLON {
        return false;
    }
    let d2 = exec_digit_end(l, d1 + 1);
    if !(d1 + 1 < d2) {
        return false;
    }
    has_prefix_at(l, d2, ": runtime error:".as_bytes())
}

fn is_summary(l: &[u8]) -> (r: bool)
    ensures
        r == is_summary_line(l@),
{
    let p = "SUMMARY: ".as_bytes();
    if !has_prefix(l, p) {
        return false;
    }
    let w = exec_word_end(l, p.len());
    p.len() < w && w < l.len() && l[w] == COLON
}

/// Whether `l` is a line that a capturing tool wrote: a sanitizer report or
/// summary, or a verbose client's `* `, `> `, `{ ` or `} ` line.
pub fn is_noise_line(l: &[u8]) -> (r: bool)
    ensures
        r == is_noise(l@),
{
    let marker = l.len() >= 2 && l[1] == SPACE && (l[0] == 42 || l[0] == 62 || l[0] == 123 || l[0]
        == 125);
    marker || is_runtime_error(l) || is_summary(l)
}

fn exec_line_start(l: &[u8]) -> (r: usize)
    ensures
        r as int == line_start(l@),
        r <= l@.len(),
{
    let lt = "< ".as_bytes();
    if has_prefix(l, lt) {
        lt.len()
    } else {
        0
    }
}

/// The views of an optional pair of byte strings.
pub open spec fn pair_view(o: Option<(Vec<u8>, Vec<u8>)>) -> Option<(Seq<u8>, Seq<u8>)> {
    match o {
        Some((a, b)) => Some((a@, b@)),
        None => None,
    }
}

/// The protocol token and status code digits of the status line `l`.
pub fn match_status_line(l: &[u8]) -> (r: Option<(Vec<u8>, Vec<u8>)>)
    ensures
        pair_view(r) == status_line(l@),
{
    let p = exec_line_start(l);
    let http = "HTTP/".as_bytes();
    if !has_prefix_at(l, p, http) {
        return None;
    }
    let n = l.len();
    assert(http@.len() <= n - p);
    let v = p + http.len();
    let d1 = exec_digit_end(l, v);
    if d1 <= v {
        return None;
    }
    let pe = if d1 < l.len() && l[d1] == DOT {
        let d2 = exec_digit_end(l, d1 + 1);
        if d2 > d1 + 1 {
            d2
        } else {
            d1
        }
    } else {
        d1
    };
    if pe >= l.len() || l[pe] != SPACE {
        return None;
    }
    let se = exec_digit_end(l, pe + 1);
    if se <= pe + 1 {
        return None;
    }
    Some((copy_range(l, p, pe), copy_range(l, pe + 1, se)))
}

/// The untrimmed name and value of the header field line `l`.
pub fn match_header_line(l: &[u8]) -> (r: Option<(Vec<u8>, Vec<u8>)>)
    ensures
        pair_view(r) == header_line(l@),
{
    let c = exec_find_from(l, 0, COLON);
    if c == 0 || c >= l.len() {
        return None;
    }
    let e = exec_find_from(l, c + 1, NEWLINE);
    if e <= c + 1 {
        return None;
    }
    let ls = exec_line_start(l);
    let s = if ls < c {
        ls
    } else {
        0
    };
    Some((copy_range(l, s, c), copy_range(l, c + 1, e)))
}

/// Whether `l` ends a header block.
pub fn is_header_end_line(l: &[u8]) -> (r: bool)
    ensures
        r == is_header_end(l@),
{
    let t = trim_bytes(l);
    t.len() == 0 || bytes_eq(t.as_slice(), "<".as_bytes())
}

proof fn lemma_decimal_prefix(s: Seq<u8>, k: int)
    requires
        all_digits(s),
        0 <= k <= s.len(),
    ensures
        decimal_value(s.subrange(0, k)) <= decimal_value(s),
    decreases s.len(),
{
    if k < s.len() {
        assert(all_digits(s.drop_last()));
        lemma_decimal_prefix(s.drop_last(), k);
        assert(s.drop_last().subrange(0, k) =~= s.subrange(0, k));
    } else {
        assert(s.subrange(0, k) =~= s);
    }
}

/// The length that `s` spells: optional `+`, then decimal digits, at most
/// `usize::MAX`.
pub fn parse_length(s: &[u8]) -> (r: Option<usize>)
    ensures
        match length_value(s@) {
            Some(v) => r == Some(v as usize),
            None => r is None,
        },
{
    let start: usize = if s.len() > 0 && s[0] == PLUS {
        1
    } else {
        0
    };
    let ghost d = s@.subrange(start as int, s@.len() as int);
    assert(start == 1 ==> d =~= s@.drop_first());
    assert(start == 0 ==> d =~= s@);
    if start >= s.len() {
        return None;
    }
    let mut v: usize = 0;
    let mut i: usize = start;
    while i < s.len()
        invariant
            start <= i <= s@.len(),
            d == s@.subrange(start as int, s@.len() as int),
            d == (if s@.len() > 0 && s@[0] == PLUS {
                s@.drop_first()
            } else {
                s@
            }),
            all_digits(d.subrange(0, i - start)),
            v as nat == decimal_value(d.subrange(0, i - start)),
        decreases s@.len() - i,
    {
        let ghost k = i - start;
        if !exec_is_digit(s[i]) {
            assert(!is_digit(d[k]));
            return None;
        }
        let dig = s[i] - 48;
        assert(d.subrange(0, k + 1).drop_last() =~= d.subrange(0, k));
        assert(decimal_value(d.subrange(0, k + 1)) == v * 10 + dig);
        if v > (usize::MAX - dig as usize) / 10 {
            assert(v * 10 + dig > usize::MAX) by (nonlinear_arith)
                requires
                    v > (usize::MAX - dig as usize) / 10,
                    dig <= 9,
            ;
            proof {
                if all_digits(d) {
                    lemma_decimal_prefix(d, k + 1);
                }
            }
            return None;
        }
        assert(v * 10 + dig <= usize::MAX) by (nonlinear_arith)
            requires
                v <= (usize::MAX - dig as usize) / 10,
                dig <= 9,
        ;
        v = v * 10 + dig as usize;
        assert(all_digits(d.subrange(0, k + 1)));
        i = i + 1;
    }
    assert(d.subrange(0, i - start) =~= d);
    Some(v)
}

/// The category, primary type and secondary type of the media type `src`.
pub fn parse_mime_type(src: &[u8]) -> (r: MimeType)
    ensures
        (r.t1@, r.t2@, r.t3@) == mime_type(src@),
{
    let slash = exec_find_from(src, 0, SLASH);
    if slash == 0 || slash >= src.len() {
        return MimeType { t1: trim_bytes(&[]), t2: trim_bytes(&[]), t3: trim_bytes(&[]) };
    }
    let a = slash + 1;
    let e = exec_find_from(src, a, SEMICOLON);
    if a >= e {
        return MimeType { t1: trim_bytes(&[]), t2: trim_bytes(&[]), t3: trim_bytes(&[]) };
    }
    let q = exec_find_from(src, a, PLUS);
    if a < q && q < e && q + 1 < e {
        MimeType {
            t1: trim_bytes(&copy_range(src, 0, slash)),
            t2: trim_bytes(&copy_range(src, q + 1, e)),
            t3: trim_bytes(&copy_range(src, a, q)),
        }
    } else {
        MimeType {
            t1: trim_bytes(&copy_range(src, 0, slash)),
            t2: trim_bytes(&copy_range(src, a, e)),
            t3: trim_bytes(&[]),
        }
    }
}

/// Whether a body whose content type is `content_type` holds JSON.
pub fn is_content_type_json(content_type: &Option<Vec<u8>>) -> (r: bool)
    ensures
        r == (content_type is Some && is_json_type(content_type->Some_0@)),
{
    if let Some(ct) = content_type {
        let m = parse_mime_type(ct.as_slice());
        let c = lower_bytes(m.t1.as_slice());
        let p = lower_bytes(m.t2.as_slice());
        bytes_eq(c.as_slice(), "application".as_bytes()) && bytes_eq(
            p.as_slice(),
            "json".as_bytes(),
        )
    } else {
        false
    }
}

} // verus!

verus! {

proof fn lemma_lower_part(s: Seq<u8>, a: int, b: int)
    requires
        0 <= a <= b <= s.len(),
    ensures
        to_lower(trim(to_lower(s).subrange(a, b))) == to_lower(trim(s.subrange(a, b))),
{
    lemma_to_lower_subrange(s, a, b);
    lemma_trim_lower(s.subrange(a, b));
    lemma_to_lower_idempotent(trim(s.subrange(a, b)));
}

proof fn lemma_json_type_lower(s: Seq<u8>)
    ensures
        is_json_type(to_lower(s)) == is_json_type(s),
{
    lemma_find_from_bounds(s, 0, SLASH);
    lemma_find_from_lower(s, 0, SLASH);
    let slash = find_from(s, 0, SLASH);
    let a = slash + 1;
    if 0 < slash < s.len() {
        lemma_find_from_bounds(s, a, SEMICOLON);
        lemma_find_from_lower(s, a, SEMICOLON);
        lemma_find_from_bounds(s, a, PLUS);
        lemma_find_from_lower(s, a, PLUS);
        let e = find_from(s, a, SEMICOLON);
        let q = find_from(s, a, PLUS);
        if a < e {
            lemma_lower_part(s, 0, slash);
            if a < q && q + 1 < e {
                lemma_lower_part(s, q + 1, e);
            } else {
                lemma_lower_part(s, a, e);
            }
        }
    }
}

/// Deciding whether a media type is JSON ignores the case of its letters:
/// `APPLICATION/JSON` is decided as `application/json` is.
pub proof fn json_type_ignores_case(a: Seq<u8>, b: Seq<u8>)
    requires
        to_lower(a) == to_lower(b),
    ensures
        is_json_type(a) == is_json_type(b),
{
    lemma_json_type_lower(a);
    lemma_json_type_lower(b);
}

} // verus!
