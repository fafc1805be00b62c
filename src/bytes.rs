//! Byte-level helpers shared by the line grammars.
use vstd::prelude::*;

verus! {

pub const NEWLINE: u8 = 10;

/// Index just past the first newline at or after `i`, or the end of `d`.
pub open spec fn line_end(d: Seq<u8>, i: int) -> int
    decreases d.len() - i,
{
    if i >= d.len() {
        d.len() as int
    } else if d[i] == NEWLINE {
        i + 1
    } else {
        line_end(d, i + 1)
    }
}

pub proof fn lemma_line_end_bounds(d: Seq<u8>, i: int)
    requires
        0 <= i <= d.len(),
    ensures
        i <= line_end(d, i) <= d.len(),
        i < d.len() ==> i < line_end(d, i),
    decreases d.len() - i,
{
    if i < d.len() && d[i] != NEWLINE {
        lemma_line_end_bounds(d, i + 1);
    }
}

pub open spec fn is_digit(b: u8) -> bool {
    48 <= b <= 57
}

/// Index just past the run of decimal digits that starts at `i`.
pub open spec fn digit_end(s: Seq<u8>, i: int) -> int
    decreases s.len() - i,
{
    if 0 <= i < s.len() && is_digit(s[i]) {
        digit_end(s, i + 1)
    } else {
        i
    }
}

pub proof fn lemma_digit_end_bounds(s: Seq<u8>, i: int)
    requires
        0 <= i <= s.len(),
    ensures
        i <= digit_end(s, i) <= s.len(),
        forall|k: int| i <= k < digit_end(s, i) ==> is_digit(#[trigger] s[k]),
    decreases s.len() - i,
{
    if i < s.len() && is_digit(s[i]) {
        lemma_digit_end_bounds(s, i + 1);
    }
}

/// Index of the first occurrence of `c` at or after `i`, or the length of `s`.
pub open spec fn find_from(s: Seq<u8>, i: int, c: u8) -> int
    decreases s.len() - i,
{
    if i >= s.len() {
        s.len() as int
    } else if s[i] == c {
        i
    } else {
        find_from(s, i + 1, c)
    }
}

pub proof fn lemma_find_from_bounds(s: Seq<u8>, i: int, c: u8)
    requires
        0 <= i <= s.len(),
    ensures
        i <= find_from(s, i, c) <= s.len(),
        find_from(s, i, c) < s.len() ==> s[find_from(s, i, c)] == c,
        forall|k: int| i <= k < find_from(s, i, c) ==> #[trigger] s[k] != c,
    decreases s.len() - i,
{
    if i < s.len() && s[i] != c {
        lemma_find_from_bounds(s, i + 1, c);
    }
}

/// Whitespace in the ASCII range: space, tab, line feed, vertical tab,
/// form feed and carriage return.
pub open spec fn is_space(b: u8) -> bool {
    b == 32 || (9 <= b <= 13)
}

/// The UTF-8 form of a two-byte whitespace character: U+0085 or U+00A0.
pub open spec fn is_space2(a: u8, b: u8) -> bool {
    a == 0xC2 && (b == 0x85 || b == 0xA0)
}

/// The UTF-8 form of a three-byte whitespace character: U+1680,
/// U+2000 to U+200A, U+2028, U+2029, U+202F, U+205F or U+3000.
pub open spec fn is_space3(a: u8, b: u8, c: u8) -> bool {
    ||| (a == 0xE1 && b == 0x9A && c == 0x80)
    ||| (a == 0xE2 && b == 0x80 && ((0x80 <= c <= 0x8A) || c == 0xA8 || c == 0xA9 || c == 0xAF))
    ||| (a == 0xE2 && b == 0x81 && c == 0x9F)
    ||| (a == 0xE3 && b == 0x80 && c == 0x80)
}

/// The length of the whitespace character that `s` starts with, 0 if none.
/// Whitespace is what Unicode calls White_Space, in UTF-8.
pub open spec fn space_at_start(s: Seq<u8>) -> int {
    if s.len() >= 1 && is_space(s[0]) {
        1
    } else if s.len() >= 2 && is_space2(s[0], s[1]) {
        2
    } else if s.len() >= 3 && is_space3(s[0], s[1], s[2]) {
        3
    } else {
        0
    }
}

/// The length of the whitespace character that `s` ends with, 0 if none.
pub open spec fn space_at_end(s: Seq<u8>) -> int {
    let n = s.len() as int;
    if n >= 1 && is_space(s[n - 1]) {
        1
    } else if n >= 2 && is_space2(s[n - 2], s[n - 1]) {
        2
    } else if n >= 3 && is_space3(s[n - 3], s[n - 2], s[n - 1]) {
        3
    } else {
        0
    }
}

/// `s` without leading and trailing whitespace.
pub open spec fn trim(s: Seq<u8>) -> Seq<u8>
    decreases s.len(),
{
    if space_at_start(s) > 0 {
        trim(s.subrange(space_at_start(s), s.len() as int))
    } else if space_at_end(s) > 0 {
        trim(s.subrange(0, s.len() - space_at_end(s)))
    } else {
        s
    }
}

pub open spec fn lower_byte(b: u8) -> u8 {
    if 65 <= b <= 90 {
        (b + 32) as u8
    } else {
        b
    }
}

/// ASCII lower-casing; other bytes are kept.
pub open spec fn to_lower(s: Seq<u8>) -> Seq<u8> {
    s.map_values(|b: u8| lower_byte(b))
}

pub open spec fn starts_with(s: Seq<u8>, p: Seq<u8>) -> bool {
    p.len() <= s.len() && s.subrange(0, p.len() as int) == p
}

pub fn exec_is_digit(b: u8) -> (r: bool)
    ensures
        r == is_digit(b),
{
    48 <= b && b <= 57
}

pub fn exec_is_space(b: u8) -> (r: bool)
    ensures
        r == is_space(b),
{
    b == 32 || (9 <= b && b <= 13)
}

/// The bytes of `s` from `a` up to `b`.
pub fn copy_range(s: &[u8], a: usize, b: usize) -> (r: Vec<u8>)
    requires
        a <= b <= s@.len(),
    ensures
        r@ == s@.subrange(a as int, b as int),
{
    let mut r: Vec<u8> = Vec::new();
    let mut i: usize = a;
    while i < b
        invariant
            a <= i <= b <= s@.len(),
            r@ == s@.subrange(a as int, i as int),
        decreases b - i,
    {
        r.push(s[i]);
        assert(r@ =~= s@.subrange(a as int, i + 1));
        i = i + 1;
    }
    r
}

/// Appends `p` to `out`.
pub fn push_all(out: &mut Vec<u8>, p: &[u8])
    ensures
        final(out)@ == old(out)@ + p@,
{
    let mut i: usize = 0;
    while i < p.len()
        invariant
            0 <= i <= p@.len(),
            out@ == old(out)@ + p@.subrange(0, i as int),
        decreases p@.len() - i,
    {
        out.push(p[i]);
        assert(p@.subrange(0, i + 1) =~= p@.subrange(0, i as int).push(p@[i as int]));
        i = i + 1;
    }
    assert(p@.subrange(0, p@.len() as int) =~= p@);
}

/// Index just past the digit run that starts at `i`.
pub fn exec_digit_end(s: &[u8], i: usize) -> (r: usize)
    requires
        i <= s@.len(),
    ensures
        r as int == digit_end(s@, i as int),
        i <= r <= s@.len(),
{
    proof {
        lemma_digit_end_bounds(s@, i as int);
    }
    let mut j: usize = i;
    while j < s.len() && exec_is_digit(s[j])
        invariant
            i <= j <= s@.len(),
            digit_end(s@, i as int) == digit_end(s@, j as int),
        decreases s@.len() - j,
    {
        j = j + 1;
    }
    j
}

/// Index of the first `c` at or after `i`, or the length of `s`.
pub fn exec_find_from(s: &[u8], i: usize, c: u8) -> (r: usize)
    requires
        i <= s@.len(),
    ensures
        r as int == find_from(s@, i as int, c),
        i <= r <= s@.len(),
{
    proof {
        lemma_find_from_bounds(s@, i as int, c);
    }
    let mut j: usize = i;
    while j < s.len() && s[j] != c
        invariant
            i <= j <= s@.len(),
            find_from(s@, i as int, c) == find_from(s@, j as int, c),
        decreases s@.len() - j,
    {
        j = j + 1;
    }
    j
}

/// The length of the whitespace character that `s[i..j]` starts with.
fn space_start_len(s: &[u8], i: usize, j: usize) -> (r: usize)
    requires
        i <= j <= s@.len(),
    ensures
        r as int == space_at_start(s@.subrange(i as int, j as int)),
{
    let n = j - i;
    if n >= 1 && exec_is_space(s[i]) {
        1
    } else if n >= 2 && s[i] == 0xC2 && (s[i + 1] == 0x85 || s[i + 1] == 0xA0) {
        2
    } else if n >= 3 && exec_is_space3(s[i], s[i + 1], s[i + 2]) {
        3
    } else {
        0
    }
}

/// The length of the whitespace character that `s[i..j]` ends with.
fn space_end_len(s: &[u8], i: usize, j: usize) -> (r: usize)
    requires
        i <= j <= s@.len(),
    ensures
        r as int == space_at_end(s@.subrange(i as int, j as int)),
{
    let n = j - i;
    if n >= 1 && exec_is_space(s[j - 1]) {
        1
    } else if n >= 2 && s[j - 2] == 0xC2 && (s[j - 1] == 0x85 || s[j - 1] == 0xA0) {
        2
    } else if n >= 3 && exec_is_space3(s[j - 3], s[j - 2], s[j - 1]) {
        3
    } else {
        0
    }
}

fn exec_is_space3(a: u8, b: u8, c: u8) -> (r: bool)
    ensures
        r == is_space3(a, b, c),
{
    (a == 0xE1 && b == 0x9A && c == 0x80) || (a == 0xE2 && b == 0x80 && ((0x80 <= c && c <= 0x8A)
        || c == 0xA8 || c == 0xA9 || c == 0xAF)) || (a == 0xE2 && b == 0x81 && c == 0x9F) || (a
        == 0xE3 && b == 0x80 && c == 0x80)
}

/// `s` without leading and trailing whitespace.
pub fn trim_bytes(s: &[u8]) -> (r: Vec<u8>)
    ensures
        r@ == trim(s@),
{
    let n = s.len();
    let mut i: usize = 0;
    assert(s@.subrange(0, n as int) =~= s@);
    loop
        invariant
            0 <= i <= n == s@.len(),
            trim(s@.subrange(i as int, n as int)) == trim(s@),
        ensures
            space_at_start(s@.subrange(i as int, n as int)) == 0,
        decreases n - i,
    {
        let k = space_start_len(s, i, n);
        if k == 0 {
            break;
        }
        assert(s@.subrange(i as int, n as int).subrange(k as int, n - i) =~= s@.subrange(
            i + k,
            n as int,
        ));
        i = i + k;
    }
    let mut j: usize = n;
    loop
        invariant
            0 <= i <= j <= n == s@.len(),
            space_at_start(s@.subrange(i as int, j as int)) == 0,
            trim(s@.subrange(i as int, j as int)) == trim(s@),
        ensures
            space_at_end(s@.subrange(i as int, j as int)) == 0,
        decreases j - i,
    {
        let m = space_end_len(s, i, j);
        if m == 0 {
            break;
        }
        assert(s@.subrange(i as int, j as int).subrange(0, j - i - m) =~= s@.subrange(
            i as int,
            j - m,
        ));
        j = j - m;
    }
    copy_range(s, i, j)
}

/// ASCII lower-casing of `s`.
pub fn lower_bytes(s: &[u8]) -> (r: Vec<u8>)
    ensures
        r@ == to_lower(s@),
{
    let mut r: Vec<u8> = Vec::new();
    let mut i: usize = 0;
    while i < s.len()
        invariant
            0 <= i <= s@.len(),
            r@ == to_lower(s@.subrange(0, i as int)),
        decreases s@.len() - i,
    {
        let b = s[i];
        let l = if 65 <= b && b <= 90 {
            b + 32
        } else {
            b
        };
        r.push(l);
        assert(to_lower(s@.subrange(0, i + 1)) =~= to_lower(s@.subrange(0, i as int)).push(l));
        i = i + 1;
    }
    assert(s@.subrange(0, s@.len() as int) =~= s@);
    r
}

/// Whether `s` begins with `p`.
pub fn has_prefix(s: &[u8], p: &[u8]) -> (r: bool)
    ensures
        r == starts_with(s@, p@),
{
    if p.len() > s.len() {
        return false;
    }
    let mut i: usize = 0;
    while i < p.len()
        invariant
            0 <= i <= p@.len() <= s@.len(),
            forall|k: int| 0 <= k < i ==> s@[k] == p@[k],
        decreases p@.len() - i,
    {
        if s[i] != p[i] {
            assert(s@.subrange(0, p@.len() as int)[i as int] != p@[i as int]);
            return false;
        }
        i = i + 1;
    }
    assert(s@.subrange(0, p@.len() as int) =~= p@);
    true
}

/// Whether `a` and `b` hold the same bytes.
pub fn bytes_eq(a: &[u8], b: &[u8]) -> (r: bool)
    ensures
        r == (a@ == b@),
{
    if a.len() != b.len() {
        return false;
    }
    let r = has_prefix(a, b);
    assert(a@ =~= a@.subrange(0, b@.len() as int));
    r
}

} // verus!

verus! {

pub proof fn lemma_to_lower_subrange(s: Seq<u8>, a: int, b: int)
    requires
        0 <= a <= b <= s.len(),
    ensures
        to_lower(s.subrange(a, b)) == to_lower(s).subrange(a, b),
{
    assert(to_lower(s.subrange(a, b)) =~= to_lower(s).subrange(a, b));
}

pub proof fn lemma_to_lower_idempotent(s: Seq<u8>)
    ensures
        to_lower(to_lower(s)) == to_lower(s),
{
    assert(to_lower(to_lower(s)) =~= to_lower(s));
}

/// Lower-casing finds a byte that is no letter where it was.
pub proof fn lemma_find_from_lower(s: Seq<u8>, i: int, c: u8)
    requires
        0 <= i <= s.len(),
        !(65 <= c <= 90),
        !(97 <= c <= 122),
    ensures
        find_from(to_lower(s), i, c) == find_from(s, i, c),
    decreases s.len() - i,
{
    if i < s.len() {
        lemma_find_from_lower(s, i + 1, c);
    }
}

/// Trimming and lower-casing can be done in either order.
pub proof fn lemma_trim_lower(s: Seq<u8>)
    ensures
        to_lower(trim(s)) == trim(to_lower(s)),
    decreases s.len(),
{
    let l = to_lower(s);
    let n = s.len() as int;
    assert(space_at_start(l) == space_at_start(s));
    assert(space_at_end(l) == space_at_end(s));
    let k = space_at_start(s);
    let m = space_at_end(s);
    if k > 0 {
        assert(l.subrange(k, n) =~= to_lower(s.subrange(k, n)));
        lemma_trim_lower(s.subrange(k, n));
    } else if m > 0 {
        assert(l.subrange(0, n - m) =~= to_lower(s.subrange(0, n - m)));
        lemma_trim_lower(s.subrange(0, n - m));
    }
}

} // verus!
