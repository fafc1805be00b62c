//! JSON text through the tinyjson crate, and UTF-8 decoding through std.
use vstd::prelude::*;

verus! {

/// The text that `String::from_utf8_lossy` makes of some bytes.
pub uninterp spec fn lossy_text(b: Seq<u8>) -> Seq<char>;

/// The JSON string literal that tinyjson writes for some text.
pub uninterp spec fn json_quoted(s: Seq<char>) -> Seq<u8>;

/// Whether tinyjson parses the text that some bytes decode to as one JSON
/// value, and writes that value back as text.
pub uninterp spec fn json_reencodes(b: Seq<u8>) -> bool;

/// Whether `o` is a text that tinyjson writes for the value it parses from
/// the text that `b` decodes to.
pub uninterp spec fn json_written_as(b: Seq<u8>, o: Seq<u8>) -> bool;

/// Relies on `String::from_utf8_lossy`: valid UTF-8 is kept and each invalid
/// sequence becomes U+FFFD, so the text depends on the bytes alone.
#[verifier::external_body]
pub(crate) fn text_of(b: &[u8]) -> (r: String)
    ensures
        r@ == lossy_text(b@),
{
    String::from_utf8_lossy(b).into_owned()
}

/// Relies on tinyjson's `JsonValue::stringify` of a `JsonValue::String`: the
/// quoted and escaped literal, which depends on the text alone, opens and
/// closes with `"`. Writing a string into a buffer cannot fail.
#[verifier::external_body]
pub(crate) fn quote_json(s: &str) -> (r: Vec<u8>)
    ensures
        r@ == json_quoted(s@),
        r@.len() >= 2,
        r@[0] == 34,
        r@.last() == 34,
{
    tinyjson::JsonValue::String(s.to_string()).stringify().unwrap().into_bytes()
}

/// The deepest nesting of arrays and objects that a JSON body may have: a
/// limit of the machine, not of JSON. tinyjson parses and writes each level
/// of nesting by recursion. In an unoptimised build on a thread with a
/// 2 MiB stack, such as a test thread, objects overflow the stack between
/// 700 and 850 levels deep and arrays between 1000 and 1200; a main thread
/// has 8 MiB. The bound leaves room for the frames of the callers.
pub const MAX_NESTING: usize = 512;

/// Whether no bracket in `b` from `i` on, outside strings, opens an array or
/// an object deeper than `MAX_NESTING`, where `depth` are open before `i`,
/// `in_str` says whether `i` is inside a string, and `esc` whether the byte
/// at `i` is escaped.
pub open spec fn nesting_fits(b: Seq<u8>, i: int, depth: int, in_str: bool, esc: bool) -> bool
    decreases b.len() - i,
{
    if i < 0 || i >= b.len() {
        true
    } else if in_str {
        if esc {
            nesting_fits(b, i + 1, depth, true, false)
        } else if b[i] == 92 {
            nesting_fits(b, i + 1, depth, true, true)
        } else if b[i] == 34 {
            nesting_fits(b, i + 1, depth, false, false)
        } else {
            nesting_fits(b, i + 1, depth, true, false)
        }
    } else if b[i] == 91 || b[i] == 123 {
        depth + 1 <= MAX_NESTING && nesting_fits(b, i + 1, depth + 1, false, false)
    } else if b[i] == 93 || b[i] == 125 {
        nesting_fits(b, i + 1, if depth > 0 { depth - 1 } else { 0 }, false, false)
    } else if b[i] == 34 {
        nesting_fits(b, i + 1, depth, true, false)
    } else {
        nesting_fits(b, i + 1, depth, false, false)
    }
}

/// Whether arrays and objects in `b` nest at most `MAX_NESTING` deep.
pub open spec fn nesting_ok(b: Seq<u8>) -> bool {
    nesting_fits(b, 0, 0, false, false)
}

/// Relies on `String::from_utf8_lossy`, then tinyjson's `FromStr` for
/// `JsonValue` and `JsonValue::stringify`: whether the text parses as one
/// value and is written back depends on the bytes alone (writing fails only
/// on a number that is not finite); the text written may differ between
/// processes, since object members come in `HashMap` order. The parser
/// descends into arrays and objects by recursion, so the nesting is bounded
/// first: ASCII brackets, quotes and backslashes stand in the decoded text
/// where they stand in the bytes.
#[verifier::external_body]
fn reencode_json(b: &[u8]) -> (r: Option<Vec<u8>>)
    requires
        nesting_ok(b@),
    ensures
        r is Some == json_reencodes(b@),
        r matches Some(o) ==> json_written_as(b@, o@),
{
    let text = String::from_utf8_lossy(b);
    text.parse::<tinyjson::JsonValue>().ok().and_then(|v| v.stringify().ok()).map(|t| t.into_bytes())
}

/// Whether arrays and objects in `b` nest at most `MAX_NESTING` deep.
pub fn nesting_within_bound(b: &[u8]) -> (r: bool)
    ensures
        r == nesting_ok(b@),
{
    let mut i: usize = 0;
    let mut depth: usize = 0;
    let mut in_str = false;
    let mut esc = false;
    while i < b.len()
        invariant
            0 <= i <= b@.len(),
            depth <= MAX_NESTING,
            !in_str ==> !esc,
            nesting_fits(b@, i as int, depth as int, in_str, esc) == nesting_ok(b@),
        decreases b@.len() - i,
    {
        let c = b[i];
        let ghost (d0, s0, e0) = (depth as int, in_str, esc);
        if in_str {
            if esc {
                esc = false;
            } else if c == 92 {
                esc = true;
            } else if c == 34 {
                in_str = false;
            }
        } else if c == 91 || c == 123 {
            if depth >= MAX_NESTING {
                return false;
            }
            depth = depth + 1;
        } else if c == 93 || c == 125 {
            if depth > 0 {
                depth = depth - 1;
            }
        } else if c == 34 {
            in_str = true;
        }
        assert(nesting_fits(b@, i as int, d0, s0, e0) == nesting_fits(
            b@,
            i + 1,
            depth as int,
            in_str,
            esc,
        ));
        i = i + 1;
    }
    true
}

/// The JSON text of the value that the text of `b` holds, written anew;
/// `None` where it is no JSON value, cannot be written, or nests deeper than
/// `MAX_NESTING`, the depth that the stack can hold.
pub fn json_body(b: &[u8]) -> (r: Option<Vec<u8>>)
    ensures
        r is Some == (nesting_ok(b@) && json_reencodes(b@)),
        r matches Some(o) ==> json_written_as(b@, o@),
{
    if nesting_within_bound(b) {
        reencode_json(b)
    } else {
        None
    }
}

/// The JSON string literal of the text that some bytes decode to.
pub open spec fn quoted(b: Seq<u8>) -> Seq<u8> {
    json_quoted(lossy_text(b))
}

/// The JSON string literal of the text that `b` decodes to.
pub fn quote_bytes(b: &[u8]) -> (r: Vec<u8>)
    ensures
        r@ == quoted(b@),
        r@.len() >= 2,
        r@[0] == 34,
        r@.last() == 34,
{
    let t = text_of(b);
    quote_json(t.as_str())
}

} // verus!
