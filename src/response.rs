//! Parsing one captured response from a reader and writing it as JSON.
use vstd::prelude::*;
use vstd::string::StringSliceAdditionalSpecFns;

use crate::bytes::{
    bytes_eq, copy_range, lemma_trim_lower, lower_bytes, push_all, to_lower, trim, trim_bytes,
};
use crate::grammar::{
    header_line, is_content_type_json, is_header_end, is_header_end_line, is_json_type,
    is_noise, is_noise_line, length_value, match_header_line, match_status_line,
    parse_length, status_line,
};
use crate::json::{json_body, json_reencodes, json_written_as, nesting_ok, quote_bytes, quoted};
use crate::reader::{lemma_read_line_wf, LineBufferedStdin, ReadError, ReaderState};

verus! {

/// Why a response could not be turned into JSON.
#[derive(Debug)]
pub enum HjError {
    /// The capture ended before the body's declared length, or the length
    /// is shorter than bytes already pushed back.
    Read(ReadError),
    /// The line where a status line should stand.
    InvalidStatusLine(Vec<u8>),
    /// A line in the header block that is no `name: value` field.
    InvalidHeaderField(Vec<u8>),
    /// A body declared as JSON that is not JSON.
    InvalidJsonBody,
}

/// What an error says, with the offending line as bytes.
pub enum ParseFault {
    Read(ReadError),
    StatusLine(Seq<u8>),
    HeaderField(Seq<u8>),
    JsonBody,
}

impl View for HjError {
    type V = ParseFault;

    open spec fn view(&self) -> ParseFault {
        match self {
            HjError::Read(e) => ParseFault::Read(*e),
            HjError::InvalidStatusLine(l) => ParseFault::StatusLine(l@),
            HjError::InvalidHeaderField(l) => ParseFault::HeaderField(l@),
            HjError::InvalidJsonBody => ParseFault::JsonBody,
        }
    }
}

/// The state after skipping noise lines; the first line that is not noise is
/// pushed back.
pub open spec fn skip_noise(st: ReaderState) -> ReaderState
    decreases st.size(),
    when st.wf()
    via skip_noise_decreases
{
    let (l, next) = st.read_line();
    if is_noise(l) {
        skip_noise(next)
    } else {
        next.unread_line(l)
    }
}

#[via_fn]
proof fn skip_noise_decreases(st: ReaderState) {
    lemma_read_line_wf(st);
}

pub proof fn lemma_skip_noise(st: ReaderState)
    requires
        st.wf(),
    ensures
        skip_noise(st).wf(),
        skip_noise(st).size() <= st.size(),
    decreases st.size(),
{
    lemma_read_line_wf(st);
    let (l, next) = st.read_line();
    if is_noise(l) {
        lemma_skip_noise(next);
    } else {
        assert(next.unread_line(l).stack.drop_last() =~= next.stack);
    }
}

/// The fields read so far, and the content type and length they declared.
pub struct HeaderBlock {
    pub fields: Seq<(Seq<u8>, Seq<u8>)>,
    pub content_type: Option<Seq<u8>>,
    pub content_length: Option<nat>,
}

/// The block after one more field: the name trimmed and lower-cased, the
/// value trimmed; a `content-type` field sets the content type, and a
/// `content-length` field whose value is a length sets the length.
pub open spec fn add_field(h: HeaderBlock, name: Seq<u8>, value: Seq<u8>) -> HeaderBlock {
    let key = to_lower(trim(name));
    let val = trim(value);
    let fields = h.fields.push((key, val));
    if key == "content-type".spec_bytes() {
        HeaderBlock { fields, content_type: Some(val), ..h }
    } else if key == "content-length".spec_bytes() && length_value(val) is Some {
        HeaderBlock { fields, content_length: length_value(val), ..h }
    } else {
        HeaderBlock { fields, ..h }
    }
}

/// The header block read from `st` on top of `h`, up to the line that ends it.
pub open spec fn header_block(st: ReaderState, h: HeaderBlock) -> Result<
    (HeaderBlock, ReaderState),
    ParseFault,
>
    decreases st.size(),
    when st.wf()
    via header_block_decreases
{
    let (l, next) = st.read_line();
    if is_header_end(l) {
        Ok((h, next))
    } else {
        match header_line(l) {
            None => Err(ParseFault::HeaderField(l)),
            Some((name, value)) => header_block(next, add_field(h, name, value)),
        }
    }
}

/// The fields read from `st` on top of `h` before the block ends or a line
/// that is no field stops it.
pub open spec fn header_partial(st: ReaderState, h: HeaderBlock) -> HeaderBlock
    decreases st.size(),
    when st.wf()
    via header_partial_decreases
{
    let (l, next) = st.read_line();
    if is_header_end(l) {
        h
    } else {
        match header_line(l) {
            None => h,
            Some((name, value)) => header_partial(next, add_field(h, name, value)),
        }
    }
}

#[via_fn]
proof fn header_partial_decreases(st: ReaderState, h: HeaderBlock) {
    lemma_read_line_wf(st);
    let l = st.read_line().0;
    if l.len() == 0 {
        assert(trim(l) == l);
    }
}

#[via_fn]
proof fn header_block_decreases(st: ReaderState, h: HeaderBlock) {
    lemma_read_line_wf(st);
    let l = st.read_line().0;
    if l.len() == 0 {
        assert(trim(l) == l);
    }
}

pub proof fn lemma_header_block(st: ReaderState, h: HeaderBlock)
    requires
        st.wf(),
    ensures
        header_block(st, h) matches Ok((_, s)) ==> s.wf() && s.size() <= st.size(),
        header_block(st, h) matches Err(f) ==> f is HeaderField,
    decreases st.size(),
{
    lemma_read_line_wf(st);
    let l = st.read_line().0;
    if l.len() == 0 {
        assert(trim(l) == l);
    }
    if !is_header_end(l) {
        if let Some((name, value)) = header_line(l) {
            lemma_header_block(st.read_line().1, add_field(h, name, value));
        }
    }
}

/// The body: exactly the declared length, or everything left.
pub open spec fn body_read(st: ReaderState, len: Option<nat>) -> Result<
    (Seq<u8>, ReaderState),
    ReadError,
> {
    match len {
        Some(n) => st.read(n as int),
        None => Ok(st.read_to_end()),
    }
}

/// One response as read from a capture.
pub struct ResponseModel {
    pub protocol: Seq<u8>,
    pub status_code: Seq<u8>,
    pub headers: HeaderBlock,
    pub body: Seq<u8>,
    /// Whether the body is written as a JSON value rather than a string.
    pub json: bool,
}

pub open spec fn no_headers() -> HeaderBlock {
    HeaderBlock { fields: Seq::empty(), content_type: None, content_length: None }
}

/// One response read from `st`: noise, the status line, noise, the header
/// block, noise, the body, noise. Unless `raw`, a body whose content type is
/// JSON is marked to be written as JSON.
pub open spec fn response_from(st: ReaderState, raw: bool) -> Result<
    (ResponseModel, ReaderState),
    ParseFault,
> {
    let (l, s2) = skip_noise(st).read_line();
    match status_line(l) {
        None => Err(ParseFault::StatusLine(l)),
        Some((protocol, status_code)) => match header_block(skip_noise(s2), no_headers()) {
            Err(f) => Err(f),
            Ok((h, s4)) => match body_read(skip_noise(s4), h.content_length) {
                Err(e) => Err(ParseFault::Read(e)),
                Ok((body, s6)) => Ok(
                    (
                        ResponseModel {
                            protocol,
                            status_code,
                            headers: h,
                            body,
                            json: !raw && h.content_type is Some && is_json_type(
                                h.content_type->Some_0,
                            ),
                        },
                        skip_noise(s6),
                    ),
                ),
            },
        },
    }
}

/// `"<name>":"<value>"`, each quoted as JSON.
pub open spec fn field_json(f: (Seq<u8>, Seq<u8>)) -> Seq<u8> {
    quoted(f.0) + ":".spec_bytes() + quoted(f.1)
}

/// The fields as JSON object members, separated by commas.
pub open spec fn fields_json(fs: Seq<(Seq<u8>, Seq<u8>)>) -> Seq<u8>
    decreases fs.len(),
{
    if fs.len() == 0 {
        Seq::empty()
    } else if fs.len() == 1 {
        field_json(fs[0])
    } else {
        fields_json(fs.drop_last()) + ",".spec_bytes() + field_json(fs.last())
    }
}

/// The JSON object `{"protocol":..,"status_code":..,"headers":{..},"content":..}`;
/// the protocol token and status code are written as they are.
pub open spec fn object_json(
    protocol: Seq<u8>,
    status_code: Seq<u8>,
    fields: Seq<(Seq<u8>, Seq<u8>)>,
    content: Seq<u8>,
) -> Seq<u8> {
    "{\"protocol\":\"".spec_bytes() + protocol + "\",\"status_code\":".spec_bytes()
        + status_code + ",\"headers\":{".spec_bytes() + fields_json(fields)
        + "},\"content\":".spec_bytes() + content + "}".spec_bytes()
}

/// Whether the body of `m` can be written: it is written as a string, or
/// its text is JSON that nests at most `MAX_NESTING` deep and is written back.
pub open spec fn content_ok(m: ResponseModel) -> bool {
    !m.json || (nesting_ok(m.body) && json_reencodes(m.body))
}

/// Whether `c` is what the body of `m` is written as: its JSON string, or a
/// text that tinyjson writes for the value it holds.
pub open spec fn content_of(m: ResponseModel, c: Seq<u8>) -> bool {
    if m.json {
        json_written_as(m.body, c)
    } else {
        c == quoted(m.body)
    }
}

/// The JSON object of a response whose content is written as `content`.
pub open spec fn response_json(m: ResponseModel, content: Seq<u8>) -> Seq<u8> {
    object_json(m.protocol, m.status_code, m.headers.fields, content)
}

pub open spec fn opt_bytes(o: Option<Vec<u8>>) -> Option<Seq<u8>> {
    match o {
        Some(v) => Some(v@),
        None => None,
    }
}

pub open spec fn opt_len(o: Option<usize>) -> Option<nat> {
    match o {
        Some(n) => Some(n as nat),
        None => None,
    }
}

pub open spec fn fields_view(v: Seq<(Vec<u8>, Vec<u8>)>) -> Seq<(Seq<u8>, Seq<u8>)> {
    v.map_values(|f: (Vec<u8>, Vec<u8>)| (f.0@, f.1@))
}

/// Skips noise lines and pushes back the first line that is not noise.
pub fn skip(lbin: &mut LineBufferedStdin)
    requires
        old(lbin)@.wf(),
    ensures
        final(lbin)@ == skip_noise(old(lbin)@),
        final(lbin)@.wf(),
{
    loop
        invariant
            lbin@.wf(),
            skip_noise(lbin@) == skip_noise(old(lbin)@),
        decreases lbin@.size(),
    {
        let ghost before = lbin@;
        let line = lbin.read_line();
        proof {
            lemma_read_line_wf(before);
        }
        if !is_noise_line(line.as_slice()) {
            lbin.unread_line(line);
            return;
        }
    }
}

/// Reads the status line: its protocol token and status code digits.
pub fn parse_status_line(lbin: &mut LineBufferedStdin) -> (r: Result<(Vec<u8>, Vec<u8>), HjError>)
    requires
        old(lbin)@.wf(),
    ensures
        final(lbin)@ == old(lbin)@.read_line().1,
        final(lbin)@.wf(),
        match r {
            Ok((p, c)) => status_line(old(lbin)@.read_line().0) == Some((p@, c@)),
            Err(e) => status_line(old(lbin)@.read_line().0) is None && e@ == ParseFault::StatusLine(
                old(lbin)@.read_line().0,
            ),
        },
{
    let line = lbin.read_line();
    match match_status_line(line.as_slice()) {
        Some(pc) => Ok(pc),
        None => Err(HjError::InvalidStatusLine(line)),
    }
}

/// Reads header fields up to the line that ends the block. Names come out
/// trimmed and lower-cased, values trimmed, in the order they stand; a
/// `content-type` field sets `content_type`, and a `content-length` field
/// whose value is a length sets `content_length`.
pub fn parse_header_fields(
    lbin: &mut LineBufferedStdin,
    content_type: &mut Option<Vec<u8>>,
    content_length: &mut Option<usize>,
) -> (r: Result<Vec<(Vec<u8>, Vec<u8>)>, HjError>)
    requires
        old(lbin)@.wf(),
    ensures
        final(lbin)@.wf(),
        match header_block(
            old(lbin)@,
            HeaderBlock {
                fields: Seq::empty(),
                content_type: opt_bytes(*old(content_type)),
                content_length: opt_len(*old(content_length)),
            },
        ) {
            Ok((h, s)) => r matches Ok(fs) && fields_view(fs@) == h.fields && opt_bytes(
                *final(content_type),
            ) == h.content_type && opt_len(*final(content_length)) == h.content_length
                && final(lbin)@ == s,
            Err(f) => r matches Err(e) && e@ == f && opt_bytes(*final(content_type))
                == header_partial(
                old(lbin)@,
                HeaderBlock {
                    fields: Seq::empty(),
                    content_type: opt_bytes(*old(content_type)),
                    content_length: opt_len(*old(content_length)),
                },
            ).content_type && opt_len(*final(content_length)) == header_partial(
                old(lbin)@,
                HeaderBlock {
                    fields: Seq::empty(),
                    content_type: opt_bytes(*old(content_type)),
                    content_length: opt_len(*old(content_length)),
                },
            ).content_length,
        },
{
    let ghost start = HeaderBlock {
        fields: Seq::empty(),
        content_type: opt_bytes(*content_type),
        content_length: opt_len(*content_length),
    };
    let mut fields: Vec<(Vec<u8>, Vec<u8>)> = Vec::new();
    assert(fields_view(fields@) =~= Seq::empty());
    loop
        invariant
            lbin@.wf(),
            start == (HeaderBlock {
                fields: Seq::empty(),
                content_type: opt_bytes(*old(content_type)),
                content_length: opt_len(*old(content_length)),
            }),
            header_block(
                lbin@,
                HeaderBlock {
                    fields: fields_view(fields@),
                    content_type: opt_bytes(*content_type),
                    content_length: opt_len(*content_length),
                },
            ) == header_block(old(lbin)@, start),
            header_partial(
                lbin@,
                HeaderBlock {
                    fields: fields_view(fields@),
                    content_type: opt_bytes(*content_type),
                    content_length: opt_len(*content_length),
                },
            ) == header_partial(old(lbin)@, start),
        decreases lbin@.size(),
    {
        let ghost before = lbin@;
        let ghost cur = HeaderBlock {
            fields: fields_view(fields@),
            content_type: opt_bytes(*content_type),
            content_length: opt_len(*content_length),
        };
        let line = lbin.read_line();
        proof {
            lemma_read_line_wf(before);
            if line@.len() == 0 {
                assert(trim(line@) == line@);
            }
        }
        if is_header_end_line(line.as_slice()) {
            assert(header_block(before, cur) == Ok::<(HeaderBlock, ReaderState), ParseFault>(
                (cur, lbin@),
            ));
            return Ok(fields);
        }
        match match_header_line(line.as_slice()) {
            None => {
                assert(header_block(before, cur) == Err::<(HeaderBlock, ReaderState), ParseFault>(
                    ParseFault::HeaderField(line@),
                ));
                assert(header_partial(before, cur) == cur);
                return Err(HjError::InvalidHeaderField(line));
            },
            Some((name, value)) => {
                let ghost prev = fields@;
                let key = lower_bytes(trim_bytes(name.as_slice()).as_slice());
                let val = trim_bytes(value.as_slice());
                if bytes_eq(key.as_slice(), "content-type".as_bytes()) {
                    let copy = copy_range(val.as_slice(), 0, val.len());
                    assert(copy@ =~= val@);
                    *content_type = Some(copy);
                } else if bytes_eq(key.as_slice(), "content-length".as_bytes()) {
                    if let Some(n) = parse_length(val.as_slice()) {
                        *content_length = Some(n);
                    }
                }
                fields.push((key, val));
                assert(fields_view(fields@) =~= fields_view(prev).push((key@, val@)));
            },
        }
    }
}

/// Reads the body: exactly `content_length` bytes, or everything left.
fn read_body(lbin: &mut LineBufferedStdin, content_length: Option<usize>) -> (r: Result<
    Vec<u8>,
    HjError,
>)
    requires
        old(lbin)@.wf(),
    ensures
        final(lbin)@.wf(),
        match body_read(old(lbin)@, opt_len(content_length)) {
            Ok((b, s)) => r matches Ok(v) && v@ == b && final(lbin)@ == s,
            Err(e) => r matches Err(x) && x@ == ParseFault::Read(e) && final(lbin)@ == (ReaderState {
                stack: Seq::empty(),
                ..old(lbin)@
            }),
        },
{
    match content_length {
        Some(n) => match lbin.read(n) {
            Ok(b) => Ok(b),
            Err(e) => Err(HjError::Read(e)),
        },
        None => Ok(lbin.read_to_end()),
    }
}

/// Reads the body and writes it as a JSON string.
pub fn parse_content_raw(lbin: &mut LineBufferedStdin, content_length: Option<usize>) -> (r:
    Result<Vec<u8>, HjError>)
    requires
        old(lbin)@.wf(),
    ensures
        final(lbin)@.wf(),
        match body_read(old(lbin)@, opt_len(content_length)) {
            Ok((b, s)) => r matches Ok(v) && v@ == quoted(b) && final(lbin)@ == s,
            Err(e) => r matches Err(x) && x@ == ParseFault::Read(e) && final(lbin)@ == (ReaderState {
                stack: Seq::empty(),
                ..old(lbin)@
            }),
        },
{
    match read_body(lbin, content_length) {
        Ok(b) => Ok(quote_bytes(b.as_slice())),
        Err(e) => Err(e),
    }
}

/// Reads the body and writes it as a JSON value where `content_type` is a
/// JSON type, else as a JSON string. A JSON body that nests deeper than
/// `MAX_NESTING`, a limit of the stack that parsing runs on, is refused as
/// an invalid body.
pub fn parse_content(
    lbin: &mut LineBufferedStdin,
    content_type: Option<Vec<u8>>,
    content_length: Option<usize>,
) -> (r: Result<Vec<u8>, HjError>)
    requires
        old(lbin)@.wf(),
    ensures
        final(lbin)@.wf(),
        match body_read(old(lbin)@, opt_len(content_length)) {
            Ok((b, s)) => final(lbin)@ == s && if opt_bytes(content_type) matches Some(t)
                && is_json_type(t) {
                &&& r is Ok == (nesting_ok(b) && json_reencodes(b))
                &&& r matches Ok(v) ==> json_written_as(b, v@)
                &&& r matches Err(x) ==> x@ == ParseFault::JsonBody
            } else {
                r matches Ok(v) && v@ == quoted(b)
            },
            Err(e) => r matches Err(x) && x@ == ParseFault::Read(e) && final(lbin)@ == (ReaderState {
                stack: Seq::empty(),
                ..old(lbin)@
            }),
        },
{
    if is_content_type_json(&content_type) {
        let buf = match read_body(lbin, content_length) {
            Ok(b) => b,
            Err(e) => return Err(e),
        };
        match json_body(buf.as_slice()) {
            Some(c) => Ok(c),
            None => Err(HjError::InvalidJsonBody),
        }
    } else {
        parse_content_raw(lbin, content_length)
    }
}

} // verus!

verus! {

/// The fields as JSON object members.
fn render_fields(fields: &Vec<(Vec<u8>, Vec<u8>)>) -> (r: Vec<u8>)
    ensures
        r@ == fields_json(fields_view(fields@)),
{
    let ghost fv = fields_view(fields@);
    let mut out: Vec<u8> = Vec::new();
    let mut i: usize = 0;
    assert(fv.subrange(0, 0) =~= Seq::<(Seq<u8>, Seq<u8>)>::empty());
    while i < fields.len()
        invariant
            0 <= i <= fields@.len(),
            fv == fields_view(fields@),
            out@ == fields_json(fv.subrange(0, i as int)),
        decreases fields@.len() - i,
    {
        let ghost before = out@;
        if i > 0 {
            push_all(&mut out, ",".as_bytes());
        }
        let k = quote_bytes(fields[i].0.as_slice());
        push_all(&mut out, k.as_slice());
        push_all(&mut out, ":".as_bytes());
        let v = quote_bytes(fields[i].1.as_slice());
        push_all(&mut out, v.as_slice());
        let ghost sub = fv.subrange(0, i + 1);
        assert(sub.drop_last() =~= fv.subrange(0, i as int));
        assert(sub.last() == fv[i as int]);
        if i > 0 {
            assert(out@ =~= before + ",".spec_bytes() + field_json(sub.last()));
        } else {
            assert(out@ =~= field_json(sub[0]));
        }
        i = i + 1;
    }
    assert(fv.subrange(0, i as int) =~= fv);
    out
}

/// The JSON object of a response with the given protocol token, status code
/// digits, fields and content, written as they are.
pub fn render_response(
    protocol: &[u8],
    status_code: &[u8],
    fields: &Vec<(Vec<u8>, Vec<u8>)>,
    content: &[u8],
) -> (r: Vec<u8>)
    ensures
        r@ == object_json(protocol@, status_code@, fields_view(fields@), content@),
{
    let mut out: Vec<u8> = Vec::new();
    push_all(&mut out, "{\"protocol\":\"".as_bytes());
    push_all(&mut out, protocol);
    push_all(&mut out, "\",\"status_code\":".as_bytes());
    push_all(&mut out, status_code);
    push_all(&mut out, ",\"headers\":{".as_bytes());
    let fj = render_fields(fields);
    push_all(&mut out, fj.as_slice());
    push_all(&mut out, "},\"content\":".as_bytes());
    push_all(&mut out, content);
    push_all(&mut out, "}".as_bytes());
    assert(out@ =~= object_json(protocol@, status_code@, fields_view(fields@), content@));
    out
}

/// Reads one response and writes it as a JSON object. A body is written as
/// a JSON value where its content type is JSON and `raw` is off, else as a
/// JSON string.
pub fn process_response(lbin: &mut LineBufferedStdin, raw: bool) -> (r: Result<Vec<u8>, HjError>)
    requires
        old(lbin)@.wf(),
    ensures
        final(lbin)@.wf(),
        match response_from(old(lbin)@, raw) {
            Err(f) => r matches Err(e) && e@ == f,
            Ok((m, s)) => {
                &&& r is Ok == content_ok(m)
                &&& r matches Ok(o) ==> final(lbin)@ == s && exists|c: Seq<u8>|
                    content_of(m, c) && o@ == #[trigger] response_json(m, c)
                &&& r matches Err(e) ==> e@ == ParseFault::JsonBody
            },
        },
{
    skip(lbin);
    let (protocol, status_code) = match parse_status_line(lbin) {
        Ok(pc) => pc,
        Err(e) => return Err(e),
    };
    skip(lbin);
    let mut content_type: Option<Vec<u8>> = None;
    let mut content_length: Option<usize> = None;
    let fields = match parse_header_fields(lbin, &mut content_type, &mut content_length) {
        Ok(fs) => fs,
        Err(e) => return Err(e),
    };
    assert(fields_view(Seq::<(Vec<u8>, Vec<u8>)>::empty()) =~= Seq::empty());
    skip(lbin);
    let content = if raw {
        parse_content_raw(lbin, content_length)
    } else {
        parse_content(lbin, content_type, content_length)
    };
    let content = match content {
        Ok(c) => c,
        Err(e) => return Err(e),
    };
    skip(lbin);
    let out = render_response(
        protocol.as_slice(),
        status_code.as_slice(),
        &fields,
        content.as_slice(),
    );
    proof {
        if let Ok((m, s)) = response_from(old(lbin)@, raw) {
            assert(out@ == response_json(m, content@));
            assert(content_of(m, content@));
        }
    }
    Ok(out)
}

} // verus!

verus! {

/// Header names are told apart without regard to case: two fields whose names
/// differ only in the case of letters are stored alike, and set the content
/// type or the content length alike.
pub proof fn header_detection_ignores_case(
    h: HeaderBlock,
    n1: Seq<u8>,
    n2: Seq<u8>,
    value: Seq<u8>,
)
    requires
        to_lower(n1) == to_lower(n2),
    ensures
        add_field(h, n1, value) == add_field(h, n2, value),
{
    lemma_trim_lower(n1);
    lemma_trim_lower(n2);
}

} // verus!

verus! {

/// The diagnostic for an error; an offending line is quoted as JSON.
pub open spec fn message_of(f: ParseFault) -> Seq<u8> {
    match f {
        ParseFault::Read(ReadError::UnexpectedEof) => "failed to fill whole buffer".spec_bytes(),
        ParseFault::Read(ReadError::LengthBelowBuffered) =>
            "content length is shorter than the lines already read".spec_bytes(),
        ParseFault::StatusLine(l) => "Invalid status line: ".spec_bytes() + quoted(l),
        ParseFault::HeaderField(l) => "Invalid header field: ".spec_bytes() + quoted(l),
        ParseFault::JsonBody => "Invalid JSON body".spec_bytes(),
    }
}

/// The diagnostic for `e`.
pub fn error_message(e: &HjError) -> (r: Vec<u8>)
    ensures
        r@ == message_of(e@),
{
    let mut out: Vec<u8> = Vec::new();
    match e {
        HjError::Read(ReadError::UnexpectedEof) => {
            push_all(&mut out, "failed to fill whole buffer".as_bytes());
        },
        HjError::Read(ReadError::LengthBelowBuffered) => {
            push_all(&mut out, "content length is shorter than the lines already read".as_bytes());
        },
        HjError::InvalidStatusLine(l) => {
            push_all(&mut out, "Invalid status line: ".as_bytes());
            let q = quote_bytes(l.as_slice());
            push_all(&mut out, q.as_slice());
        },
        HjError::InvalidHeaderField(l) => {
            push_all(&mut out, "Invalid header field: ".as_bytes());
            let q = quote_bytes(l.as_slice());
            push_all(&mut out, q.as_slice());
        },
        HjError::InvalidJsonBody => {
            push_all(&mut out, "Invalid JSON body".as_bytes());
        },
    }
    assert(out@ =~= message_of(e@));
    out
}

} // verus!
