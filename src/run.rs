//! Converting a whole capture: one JSON object per response, until the
//! capture ends or a response cannot be read.
use vstd::prelude::*;
use vstd::string::StringSliceAdditionalSpecFns;

use crate::bytes::{digit_end, is_digit, lemma_digit_end_bounds, push_all, starts_with};
use crate::grammar::{all_digits, line_start, status_line, version_end, DOT};
use crate::json::quoted;
use crate::reader::{lemma_read_line_wf, LineBufferedStdin, ReaderState};
use crate::response::{
    body_read, header_block, lemma_header_block, lemma_skip_noise, no_headers, process_response,
    response_from, response_json, skip_noise, content_of, content_ok, HjError, ParseFault,
    ResponseModel,
};

verus! {

/// The state after looking one line ahead and pushing that line back.
pub open spec fn probe(s: ReaderState) -> ReaderState {
    s.read_line().1.unread_line(s.read_line().0)
}

pub proof fn lemma_probe(s: ReaderState)
    requires
        s.wf(),
    ensures
        probe(s).wf(),
        probe(s).size() == s.size(),
{
    lemma_read_line_wf(s);
    let (l, n) = s.read_line();
    assert(n.unread_line(l).stack.drop_last() =~= n.stack);
}

pub proof fn lemma_body_read(st: ReaderState, len: Option<nat>)
    requires
        st.wf(),
    ensures
        body_read(st, len) matches Ok((_, s)) ==> s.wf() && s.size() <= st.size(),
{
}

/// Reading a response consumes at least its status line.
pub proof fn lemma_response_progress(st: ReaderState, raw: bool)
    requires
        st.wf(),
    ensures
        response_from(st, raw) matches Ok((_, s)) ==> s.wf() && s.size() < st.size(),
        response_from(st, raw) matches Err(f) ==> f != ParseFault::JsonBody,
{
    lemma_skip_noise(st);
    let s1 = skip_noise(st);
    lemma_read_line_wf(s1);
    let (l, s2) = s1.read_line();
    if status_line(l) is Some {
        lemma_skip_noise(s2);
        let s3 = skip_noise(s2);
        lemma_header_block(s3, no_headers());
        if let Ok((h, s4)) = header_block(s3, no_headers()) {
            lemma_skip_noise(s4);
            let s5 = skip_noise(s4);
            lemma_body_read(s5, h.content_length);
            if let Ok((_, s6)) = body_read(s5, h.content_length) {
                lemma_skip_noise(s6);
            }
        }
    }
}

/// The responses read one after another from `st`, up to the end of the
/// capture, and the fault that stopped the run early, if any.
pub open spec fn run(st: ReaderState, raw: bool) -> (Seq<ResponseModel>, Option<ParseFault>)
    decreases st.size(),
    when st.wf()
    via run_decreases
{
    match response_from(st, raw) {
        Err(f) => (Seq::empty(), Some(f)),
        Ok((m, s)) => if s.at_eof() {
            (seq![m], None)
        } else {
            let (ms, f) = run(probe(s), raw);
            (seq![m] + ms, f)
        },
    }
}

#[via_fn]
proof fn run_decreases(st: ReaderState, raw: bool) {
    lemma_response_progress(st, raw);
    if let Ok((_, s)) = response_from(st, raw) {
        lemma_probe(s);
    }
}

/// The reader state at the start of `input`.
pub open spec fn start_state(input: Seq<u8>) -> ReaderState {
    ReaderState { data: input, pos: 0, stack: Seq::empty() }
}

/// Objects one after another: each followed by a newline, or, in an array,
/// separated by commas.
pub open spec fn join_objects(objs: Seq<Seq<u8>>, array: bool) -> Seq<u8>
    decreases objs.len(),
{
    if objs.len() == 0 {
        Seq::empty()
    } else if !array {
        join_objects(objs.drop_last(), array) + objs.last() + "\n".spec_bytes()
    } else if objs.len() == 1 {
        objs[0]
    } else {
        join_objects(objs.drop_last(), array) + ",".spec_bytes() + objs.last()
    }
}

/// The whole output: the joined objects, in an array closed by `]` and a
/// newline where `array` is set.
pub open spec fn output_of(objs: Seq<Seq<u8>>, array: bool) -> Seq<u8> {
    if array {
        "[".spec_bytes() + join_objects(objs, true) + "]\n".spec_bytes()
    } else {
        join_objects(objs, false)
    }
}

/// The objects of responses whose bodies are written as strings.
pub open spec fn text_objects(ms: Seq<ResponseModel>) -> Seq<Seq<u8>> {
    ms.map_values(|m: ResponseModel| response_json(m, quoted(m.body)))
}

pub open spec fn fault_of(e: Option<HjError>) -> Option<ParseFault> {
    match e {
        Some(x) => Some(x@),
        None => None,
    }
}

/// What a run wrote, and the error that stopped it, if any.
#[derive(Debug)]
pub struct Conversion {
    pub output: Vec<u8>,
    pub error: Option<HjError>,
}

/// Whether `o` is the object of `m`, with its content written as it is.
pub open spec fn is_object_of(o: Seq<u8>, m: ResponseModel) -> bool {
    exists|c: Seq<u8>| content_of(m, c) && o == #[trigger] response_json(m, c)
}

/// Whether `objs` are the objects of the first responses of `ms`, one each,
/// all with bodies that could be written.
pub open spec fn objects_for(objs: Seq<Seq<u8>>, ms: Seq<ResponseModel>) -> bool {
    &&& objs.len() <= ms.len()
    &&& forall|i: int| 0 <= i < objs.len() ==> #[trigger] object_at(objs, ms, i)
}

/// Whether the `i`-th of `objs` is the object of the `i`-th of `ms`, whose
/// body could be written.
pub open spec fn object_at(objs: Seq<Seq<u8>>, ms: Seq<ResponseModel>, i: int) -> bool {
    content_ok(ms[i]) && is_object_of(objs[i], ms[i])
}

/// What a run of responses `ms`, stopped by `fault` if any, writes and
/// reports: the objects of the responses up to the first whose body cannot
/// be written; then the run's own fault if every body could be written, else
/// an invalid JSON body.
pub open spec fn conversion_of(
    objs: Seq<Seq<u8>>,
    ms: Seq<ResponseModel>,
    fault: Option<ParseFault>,
    array: bool,
    output: Seq<u8>,
    error: Option<ParseFault>,
) -> bool {
    &&& objects_for(objs, ms)
    &&& output == output_of(objs, array)
    &&& if objs.len() == ms.len() {
        error == fault
    } else {
        !content_ok(ms[objs.len() as int]) && error == Some(ParseFault::JsonBody)
    }
}

/// Converts every response of `input`, one after another, until the input
/// ends or a response cannot be read; the objects come each on a line of its
/// own, or in one JSON array where `array` is set.
#[verifier::rlimit(100)]
pub fn convert(input: Vec<u8>, raw: bool, array: bool) -> (r: Conversion)
    ensures
        exists|objs: Seq<Seq<u8>>|
            #[trigger] conversion_of(
                objs,
                run(start_state(input@), raw).0,
                run(start_state(input@), raw).1,
                array,
                r.output@,
                fault_of(r.error),
            ),
{
    let ghost init = start_state(input@);
    let mut lbin = LineBufferedStdin::new(input);
    let mut body: Vec<u8> = Vec::new();
    let mut error: Option<HjError> = None;
    let mut first = true;
    let ghost mut done: Seq<ResponseModel> = Seq::empty();
    let ghost mut objs: Seq<Seq<u8>> = Seq::empty();
    loop
        invariant_except_break
            error is None,
            run(init, raw).0 == done + run(lbin@, raw).0,
            run(init, raw).1 == run(lbin@, raw).1,
        invariant
            lbin@.wf(),
            init == start_state(input@),
            first == (done.len() == 0),
            objs.len() == done.len(),
            done.len() <= run(init, raw).0.len(),
            forall|i: int| 0 <= i < done.len() ==> run(init, raw).0[i] == done[i],
            objects_for(objs, done),
            body@ == join_objects(objs, array),
        ensures
            init == start_state(input@),
            objs.len() == done.len(),
            done.len() <= run(init, raw).0.len(),
            forall|i: int| 0 <= i < done.len() ==> run(init, raw).0[i] == done[i],
            objects_for(objs, done),
            body@ == join_objects(objs, array),
            error is None ==> run(init, raw).0 == done && run(init, raw).1 is None,
            error matches Some(e) ==> (run(init, raw).0 == done && run(init, raw).1 == Some(e@))
                || (done.len() < run(init, raw).0.len() && !content_ok(
                run(init, raw).0[done.len() as int],
            ) && e@ == ParseFault::JsonBody),
        decreases lbin@.size(),
    {
        let ghost st = lbin@;
        proof {
            lemma_response_progress(st, raw);
        }
        match process_response(&mut lbin, raw) {
            Err(e) => {
                proof {
                    if let Ok((m, s)) = response_from(st, raw) {
                        assert(run(st, raw).0[0] == m);
                        assert((done + run(st, raw).0)[done.len() as int] == m);
                    } else {
                        assert(run(st, raw).0 =~= Seq::<ResponseModel>::empty());
                        assert(done + run(st, raw).0 =~= done);
                    }
                }
                error = Some(e);
                break ;
            },
            Ok(obj) => {
                let ghost m = response_from(st, raw)->Ok_0.0;
                let ghost before = body@;
                if array && !first {
                    push_all(&mut body, ",".as_bytes());
                }
                push_all(&mut body, obj.as_slice());
                if !array {
                    push_all(&mut body, "\n".as_bytes());
                }
                first = false;
                proof {
                    let nd = done.push(m);
                    let no = objs.push(obj@);
                    assert(no.drop_last() =~= objs);
                    assert(is_object_of(obj@, m));
                    assert(content_ok(m));
                    if array {
                        if done.len() == 0 {
                            assert(body@ =~= no[0]);
                        } else {
                            assert(body@ =~= before + ",".spec_bytes() + no.last());
                        }
                    } else {
                        assert(body@ =~= before + no.last() + "\n".spec_bytes());
                    }
                    assert(run(st, raw).0[0] == m);
                    assert((done + run(st, raw).0)[done.len() as int] == m);
                    assert forall|i: int| 0 <= i < no.len() implies #[trigger] object_at(
                        no,
                        nd,
                        i,
                    ) by {
                        if i < objs.len() {
                            assert(object_at(objs, done, i));
                            assert(no[i] == objs[i] && nd[i] == done[i]);
                        } else {
                            assert(no[i] == obj@ && nd[i] == m);
                        }
                    }
                    assert(no.len() <= nd.len());
                    assert(objects_for(no, nd));
                    done = nd;
                    objs = no;
                }
                let ghost s = lbin@;
                if lbin.is_eof() {
                    proof {
                        assert(run(st, raw).0 =~= seq![m]);
                        assert(run(init, raw).0 =~= done);
                    }
                    break ;
                }
                proof {
                    lemma_probe(s);
                    assert(run(init, raw).0 =~= done + run(lbin@, raw).0);
                }
            },
        }
    }
    let mut output: Vec<u8> = Vec::new();
    if array {
        push_all(&mut output, "[".as_bytes());
        push_all(&mut output, body.as_slice());
        push_all(&mut output, "]\n".as_bytes());
    } else {
        output = body;
    }
    proof {
        let ms = run(init, raw).0;
        assert forall|i: int| 0 <= i < objs.len() implies #[trigger] object_at(objs, ms, i) by {
            assert(object_at(objs, done, i));
            assert(ms[i] == done[i]);
        }
        assert(conversion_of(objs, ms, run(init, raw).1, array, output@, fault_of(error)));
    }
    let r = Conversion { output, error };
    assert(conversion_of(
        objs,
        run(start_state(input@), raw).0,
        run(start_state(input@), raw).1,
        array,
        r.output@,
        fault_of(r.error),
    ));
    r
}

} // verus!

verus! {

/// With raw mode on, no body is written as a JSON value: every response's
/// content is a JSON string, whatever its content type.
pub proof fn raw_mode_writes_strings(st: ReaderState)
    requires
        st.wf(),
    ensures
        forall|i: int| 0 <= i < run(st, true).0.len() ==> !(#[trigger] run(st, true).0[i]).json,
    decreases st.size(),
{
    lemma_response_progress(st, true);
    if let Ok((m, s)) = response_from(st, true) {
        if !s.at_eof() {
            lemma_probe(s);
            raw_mode_writes_strings(probe(s));
            let rest = run(probe(s), true).0;
            assert forall|i: int| 0 <= i < run(st, true).0.len() implies !(#[trigger] run(
                st,
                true,
            ).0[i]).json by {
                if i > 0 {
                    assert(run(st, true).0[i] == rest[i - 1]);
                }
            }
        }
    }
}

/// A run stops at a response whose first line after the noise is no status
/// line: no object is written for it or after it, and the run reports that
/// line.
pub proof fn bad_status_line_stops_run(st: ReaderState, raw: bool)
    requires
        st.wf(),
        status_line(skip_noise(st).read_line().0) is None,
    ensures
        run(st, raw) == (
            Seq::<ResponseModel>::empty(),
            Some(ParseFault::StatusLine(skip_noise(st).read_line().0)),
        ),
{
}

/// A capture that holds one response, noise around it aside, gives one
/// object: its protocol token `HTTP/..`, its status code as digits, its
/// header fields and its content; without an array, that object and a
/// newline are the whole output.
pub proof fn single_response_gives_one_object(st: ReaderState, raw: bool)
    requires
        st.wf(),
        response_from(st, raw) matches Ok((_, s)) && s.at_eof(),
    ensures
        run(st, raw).0.len() == 1,
        run(st, raw).1 is None,
        starts_with(run(st, raw).0[0].protocol, "HTTP/".spec_bytes()),
        run(st, raw).0[0].status_code.len() > 0,
        all_digits(run(st, raw).0[0].status_code),
        !run(st, raw).0[0].json ==> output_of(text_objects(run(st, raw).0), false) == response_json(
            run(st, raw).0[0],
            quoted(run(st, raw).0[0].body),
        ) + "\n".spec_bytes(),
{
    let m = run(st, raw).0[0];
    let l = skip_noise(st).read_line().0;
    let p = line_start(l);
    let v = p + "HTTP/".spec_bytes().len();
    let pe = version_end(l, v);
    let se = digit_end(l, pe + 1);
    lemma_digit_end_bounds(l, v);
    lemma_digit_end_bounds(l, pe + 1);
    if digit_end(l, v) < l.len() && l[digit_end(l, v)] == DOT {
        lemma_digit_end_bounds(l, digit_end(l, v) + 1);
    }
    let rest = l.subrange(p, l.len() as int);
    assert(rest.subrange(0, "HTTP/".spec_bytes().len() as int) =~= m.protocol.subrange(
        0,
        "HTTP/".spec_bytes().len() as int,
    ));
    assert forall|i: int| 0 <= i < m.status_code.len() implies is_digit(
        #[trigger] m.status_code[i],
    ) by {
        assert(m.status_code[i] == l[pe + 1 + i]);
    }
    let objs = text_objects(run(st, raw).0);
    assert(objs.drop_last() =~= Seq::<Seq<u8>>::empty());
    assert(objs.last() == response_json(m, quoted(m.body)));
    assert(join_objects(objs.drop_last(), false) =~= Seq::<u8>::empty());
    assert(join_objects(objs, false) =~= objs.last() + "\n".spec_bytes());
}

} // verus!

verus! {

/// With raw mode on, a response that is read has its body written as a JSON
/// string: the content is the quoted text of the body, whatever its content
/// type says.
pub proof fn raw_response_content_is_string(st: ReaderState)
    requires
        st.wf(),
        response_from(st, true) is Ok,
    ensures
        !response_from(st, true)->Ok_0.0.json,
        content_ok(response_from(st, true)->Ok_0.0),
        forall|c: Seq<u8>|
            #[trigger] content_of(response_from(st, true)->Ok_0.0, c) <==> c == quoted(
                response_from(st, true)->Ok_0.0.body,
            ),
{
}

/// A capture that holds one response gives one object and a newline, and no
/// error, where its body can be written; where it cannot (a JSON body that
/// is no JSON, or nests too deep), it gives nothing and an invalid body.
pub proof fn single_response_conversion(
    st: ReaderState,
    raw: bool,
    objs: Seq<Seq<u8>>,
    output: Seq<u8>,
    error: Option<ParseFault>,
)
    requires
        st.wf(),
        response_from(st, raw) matches Ok((_, s)) && s.at_eof(),
        conversion_of(objs, run(st, raw).0, run(st, raw).1, false, output, error),
    ensures
        content_ok(run(st, raw).0[0]) ==> objs.len() == 1 && is_object_of(
            objs[0],
            run(st, raw).0[0],
        ) && output == objs[0] + "\n".spec_bytes() && error is None,
        !content_ok(run(st, raw).0[0]) ==> objs.len() == 0 && output.len() == 0 && error == Some(
            ParseFault::JsonBody,
        ),
{
    let ms = run(st, raw).0;
    assert(ms.len() == 1);
    if objs.len() == 1 {
        assert(object_at(objs, ms, 0));
        assert(objs.drop_last() =~= Seq::<Seq<u8>>::empty());
        assert(join_objects(objs.drop_last(), false) =~= Seq::<u8>::empty());
        assert(join_objects(objs, false) =~= objs[0] + "\n".spec_bytes());
    } else {
        assert(objs =~= Seq::<Seq<u8>>::empty());
    }
}

} // verus!
