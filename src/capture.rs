//! Captures written out plainly, one response after another, and how many
//! objects a run makes of them.
use vstd::prelude::*;

use crate::bytes::{line_end, NEWLINE};
use crate::grammar::{header_line, is_header_end, is_noise, status_line};
use crate::reader::{flatten_rev, ReaderState};
use crate::response::{
    add_field, body_read, header_block, no_headers, response_from, skip_noise, HeaderBlock,
};
use crate::run::{probe, run, start_state};

verus! {

/// A line: not empty, with a newline at its end and nowhere else.
pub open spec fn is_line(l: Seq<u8>) -> bool {
    &&& l.len() > 0
    &&& l.last() == NEWLINE
    &&& forall|i: int| 0 <= i < l.len() - 1 ==> l[i] != NEWLINE
}

/// Lines one after another.
pub open spec fn flatten(ls: Seq<Seq<u8>>) -> Seq<u8>
    decreases ls.len(),
{
    if ls.len() == 0 {
        Seq::empty()
    } else {
        ls[0] + flatten(ls.drop_first())
    }
}

/// The header block that header lines make, in order, on top of `h`.
pub open spec fn fields_from(h: HeaderBlock, hs: Seq<Seq<u8>>) -> HeaderBlock
    decreases hs.len(),
{
    if hs.len() == 0 {
        h
    } else {
        let (n, v) = header_line(hs[0])->Some_0;
        fields_from(add_field(h, n, v), hs.drop_first())
    }
}

/// A response as a capture holds it: status line, header lines, the line
/// that ends the header block, and the body.
pub struct ResponseText {
    pub status: Seq<u8>,
    pub headers: Seq<Seq<u8>>,
    pub blank: Seq<u8>,
    pub body: Seq<u8>,
}

impl ResponseText {
    pub open spec fn bytes(self) -> Seq<u8> {
        self.status + flatten(self.headers) + self.blank + self.body
    }

    /// The line after the status line.
    pub open spec fn second_line(self) -> Seq<u8> {
        if self.headers.len() > 0 {
            self.headers[0]
        } else {
            self.blank
        }
    }

    /// The first line of the body.
    pub open spec fn body_line(self) -> Seq<u8> {
        self.body.subrange(0, line_end(self.body, 0))
    }

    /// Written plainly: every line is a line of its kind and none looks like
    /// noise where noise is skipped, the fields declare the body's length,
    /// and the body ends with a newline.
    #[verifier::opaque]
    pub open spec fn plain(self) -> bool {
        &&& is_line(self.status)
        &&& status_line(self.status) is Some
        &&& !is_noise(self.status)
        &&& forall|i: int|
            0 <= i < self.headers.len() ==> {
                &&& is_line(#[trigger] self.headers[i])
                &&& header_line(self.headers[i]) is Some
                &&& !is_header_end(self.headers[i])
            }
        &&& is_line(self.blank)
        &&& is_header_end(self.blank)
        &&& !is_noise(self.second_line())
        &&& fields_from(no_headers(), self.headers).content_length == Some(self.body.len())
        &&& self.body.len() > 0
        &&& self.body.last() == NEWLINE
        &&& !is_noise(self.body_line())
    }
}

/// Responses one after another.
pub open spec fn capture(ts: Seq<ResponseText>) -> Seq<u8>
    decreases ts.len(),
{
    if ts.len() == 0 {
        Seq::empty()
    } else {
        ts[0].bytes() + capture(ts.drop_first())
    }
}

proof fn lemma_line_end_at(d: Seq<u8>, p: int, l: Seq<u8>, j: int)
    requires
        is_line(l),
        0 <= p,
        p + l.len() <= d.len(),
        d.subrange(p, p + l.len()) == l,
        p <= j < p + l.len(),
    ensures
        line_end(d, j) == p + l.len(),
    decreases p + l.len() - j,
{
    assert(d[j] == l[j - p]);
    if j < p + l.len() - 1 {
        lemma_line_end_at(d, p, l, j + 1);
    }
}

/// Reading at `p` where a line `l` stands gives `l`.
proof fn lemma_read_at(d: Seq<u8>, p: int, l: Seq<u8>)
    requires
        is_line(l),
        0 <= p,
        p + l.len() <= d.len(),
        d.subrange(p, p + l.len()) == l,
    ensures
        (ReaderState { data: d, pos: p, stack: Seq::empty() }).read_line() == (
            l,
            ReaderState { data: d, pos: p + l.len(), stack: Seq::empty() },
        ),
{
    lemma_line_end_at(d, p, l, p);
}

/// Reading at `p` then skipping noise, where a line `l` that is no noise
/// stands, leaves `l` pushed back.
proof fn lemma_skip_at(d: Seq<u8>, p: int, l: Seq<u8>)
    requires
        is_line(l),
        !is_noise(l),
        0 <= p,
        p + l.len() <= d.len(),
        d.subrange(p, p + l.len()) == l,
    ensures
        skip_noise(ReaderState { data: d, pos: p, stack: Seq::empty() }) == (ReaderState {
            data: d,
            pos: p + l.len(),
            stack: seq![l],
        }),
{
    lemma_read_at(d, p, l);
    assert(Seq::<Seq<u8>>::empty().push(l) =~= seq![l]);
}

/// Skipping noise where a line that is no noise is pushed back changes
/// nothing.
proof fn lemma_skip_pushed(st: ReaderState)
    requires
        st.wf(),
        st.stack.len() == 1,
        !is_noise(st.stack[0]),
    ensures
        skip_noise(st) == st,
{
    assert(st.stack.drop_last().push(st.stack[0]) =~= st.stack);
}

} // verus!

verus! {

proof fn lemma_sub(d: Seq<u8>, p: int, q: int, x: Seq<u8>, a: int, b: int)
    requires
        0 <= p <= q <= d.len(),
        d.subrange(p, q) == x,
        0 <= a <= b <= x.len(),
    ensures
        d.subrange(p + a, p + b) == x.subrange(a, b),
{
    assert(d.subrange(p + a, p + b) =~= x.subrange(a, b));
}

proof fn lemma_line_end_shape(b: Seq<u8>, i: int)
    requires
        0 <= i < b.len(),
        b.last() == NEWLINE,
    ensures
        i < line_end(b, i) <= b.len(),
        b[line_end(b, i) - 1] == NEWLINE,
        forall|j: int| i <= j < line_end(b, i) - 1 ==> b[j] != NEWLINE,
    decreases b.len() - i,
{
    if b[i] != NEWLINE {
        lemma_line_end_shape(b, i + 1);
    }
}

proof fn lemma_body_line(t: ResponseText)
    requires
        t.body.len() > 0,
        t.body.last() == NEWLINE,
    ensures
        is_line(t.body_line()),
        t.body_line().len() <= t.body.len(),
        t.body_line() == t.body.subrange(0, t.body_line().len() as int),
{
    lemma_line_end_shape(t.body, 0);
}

proof fn lemma_headers_at(d: Seq<u8>, p: int, hs: Seq<Seq<u8>>, blank: Seq<u8>, h: HeaderBlock)
    requires
        0 <= p,
        p + flatten(hs).len() + blank.len() <= d.len(),
        d.subrange(p, p + flatten(hs).len() + blank.len()) == flatten(hs) + blank,
        forall|i: int|
            0 <= i < hs.len() ==> {
                &&& is_line(#[trigger] hs[i])
                &&& header_line(hs[i]) is Some
                &&& !is_header_end(hs[i])
            },
        is_line(blank),
        is_header_end(blank),
    ensures
        header_block(ReaderState { data: d, pos: p, stack: Seq::empty() }, h) == Ok::<
            (HeaderBlock, ReaderState),
            crate::response::ParseFault,
        >(
            (
                fields_from(h, hs),
                ReaderState {
                    data: d,
                    pos: p + flatten(hs).len() + blank.len(),
                    stack: Seq::empty(),
                },
            ),
        ),
    decreases hs.len(),
{
    let all = flatten(hs) + blank;
    if hs.len() == 0 {
        assert(flatten(hs) =~= Seq::<u8>::empty());
        assert(d.subrange(p, p + blank.len()) =~= blank);
        lemma_read_at(d, p, blank);
    } else {
        let l = hs[0];
        let rest = hs.drop_first();
        assert(flatten(hs) == l + flatten(rest));
        lemma_sub(d, p, p + all.len(), all, 0, l.len() as int);
        assert(all.subrange(0, l.len() as int) =~= l);
        lemma_read_at(d, p, l);
        let np = p + l.len();
        lemma_sub(d, p, p + all.len(), all, l.len() as int, all.len() as int);
        assert(all.subrange(l.len() as int, all.len() as int) =~= flatten(rest) + blank);
        let (n, v) = header_line(l)->Some_0;
        assert forall|i: int| 0 <= i < rest.len() implies {
            &&& is_line(#[trigger] rest[i])
            &&& header_line(rest[i]) is Some
            &&& !is_header_end(rest[i])
        } by {
            assert(rest[i] == hs[i + 1]);
        }
        lemma_headers_at(d, np, rest, blank, add_field(h, n, v));
    }
}

} // verus!

verus! {

/// The state with the status line of a response at `p` read and pushed back.
pub open spec fn pushed_at(d: Seq<u8>, p: int, l: Seq<u8>) -> ReaderState {
    ReaderState { data: d, pos: p + l.len(), stack: seq![l] }
}

/// Where the header block of `t` starts after its status line.
pub open spec fn headers_pos(p: int, t: ResponseText) -> int {
    p + t.status.len()
}

/// Where the body of `t` starts.
pub open spec fn body_pos(p: int, t: ResponseText) -> int {
    p + t.status.len() + flatten(t.headers).len() + t.blank.len()
}

pub open spec fn at(d: Seq<u8>, p: int) -> ReaderState {
    ReaderState { data: d, pos: p, stack: Seq::empty() }
}

#[verifier::rlimit(50)]
proof fn lemma_header_phase(d: Seq<u8>, p: int, t: ResponseText)
    requires
        t.plain(),
        0 <= p,
        p + t.bytes().len() <= d.len(),
        d.subrange(p, p + t.bytes().len()) == t.bytes(),
    ensures
        header_block(skip_noise(at(d, headers_pos(p, t))), no_headers()) == Ok::<
            (HeaderBlock, ReaderState),
            crate::response::ParseFault,
        >((fields_from(no_headers(), t.headers), at(d, body_pos(p, t)))),
{
    reveal(ResponseText::plain);
    let x = t.bytes();
    let q = p + x.len();
    let sl = t.status.len() as int;
    let fl = flatten(t.headers).len() as int;
    let bl = t.blank.len() as int;
    let hp = p + sl;
    let b0 = hp + fl + bl;
    lemma_sub(d, p, q, x, sl, sl + fl + bl);
    assert(x.subrange(sl, sl + fl + bl) =~= flatten(t.headers) + t.blank);
    let hx = t.second_line();
    if t.headers.len() > 0 {
        assert(flatten(t.headers) == t.headers[0] + flatten(t.headers.drop_first()));
    } else {
        assert(flatten(t.headers) =~= Seq::<u8>::empty());
    }
    lemma_sub(d, hp, hp + fl + bl, flatten(t.headers) + t.blank, 0, hx.len() as int);
    assert((flatten(t.headers) + t.blank).subrange(0, hx.len() as int) =~= hx);
    lemma_skip_at(d, hp, hx);
    let s3 = ReaderState { data: d, pos: hp + hx.len(), stack: seq![hx] };
    assert(s3.stack.drop_last() =~= Seq::<Seq<u8>>::empty());
    assert(s3.read_line().1 =~= at(d, hp + hx.len()));
    if t.headers.len() > 0 {
        let rest = t.headers.drop_first();
        let (n, v) = header_line(hx)->Some_0;
        lemma_sub(d, hp, hp + fl + bl, flatten(t.headers) + t.blank, hx.len() as int, fl + bl);
        assert((flatten(t.headers) + t.blank).subrange(hx.len() as int, fl + bl) =~= flatten(rest)
            + t.blank);
        assert forall|i: int| 0 <= i < rest.len() implies {
            &&& is_line(#[trigger] rest[i])
            &&& header_line(rest[i]) is Some
            &&& !is_header_end(rest[i])
        } by {
            assert(rest[i] == t.headers[i + 1]);
        }
        lemma_headers_at(d, hp + hx.len(), rest, t.blank, add_field(no_headers(), n, v));
    }
}

proof fn lemma_body_phase(d: Seq<u8>, p: int, t: ResponseText)
    requires
        t.plain(),
        0 <= p,
        p + t.bytes().len() <= d.len(),
        d.subrange(p, p + t.bytes().len()) == t.bytes(),
    ensures
        body_read(skip_noise(at(d, body_pos(p, t))), Some(t.body.len())) matches Ok((_, s)) && s
            == at(d, p + t.bytes().len()),
{
    reveal(ResponseText::plain);
    let x = t.bytes();
    let q = p + x.len();
    let b0 = body_pos(p, t);
    let k = b0 - p;
    let lb = t.body_line();
    lemma_body_line(t);
    lemma_sub(d, p, q, x, k, x.len() as int);
    assert(x.subrange(k, x.len() as int) =~= t.body);
    assert(b0 + t.body.len() == q);
    lemma_sub(d, b0, q, t.body, 0, lb.len() as int);
    lemma_skip_at(d, b0, lb);
    let s5 = ReaderState { data: d, pos: b0 + lb.len(), stack: seq![lb] };
    assert(s5.stack.drop_last() =~= Seq::<Seq<u8>>::empty());
    assert(flatten_rev(s5.stack.drop_last()) =~= Seq::<u8>::empty());
    assert(flatten_rev(s5.stack) =~= lb);
    assert(s5.read(t.body.len() as int)->Ok_0.1 =~= at(d, q));
}

proof fn lemma_tail_phase(d: Seq<u8>, q: int, next: Seq<u8>)
    requires
        0 <= q <= d.len(),
        q < d.len() ==> {
            &&& is_line(next)
            &&& !is_noise(next)
            &&& q + next.len() <= d.len()
            &&& d.subrange(q, q + next.len()) == next
        },
    ensures
        q == d.len() ==> skip_noise(at(d, q)).at_eof(),
        q < d.len() ==> skip_noise(at(d, q)) == pushed_at(d, q, next) && !pushed_at(
            d,
            q,
            next,
        ).at_eof(),
{
    if q == d.len() {
        assert(at(d, q).read_line().0 =~= Seq::<u8>::empty());
        assert(skip_noise(at(d, q)).stack.last() =~= Seq::<u8>::empty());
    } else {
        lemma_skip_at(d, q, next);
        assert(seq![next].drop_last() =~= Seq::<Seq<u8>>::empty());
    }
}

proof fn lemma_one_response(d: Seq<u8>, p: int, t: ResponseText, raw: bool, next: Seq<u8>)
    requires
        t.plain(),
        0 <= p,
        p + t.bytes().len() <= d.len(),
        d.subrange(p, p + t.bytes().len()) == t.bytes(),
        p + t.bytes().len() < d.len() ==> {
            &&& is_line(next)
            &&& !is_noise(next)
            &&& p + t.bytes().len() + next.len() <= d.len()
            &&& d.subrange(p + t.bytes().len(), p + t.bytes().len() + next.len()) == next
        },
    ensures
        response_from(pushed_at(d, p, t.status), raw) is Ok,
        response_from(pushed_at(d, p, t.status), raw) matches Ok((_, s)) && (p + t.bytes().len()
            == d.len() ==> s.at_eof()) && (p + t.bytes().len() < d.len() ==> s == pushed_at(
            d,
            p + t.bytes().len(),
            next,
        ) && !s.at_eof()),
{
    reveal(ResponseText::plain);
    let st = pushed_at(d, p, t.status);
    lemma_skip_pushed(st);
    assert(st.stack.drop_last() =~= Seq::<Seq<u8>>::empty());
    assert(st.read_line().1 =~= at(d, headers_pos(p, t)));
    lemma_header_phase(d, p, t);
    lemma_body_phase(d, p, t);
    lemma_tail_phase(d, p + t.bytes().len(), next);
}

} // verus!

verus! {

proof fn lemma_plain_status(t: ResponseText)
    requires
        t.plain(),
    ensures
        is_line(t.status),
        !is_noise(t.status),
{
    reveal(ResponseText::plain);
}

proof fn lemma_run_capture(d: Seq<u8>, p: int, ts: Seq<ResponseText>, raw: bool)
    requires
        ts.len() > 0,
        forall|i: int| 0 <= i < ts.len() ==> (#[trigger] ts[i]).plain(),
        0 <= p,
        p + capture(ts).len() == d.len(),
        d.subrange(p, d.len() as int) == capture(ts),
    ensures
        run(pushed_at(d, p, ts[0].status), raw).0.len() == ts.len(),
        run(pushed_at(d, p, ts[0].status), raw).1 is None,
    decreases ts.len(),
{
    let t = ts[0];
    let rest = ts.drop_first();
    let q = p + t.bytes().len();
    assert(capture(ts) == t.bytes() + capture(rest));
    lemma_sub(d, p, d.len() as int, capture(ts), 0, t.bytes().len() as int);
    assert(capture(ts).subrange(0, t.bytes().len() as int) =~= t.bytes());
    lemma_sub(d, p, d.len() as int, capture(ts), t.bytes().len() as int, capture(ts).len() as int);
    assert(capture(ts).subrange(t.bytes().len() as int, capture(ts).len() as int) =~= capture(
        rest,
    ));
    assert(ts[0].plain());
    if rest.len() == 0 {
        assert(capture(rest) =~= Seq::<u8>::empty());
        lemma_one_response(d, p, t, raw, Seq::empty());
    } else {
        let n = rest[0];
        assert(rest[0] == ts[1]);
        assert(ts[1].plain());
        assert(capture(rest) == n.bytes() + capture(rest.drop_first()));
        let nx = n.status;
        lemma_plain_status(n);
        lemma_sub(d, q, d.len() as int, capture(rest), 0, nx.len() as int);
        assert(capture(rest).subrange(0, nx.len() as int) =~= nx);
        lemma_one_response(d, p, t, raw, nx);
        let s = response_from(pushed_at(d, p, t.status), raw)->Ok_0.1;
        assert(s.stack.drop_last().push(s.stack.last()) =~= s.stack);
        assert(probe(s) == s);
        assert forall|i: int| 0 <= i < rest.len() implies (#[trigger] rest[i]).plain() by {
            assert(rest[i] == ts[i + 1]);
        }
        lemma_run_capture(d, q, rest, raw);
    }
}

/// Responses written plainly one after another are read as exactly that many
/// responses, and the run ends without a fault.
pub proof fn plain_responses_in_sequence(ts: Seq<ResponseText>, raw: bool)
    requires
        ts.len() > 0,
        forall|i: int| 0 <= i < ts.len() ==> (#[trigger] ts[i]).plain(),
    ensures
        run(start_state(capture(ts)), raw).0.len() == ts.len(),
        run(start_state(capture(ts)), raw).1 is None,
{
    let d = capture(ts);
    let t = ts[0];
    assert(t.plain());
    lemma_plain_status(t);
    assert(d == t.bytes() + capture(ts.drop_first()));
    assert(d.subrange(0, d.len() as int) =~= d);
    lemma_sub(d, 0, d.len() as int, d, 0, t.status.len() as int);
    assert(d.subrange(0, t.status.len() as int) =~= t.status);
    lemma_skip_at(d, 0, t.status);
    let a = start_state(d);
    let b = pushed_at(d, 0, t.status);
    lemma_skip_pushed(b);
    assert(skip_noise(a) == skip_noise(b));
    assert(response_from(a, raw) == response_from(b, raw));
    lemma_run_capture(d, 0, ts, raw);
    assert(run(a, raw) == run(b, raw));
}

} // verus!
