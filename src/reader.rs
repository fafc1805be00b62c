//! A line reader over captured bytes that can push lines back.
use vstd::prelude::*;

use crate::bytes::{copy_range, line_end, lemma_line_end_bounds, NEWLINE};

verus! {

/// What a reader holds: the captured bytes, how far they have been read,
/// and the lines pushed back, the most recent last.
pub struct ReaderState {
    pub data: Seq<u8>,
    pub pos: int,
    pub stack: Seq<Seq<u8>>,
}

/// The bytes of pushed-back lines in the order they are handed out again:
/// the most recently pushed line first.
pub open spec fn flatten_rev(s: Seq<Seq<u8>>) -> Seq<u8>
    decreases s.len(),
{
    if s.len() == 0 {
        Seq::empty()
    } else {
        s.last() + flatten_rev(s.drop_last())
    }
}

/// Total number of bytes held in pushed-back lines.
pub open spec fn stack_bytes(s: Seq<Seq<u8>>) -> nat
    decreases s.len(),
{
    if s.len() == 0 {
        0
    } else {
        s.last().len() + stack_bytes(s.drop_last())
    }
}

/// Why a byte read could not be served.
#[derive(Clone, Copy, Debug, PartialEq, Eq)]
pub enum ReadError {
    /// The bytes asked for run past the end of the capture.
    UnexpectedEof,
    /// Fewer bytes were asked for than pushed-back lines already hold.
    LengthBelowBuffered,
}

impl ReaderState {
    pub open spec fn wf(self) -> bool {
        0 <= self.pos <= self.data.len()
    }

    /// Bytes of the capture not yet read, pushed-back lines aside.
    pub open spec fn rest(self) -> Seq<u8> {
        self.data.subrange(self.pos, self.data.len() as int)
    }

    /// Bytes that reads will still see: the pushed-back lines, then the rest.
    pub open spec fn unread_bytes(self) -> Seq<u8> {
        flatten_rev(self.stack) + self.rest()
    }

    /// A measure that no read increases.
    pub open spec fn size(self) -> nat {
        stack_bytes(self.stack) + (self.data.len() - self.pos) as nat
    }

    /// The next line and the state after reading it: the top of the stack if
    /// there is one, else the capture up to and including the next newline.
    pub open spec fn read_line(self) -> (Seq<u8>, ReaderState) {
        if self.stack.len() > 0 {
            (self.stack.last(), ReaderState { stack: self.stack.drop_last(), ..self })
        } else {
            let e = line_end(self.data, self.pos);
            (self.data.subrange(self.pos, e), ReaderState { pos: e, ..self })
        }
    }

    pub open spec fn unread_line(self, line: Seq<u8>) -> ReaderState {
        ReaderState { stack: self.stack.push(line), ..self }
    }

    /// `n` bytes: the pushed-back lines first, then the capture.
    pub open spec fn read(self, n: int) -> Result<(Seq<u8>, ReaderState), ReadError> {
        let p = flatten_rev(self.stack);
        if n < p.len() {
            Err(ReadError::LengthBelowBuffered)
        } else if n - p.len() > self.data.len() - self.pos {
            Err(ReadError::UnexpectedEof)
        } else {
            let e = self.pos + n - p.len();
            Ok(
                (
                    p + self.data.subrange(self.pos, e),
                    ReaderState { pos: e, stack: Seq::empty(), ..self },
                ),
            )
        }
    }

    /// Every byte left, and the state with nothing left.
    pub open spec fn read_to_end(self) -> (Seq<u8>, ReaderState) {
        (
            self.unread_bytes(),
            ReaderState { pos: self.data.len() as int, stack: Seq::empty(), ..self },
        )
    }

    /// Whether the next line is empty, which happens only at the end.
    pub open spec fn at_eof(self) -> bool {
        self.read_line().0.len() == 0
    }
}

pub proof fn lemma_read_line_wf(st: ReaderState)
    requires
        st.wf(),
    ensures
        st.read_line().1.wf(),
        st.read_line().1.size() + st.read_line().0.len() == st.size(),
{
    if st.stack.len() == 0 {
        lemma_line_end_bounds(st.data, st.pos);
    }
}

/// Reads lines out of a captured byte stream, with lines that can be pushed
/// back and handed out again.
pub struct LineBufferedStdin {
    data: Vec<u8>,
    pos: usize,
    buffer_stack: Vec<Vec<u8>>,
}

impl View for LineBufferedStdin {
    type V = ReaderState;

    closed spec fn view(&self) -> ReaderState {
        ReaderState {
            data: self.data@,
            pos: self.pos as int,
            stack: self.buffer_stack@.map_values(|l: Vec<u8>| l@),
        }
    }
}

impl LineBufferedStdin {
    /// A reader at the start of `data`, with nothing pushed back.
    pub fn new(data: Vec<u8>) -> (r: Self)
        ensures
            r@ == (ReaderState { data: data@, pos: 0, stack: Seq::empty() }),
    {
        let r = LineBufferedStdin { data, pos: 0, buffer_stack: Vec::new() };
        assert(r@.stack =~= Seq::<Seq<u8>>::empty());
        r
    }

    /// The next line, with its newline if it has one; empty at the end.
    pub fn read_line(&mut self) -> (line: Vec<u8>)
        requires
            old(self)@.wf(),
        ensures
            (line@, final(self)@) == old(self)@.read_line(),
            final(self)@.wf(),
    {
        if let Some(line) = self.buffer_stack.pop() {
            assert(final(self)@.stack =~= old(self)@.stack.drop_last());
            return line;
        }
        let start = self.pos;
        let mut i: usize = start;
        while i < self.data.len() && self.data[i] != NEWLINE
            invariant
                start <= i <= self.data@.len(),
                self.pos == start,
                self@ == old(self)@,
                line_end(self.data@, start as int) == line_end(self.data@, i as int),
            decreases self.data@.len() - i,
        {
            i = i + 1;
        }
        let e = if i < self.data.len() {
            i + 1
        } else {
            i
        };
        let line = copy_range(self.data.as_slice(), start, e);
        self.pos = e;
        line
    }

    /// Pushes `line` back: the next `read_line` returns it.
    pub fn unread_line(&mut self, line: Vec<u8>)
        ensures
            final(self)@ == old(self)@.unread_line(line@),
    {
        self.buffer_stack.push(line);
        assert(final(self)@.stack =~= old(self)@.stack.push(line@));
    }

    /// Empties the pushed-back lines and returns their bytes, most recently
    /// pushed first.
    pub fn consume_buffer_stack(&mut self) -> (buf: Vec<u8>)
        ensures
            buf@ == flatten_rev(old(self)@.stack),
            final(self)@ == (ReaderState { stack: Seq::empty(), ..old(self)@ }),
    {
        let mut buf: Vec<u8> = Vec::new();
        while self.buffer_stack.len() > 0
            invariant
                self.data@ == old(self)@.data,
                self.pos == old(self)@.pos,
                buf@ + flatten_rev(self@.stack) == flatten_rev(old(self)@.stack),
            decreases self.buffer_stack@.len(),
        {
            let ghost before = self@.stack;
            let mut line = self.buffer_stack.pop().unwrap();
            assert(self@.stack =~= before.drop_last());
            assert(buf@ + flatten_rev(before) =~= (buf@ + line@) + flatten_rev(self@.stack));
            buf.append(&mut line);
        }
        assert(self@.stack =~= Seq::<Seq<u8>>::empty());
        assert(buf@ + flatten_rev(self@.stack) =~= buf@);
        buf
    }

    /// Exactly `size` bytes: the pushed-back lines first, then the capture.
    pub fn read(&mut self, size: usize) -> (r: Result<Vec<u8>, ReadError>)
        requires
            old(self)@.wf(),
        ensures
            final(self)@.wf(),
            match old(self)@.read(size as int) {
                Ok((bytes, st)) => r is Ok && r->Ok_0@ == bytes && final(self)@ == st,
                Err(e) => r == Err::<Vec<u8>, ReadError>(e) && final(self)@ == (ReaderState {
                    stack: Seq::empty(),
                    ..old(self)@
                }),
            },
    {
        let mut buf1 = self.consume_buffer_stack();
        if size < buf1.len() {
            return Err(ReadError::LengthBelowBuffered);
        }
        let want = size - buf1.len();
        if want > self.data.len() - self.pos {
            return Err(ReadError::UnexpectedEof);
        }
        let e = self.pos + want;
        let mut buf2 = copy_range(self.data.as_slice(), self.pos, e);
        buf1.append(&mut buf2);
        self.pos = e;
        Ok(buf1)
    }

    /// Every byte left: the pushed-back lines first, then the capture.
    pub fn read_to_end(&mut self) -> (buf: Vec<u8>)
        requires
            old(self)@.wf(),
        ensures
            (buf@, final(self)@) == old(self)@.read_to_end(),
            final(self)@.wf(),
    {
        let mut buf1 = self.consume_buffer_stack();
        let mut buf2 = copy_range(self.data.as_slice(), self.pos, self.data.len());
        buf1.append(&mut buf2);
        self.pos = self.data.len();
        buf1
    }

    /// Whether nothing is left to read. Looks one line ahead and pushes a
    /// line that is not empty back.
    pub fn is_eof(&mut self) -> (r: bool)
        requires
            old(self)@.wf(),
        ensures
            r == old(self)@.at_eof(),
            final(self)@.wf(),
            r ==> final(self)@ == old(self)@.read_line().1,
            !r ==> final(self)@ == old(self)@.read_line().1.unread_line(
                old(self)@.read_line().0,
            ),
    {
        let line = self.read_line();
        if line.len() == 0 {
            true
        } else {
            self.unread_line(line);
            false
        }
    }
}

} // verus!

verus! {

/// A read of a given length hands out exactly that many bytes and leaves every
/// byte after them, in order, to later reads.
pub proof fn bounded_read_stops_at_length(st: ReaderState, n: int)
    requires
        st.wf(),
        st.read(n) is Ok,
    ensures
        st.read(n)->Ok_0.0.len() == n,
        st.read(n)->Ok_0.0 + st.read(n)->Ok_0.1.unread_bytes() == st.unread_bytes(),
{
    let (b, s) = st.read(n)->Ok_0;
    assert(flatten_rev(s.stack) =~= Seq::<u8>::empty());
    assert(b + s.unread_bytes() =~= st.unread_bytes());
}

} // verus!
