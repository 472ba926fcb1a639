//! A pull-style line reader: each call hands out the next line as a slice
//! into a buffer that the reader owns and overwrites on the following call.
use vstd::prelude::*;
use crate::bytes;
use crate::model::{
    after_first_line, first_line, lemma_first_line_extend, lemma_first_line_no_lf,
    lemma_first_line_shape, lemma_line_count_step, lemma_line_len_at, lemma_split_lines_flatten,
    flatten, line_count, no_lf, split_lines, LF,
};
use crate::source::ChunkSource;

verus! {

/// Capacity of the window of a reader made by `LineReader::new`.
pub const DEFAULT_BUF_SIZE: usize = 65536;

/// Reads lines from a `ChunkSource` through a fixed-capacity window.
///
/// A line that lies within one fill of the window is handed out as a slice
/// of the window; a line that spans fills is assembled in the spill buffer
/// `block`. Either slice is valid until the next call of `read_line`.
pub struct LineReader<S> {
    block: Vec<u8>,
    inner: S,
    buf: Vec<u8>,
    pos: usize,
    cap: usize,
}

impl<S: ChunkSource> LineReader<S> {
    /// The cursors lie within the window, and the window can hold a byte.
    pub closed spec fn wf(&self) -> bool {
        &&& self.pos <= self.cap <= self.buf@.len()
        &&& self.buf@.len() > 0
    }

    /// The bytes that the reader has yet to hand out: what remains of the
    /// window, then what remains of the source.
    pub closed spec fn pending(&self) -> Seq<u8> {
        self.buf@.subrange(self.pos as int, self.cap as int) + self.inner.rest()
    }

    /// The bytes read from the source and not yet handed out.
    pub closed spec fn buffered(&self) -> Seq<u8> {
        self.buf@.subrange(self.pos as int, self.cap as int)
    }

    /// The source that the reader draws from.
    pub closed spec fn source(&self) -> S {
        self.inner
    }

    /// The capacity of the window.
    pub closed spec fn capacity(&self) -> nat {
        self.buf@.len()
    }

    /// Constructs a reader whose window holds `cap` bytes.
    pub fn with_capacity(cap: usize, inner: S) -> (r: LineReader<S>)
        requires
            cap > 0,
        ensures
            r.wf(),
            r.capacity() == cap,
            r.source() == inner,
            r.buffered().len() == 0,
            r.pending() == inner.rest(),
    {
        let r = LineReader { block: Vec::new(), inner, buf: vec![0u8; cap], pos: 0, cap: 0 };
        assert(r.pending() =~= inner.rest());
        r
    }

    /// Constructs a reader with a window of the default capacity.
    pub fn new(inner: S) -> (r: LineReader<S>)
        ensures
            r.wf(),
            r.capacity() == DEFAULT_BUF_SIZE,
            r.source() == inner,
            r.buffered().len() == 0,
            r.pending() == inner.rest(),
    {
        LineReader::with_capacity(DEFAULT_BUF_SIZE, inner)
    }

    /// Refills the window once it is drained; returns how many bytes remain
    /// in it, which is zero exactly when nothing is pending.
    fn fill_buf(&mut self) -> (r: Result<usize, std::io::Error>)
        requires
            old(self).wf(),
        ensures
            final(self).wf(),
            final(self).buf@.len() == old(self).buf@.len(),
            final(self).block == old(self).block,
            final(self).inner.infallible() == old(self).inner.infallible(),
            old(self).inner.infallible() ==> r is Ok,
            old(self).pos < old(self).cap ==> r is Ok && *final(self) == *old(self),
            match r {
                Ok(n) => {
                    &&& final(self).pending() == old(self).pending()
                    &&& n == final(self).cap - final(self).pos
                    &&& (n == 0 <==> old(self).pending().len() == 0)
                    &&& old(self).pos == old(self).cap ==> final(self).pos == 0 && final(self).cap == n
                },
                Err(e) => {
                    &&& final(self).pos == old(self).pos
                    &&& final(self).cap == old(self).cap
                    &&& final(self).pos == final(self).cap
                    &&& final(self).inner.last_error() == Some(e)
                },
            },
    {
        if self.pos == self.cap {
            let ghost rest = self.inner.rest();
            let n = match self.inner.fill(&mut self.buf) {
                Ok(n) => n,
                Err(e) => {
                    return Err(e);
                },
            };
            self.cap = n;
            self.pos = 0;
            assert(self.pending() =~= old(self).pending()) by {
                assert(old(self).pending() =~= rest);
                assert(rest =~= rest.take(n as int) + rest.skip(n as int));
                assert(self.buf@.subrange(0, n as int) =~= self.buf@.take(n as int));
            }
        }
        Ok(self.cap - self.pos)
    }

    /// Reads up to and including the next `byte`, or to the end of the
    /// stream; the result is empty only at the end of the stream.
    fn read_until(&mut self, byte: u8) -> (r: Result<&[u8], std::io::Error>)
        requires
            old(self).wf(),
            byte == LF,
        ensures
            final(self).wf(),
            final(self).capacity() == old(self).capacity(),
            final(self).source().infallible() == old(self).source().infallible(),
            old(self).source().infallible() ==> r is Ok,
            !no_lf(old(self).buffered()) ==> r is Ok,
            match r {
                Ok(line) => {
                    &&& line@ == first_line(old(self).pending())
                    &&& final(self).pending() == after_first_line(old(self).pending())
                },
                Err(e) => {
                    &&& no_lf(old(self).buffered())
                    &&& final(self).buffered().len() == 0
                    &&& final(self).source().last_error() == Some(e)
                },
            },
    {
        let ghost p0 = self.pending();
        self.block.clear();
        assert(self.block@ + self.pending() =~= p0);
        loop
            invariant
                self.wf(),
                no_lf(self.block@),
                self.block@ + self.pending() == p0,
                p0 == old(self).pending(),
                byte == LF,
                self.buf@.len() == old(self).buf@.len(),
                self.inner.infallible() == old(self).inner.infallible(),
                !no_lf(old(self).buffered()) ==> self.buffered() == old(self).buffered(),
                no_lf(old(self).buffered()) || self.pos < self.cap,
            decreases self.pending().len(),
        {
            let avail = match self.fill_buf() {
                Ok(n) => n,
                Err(e) => {
                    return Err(e);
                },
            };
            if avail == 0 {
                proof {
                    assert(self.pending() =~= Seq::<u8>::empty());
                    assert(self.block@ =~= p0);
                    lemma_first_line_no_lf(p0);
                }
                let line = self.block.as_slice();
                return Ok(line);
            }
            let ghost pend = self.pending();
            let w = vstd::slice::slice_subrange(self.buf.as_slice(), self.pos, self.cap);
            assert(w@ == self.buffered());
            match bytes::index(w, byte) {
                Some(i) => {
                    let k = i + 1;
                    proof {
                        assert(pend[i as int] == w@[i as int]);
                        assert(no_lf(pend.take(i as int))) by {
                            assert forall|j: int| 0 <= j < i implies pend.take(i as int)[j] != LF by {
                                assert(pend.take(i as int)[j] == w@[j]);
                            }
                        }
                        lemma_line_len_at(pend, i as int);
                        lemma_first_line_extend(self.block@, pend);
                    }
                    let start = self.pos;
                    self.pos = self.pos + k;
                    if self.block.len() == 0 {
                        proof {
                            assert(self.block@ + pend =~= pend);
                            assert(first_line(p0) =~= self.buf@.subrange(start as int, start + k));
                            assert(after_first_line(p0) =~= self.pending());
                        }
                        return Ok(vstd::slice::slice_subrange(self.buf.as_slice(), start, start + k));
                    } else {
                        let part = vstd::slice::slice_subrange(self.buf.as_slice(), start, start + k);
                        self.block.extend_from_slice(part);
                        proof {
                            assert(first_line(p0) =~= self.block@);
                            assert(after_first_line(p0) =~= self.pending());
                        }
                        return Ok(self.block.as_slice());
                    }
                },
                None => {
                    assert(no_lf(old(self).buffered()));
                    let ghost b0 = self.block@;
                    self.block.extend_from_slice(w);
                    self.pos = self.cap;
                    proof {
                        assert(self.block@ =~= b0 + w@);
                        assert(self.block@ + self.pending() =~= p0);
                        assert forall|j: int| 0 <= j < self.block@.len() implies self.block@[j] != LF by {
                            if j >= b0.len() {
                                assert(self.block@[j] == w@[j - b0.len()]);
                            } else {
                                assert(self.block@[j] == b0[j]);
                            }
                        }
                    }
                },
            }
        }
    }

    /// Reads the next line, line-feed included. Returns the empty slice at
    /// the end of the stream, and again on each later call.
    ///
    /// The source is asked for bytes only once the window is drained, so a
    /// line already in the window is returned without a fill. An error is the
    /// one the source's last fill reported; the part of the line read before
    /// it is dropped.
    pub fn read_line(&mut self) -> (r: Result<&[u8], std::io::Error>)
        requires
            old(self).wf(),
        ensures
            final(self).wf(),
            final(self).capacity() == old(self).capacity(),
            final(self).source().infallible() == old(self).source().infallible(),
            old(self).source().infallible() ==> r is Ok,
            !no_lf(old(self).buffered()) ==> r is Ok,
            match r {
                Ok(line) => {
                    &&& line@ == first_line(old(self).pending())
                    &&& final(self).pending() == after_first_line(old(self).pending())
                },
                Err(e) => {
                    &&& no_lf(old(self).buffered())
                    &&& final(self).buffered().len() == 0
                    &&& final(self).source().last_error() == Some(e)
                },
            },
    {
        self.read_until(LF)
    }
}

/// Successive calls of `read_line` on pending bytes `p` yield the lines of
/// `p` in order: a call yields the first of them and leaves the others
/// pending, until nothing is. Concatenated, the lines give back `p`.
pub proof fn lemma_read_line_yields_lines(p: Seq<u8>)
    ensures
        p.len() > 0 ==> split_lines(p) == seq![first_line(p)] + split_lines(after_first_line(p)),
        p.len() > 0 ==> after_first_line(p).len() < p.len(),
        p.len() == 0 ==> split_lines(p).len() == 0,
        flatten(split_lines(p)) == p,
{
    if p.len() > 0 {
        lemma_line_count_step(p);
    }
    lemma_split_lines_flatten(p);
}

/// Once nothing is pending, `read_line` yields the empty slice and leaves
/// nothing pending, so every later call yields it again.
pub proof fn lemma_read_line_after_end(p: Seq<u8>)
    requires
        p.len() == 0,
    ensures
        first_line(p).len() == 0,
        after_first_line(p).len() == 0,
{
    lemma_first_line_no_lf(p);
}

/// Counts the lines read through `r`: one per line-feed, plus one for an
/// unterminated final fragment.
pub fn count_lines<S: ChunkSource>(r: LineReader<S>) -> (res: Result<usize, std::io::Error>)
    requires
        r.wf(),
        line_count(r.pending()) <= usize::MAX,
    ensures
        r.source().infallible() ==> res is Ok,
        match res {
            Ok(n) => n == line_count(r.pending()),
            Err(_) => true,
        },
{
    let ghost p0 = r.pending();
    let mut reader = r;
    let mut lines: usize = 0;
    loop
        invariant
            reader.wf(),
            lines + line_count(reader.pending()) == line_count(p0),
            line_count(p0) <= usize::MAX,
            p0 == r.pending(),
            reader.source().infallible() == r.source().infallible(),
        decreases reader.pending().len(),
    {
        let ghost pend = reader.pending();
        let line = match reader.read_line() {
            Ok(line) => line,
            Err(e) => {
                return Err(e);
            },
        };
        if line.len() == 0 {
            proof {
                lemma_first_line_shape(pend);
                assert(pend.len() == 0);
                assert(line_count(pend) == 0);
            }
            return Ok(lines);
        }
        proof {
            lemma_line_count_step(pend);
        }
        lines = lines + 1;
    }
}

} // verus!
