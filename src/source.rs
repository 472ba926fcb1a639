//! Sources of bytes that fill a reader's window on demand.
use vstd::prelude::*;

verus! {

/// `std::io::Error`, the error that a source's fill reports; it is carried
/// through as it is, and nothing about its contents is relied on.
#[verifier::external_type_specification]
#[verifier::external_body]
pub struct ExIoError(std::io::Error);

/// A stream of bytes that can be asked to fill a window.
///
/// Its model is the sequence of bytes it has yet to deliver. A fill copies
/// the front of that sequence into the front of the window and removes it
/// from the stream; it returns zero exactly when the stream is exhausted (or
/// the window has no room). A failed fill may leave the stream in any state,
/// and is remembered as the source's last error. A source that is
/// `infallible` never fails.
///
/// A source verified in this crate gives its own model. The default bodies
/// of the spec functions exist only so that code outside the verifier (for
/// instance an adapter over `std::io::Read`) can implement the trait; such an
/// implementation is not held to the contract of `fill`, and what this crate
/// proves about its sources does not carry over to it.
pub trait ChunkSource {
    /// The bytes that this source has yet to deliver.
    closed spec fn rest(&self) -> Seq<u8> {
        Seq::empty()
    }

    /// Whether every fill of this source succeeds.
    closed spec fn infallible(&self) -> bool {
        false
    }

    /// The error of the last fill, if that fill failed.
    closed spec fn last_error(&self) -> Option<std::io::Error> {
        None
    }

    /// Writes the next bytes of the stream to the front of `window` and
    /// returns how many were written.
    fn fill(&mut self, window: &mut Vec<u8>) -> (r: Result<usize, std::io::Error>)
        ensures
            final(window)@.len() == old(window)@.len(),
            final(self).infallible() == old(self).infallible(),
            old(self).infallible() ==> r is Ok,
            match r {
                Ok(n) => {
                    &&& final(self).last_error() is None
                    &&& n <= old(window)@.len()
                    &&& n <= old(self).rest().len()
                    &&& final(window)@.take(n as int) == old(self).rest().take(n as int)
                    &&& final(self).rest() == old(self).rest().skip(n as int)
                    &&& (n == 0 <==> (old(window)@.len() == 0 || old(self).rest().len() == 0))
                },
                Err(e) => final(self).last_error() == Some(e),
            },
    ;
}

/// A source over bytes held in memory; it never fails.
pub struct SliceSource {
    data: Vec<u8>,
    pos: usize,
}

impl SliceSource {
    /// Creates a source that delivers a copy of `data`.
    pub fn new(data: &[u8]) -> (r: SliceSource)
        ensures
            r.rest() == data@,
            r.infallible(),
    {
        let r = SliceSource { data: vstd::slice::slice_to_vec(data), pos: 0 };
        assert(r.data@.skip(0) =~= r.data@);
        r
    }
}

impl ChunkSource for SliceSource {
    closed spec fn rest(&self) -> Seq<u8> {
        if self.pos <= self.data@.len() {
            self.data@.skip(self.pos as int)
        } else {
            Seq::empty()
        }
    }

    open spec fn infallible(&self) -> bool {
        true
    }

    open spec fn last_error(&self) -> Option<std::io::Error> {
        None
    }

    fn fill(&mut self, window: &mut Vec<u8>) -> (r: Result<usize, std::io::Error>) {
        if self.pos > self.data.len() {
            return Ok(0);
        }
        let avail: usize = self.data.len() - self.pos;
        let n: usize = if avail < window.len() {
            avail
        } else {
            window.len()
        };
        let mut i: usize = 0;
        while i < n
            invariant
                i <= n,
                n <= avail,
                n <= old(window)@.len(),
                self.pos + avail == self.data@.len(),
                self.data@.len() <= usize::MAX,
                self.pos <= self.data@.len(),
                window@.len() == old(window)@.len(),
                forall|j: int| 0 <= j < i ==> window@[j] == self.data@[self.pos + j],
            decreases n - i,
        {
            window.set(i, self.data[self.pos + i]);
            i += 1;
        }
        let ghost old_rest = self.rest();
        self.pos = self.pos + n;
        assert(window@.take(n as int) =~= old_rest.take(n as int));
        assert(self.rest() =~= old_rest.skip(n as int));
        Ok(n)
    }
}

} // verus!
