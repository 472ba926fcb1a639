//! Line-by-line iteration by handing each line of a source to a visitor.
use vstd::prelude::*;
use crate::linereader::{self, LineReader};
use crate::model::{
    after_first_line, first_line, flatten, lemma_first_line_shape, lemma_line_count_step,
    lemma_split_lines_flatten, line_count, split_lines,
};
use crate::source::ChunkSource;

verus! {

/// Receives the lines of a stream, one call per line.
///
/// A visitor verified in this crate gives its own model. The default bodies
/// of the spec functions exist only so that code outside the verifier can
/// implement the trait; such an implementation is not held to the contract
/// of `visit`, and what this crate proves about visitors does not carry over
/// to it.
pub trait LineVisitor {
    /// The lines visited so far, in order.
    closed spec fn seen(&self) -> Seq<Seq<u8>> {
        Seq::empty()
    }

    /// The answers given so far, one per visit, in order: `false` asked that
    /// no more lines come.
    closed spec fn answers(&self) -> Seq<bool> {
        Seq::empty()
    }

    /// Visits one line; returns whether more lines are wanted. The slice is
    /// valid only for the length of the call.
    fn visit(&mut self, line: &[u8]) -> (more: bool)
        ensures
            final(self).seen() == old(self).seen().push(line@),
            final(self).answers() == old(self).answers().push(more),
    ;
}

/// A visitor that keeps a copy of every line and never asks to stop.
pub struct LineCollector {
    lines: Vec<Vec<u8>>,
}

impl LineCollector {
    /// A collector that holds no line yet.
    pub fn new() -> (r: LineCollector)
        ensures
            r.seen() == Seq::<Seq<u8>>::empty(),
    {
        let r = LineCollector { lines: Vec::new() };
        assert(r.seen() =~= Seq::<Seq<u8>>::empty());
        r
    }

    /// The lines collected, in order.
    pub fn into_lines(self) -> (r: Vec<Vec<u8>>)
        ensures
            r@.len() == self.seen().len(),
            forall|i: int| 0 <= i < r@.len() ==> #[trigger] r@[i]@ == self.seen()[i],
    {
        self.lines
    }
}

impl LineVisitor for LineCollector {
    closed spec fn seen(&self) -> Seq<Seq<u8>> {
        self.lines@.map_values(|l: Vec<u8>| l@)
    }

    open spec fn answers(&self) -> Seq<bool> {
        Seq::new(self.seen().len(), |i: int| true)
    }

    fn visit(&mut self, line: &[u8]) -> (more: bool) {
        let copy = vstd::slice::slice_to_vec(line);
        self.lines.push(copy);
        assert(self.seen() =~= old(self).seen().push(line@));
        assert(self.answers() =~= old(self).answers().push(true));
        true
    }
}

/// Whether `after` extends `before` by the first `k` of `lines`.
pub open spec fn visited_prefix(
    before: Seq<Seq<u8>>,
    after: Seq<Seq<u8>>,
    lines: Seq<Seq<u8>>,
    k: int,
) -> bool {
    &&& 0 <= k <= lines.len()
    &&& after == before + lines.take(k)
}

/// Whether `after` extends `before` by `k` answers, of which all but the
/// last are `true`, and the last too unless `stopped`.
pub open spec fn answered(before: Seq<bool>, after: Seq<bool>, k: int, stopped: bool) -> bool {
    &&& after.len() == before.len() + k
    &&& after.take(before.len() as int) == before
    &&& forall|j: int| before.len() <= j < after.len() - 1 ==> after[j]
    &&& stopped <==> (k > 0 && !after.last())
}

/// Hands the lines of `r`, in order and terminators included, to `f` until
/// `f` answers `false`, the stream ends, or the source fails; no line is
/// visited after the first `false`. Lines already visited stay visited when
/// the source fails. A source that never fails gives `Ok`.
pub fn map_lines<S: ChunkSource, V: LineVisitor>(r: S, f: &mut V) -> (res: Result<(), std::io::Error>)
    ensures
        r.infallible() ==> res is Ok,
        exists|k: int, stopped: bool|
            {
                &&& #[trigger] visited_prefix(old(f).seen(), final(f).seen(), split_lines(r.rest()), k)
                &&& #[trigger] answered(old(f).answers(), final(f).answers(), k, stopped)
                &&& res is Ok ==> (k == split_lines(r.rest()).len() || stopped)
                &&& res is Err ==> !stopped
            },
{
    let ghost all = split_lines(r.rest());
    let ghost seen0 = f.seen();
    let ghost ans0 = f.answers();
    let ghost mut k: int = 0;
    let mut reader = LineReader::new(r);
    assert(all.skip(0) =~= all);
    assert(seen0 + all.take(0) =~= seen0);
    assert(ans0.take(ans0.len() as int) =~= ans0);
    loop
        invariant
            reader.wf(),
            reader.source().infallible() == r.infallible(),
            ans0 == old(f).answers(),
            answered(ans0, f.answers(), k, false),
            all == split_lines(r.rest()),
            seen0 == old(f).seen(),
            visited_prefix(seen0, f.seen(), all, k),
            all.skip(k) == split_lines(reader.pending()),
        decreases reader.pending().len(),
    {
        let ghost pend = reader.pending();
        let res = reader.read_line();
        match res {
            Ok(line) => {
                if line.len() == 0 {
                    proof {
                        lemma_first_line_shape(pend);
                        assert(all.skip(k).len() == 0);
                    }
                    assert(visited_prefix(seen0, f.seen(), all, k));
                    assert(answered(ans0, f.answers(), k, false));
                    return Ok(());
                }
                proof {
                    lemma_line_count_step(pend);
                    assert(split_lines(pend) =~= seq![first_line(pend)] + split_lines(after_first_line(pend)));
                    assert(all[k] == all.skip(k)[0]);
                    assert(all.skip(k + 1) =~= all.skip(k).drop_first());
                    assert(all.take(k + 1) =~= all.take(k).push(all[k]));
                }
                let ghost ans_before = f.answers();
                let more = f.visit(line);
                proof {
                    k = k + 1;
                    assert(f.seen() =~= seen0 + all.take(k));
                    assert(f.answers().take(ans0.len() as int) =~= ans0);
                    assert(f.answers().last() == more);
                }
                if !more {
                    assert(visited_prefix(seen0, f.seen(), all, k));
                    assert(answered(ans0, f.answers(), k, true));
                    return Ok(());
                }
            },
            Err(e) => {
                assert(visited_prefix(seen0, f.seen(), all, k));
                assert(answered(ans0, f.answers(), k, false));
                return Err(e);
            },
        }
    }
}

/// When `map_lines` ran to the end of a stream, the lines the visitor
/// received, concatenated with their terminators, are the stream itself.
pub proof fn lemma_map_lines_reconstructs(
    before: Seq<Seq<u8>>,
    after: Seq<Seq<u8>>,
    stream: Seq<u8>,
    k: int,
)
    requires
        visited_prefix(before, after, split_lines(stream), k),
        k == split_lines(stream).len(),
    ensures
        flatten(after.skip(before.len() as int)) == stream,
{
    lemma_split_lines_flatten(stream);
    assert(after.skip(before.len() as int) =~= split_lines(stream));
}

/// Counts the lines of `r`: one per line-feed, plus one for an unterminated
/// final fragment.
pub fn count_lines<S: ChunkSource>(r: S) -> (res: Result<usize, std::io::Error>)
    requires
        line_count(r.rest()) <= usize::MAX,
    ensures
        r.infallible() ==> res is Ok,
        match res {
            Ok(n) => n == line_count(r.rest()),
            Err(_) => true,
        },
{
    linereader::count_lines(LineReader::new(r))
}

} // verus!
