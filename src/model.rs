//! The mathematical model of a byte stream split into lines.
use vstd::prelude::*;

verus! {

/// The byte that ends a line.
pub const LF: u8 = 0x0A;

/// Number of bytes of the first line of `s`: up to and including the first
/// line-feed, or all of `s` when it holds none.
pub open spec fn line_len(s: Seq<u8>) -> nat
    decreases s.len(),
{
    if s.len() == 0 {
        0
    } else if s[0] == LF {
        1
    } else {
        1 + line_len(s.drop_first())
    }
}

/// The first line of `s`, terminator included; empty only when `s` is.
pub open spec fn first_line(s: Seq<u8>) -> Seq<u8> {
    s.take(line_len(s) as int)
}

/// What follows the first line of `s`.
pub open spec fn after_first_line(s: Seq<u8>) -> Seq<u8> {
    s.skip(line_len(s) as int)
}

/// The lines of `s`, in order, each with its terminator.
pub open spec fn split_lines(s: Seq<u8>) -> Seq<Seq<u8>>
    decreases s.len(),
{
    if s.len() == 0 {
        Seq::empty()
    } else {
        proof {
            lemma_line_len_bounds(s);
        }
        seq![first_line(s)] + split_lines(after_first_line(s))
    }
}

/// Number of line-feed bytes in `s`.
pub open spec fn count_lf(s: Seq<u8>) -> nat
    decreases s.len(),
{
    if s.len() == 0 {
        0
    } else {
        (if s[0] == LF { 1nat } else { 0nat }) + count_lf(s.drop_first())
    }
}

/// Number of lines in `s`: one per line-feed, plus one for a final fragment
/// that no line-feed ends.
pub open spec fn line_count(s: Seq<u8>) -> nat {
    count_lf(s) + if s.len() > 0 && s.last() != LF { 1nat } else { 0nat }
}

/// The concatenation of `lines`.
pub open spec fn flatten(lines: Seq<Seq<u8>>) -> Seq<u8>
    decreases lines.len(),
{
    if lines.len() == 0 {
        Seq::empty()
    } else {
        lines[0] + flatten(lines.drop_first())
    }
}

/// Whether `s` holds no line-feed.
pub open spec fn no_lf(s: Seq<u8>) -> bool {
    forall|j: int| 0 <= j < s.len() ==> s[j] != LF
}

/// Whether `line` is a terminated line: its only line-feed is its last byte.
pub open spec fn is_terminated_line(line: Seq<u8>) -> bool {
    &&& line.len() > 0
    &&& line.last() == LF
    &&& no_lf(line.drop_last())
}

pub proof fn lemma_line_len_bounds(s: Seq<u8>)
    ensures
        line_len(s) <= s.len(),
        s.len() > 0 ==> line_len(s) >= 1,
    decreases s.len(),
{
    if s.len() > 0 && s[0] != LF {
        lemma_line_len_bounds(s.drop_first());
    }
}

/// The first line either is terminated, or is all of `s` and holds no
/// line-feed.
pub proof fn lemma_first_line_shape(s: Seq<u8>)
    ensures
        s.len() > 0 ==> first_line(s).len() > 0,
        is_terminated_line(first_line(s)) || (first_line(s) == s && no_lf(s)),
        first_line(s) + after_first_line(s) == s,
    decreases s.len(),
{
    lemma_line_len_bounds(s);
    if s.len() > 0 && s[0] != LF {
        let t = s.drop_first();
        lemma_first_line_shape(t);
        lemma_line_len_bounds(t);
        assert(first_line(s) =~= seq![s[0]] + first_line(t));
        if is_terminated_line(first_line(t)) {
            assert(first_line(s).drop_last() =~= seq![s[0]] + first_line(t).drop_last());
        } else {
            assert(first_line(s) =~= s);
        }
    } else if s.len() > 0 {
        assert(first_line(s) =~= seq![LF]);
        assert(first_line(s).drop_last() =~= Seq::<u8>::empty());
    } else {
        assert(first_line(s) =~= s);
    }
    assert(first_line(s) + after_first_line(s) =~= s);
}

/// A prefix without line-feeds belongs to the first line.
pub proof fn lemma_first_line_extend(b: Seq<u8>, t: Seq<u8>)
    requires
        no_lf(b),
    ensures
        line_len(b + t) == b.len() + line_len(t),
        first_line(b + t) == b + first_line(t),
        after_first_line(b + t) == after_first_line(t),
    decreases b.len(),
{
    lemma_line_len_bounds(t);
    if b.len() > 0 {
        let b1 = b.drop_first();
        lemma_first_line_extend(b1, t);
        assert((b + t).drop_first() =~= b1 + t);
        assert(line_len(b + t) == b.len() + line_len(t));
    } else {
        assert(b + t =~= t);
    }
    assert(first_line(b + t) =~= b + first_line(t));
    assert(after_first_line(b + t) =~= after_first_line(t));
}

/// Without a line-feed, all of `s` is its first line.
pub proof fn lemma_first_line_no_lf(s: Seq<u8>)
    requires
        no_lf(s),
    ensures
        line_len(s) == s.len(),
        first_line(s) == s,
        after_first_line(s) == Seq::<u8>::empty(),
    decreases s.len(),
{
    if s.len() > 0 {
        lemma_first_line_no_lf(s.drop_first());
    }
    assert(first_line(s) =~= s);
    assert(after_first_line(s) =~= Seq::<u8>::empty());
}

pub proof fn lemma_count_lf_append(a: Seq<u8>, b: Seq<u8>)
    ensures
        count_lf(a + b) == count_lf(a) + count_lf(b),
    decreases a.len(),
{
    if a.len() == 0 {
        assert(a + b =~= b);
    } else {
        lemma_count_lf_append(a.drop_first(), b);
        assert((a + b).drop_first() =~= a.drop_first() + b);
    }
}

pub proof fn lemma_count_lf_none(s: Seq<u8>)
    requires
        no_lf(s),
    ensures
        count_lf(s) == 0,
    decreases s.len(),
{
    if s.len() > 0 {
        lemma_count_lf_none(s.drop_first());
    }
}

/// A nonempty stream has one line more than what follows its first line.
pub proof fn lemma_line_count_step(s: Seq<u8>)
    requires
        s.len() > 0,
    ensures
        line_count(s) == 1 + line_count(after_first_line(s)),
        after_first_line(s).len() < s.len(),
{
    lemma_first_line_shape(s);
    lemma_line_len_bounds(s);
    let f = first_line(s);
    let t = after_first_line(s);
    lemma_count_lf_append(f, t);
    if is_terminated_line(f) {
        lemma_count_lf_none(f.drop_last());
        lemma_count_lf_append(f.drop_last(), seq![LF]);
        assert(f =~= f.drop_last() + seq![LF]);
        assert(count_lf(seq![LF]) == 1) by {
            assert(seq![LF].drop_first() =~= Seq::<u8>::empty());
            assert(count_lf(Seq::<u8>::empty()) == 0);
            assert(seq![LF][0] == LF);
        }
        if t.len() > 0 {
            assert(s.last() == t.last());
        } else {
            assert(s.last() == f.last());
        }
    } else {
        lemma_count_lf_none(s);
        lemma_first_line_no_lf(s);
    }
}

/// The number of lines `split_lines` yields is the number of line-feeds,
/// plus one for an unterminated final fragment.
pub proof fn lemma_split_lines_count(s: Seq<u8>)
    ensures
        split_lines(s).len() == line_count(s),
    decreases s.len(),
{
    if s.len() > 0 {
        lemma_line_count_step(s);
        lemma_split_lines_count(after_first_line(s));
    }
}

/// Concatenating the lines, terminators included, gives back the stream.
pub proof fn lemma_split_lines_flatten(s: Seq<u8>)
    ensures
        flatten(split_lines(s)) == s,
    decreases s.len(),
{
    if s.len() > 0 {
        lemma_first_line_shape(s);
        lemma_line_count_step(s);
        lemma_split_lines_flatten(after_first_line(s));
        let l = split_lines(s);
        assert(l.drop_first() =~= split_lines(after_first_line(s)));
    }
}

/// Every line is nonempty, and every line but the last holds exactly one
/// line-feed, as its final byte.
pub proof fn lemma_split_lines_shape(s: Seq<u8>)
    ensures
        forall|i: int| 0 <= i < split_lines(s).len() ==> #[trigger] split_lines(s)[i].len() > 0,
        forall|i: int|
            0 <= i < split_lines(s).len() - 1 ==> is_terminated_line(#[trigger] split_lines(s)[i]),
    decreases s.len(),
{
    if s.len() > 0 {
        lemma_first_line_shape(s);
        lemma_line_count_step(s);
        let t = after_first_line(s);
        lemma_split_lines_shape(t);
        let l = split_lines(s);
        assert(l =~= seq![first_line(s)] + split_lines(t));
        if t.len() > 0 {
            assert(!(first_line(s) == s));
        }
        assert forall|i: int| 0 <= i < l.len() implies #[trigger] l[i].len() > 0 by {
            if i > 0 {
                assert(l[i] == split_lines(t)[i - 1]);
            }
        }
        assert forall|i: int| 0 <= i < l.len() - 1 implies is_terminated_line(#[trigger] l[i]) by {
            if i > 0 {
                assert(l[i] == split_lines(t)[i - 1]);
            } else {
                assert(split_lines(t).len() > 0);
            }
        }
    }
}

/// When the first line-feed of `s` is at `i`, the first line ends just
/// after it.
pub proof fn lemma_line_len_at(s: Seq<u8>, i: int)
    requires
        0 <= i < s.len(),
        s[i] == LF,
        no_lf(s.take(i)),
    ensures
        line_len(s) == i + 1,
        first_line(s) == s.take(i + 1),
        after_first_line(s) == s.skip(i + 1),
{
    let t = s.skip(i);
    lemma_first_line_extend(s.take(i), t);
    assert(s.take(i) + t =~= s);
    assert(line_len(t) == 1);
}

} // verus!
