//! Properties of the enumeration as a whole, proved over the model.
use crate::model::{
    between, count, high, is_word, lemma_count_positive, lemma_rank_bound, lemma_rank_of_word, lemma_word_of_rank,
    lemma_rank_order_is_lexicographic, level, levels, lex_le, low, rank, span, word, words,
};
use crate::walk::views;
use vstd::prelude::*;

verus! {

/// `s` is a word that the range from `begin` to `end` holds: its length lies
/// between theirs, it is not before `begin` when as long as `begin`, and not
/// after `end` when as long as `end`.
pub open spec fn qualifies(begin: Seq<u8>, end: Seq<u8>, s: Seq<u8>) -> bool {
    &&& is_word(s)
    &&& begin.len() <= s.len() <= end.len()
    &&& s.len() == begin.len() ==> lex_le(begin, s)
    &&& s.len() == end.len() ==> lex_le(s, end)
}

/// `x` comes strictly before `y`: shorter, or as long and lexicographically
/// smaller.
pub open spec fn precedes(x: Seq<u8>, y: Seq<u8>) -> bool {
    x.len() < y.len() || (x.len() == y.len() && rank(x) < rank(y))
}

/// Number of words of every length from `from` up to, not including, `to`.
pub open spec fn full_counts(from: nat, to: nat) -> nat
    decreases to - from,
{
    if from >= to {
        0
    } else {
        count(from) + full_counts(from + 1, to)
    }
}

proof fn lemma_concat_contains(x: Seq<Seq<u8>>, y: Seq<Seq<u8>>, s: Seq<u8>)
    ensures
        (x + y).contains(s) <==> (x.contains(s) || y.contains(s)),
{
    if x.contains(s) {
        let i = choose|i: int| 0 <= i < x.len() && x[i] == s;
        assert((x + y)[i] == s);
    }
    if y.contains(s) {
        let j = choose|j: int| 0 <= j < y.len() && y[j] == s;
        assert((x + y)[x.len() + j] == s);
    }
    if (x + y).contains(s) {
        let i = choose|i: int| 0 <= i < (x + y).len() && (x + y)[i] == s;
        if i < x.len() {
            assert(x[i] == s);
        } else {
            assert(y[i - x.len()] == s);
        }
    }
}

proof fn lemma_span_contains(lo: nat, hi: int, len: nat, s: Seq<u8>)
    requires
        hi < count(len),
    ensures
        span(lo, hi, len).contains(s) <==> (is_word(s) && s.len() == len && lo <= rank(s) <= hi),
{
    if span(lo, hi, len).contains(s) {
        let k = choose|k: int| 0 <= k < span(lo, hi, len).len() && span(lo, hi, len)[k] == s;
        lemma_rank_of_word((lo + k) as nat, len);
    }
    if is_word(s) && s.len() == len && lo <= rank(s) <= hi {
        lemma_word_of_rank(s);
        let k = rank(s) - lo;
        assert(span(lo, hi, len)[k] == s);
    }
}

proof fn lemma_span_increasing(lo: nat, hi: int, len: nat)
    requires
        hi < count(len),
    ensures
        forall|i: int| 0 <= i < span(lo, hi, len).len() ==> (#[trigger] span(lo, hi, len)[i]).len() == len,
        forall|i: int, j: int|
            0 <= i < j < span(lo, hi, len).len() ==> rank(#[trigger] span(lo, hi, len)[i]) < rank(
                #[trigger] span(lo, hi, len)[j],
            ),
{
    if lo <= hi {
        assert forall|i: int| 0 <= i < span(lo, hi, len).len() implies (#[trigger] span(
            lo,
            hi,
            len,
        )[i]).len() == len by {
            lemma_rank_of_word((lo + i) as nat, len);
        }
        assert forall|i: int, j: int| 0 <= i < j < span(lo, hi, len).len() implies rank(
            #[trigger] span(lo, hi, len)[i],
        ) < rank(#[trigger] span(lo, hi, len)[j]) by {
            lemma_rank_of_word((lo + i) as nat, len);
            lemma_rank_of_word((lo + j) as nat, len);
        }
    }
}

proof fn lemma_high_bound(end: Seq<u8>, len: nat)
    requires
        is_word(end),
    ensures
        high(end, len) < count(len),
{
    if len == end.len() {
        lemma_rank_bound(end);
    }
}

proof fn lemma_levels_contains(begin: Seq<u8>, end: Seq<u8>, l: nat, s: Seq<u8>)
    requires
        is_word(begin),
        is_word(end),
    ensures
        levels(begin, end, l).contains(s) <==> (is_word(s) && l <= s.len() <= end.len() && low(
            begin,
            s.len(),
        ) <= rank(s) <= high(end, s.len())),
    decreases end.len() + 1 - l,
{
    if l <= end.len() {
        lemma_levels_contains(begin, end, l + 1, s);
        lemma_concat_contains(level(begin, end, l), levels(begin, end, l + 1), s);
        lemma_high_bound(end, l);
        lemma_span_contains(low(begin, l), high(end, l), l, s);
    }
}

/// No omissions and nothing extra: a word is enumerated between `begin` and
/// `end` exactly when the range holds it.
pub proof fn lemma_between_members(begin: Seq<u8>, end: Seq<u8>, s: Seq<u8>)
    requires
        is_word(begin),
        is_word(end),
    ensures
        between(begin, end).contains(s) <==> qualifies(begin, end, s),
{
    lemma_levels_contains(begin, end, begin.len(), s);
    if is_word(s) {
        lemma_rank_bound(s);
        if s.len() == begin.len() {
            lemma_rank_order_is_lexicographic(begin, s);
        }
        if s.len() == end.len() {
            lemma_rank_order_is_lexicographic(s, end);
        }
    }
}

proof fn lemma_levels_increasing(begin: Seq<u8>, end: Seq<u8>, l: nat)
    requires
        is_word(begin),
        is_word(end),
    ensures
        forall|i: int, j: int|
            0 <= i < j < levels(begin, end, l).len() ==> precedes(
                #[trigger] levels(begin, end, l)[i],
                #[trigger] levels(begin, end, l)[j],
            ),
        forall|i: int| 0 <= i < levels(begin, end, l).len() ==> l <= #[trigger] levels(
            begin,
            end,
            l,
        )[i].len(),
    decreases end.len() + 1 - l,
{
    if l <= end.len() {
        lemma_levels_increasing(begin, end, l + 1);
        let x = level(begin, end, l);
        let y = levels(begin, end, l + 1);
        lemma_high_bound(end, l);
        lemma_span_increasing(low(begin, l), high(end, l), l);
        assert forall|i: int, j: int| 0 <= i < j < (x + y).len() implies precedes(
            #[trigger] (x + y)[i],
            #[trigger] (x + y)[j],
        ) by {
            if j < x.len() {
                assert(x[i].len() == l);
            } else if i >= x.len() {
                assert(y[i - x.len()] == (x + y)[i]);
                assert(y[j - x.len()] == (x + y)[j]);
            } else {
                assert(x[i].len() == l);
                assert(y[j - x.len()] == (x + y)[j]);
            }
        }
        assert forall|i: int| 0 <= i < (x + y).len() implies l <= #[trigger] (x + y)[i].len() by {
            if i < x.len() {
                assert(x[i].len() == l);
            } else {
                assert(y[i - x.len()] == (x + y)[i]);
            }
        }
    }
}

/// In order and without duplicates: each enumerated word comes strictly
/// before every word enumerated after it.
pub proof fn lemma_between_increasing(begin: Seq<u8>, end: Seq<u8>)
    requires
        is_word(begin),
        is_word(end),
    ensures
        forall|i: int, j: int|
            0 <= i < j < between(begin, end).len() ==> precedes(
                #[trigger] between(begin, end)[i],
                #[trigger] between(begin, end)[j],
            ),
{
    lemma_levels_increasing(begin, end, begin.len());
}

proof fn lemma_levels_past_end(begin: Seq<u8>, end: Seq<u8>, l: nat)
    requires
        l > end.len(),
    ensures
        levels(begin, end, l) == Seq::<Seq<u8>>::empty(),
{
}

proof fn lemma_levels_len(begin: Seq<u8>, end: Seq<u8>, l: nat)
    requires
        begin.len() < l <= end.len(),
    ensures
        levels(begin, end, l).len() == full_counts(l, end.len()) + rank(end) + 1,
    decreases end.len() - l,
{
    lemma_count_positive(l);
    if l < end.len() {
        lemma_levels_len(begin, end, l + 1);
    } else {
        lemma_levels_past_end(begin, end, l + 1);
    }
}

/// Size of the enumeration: with `begin` shorter than `end`, the words from
/// `begin` to the last word of its length, every word of each length strictly
/// between, and the words from the first word of `end`'s length up to `end`;
/// with equal lengths and `begin` not after `end`, the words from `begin` to
/// `end`.
pub proof fn lemma_between_count(begin: Seq<u8>, end: Seq<u8>)
    requires
        is_word(begin),
        is_word(end),
    ensures
        begin.len() < end.len() ==> between(begin, end).len() == (count(begin.len()) - rank(
            begin,
        )) + full_counts(begin.len() + 1, end.len()) + rank(end) + 1,
        begin.len() == end.len() && rank(begin) <= rank(end) ==> between(begin, end).len() == rank(
            end,
        ) - rank(begin) + 1,
{
    lemma_rank_bound(begin);
    if begin.len() < end.len() {
        lemma_levels_len(begin, end, begin.len() + 1);
    } else if begin.len() == end.len() {
        lemma_levels_past_end(begin, end, begin.len() + 1);
    }
}

/// A `begin` longer than `end` gives no word.
pub proof fn lemma_longer_begin_is_empty(begin: Seq<u8>, end: Seq<u8>)
    requires
        begin.len() > end.len(),
    ensures
        between(begin, end) == Seq::<Seq<u8>>::empty(),
{
}

/// A `begin` as long as `end` and lexicographically after it gives no word.
pub proof fn lemma_later_begin_is_empty(begin: Seq<u8>, end: Seq<u8>)
    requires
        is_word(begin),
        is_word(end),
        begin.len() == end.len(),
        !lex_le(begin, end),
    ensures
        between(begin, end) == Seq::<Seq<u8>>::empty(),
{
    lemma_rank_order_is_lexicographic(begin, end);
    lemma_levels_past_end(begin, end, begin.len() + 1);
    assert(between(begin, end) =~= Seq::<Seq<u8>>::empty());
}

/// Equal bounds give that one word alone.
pub proof fn lemma_equal_bounds(s: Seq<u8>)
    requires
        is_word(s),
    ensures
        between(s, s) == seq![s],
{
    lemma_levels_past_end(s, s, s.len() + 1);
    lemma_word_of_rank(s);
    assert(between(s, s) =~= seq![s]);
}

/// The enumeration depends on the bounds alone: two runs on the same bounds,
/// each into an empty output, produce the same words in the same order.
pub proof fn lemma_repeatable(
    begin: Seq<u8>,
    end: Seq<u8>,
    first: Seq<Vec<u8>>,
    second: Seq<Vec<u8>>,
)
    requires
        views(first) == between(begin, end),
        views(second) == between(begin, end),
    ensures
        views(first) == views(second),
{
}

} // verus!
