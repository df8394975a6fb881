//! The enumerator: a fixed-length odometer walk driven once per length.
use crate::model::{
    between, count, digit, is_word, lemma_rank_bound, lemma_rank_first, lemma_rank_last,
    lemma_rank_order_is_lexicographic, lemma_rank_prefix, lemma_word_of_rank, level, levels,
    lex_le, rank, span, word, words, FIRST_SYMBOL, LAST_SYMBOL,
};
use vstd::prelude::*;
use vstd::slice::slice_to_vec;

verus! {

/// The words in `v`, as byte sequences.
pub open spec fn views(v: Seq<Vec<u8>>) -> Seq<Seq<u8>> {
    v.map_values(|w: Vec<u8>| w@)
}

/// Whether `a` comes no later than `b` among the words of their common length.
pub fn at_most(a: &[u8], b: &[u8]) -> (r: bool)
    requires
        is_word(a@),
        is_word(b@),
        a@.len() == b@.len(),
    ensures
        r == lex_le(a@, b@),
        r == (rank(a@) <= rank(b@)),
{
    proof {
        lemma_rank_order_is_lexicographic(a@, b@);
    }
    let n = a.len();
    let mut i: usize = 0;
    let mut less = false;
    let mut equal = true;
    while i < n
        invariant
            n == a@.len(),
            n == b@.len(),
            i <= n,
            is_word(a@),
            is_word(b@),
            equal == (rank(a@.subrange(0, i as int)) == rank(b@.subrange(0, i as int))),
            less == (rank(a@.subrange(0, i as int)) < rank(b@.subrange(0, i as int))),
        decreases n - i,
    {
        proof {
            lemma_rank_prefix(a@, i as int);
            lemma_rank_prefix(b@, i as int);
            let ra = rank(a@.subrange(0, i as int));
            let rb = rank(b@.subrange(0, i as int));
            let da = digit(a@[i as int]);
            let db = digit(b@[i as int]);
            assert(da < 26 && db < 26);
            assert(ra < rb ==> ra * 26 + da < rb * 26 + db) by (nonlinear_arith)
                requires
                    da < 26,
                    db < 26,
            ;
            assert(rb < ra ==> rb * 26 + db < ra * 26 + da) by (nonlinear_arith)
                requires
                    da < 26,
                    db < 26,
            ;
        }
        if equal {
            less = a[i] < b[i];
            equal = a[i] == b[i];
        }
        i = i + 1;
    }
    proof {
        assert(a@.subrange(0, n as int) =~= a@);
        assert(b@.subrange(0, n as int) =~= b@);
    }
    less || equal
}

/// Advances the first `i` symbols of `buf` to the next word of length `i`,
/// leaving the rest untouched.
fn advance_prefix(buf: &mut Vec<u8>, i: usize)
    requires
        is_word(old(buf)@),
        i <= old(buf)@.len(),
        rank(old(buf)@.subrange(0, i as int)) + 1 < count(i as nat),
    ensures
        final(buf)@.len() == old(buf)@.len(),
        is_word(final(buf)@),
        rank(final(buf)@.subrange(0, i as int)) == rank(old(buf)@.subrange(0, i as int)) + 1,
        final(buf)@.subrange(i as int, final(buf)@.len() as int) == old(buf)@.subrange(
            i as int,
            old(buf)@.len() as int,
        ),
    decreases i,
{
    if i == 0 {
        assert(count(0) == 1);
        return;
    }
    let j = i - 1;
    proof {
        lemma_rank_prefix(buf@, j as int);
    }
    let ghost r = rank(buf@.subrange(0, j as int));
    let ghost c = count(j as nat);
    if buf[j] < LAST_SYMBOL {
        buf.set(j, buf[j] + 1);
        proof {
            assert(buf@.subrange(0, j as int) =~= old(buf)@.subrange(0, j as int));
            lemma_rank_prefix(buf@, j as int);
            assert(buf@.subrange(i as int, buf@.len() as int) =~= old(buf)@.subrange(
                i as int,
                old(buf)@.len() as int,
            ));
        }
    } else {
        buf.set(j, FIRST_SYMBOL);
        proof {
            assert(buf@.subrange(0, j as int) =~= old(buf)@.subrange(0, j as int));
            assert(r + 1 < c) by (nonlinear_arith)
                requires
                    r * 26 + 25 + 1 < 26 * c,
            ;
        }
        let ghost mid = buf@;
        advance_prefix(buf, j);
        proof {
            assert(buf@[j as int] == mid.subrange(j as int, mid.len() as int)[0]);
            lemma_rank_prefix(buf@, j as int);
            assert(buf@.subrange(i as int, buf@.len() as int) =~= buf@.subrange(
                j as int,
                buf@.len() as int,
            ).drop_first());
            assert(mid.subrange(i as int, mid.len() as int) =~= mid.subrange(
                j as int,
                mid.len() as int,
            ).drop_first());
            assert(mid.subrange(i as int, mid.len() as int) =~= old(buf)@.subrange(
                i as int,
                old(buf)@.len() as int,
            ));
        }
    }
}

/// Moves `buf` to the next word of its length.
pub(crate) fn advance(buf: &mut Vec<u8>)
    requires
        is_word(old(buf)@),
        rank(old(buf)@) + 1 < count(old(buf)@.len()),
    ensures
        final(buf)@.len() == old(buf)@.len(),
        is_word(final(buf)@),
        rank(final(buf)@) == rank(old(buf)@) + 1,
{
    let n = buf.len();
    proof {
        assert(buf@.subrange(0, n as int) =~= buf@);
    }
    advance_prefix(buf, n);
    proof {
        assert(buf@.subrange(0, n as int) =~= buf@);
    }
}

/// A word of `len` copies of `c`.
pub(crate) fn filled(c: u8, len: usize) -> (r: Vec<u8>)
    ensures
        r@ == Seq::new(len as nat, |i: int| c),
{
    let mut r: Vec<u8> = Vec::new();
    while r.len() < len
        invariant
            r@.len() <= len,
            forall|k: int| 0 <= k < r@.len() ==> #[trigger] r@[k] == c,
        decreases len - r@.len(),
    {
        r.push(c);
    }
    assert(r@ =~= Seq::new(len as nat, |i: int| c));
    r
}

/// Highest rank walked at length `len`: that of `end` when there is one,
/// else that of the all-`'z'` word.
pub open spec fn limit(end: Option<&[u8]>, len: nat) -> int {
    match end {
        Some(e) => rank(e@) as int,
        None => count(len) - 1,
    }
}

/// Appends to `out`, in lexicographic order, every word of `current`'s length
/// from `current` up to `end` (up to the all-`'z'` word when `end` is `None`);
/// nothing when `current` lies beyond `end`.
pub fn for_each_between_same_length(
    current: &mut Vec<u8>,
    end: Option<&[u8]>,
    out: &mut Vec<Vec<u8>>,
)
    requires
        is_word(old(current)@),
        match end {
            Some(e) => is_word(e@) && e@.len() == old(current)@.len(),
            None => true,
        },
    ensures
        views(final(out)@) == views(old(out)@) + span(
            rank(old(current)@),
            limit(end, old(current)@.len()),
            old(current)@.len(),
        ),
{
    let len = current.len();
    let upper: Vec<u8> = match end {
        Some(e) => slice_to_vec(e),
        None => filled(LAST_SYMBOL, len),
    };
    proof {
        lemma_rank_last(len as nat);
        assert(upper@ == Seq::new(len as nat, |i: int| LAST_SYMBOL) ==> is_word(upper@));
        assert(rank(upper@) == limit(end, len as nat));
    }
    let ghost lo = rank(current@);
    if !at_most(current.as_slice(), upper.as_slice()) {
        assert(views(out@) =~= views(out@) + Seq::empty());
        return;
    }
    loop
        invariant_except_break
            is_word(current@),
            is_word(upper@),
            current@.len() == len,
            upper@.len() == len,
            lo <= rank(current@) <= rank(upper@),
            views(out@) == views(old(out)@) + words(lo, (rank(current@) - lo) as nat, len as nat),
        ensures
            views(out@) == views(old(out)@) + words(lo, (rank(upper@) + 1 - lo) as nat, len as nat),
        decreases rank(upper@) - rank(current@),
    {
        let copy = slice_to_vec(current.as_slice());
        let ghost k = (rank(current@) - lo) as nat;
        let ghost prev = out@;
        proof {
            lemma_word_of_rank(current@);
        }
        out.push(copy);
        proof {
            assert(views(out@) =~= views(prev).push(copy@));
            assert(words(lo, k + 1, len as nat) =~= words(lo, k, len as nat).push(
                word((lo + k) as nat, len as nat),
            ));
            assert(views(out@) =~= views(old(out)@) + words(lo, k + 1, len as nat));
        }
        if at_most(upper.as_slice(), current.as_slice()) {
            break;
        }
        proof {
            lemma_rank_bound(upper@);
        }
        advance(current);
    }
}

/// Appends to `out` every word between `begin` and `end`: for each length from
/// `begin`'s to `end`'s, shorter first, the words of that length in
/// lexicographic order, bounded below by `begin` at its length and above by
/// `end` at its length. Nothing is appended when `begin` is longer than `end`,
/// or of equal length and later.
pub fn for_each_between(begin: &[u8], end: &[u8], out: &mut Vec<Vec<u8>>)
    requires
        is_word(begin@),
        is_word(end@),
    ensures
        views(final(out)@) == views(old(out)@) + between(begin@, end@),
{
    if begin.len() > end.len() {
        assert(views(out@) =~= views(out@) + between(begin@, end@));
        return;
    }
    let mut l: usize = begin.len();
    assert(views(out@) + levels(begin@, end@, l as nat) == views(old(out)@) + between(
        begin@,
        end@,
    ));
    loop
        invariant_except_break
            begin@.len() <= l <= end@.len(),
            is_word(begin@),
            is_word(end@),
            views(out@) + levels(begin@, end@, l as nat) == views(old(out)@) + between(
                begin@,
                end@,
            ),
        ensures
            views(out@) == views(old(out)@) + between(begin@, end@),
        decreases end@.len() - l,
    {
        let mut current = if l == begin.len() {
            slice_to_vec(begin)
        } else {
            filled(FIRST_SYMBOL, l)
        };
        let upper = if l == end.len() {
            Some(end)
        } else {
            None
        };
        proof {
            lemma_rank_first(l as nat);
            assert(current@ == Seq::new(l as nat, |i: int| FIRST_SYMBOL) ==> is_word(current@));
        }
        let ghost before = views(out@);
        let ghost rest = levels(begin@, end@, (l + 1) as nat);
        assert(levels(begin@, end@, l as nat) == level(begin@, end@, l as nat) + rest);
        for_each_between_same_length(&mut current, upper, out);
        proof {
            assert(views(out@) == before + level(begin@, end@, l as nat));
            assert(before + (level(begin@, end@, l as nat) + rest) =~= views(out@) + rest);
        }
        if l == end.len() {
            assert(rest =~= Seq::empty());
            assert(views(out@) =~= views(out@) + rest);
            break;
        }
        l = l + 1;
    }
}

} // verus!
