//! Mathematical model of lowercase words: a word of length `l` is read as a
//! base-26 numeral, so that lexicographic order at a fixed length is the
//! order of these numbers.
use vstd::prelude::*;

verus! {

/// The smallest symbol of the alphabet, `'a'`.
pub const FIRST_SYMBOL: u8 = 97;

/// The largest symbol of the alphabet, `'z'`.
pub const LAST_SYMBOL: u8 = 122;

/// Every byte of `s` lies in `'a'..='z'`.
pub open spec fn is_word(s: Seq<u8>) -> bool {
    forall|i: int| 0 <= i < s.len() ==> FIRST_SYMBOL <= #[trigger] s[i] <= LAST_SYMBOL
}

/// Value of one symbol as a base-26 digit.
pub open spec fn digit(c: u8) -> nat {
    (c - FIRST_SYMBOL) as nat
}

/// Number of words of length `len`: 26 to the power `len`.
pub open spec fn count(len: nat) -> nat
    decreases len,
{
    if len == 0 {
        1
    } else {
        26 * count((len - 1) as nat)
    }
}

/// The position of `s` among the words of its length, in lexicographic order.
pub open spec fn rank(s: Seq<u8>) -> nat
    decreases s.len(),
{
    if s.len() == 0 {
        0
    } else {
        rank(s.drop_last()) * 26 + digit(s.last())
    }
}

/// The word of length `len` whose rank is `n` (for `n < count(len)`).
pub open spec fn word(n: nat, len: nat) -> Seq<u8>
    decreases len,
{
    if len == 0 {
        Seq::empty()
    } else {
        word(n / 26, (len - 1) as nat).push((FIRST_SYMBOL + n % 26) as u8)
    }
}

/// The `n` consecutive words of length `len` starting at rank `lo`.
pub open spec fn words(lo: nat, n: nat, len: nat) -> Seq<Seq<u8>> {
    Seq::new(n, |k: int| word((lo + k) as nat, len))
}

/// Lowest rank enumerated at length `len`.
pub open spec fn low(begin: Seq<u8>, len: nat) -> nat {
    if len == begin.len() {
        rank(begin)
    } else {
        0
    }
}

/// Highest rank enumerated at length `len`.
pub open spec fn high(end: Seq<u8>, len: nat) -> int {
    if len == end.len() {
        rank(end) as int
    } else {
        count(len) - 1
    }
}

/// The words from rank `lo` to rank `hi` inclusive, none when `lo > hi`.
pub open spec fn span(lo: nat, hi: int, len: nat) -> Seq<Seq<u8>> {
    if lo <= hi {
        words(lo, (hi + 1 - lo) as nat, len)
    } else {
        Seq::empty()
    }
}

/// The words of length `len` that lie between `begin` and `end`.
pub open spec fn level(begin: Seq<u8>, end: Seq<u8>, len: nat) -> Seq<Seq<u8>> {
    span(low(begin, len), high(end, len), len)
}

/// The words between `begin` and `end` of every length from `len` up to `end`'s.
pub open spec fn levels(begin: Seq<u8>, end: Seq<u8>, len: nat) -> Seq<Seq<u8>>
    decreases end.len() + 1 - len,
{
    if len > end.len() {
        Seq::empty()
    } else {
        level(begin, end, len) + levels(begin, end, len + 1)
    }
}

/// Every word between `begin` and `end`, shorter lengths first and each
/// length in lexicographic order.
pub open spec fn between(begin: Seq<u8>, end: Seq<u8>) -> Seq<Seq<u8>> {
    levels(begin, end, begin.len())
}

/// The rank of a word is below the number of words of its length.
pub proof fn lemma_rank_bound(s: Seq<u8>)
    requires
        is_word(s),
    ensures
        rank(s) < count(s.len()),
    decreases s.len(),
{
    if s.len() > 0 {
        let t = s.drop_last();
        assert(is_word(t));
        lemma_rank_bound(t);
        let r = rank(t);
        let c = count(t.len());
        let d = digit(s.last());
        assert(d < 26);
        assert(r * 26 + d < 26 * c) by (nonlinear_arith)
            requires
                r < c,
                d < 26,
        ;
    }
}

/// A word is the word of its own rank.
pub proof fn lemma_word_of_rank(s: Seq<u8>)
    requires
        is_word(s),
    ensures
        word(rank(s), s.len()) == s,
    decreases s.len(),
{
    if s.len() > 0 {
        let t = s.drop_last();
        assert(is_word(t));
        lemma_word_of_rank(t);
        let d = digit(s.last());
        vstd::arithmetic::div_mod::lemma_fundamental_div_mod_converse(
            rank(s) as int,
            26,
            rank(t) as int,
            d as int,
        );
        assert(word(rank(s), s.len()) =~= s);
    }
}

/// The word of rank `n` is a word of length `len` whose rank is `n`.
pub proof fn lemma_rank_of_word(n: nat, len: nat)
    requires
        n < count(len),
    ensures
        is_word(word(n, len)),
        word(n, len).len() == len,
        rank(word(n, len)) == n,
    decreases len,
{
    if len > 0 {
        let m = (len - 1) as nat;
        assert(n / 26 < count(m)) by (nonlinear_arith)
            requires
                n < 26 * count(m),
        ;
        lemma_rank_of_word(n / 26, m);
        let w = word(n, len);
        assert(w.drop_last() =~= word(n / 26, m));
        assert(n == (n / 26) * 26 + n % 26) by (nonlinear_arith);
    }
}

/// Rank of a prefix one symbol longer.
pub proof fn lemma_rank_prefix(s: Seq<u8>, i: int)
    requires
        0 <= i < s.len(),
    ensures
        rank(s.subrange(0, i + 1)) == rank(s.subrange(0, i)) * 26 + digit(s[i]),
{
    assert(s.subrange(0, i + 1).drop_last() =~= s.subrange(0, i));
}

/// The all-`'a'` word has rank zero.
pub proof fn lemma_rank_first(len: nat)
    ensures
        rank(Seq::new(len, |i: int| FIRST_SYMBOL)) == 0,
    decreases len,
{
    if len > 0 {
        lemma_rank_first((len - 1) as nat);
        assert(Seq::new(len, |i: int| FIRST_SYMBOL).drop_last() =~= Seq::new(
            (len - 1) as nat,
            |i: int| FIRST_SYMBOL,
        ));
    }
}

/// The all-`'z'` word has the highest rank of its length.
pub proof fn lemma_rank_last(len: nat)
    ensures
        rank(Seq::new(len, |i: int| LAST_SYMBOL)) == count(len) - 1,
    decreases len,
{
    if len > 0 {
        lemma_rank_last((len - 1) as nat);
        assert(Seq::new(len, |i: int| LAST_SYMBOL).drop_last() =~= Seq::new(
            (len - 1) as nat,
            |i: int| LAST_SYMBOL,
        ));
        assert(count((len - 1) as nat) >= 1) by {
            lemma_count_positive((len - 1) as nat);
        }
    }
}

/// There is at least one word of every length.
pub proof fn lemma_count_positive(len: nat)
    ensures
        count(len) >= 1,
    decreases len,
{
    if len > 0 {
        lemma_count_positive((len - 1) as nat);
    }
}

/// Byte-wise lexicographic order on words of one length: `a` equals `b`, or at
/// the first position where they differ `a` holds the smaller byte.
pub open spec fn lex_le(a: Seq<u8>, b: Seq<u8>) -> bool {
    a == b || exists|i: int|
        0 <= i < a.len() && a.subrange(0, i) == b.subrange(0, i) && #[trigger] a[i] < b[i]
}

/// Rank of a concatenation.
pub proof fn lemma_rank_concat(x: Seq<u8>, y: Seq<u8>)
    ensures
        rank(x + y) == rank(x) * count(y.len()) + rank(y),
    decreases y.len(),
{
    if y.len() > 0 {
        let z = y.drop_last();
        assert((x + y).drop_last() =~= x + z);
        assert((x + y).last() == y.last());
        lemma_rank_concat(x, z);
        let rx = rank(x);
        let c = count(z.len());
        let rz = rank(z);
        let d = digit(y.last());
        assert((rx * c + rz) * 26 + d == rx * (26 * c) + (rz * 26 + d)) by (nonlinear_arith);
        assert(rank(x + y) == rank(x + z) * 26 + d);
        assert(rank(y) == rz * 26 + d);
        assert(count(y.len()) == 26 * c);
    } else {
        assert(x + y =~= x);
        assert(count(0) == 1);
        assert(rank(x) * 1 == rank(x));
    }
}

/// Where two words of one length first differ, the smaller byte gives the
/// smaller rank.
proof fn lemma_first_difference_decides(a: Seq<u8>, b: Seq<u8>, i: int)
    requires
        is_word(a),
        is_word(b),
        a.len() == b.len(),
        0 <= i < a.len(),
        a.subrange(0, i) == b.subrange(0, i),
        a[i] < b[i],
    ensures
        rank(a) < rank(b),
{
    let n = a.len() as int;
    let pa = a.subrange(0, i + 1);
    let pb = b.subrange(0, i + 1);
    let sa = a.subrange(i + 1, n);
    let sb = b.subrange(i + 1, n);
    assert(a =~= pa + sa);
    assert(b =~= pb + sb);
    lemma_rank_concat(pa, sa);
    lemma_rank_concat(pb, sb);
    lemma_rank_prefix(a, i);
    lemma_rank_prefix(b, i);
    assert(is_word(sa));
    lemma_rank_bound(sa);
    let p = rank(a.subrange(0, i));
    let c = count(sa.len());
    let ra = rank(sa);
    let rb = rank(sb);
    let da = digit(a[i]);
    let db = digit(b[i]);
    assert(da < db);
    assert((p * 26 + da) * c + ra < (p * 26 + db) * c + rb) by (nonlinear_arith)
        requires
            da < db,
            ra < c,
    ;
}

/// Two words of one length that differ have a first position of difference.
proof fn lemma_first_difference(a: Seq<u8>, b: Seq<u8>, k: int) -> (i: int)
    requires
        a.len() == b.len(),
        0 <= k <= a.len(),
        a.subrange(0, k) != b.subrange(0, k),
    ensures
        0 <= i < k,
        a.subrange(0, i) == b.subrange(0, i),
        a[i] != b[i],
    decreases k,
{
    if k == 0 {
        assert(a.subrange(0, 0) =~= b.subrange(0, 0));
        0
    } else if a.subrange(0, k - 1) != b.subrange(0, k - 1) {
        lemma_first_difference(a, b, k - 1)
    } else {
        if a[k - 1] == b[k - 1] {
            assert(a.subrange(0, k) =~= b.subrange(0, k));
        }
        k - 1
    }
}

/// On words of one length, comparing ranks is comparing byte-wise
/// lexicographically.
pub proof fn lemma_rank_order_is_lexicographic(a: Seq<u8>, b: Seq<u8>)
    requires
        is_word(a),
        is_word(b),
        a.len() == b.len(),
    ensures
        (rank(a) <= rank(b)) == lex_le(a, b),
{
    if a != b {
        assert(a.subrange(0, a.len() as int) =~= a);
        assert(b.subrange(0, b.len() as int) =~= b);
        let i = lemma_first_difference(a, b, a.len() as int);
        if a[i] < b[i] {
            lemma_first_difference_decides(a, b, i);
        } else {
            lemma_first_difference_decides(b, a, i);
            if lex_le(a, b) {
                let j = choose|j: int|
                    0 <= j < a.len() && a.subrange(0, j) == b.subrange(0, j) && #[trigger] a[j]
                        < b[j];
                lemma_first_difference_decides(a, b, j);
            }
        }
    }
}

} // verus!
