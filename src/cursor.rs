//! A lazy, pull-style form of the enumeration: one word per call, in the
//! same order as the collecting walk, holding only the bounds and the word
//! at hand.
use crate::model::{
    between, high, is_word, lemma_count_positive, lemma_rank_bound, lemma_rank_first,
    lemma_rank_last, lemma_word_of_rank, level, levels, rank, word, words, FIRST_SYMBOL,
    LAST_SYMBOL,
};
use crate::walk::{advance, at_most, filled};
use vstd::prelude::*;
use vstd::slice::slice_to_vec;

verus! {

/// The words between two bounds, handed out one at a time.
pub struct WordRange {
    begin: Vec<u8>,
    end: Vec<u8>,
    len: usize,
    current: Vec<u8>,
    upper: Vec<u8>,
    done: bool,
}

impl WordRange {
    /// The cursor's fields agree with each other and with its bounds.
    pub closed spec fn wf(&self) -> bool {
        &&& is_word(self.begin@)
        &&& is_word(self.end@)
        &&& !self.done ==> {
            &&& self.begin@.len() <= self.len <= self.end@.len()
            &&& is_word(self.current@)
            &&& is_word(self.upper@)
            &&& self.current@.len() == self.len
            &&& self.upper@.len() == self.len
            &&& rank(self.current@) <= rank(self.upper@)
            &&& rank(self.upper@) == high(self.end@, self.len as nat)
        }
    }

    /// The words still to come, in order.
    pub closed spec fn rest(&self) -> Seq<Seq<u8>> {
        if self.done {
            Seq::empty()
        } else {
            words(
                rank(self.current@),
                (rank(self.upper@) + 1 - rank(self.current@)) as nat,
                self.len as nat,
            ) + levels(self.begin@, self.end@, self.len as nat + 1)
        }
    }

    /// A cursor over every word between `begin` and `end`, in the order of
    /// `for_each_between`.
    pub fn new(begin: &[u8], end: &[u8]) -> (r: WordRange)
        requires
            is_word(begin@),
            is_word(end@),
        ensures
            r.wf(),
            r.rest() == between(begin@, end@),
    {
        let b = slice_to_vec(begin);
        let e = slice_to_vec(end);
        let len = begin.len();
        if len > end.len() {
            return WordRange { begin: b, end: e, len: 0, current: Vec::new(), upper: Vec::new(), done: true };
        }
        let current = slice_to_vec(begin);
        let upper = if len == end.len() {
            slice_to_vec(end)
        } else {
            filled(LAST_SYMBOL, len)
        };
        proof {
            lemma_rank_last(len as nat);
            assert(upper@ == Seq::new(len as nat, |i: int| LAST_SYMBOL) ==> is_word(upper@));
            lemma_rank_bound(current@);
        }
        if !at_most(current.as_slice(), upper.as_slice()) {
            proof {
                assert(levels(begin@, end@, len as nat + 1) =~= Seq::<Seq<u8>>::empty());
                assert(between(begin@, end@) =~= Seq::<Seq<u8>>::empty());
            }
            return WordRange { begin: b, end: e, len, current, upper, done: true };
        }
        let r = WordRange { begin: b, end: e, len, current, upper, done: false };
        proof {
            assert(r.rest() =~= between(begin@, end@));
        }
        r
    }

    /// Hands out the next word, or `None` once every word has been handed out.
    pub fn next(&mut self) -> (r: Option<Vec<u8>>)
        requires
            old(self).wf(),
        ensures
            final(self).wf(),
            old(self).rest().len() == 0 ==> r is None && final(self).rest() == old(self).rest(),
            old(self).rest().len() > 0 ==> r is Some && r->0@ == old(self).rest()[0]
                && final(self).rest() == old(self).rest().drop_first(),
    {
        if self.done {
            return None;
        }
        let ghost before = self.rest();
        let ghost tail = levels(self.begin@, self.end@, self.len as nat + 1);
        let ghost rc = rank(self.current@);
        let ghost ru = rank(self.upper@);
        let w = slice_to_vec(self.current.as_slice());
        proof {
            lemma_word_of_rank(self.current@);
            assert(before[0] == word(rc, self.len as nat));
        }
        if at_most(self.upper.as_slice(), self.current.as_slice()) {
            if self.len == self.end.len() {
                self.done = true;
                proof {
                    assert(tail =~= Seq::<Seq<u8>>::empty());
                    assert(self.rest() =~= before.drop_first());
                }
            } else {
                let len = self.len + 1;
                let current = filled(FIRST_SYMBOL, len);
                let upper = if len == self.end.len() {
                    slice_to_vec(self.end.as_slice())
                } else {
                    filled(LAST_SYMBOL, len)
                };
                proof {
                    lemma_rank_first(len as nat);
                    lemma_rank_last(len as nat);
                    lemma_count_positive(len as nat);
                    assert(current@ == Seq::new(len as nat, |i: int| FIRST_SYMBOL));
                    assert(upper@ == Seq::new(len as nat, |i: int| LAST_SYMBOL) ==> is_word(
                        upper@,
                    ));
                    assert(tail == level(self.begin@, self.end@, len as nat) + levels(
                        self.begin@,
                        self.end@,
                        len as nat + 1,
                    ));
                }
                self.len = len;
                self.current = current;
                self.upper = upper;
                proof {
                    assert(self.rest() =~= before.drop_first());
                }
            }
        } else {
            proof {
                lemma_rank_bound(self.upper@);
            }
            advance(&mut self.current);
            proof {
                assert(self.rest() =~= before.drop_first());
            }
        }
        Some(w)
    }
}

} // verus!
