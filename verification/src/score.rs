//! Scoring: each word earns points by decoded length alone.

use vstd::prelude::*;
use vstd::string::StrSliceExecFns;
use crate::board::Board;

verus! {

/// The points one word earns, by its decoded character length: 4 letters
/// earn 1 point, 5 earn 2, 6 earn 3, 7 earn 5, 8 or more earn 11; shorter
/// words earn nothing.
pub open spec fn score_of(n: nat) -> nat {
    if n == 4 {
        1
    } else if n == 5 {
        2
    } else if n == 6 {
        3
    } else if n == 7 {
        5
    } else if n >= 8 {
        11
    } else {
        0
    }
}

/// The total score of a word list: the sum of its words' scores.
pub open spec fn total_score(ws: Seq<String>) -> nat
    decreases ws.len(),
{
    if ws.len() == 0 {
        0
    } else {
        total_score(ws.drop_last()) + score_of(ws.last()@.len())
    }
}

/// No word earns more than eleven points, so the total is bounded by eleven
/// points per word.
pub proof fn lemma_total_score_bound(ws: Seq<String>)
    ensures
        total_score(ws) <= 11 * ws.len(),
    decreases ws.len(),
{
    if ws.len() > 0 {
        lemma_total_score_bound(ws.drop_last());
    }
}

/// Law: scoring is a pure function of the length buckets — two lists whose
/// words have equal lengths position by position earn equal totals.
pub proof fn lemma_score_depends_on_lengths(a: Seq<String>, b: Seq<String>)
    requires
        a.len() == b.len(),
        forall|i: int| 0 <= i < a.len() ==> (#[trigger] a[i])@.len() == (#[trigger] b[i])@.len(),
    ensures
        total_score(a) == total_score(b),
    decreases a.len(),
{
    if a.len() > 0 {
        assert forall|i: int| 0 <= i < a.drop_last().len() implies (#[trigger] a.drop_last()[i])@
            .len() == (#[trigger] b.drop_last()[i])@.len() by {
            assert(a.drop_last()[i] == a[i]);
            assert(b.drop_last()[i] == b[i]);
        }
        lemma_score_depends_on_lengths(a.drop_last(), b.drop_last());
        assert(a.last()@.len() == b.last()@.len());
    }
}

impl Board {
    /// The points this one word earns.
    pub fn score_word(word: String) -> (r: usize)
        ensures
            r == score_of(word@.len()),
    {
        let n = word.as_str().unicode_len();
        if n == 4 {
            1
        } else if n == 5 {
            2
        } else if n == 6 {
            3
        } else if n == 7 {
            5
        } else if n >= 8 {
            11
        } else {
            0
        }
    }

    /// The total score of a word list.
    pub fn score(words: Vec<String>) -> (r: usize)
        requires
            11 * words@.len() <= usize::MAX,
        ensures
            r == total_score(words@),
    {
        let mut total: usize = 0;
        let mut i: usize = 0;
        while i < words.len()
            invariant
                i <= words@.len(),
                11 * words@.len() <= usize::MAX,
                total == total_score(words@.take(i as int)),
            decreases words@.len() - i,
        {
            proof {
                lemma_total_score_bound(words@.take(i as int));
            }
            let w = words[i].clone();
            let s = Self::score_word(w);
            total = total + s;
            proof {
                assert(words@.take(i as int + 1).drop_last() =~= words@.take(i as int));
                assert(words@.take(i as int + 1).last() == words@[i as int]);
            }
            i = i + 1;
        }
        proof {
            assert(words@.take(words@.len() as int) =~= words@);
        }
        total
    }
}

} // verus!
