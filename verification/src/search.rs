//! The path search: depth-first backtracking over tile adjacency, pruned by
//! the prefix dictionary, collecting every complete word of decoded length
//! at least 4 into a sorted, duplicate-free list.

use vstd::prelude::*;
use vstd::set_lib::{lemma_int_range, lemma_len_subset, set_int_range};
use crate::board::{Board, lemma_path_word_prefix, path_word};
use crate::order::{
    lemma_word_le_refl, lemma_word_le_total, lemma_word_le_trans, word_comes_before, word_le,
};
use crate::point::{Point, adjacent, in_grid};
use crate::seqs::{lemma_push_contains, lemma_push_no_duplicates};
use crate::trie::SpellingTrie;
use vstd::string::StrSliceExecFns;

verus! {

/// A walked route: in-grid cells, no cell repeated, each step adjacent.
pub open spec fn simple_path(p: Seq<Point>) -> bool {
    &&& forall|i: int| 0 <= i < p.len() ==> in_grid(#[trigger] p[i])
    &&& p.no_duplicates()
    &&& forall|i: int| 0 <= i && i + 1 < p.len() ==> #[trigger] adjacent(p[i], p[i + 1])
}

/// The word `w` is a legitimate find: a stored dictionary word of decoded
/// length at least 4, spelled by some simple path on the board.
pub open spec fn found_word(b: Board, t: SpellingTrie, w: Seq<char>) -> bool {
    &&& w.len() >= 4
    &&& t.spec_word(w)
    &&& exists|p: Seq<Point>| simple_path(p) && p.len() >= 1 && path_word(b, p) == w
}

/// The path `e` is a walk that earns a report: simple, nonempty, spelling a
/// stored dictionary word of decoded length at least 4.
pub open spec fn qualifying_path(b: Board, t: SpellingTrie, e: Seq<Point>) -> bool {
    &&& simple_path(e)
    &&& e.len() >= 1
    &&& path_word(b, e).len() >= 4
    &&& t.spec_word(path_word(b, e))
}

/// Some entry of the list reads `v`.
pub open spec fn has_word(ws: Seq<String>, v: Seq<char>) -> bool {
    exists|j: int| 0 <= j < ws.len() && (#[trigger] ws[j])@ == v
}

/// The collected list is sound (every entry a legitimate find), sorted by
/// (length, lexicographic), and free of duplicates.
pub open spec fn report_ok(b: Board, t: SpellingTrie, ws: Seq<String>) -> bool {
    &&& forall|j: int| 0 <= j < ws.len() ==> found_word(b, t, (#[trigger] ws[j])@)
    &&& forall|j: int, k: int|
        0 <= j < k < ws.len() ==> word_le((#[trigger] ws[j])@, (#[trigger] ws[k])@)
    &&& forall|j: int, k: int|
        0 <= j < k < ws.len() ==> (#[trigger] ws[j])@ != (#[trigger] ws[k])@
}

/// A path of distinct in-grid cells cannot be longer than the board's 25
/// cells.
pub proof fn lemma_simple_path_len(p: Seq<Point>)
    requires
        forall|i: int| 0 <= i < p.len() ==> in_grid(#[trigger] p[i]),
        p.no_duplicates(),
    ensures
        p.len() <= 25,
{
    let codes = Seq::new(p.len(), |i: int| (p[i].x as int) * 5 + (p[i].y as int));
    assert forall|i: int, j: int|
        0 <= i < codes.len() && 0 <= j < codes.len() && i != j implies codes[i] != codes[j] by {
        assert(p[i] != p[j]);
        assert(in_grid(p[i]) && in_grid(p[j]));
        if codes[i] == codes[j] {
            assert(p[i].x == p[j].x && p[i].y == p[j].y);
            assert(p[i] == p[j]);
        }
    }
    assert(codes.no_duplicates());
    codes.unique_seq_to_set();
    assert forall|c: int| codes.to_set().contains(c) implies set_int_range(0, 25).contains(
        c,
    ) by {
        let i = choose|i: int| 0 <= i < codes.len() && codes[i] == c;
        assert(in_grid(p[i]));
    }
    lemma_int_range(0, 25);
    lemma_len_subset(codes.to_set(), set_int_range(0, 25));
}

/// Does the path visit this cell?
pub fn contains_point(path: &Vec<Point>, q: Point) -> (r: bool)
    ensures
        r == path@.contains(q),
{
    let mut i: usize = 0;
    while i < path.len()
        invariant
            i <= path@.len(),
            forall|k: int| 0 <= k < i ==> path@[k] != q,
        decreases path@.len() - i,
    {
        if path[i] == q {
            return true;
        }
        i = i + 1;
    }
    proof {
        if path@.contains(q) {
            let k = choose|k: int| 0 <= k < path@.len() && path@[k] == q;
        }
    }
    false
}

/// Inserts a word into its place in the sorted, duplicate-free list; a word
/// already present is dropped, so duplicates collapse.
fn insert_sorted(out: &mut Vec<String>, w: String)
    requires
        forall|j: int, k: int|
            0 <= j < k < old(out)@.len() ==> word_le(
                (#[trigger] old(out)@[j])@,
                (#[trigger] old(out)@[k])@,
            ),
        forall|j: int, k: int|
            0 <= j < k < old(out)@.len() ==> (#[trigger] old(out)@[j])@ != (
            #[trigger] old(out)@[k])@,
    ensures
        forall|j: int, k: int|
            0 <= j < k < final(out)@.len() ==> word_le(
                (#[trigger] final(out)@[j])@,
                (#[trigger] final(out)@[k])@,
            ),
        forall|j: int, k: int|
            0 <= j < k < final(out)@.len() ==> (#[trigger] final(out)@[j])@ != (
            #[trigger] final(out)@[k])@,
        forall|j: int|
            0 <= j < final(out)@.len() ==> (#[trigger] final(out)@[j])@ == w@ || has_word(
                old(out)@,
                final(out)@[j]@,
            ),
        forall|v: Seq<char>| has_word(old(out)@, v) ==> has_word(final(out)@, v),
        has_word(final(out)@, w@),
{
    let n = out.len();
    let mut p: usize = 0;
    while p < n && word_comes_before(&out[p], &w)
        invariant
            out@ == old(out)@,
            n == out@.len(),
            p <= n,
            forall|j: int, k: int|
                0 <= j < k < out@.len() ==> word_le((#[trigger] out@[j])@, (#[trigger] out@[k])@),
            forall|j: int, k: int|
                0 <= j < k < out@.len() ==> (#[trigger] out@[j])@ != (#[trigger] out@[k])@,
            forall|k: int| 0 <= k < p ==> word_le((#[trigger] out@[k])@, w@) && out@[k]@ != w@,
        decreases n - p,
    {
        if out[p] == w {
            proof {
                assert(out@[p as int]@ == w@);
                assert(has_word(out@, w@));
            }
            return ;
        }
        p = p + 1;
    }
    proof {
        lemma_word_le_refl(w@);
        if p < n {
            assert(!word_le(out@[p as int]@, w@));
            lemma_word_le_total(out@[p as int]@, w@);
            assert(word_le(w@, out@[p as int]@));
            assert forall|k: int| p <= k < n implies word_le(w@, (#[trigger] out@[k])@) && out@[k]@
                != w@ by {
                if k > p {
                    assert(word_le(out@[p as int]@, out@[k]@));
                    lemma_word_le_trans(w@, out@[p as int]@, out@[k]@);
                }
                if out@[k]@ == w@ {
                    assert(word_le(out@[k]@, w@));
                }
            }
        }
    }
    let ghost pre = out@;
    out.insert(p, w);
    proof {
        assert(out@ == pre.insert(p as int, w));
        assert forall|j: int| 0 <= j < out@.len() implies ((#[trigger] out@[j])@ == w@ || has_word(
            pre,
            out@[j]@,
        )) by {
            if j < p {
                assert(out@[j] == pre[j]);
            } else if j > p {
                assert(out@[j] == pre[j - 1]);
            }
        }
        assert forall|v: Seq<char>| has_word(pre, v) implies has_word(out@, v) by {
            let j = choose|j: int| 0 <= j < pre.len() && (#[trigger] pre[j])@ == v;
            if j < p {
                assert(out@[j] == pre[j]);
            } else {
                assert(out@[j + 1] == pre[j]);
            }
        }
        assert(out@[p as int]@ == w@);
        assert(has_word(out@, w@));
        assert forall|j: int, k: int| 0 <= j < k < out@.len() implies word_le(
            (#[trigger] out@[j])@,
            (#[trigger] out@[k])@,
        ) && out@[j]@ != out@[k]@ by {
            if j < p {
                assert(out@[j] == pre[j]);
            } else if j > p {
                assert(out@[j] == pre[j - 1]);
            }
            if k < p {
                assert(out@[k] == pre[k]);
            } else if k > p {
                assert(out@[k] == pre[k - 1]);
            }
        }
    }
}

impl Board {
    /// One step of the depth-first search: record the word the path spells
    /// if it qualifies, then try every unvisited adjacent extension. The
    /// path is restored before returning; the collected list stays sound,
    /// sorted and duplicate-free, and loses nothing.
    pub fn check_path(&self, dict: &SpellingTrie, path: &mut Vec<Point>, out: &mut Vec<String>)
        requires
            self.wf(),
            dict.wf(),
            old(path)@.len() >= 1,
            simple_path(old(path)@),
            report_ok(*self, *dict, old(out)@),
        ensures
            final(path)@ == old(path)@,
            report_ok(*self, *dict, final(out)@),
            forall|v: Seq<char>| has_word(old(out)@, v) ==> has_word(final(out)@, v),
            forall|e: Seq<Point>|
                #[trigger] qualifying_path(*self, *dict, e) && old(path)@.is_prefix_of(e)
                    ==> has_word(final(out)@, path_word(*self, e)),
        decreases 25 - old(path)@.len(),
    {
        proof {
            lemma_simple_path_len(old(path)@);
        }
        let ghost word_spelled = path_word(*self, old(path)@);
        let word_here = self.word_at(path);
        if !dict.contains_prefix(word_here.as_str()) {
            proof {
                assert forall|e: Seq<Point>|
                    #[trigger] qualifying_path(*self, *dict, e) && path@.is_prefix_of(e)
                        implies has_word(out@, path_word(*self, e)) by {
                    lemma_path_word_prefix(*self, path@, e);
                    crate::trie::lemma_word_prefix_reaches(
                        *dict,
                        path_word(*self, e),
                        word_spelled,
                    );
                }
            }
            return ;
        }
        let qualifies = word_here.as_str().unicode_len() >= 4 && dict.contains_word(
            word_here.as_str(),
        );
        if qualifies {
            proof {
                assert(simple_path(path@) && path@.len() >= 1 && path_word(*self, path@)
                    == word_here@);
                assert(found_word(*self, *dict, word_here@));
            }
            let ghost mid = out@;
            insert_sorted(out, word_here);
            proof {
                assert forall|j: int| 0 <= j < out@.len() implies found_word(
                    *self,
                    *dict,
                    (#[trigger] out@[j])@,
                ) by {
                    if out@[j]@ != path_word(*self, old(path)@) {
                        let k = choose|k: int| 0 <= k < mid.len() && (#[trigger] mid[k])@
                            == out@[j]@;
                    }
                }
            }
        }
        let last = path[path.len() - 1];
        let neigh = last.neighbors();
        let ghost entry_out = out@;
        proof {
            assert(neigh@.take(0) =~= Seq::<Point>::empty());
            assert forall|e: Seq<Point>|
                #[trigger] qualifying_path(*self, *dict, e) && path@.is_prefix_of(e) && (e.len()
                    == path@.len() || neigh@.take(0).contains(
                    e[path@.len() as int],
                )) implies has_word(out@, path_word(*self, e)) by {
                if e.len() == path@.len() {
                    assert(e =~= path@);
                    assert(path_word(*self, e) == word_spelled);
                    assert(qualifies);
                    assert(has_word(out@, word_spelled));
                }
            }
        }
        let mut n: usize = 0;
        while n < neigh.len()
            invariant
                self.wf(),
                dict.wf(),
                n <= neigh@.len(),
                path@ == old(path)@,
                path@.len() >= 1,
                simple_path(path@),
                last == path@[path@.len() - 1],
                forall|k: int|
                    0 <= k < neigh@.len() ==> in_grid(#[trigger] neigh@[k]) && adjacent(
                        last,
                        neigh@[k],
                    ),
                report_ok(*self, *dict, out@),
                forall|v: Seq<char>| has_word(entry_out, v) ==> has_word(out@, v),
                forall|e: Seq<Point>|
                    #[trigger] qualifying_path(*self, *dict, e) && path@.is_prefix_of(e) && (
                    e.len() == path@.len() || neigh@.take(n as int).contains(
                        e[path@.len() as int],
                    )) ==> has_word(out@, path_word(*self, e)),
            decreases neigh@.len() - n,
        {
            let q = neigh[n];
            let ghost iter_out = out@;
            let in_path = contains_point(path, q);
            if !in_path {
                proof {
                    lemma_push_no_duplicates(path@, q);
                    assert forall|i: int| 0 <= i < path@.push(q).len() implies in_grid(
                        #[trigger] path@.push(q)[i],
                    ) by {
                        if i < path@.len() {
                            assert(path@.push(q)[i] == path@[i]);
                        }
                    }
                    assert forall|i: int| 0 <= i && i + 1 < path@.push(q).len() implies #[trigger]
                    adjacent(path@.push(q)[i], path@.push(q)[i + 1]) by {
                        if i + 1 < path@.len() {
                            assert(path@.push(q)[i] == path@[i]);
                            assert(path@.push(q)[i + 1] == path@[i + 1]);
                            assert(adjacent(path@[i], path@[i + 1]));
                        } else {
                            assert(path@.push(q)[i] == path@[i]);
                            assert(path@.push(q)[i + 1] == q);
                            assert(adjacent(last, q));
                        }
                    }
                    assert(simple_path(path@.push(q)));
                    lemma_simple_path_len(path@.push(q));
                }
                let ghost before = path@;
                path.push(q);
                self.check_path(dict, path, out);
                path.pop();
                proof {
                    assert(path@ =~= before);
                    assert forall|v: Seq<char>| has_word(entry_out, v) implies has_word(
                        out@,
                        v,
                    ) by {
                        assert(has_word(iter_out, v));
                    }
                }
            }
            proof {
                let li = path@.len() as int;
                assert(neigh@.take(n as int + 1) =~= neigh@.take(n as int).push(
                    neigh@[n as int],
                ));
                assert forall|e: Seq<Point>|
                    #[trigger] qualifying_path(*self, *dict, e) && path@.is_prefix_of(e) && (
                    e.len() == path@.len() || neigh@.take(n as int + 1).contains(
                        e[li],
                    )) implies has_word(out@, path_word(*self, e)) by {
                    if e.len() == path@.len() || neigh@.take(n as int).contains(e[li]) {
                        assert(has_word(iter_out, path_word(*self, e)));
                    } else {
                        lemma_push_contains(neigh@.take(n as int), neigh@[n as int], e[li]);
                        assert(e[li] == q);
                        if in_path {
                            let j = choose|j: int| 0 <= j < path@.len() && path@[j] == q;
                            assert(path@[j] == e.subrange(0, li)[j]);
                            assert(e[j] == e[li] && j != li);
                            assert(false);
                        } else {
                            assert(path@.push(q).is_prefix_of(e)) by {
                                assert(path@.push(q) =~= e.subrange(0, li + 1));
                            }
                        }
                    }
                }
            }
            n = n + 1;
        }
        proof {
            assert(neigh@.take(neigh@.len() as int) =~= neigh@);
            let li = path@.len() as int;
            assert forall|e: Seq<Point>|
                #[trigger] qualifying_path(*self, *dict, e) && path@.is_prefix_of(
                    e,
                ) implies has_word(out@, path_word(*self, e)) by {
                if e.len() > path@.len() {
                    let j = li - 1;
                    assert(in_grid(e[li]));
                    assert(adjacent(e[j], e[j + 1]));
                    assert(e[j] == e.subrange(0, li)[j]);
                    assert(e[j] == last);
                    assert(e[j + 1] == e[li]);
                    assert(neigh@.contains(e[li]));
                }
            }
        }
    }

    /// Every word the board holds: each reported entry is a stored
    /// dictionary word of decoded length at least 4 spelled by a simple
    /// path; the list is sorted by (length, lexicographic) and free of
    /// duplicates; an empty dictionary yields an empty list.
    pub fn valid_words(&self, dict: &SpellingTrie) -> (r: Vec<String>)
        requires
            self.wf(),
            dict.wf(),
        ensures
            forall|j: int| 0 <= j < r@.len() ==> found_word(*self, *dict, (#[trigger] r@[j])@),
            forall|w: Seq<char>| #[trigger] found_word(*self, *dict, w) ==> has_word(r@, w),
            forall|j: int, k: int|
                0 <= j < k < r@.len() ==> word_le((#[trigger] r@[j])@, (#[trigger] r@[k])@),
            forall|j: int, k: int|
                0 <= j < k < r@.len() ==> (#[trigger] r@[j])@ != (#[trigger] r@[k])@,
            (forall|w: Seq<char>| !dict.spec_word(w)) ==> r@.len() == 0,
    {
        let mut words: Vec<String> = Vec::new();
        let mut x: usize = 0;
        while x < 5
            invariant
                self.wf(),
                dict.wf(),
                x <= 5,
                report_ok(*self, *dict, words@),
                forall|e: Seq<Point>|
                    #[trigger] qualifying_path(*self, *dict, e) && e[0].x < x ==> has_word(
                        words@,
                        path_word(*self, e),
                    ),
            decreases 5 - x,
        {
            let mut y: usize = 0;
            while y < 5
                invariant
                    self.wf(),
                    dict.wf(),
                    x < 5,
                    y <= 5,
                    report_ok(*self, *dict, words@),
                    forall|e: Seq<Point>|
                        #[trigger] qualifying_path(*self, *dict, e) && (e[0].x < x || (e[0].x == x
                            && e[0].y < y)) ==> has_word(words@, path_word(*self, e)),
                decreases 5 - y,
            {
                let mut path: Vec<Point> = Vec::new();
                path.push(Point::new(x, y));
                proof {
                    assert(path@.len() == 1);
                    assert(in_grid(path@[0]));
                    assert(simple_path(path@));
                }
                let ghost start = path@;
                let ghost before_words = words@;
                self.check_path(dict, &mut path, &mut words);
                proof {
                    assert forall|e: Seq<Point>|
                        #[trigger] qualifying_path(*self, *dict, e) && (e[0].x < x || (e[0].x == x
                            && e[0].y < y + 1)) implies has_word(words@, path_word(*self, e)) by {
                        if e[0].x == x && e[0].y == y {
                            assert(start.is_prefix_of(e)) by {
                                assert(e[0] == start[0]);
                                assert(start =~= e.subrange(0, 1));
                            }
                        } else {
                            assert(has_word(before_words, path_word(*self, e)));
                        }
                    }
                }
                y = y + 1;
            }
            x = x + 1;
        }
        proof {
            if words@.len() > 0 {
                assert(found_word(*self, *dict, words@[0]@));
            }
            assert forall|w: Seq<char>| #[trigger] found_word(*self, *dict, w) implies has_word(
                words@,
                w,
            ) by {
                let p = choose|p: Seq<Point>|
                    simple_path(p) && p.len() >= 1 && path_word(*self, p) == w;
                assert(qualifying_path(*self, *dict, p));
                assert(in_grid(p[0]));
            }
        }
        words
    }
}

} // verus!
