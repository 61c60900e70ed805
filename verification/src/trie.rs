//! The prefix dictionary: a trie over the 26-letter lowercase alphabet.
//!
//! The mathematical model maps every string to the sequence of its letter
//! indices (`index_seq`), which makes lookups case-insensitive exactly as the
//! executable code is; the stored dictionary is the set of index sequences
//! `s` with `stores(s)`.

use vstd::prelude::*;

verus! {

/// Index of a character in the 26-slot alphabet: ASCII letters of either
/// case map to 0..26, every other character to -1.
pub open spec fn letter_index(c: char) -> int {
    if 97 <= c as u32 && c as u32 <= 122 {
        c as u32 - 97
    } else if 65 <= c as u32 && c as u32 <= 90 {
        c as u32 - 65
    } else {
        -1
    }
}

/// The letter indices of a string, position by position.
pub open spec fn index_seq(w: Seq<char>) -> Seq<int> {
    w.map_values(|c: char| letter_index(c))
}

/// Every character of the string is an ASCII letter.
pub open spec fn all_letters(w: Seq<char>) -> bool {
    forall|i: int| 0 <= i < w.len() ==> 0 <= #[trigger] letter_index(w[i]) < 26
}

pub struct SpellingNode {
    pub valid: bool,
    pub children: Vec<Option<Box<SpellingNode>>>,
}

/// A node path spelling the index sequence `s` exists below `n`.
pub open spec fn node_path(n: SpellingNode, s: Seq<int>) -> bool
    decreases s.len(),
{
    s.len() == 0 || {
        &&& 0 <= s[0] < 26
        &&& match n.children@[s[0]] {
            Some(c) => node_path(*c, s.skip(1)),
            None => false,
        }
    }
}

/// The index sequence `s` spells a complete stored word below `n`.
pub open spec fn node_word(n: SpellingNode, s: Seq<int>) -> bool
    decreases s.len(),
{
    if s.len() == 0 {
        n.valid
    } else {
        &&& 0 <= s[0] < 26
        &&& match n.children@[s[0]] {
            Some(c) => node_word(*c, s.skip(1)),
            None => false,
        }
    }
}

impl SpellingNode {
    /// Structural well-formedness: 26 child slots at every node.
    pub open spec fn wf(self) -> bool
        decreases self,
    {
        &&& self.children@.len() == 26
        &&& forall|i: int|
            0 <= i < 26 ==> match #[trigger] self.children@[i] {
                Some(c) => c.wf(),
                None => true,
            }
    }

    pub fn new() -> (r: SpellingNode)
        ensures
            r.wf(),
            !r.valid,
            forall|s: Seq<int>| !node_word(r, s),
            forall|s: Seq<int>| node_path(r, s) <==> s.len() == 0,
    {
        let mut children: Vec<Option<Box<SpellingNode>>> = Vec::new();
        let mut i: usize = 0;
        while i < 26
            invariant
                i <= 26,
                children@.len() == i,
                forall|j: int| 0 <= j < i ==> children@[j] is None,
            decreases 26 - i,
        {
            children.push(None);
            i = i + 1;
        }
        let r = SpellingNode { valid: false, children };
        proof {
            assert forall|s: Seq<int>| !node_word(r, s) by {
                if s.len() != 0 && 0 <= s[0] < 26 {
                    assert(r.children@[s[0]] is None);
                }
            }
            assert forall|s: Seq<int>| node_path(r, s) <==> s.len() == 0 by {
                if s.len() != 0 && 0 <= s[0] < 26 {
                    assert(r.children@[s[0]] is None);
                }
            }
        }
        r
    }
}

/// Maps an ASCII letter of either case to its alphabet slot; returns `None`
/// on every other character.
pub fn letter_index_of(c: char) -> (r: Option<u8>)
    ensures
        match r {
            Some(i) => letter_index(c) == i as int && i < 26,
            None => letter_index(c) == -1,
        },
{
    let u = c as u32;
    if 97 <= u && u <= 122 {
        Some((u - 97) as u8)
    } else if 65 <= u && u <= 90 {
        Some((u - 65) as u8)
    } else {
        None
    }
}

/// For nonempty sequences, being a prefix means: equal heads and the tail is
/// a prefix of the tail.
proof fn lemma_prefix_step(s: Seq<int>, t: Seq<int>)
    requires
        s.len() > 0,
        t.len() > 0,
    ensures
        s.is_prefix_of(t) <==> (s[0] == t[0] && s.skip(1).is_prefix_of(t.skip(1))),
{
    if s.is_prefix_of(t) {
        assert(s =~= t.subrange(0, s.len() as int));
        assert(s.skip(1) =~= t.skip(1).subrange(0, s.skip(1).len() as int));
    }
    if s[0] == t[0] && s.skip(1).is_prefix_of(t.skip(1)) {
        assert forall|j: int| 0 <= j < s.len() implies s[j] == t[j] by {
            if j > 0 {
                assert(s.skip(1)[j - 1] == t.skip(1).subrange(0, s.len() - 1)[j - 1]);
            }
        }
        assert(s =~= t.subrange(0, s.len() as int));
    }
}

/// For nonempty sequences, equality means: equal heads and equal tails.
proof fn lemma_head_tail_eq(s: Seq<int>, t: Seq<int>)
    requires
        s.len() > 0,
        t.len() > 0,
    ensures
        s == t <==> (s[0] == t[0] && s.skip(1) == t.skip(1)),
{
    if s[0] == t[0] && s.skip(1) == t.skip(1) {
        assert(s.skip(1).len() == t.skip(1).len());
        assert(s.len() == t.len());
        assert forall|j: int| 0 <= j < s.len() implies s[j] == t[j] by {
            if j > 0 {
                assert(s.skip(1)[j - 1] == s[j]);
                assert(t.skip(1)[j - 1] == t[j]);
                assert(s.skip(1)[j - 1] == t.skip(1)[j - 1]);
            }
        }
        assert(s =~= t);
    }
    if s == t {
        assert(s.skip(1) =~= t.skip(1));
    }
}

/// Recursive insertion of the letter suffix `w[i..]` below `node`.
fn insert_from(node: &mut SpellingNode, w: &str, i: usize)
    requires
        old(node).wf(),
        i <= w@.len(),
        all_letters(w@),
    ensures
        final(node).wf(),
        final(node).children@.len() == 26,
        forall|s: Seq<int>|
            #[trigger] node_word(*final(node), s) <==> node_word(*old(node), s) || s
                == index_seq(w@).skip(i as int),
        forall|s: Seq<int>|
            #[trigger] node_path(*final(node), s) <==> node_path(*old(node), s)
                || s.is_prefix_of(index_seq(w@).skip(i as int)),
    decreases w@.len() - i,
{
    let ghost suffix = index_seq(w@).skip(i as int);
    if i == w.unicode_len() {
        node.valid = true;
        proof {
            assert(suffix =~= Seq::<int>::empty());
            assert forall|s: Seq<int>|
                #[trigger] node_word(*node, s) <==> node_word(*old(node), s) || s == suffix by {
                if s.len() == 0 {
                    assert(s =~= suffix);
                }
            }
            assert forall|s: Seq<int>|
                #[trigger] node_path(*node, s) <==> node_path(*old(node), s) || s.is_prefix_of(
                    suffix,
                ) by {
                if s.is_prefix_of(suffix) {
                    assert(s =~= Seq::<int>::empty());
                }
            }
        }
    } else {
        let c = w.get_char(i);
        assert(letter_index(w@[i as int]) == letter_index(c));
        let idx = letter_index_of(c).unwrap();
        let mut child_opt = node.children.remove(idx as usize);
        let ghost had_child = child_opt is Some;
        if child_opt.is_none() {
            child_opt = Some(Box::new(SpellingNode::new()));
        }
        let mut boxed = child_opt.unwrap();
        let ghost pre = *boxed;
        insert_from(&mut *boxed, w, i + 1);
        node.children.insert(idx as usize, Some(boxed));
        proof {
            let post = node.children@[idx as int]->Some_0;
            assert(node.children@ =~= old(node).children@.update(idx as int, Some(post)));
            let tail = index_seq(w@).skip(i as int + 1);
            assert(suffix.skip(1) =~= tail);
            assert(suffix[0] == idx as int);
            assert forall|s: Seq<int>|
                #[trigger] node_word(*node, s) <==> node_word(*old(node), s) || s == suffix by {
                if s.len() == 0 {
                    assert(node.valid == old(node).valid);
                } else {
                    lemma_head_tail_eq(s, suffix);
                    if 0 <= s[0] < 26 {
                        if s[0] == idx as int {
                            if had_child {
                                assert(node_word(*old(node), s) == node_word(
                                    pre,
                                    s.skip(1),
                                ));
                            } else {
                                assert(!node_word(*old(node), s));
                                assert(!node_word(pre, s.skip(1)));
                            }
                            assert(node_word(*node, s) == node_word(*post, s.skip(1)));
                        } else {
                            assert(node.children@[s[0]] == old(node).children@[s[0]]);
                        }
                    }
                }
            }
            assert forall|s: Seq<int>|
                #[trigger] node_path(*node, s) <==> node_path(*old(node), s) || s.is_prefix_of(
                    suffix,
                ) by {
                if s.len() == 0 {
                    assert(s.is_prefix_of(suffix));
                } else {
                    lemma_prefix_step(s, suffix);
                    if 0 <= s[0] < 26 {
                        if s[0] == idx as int {
                            if had_child {
                                assert(node_path(*old(node), s) == node_path(
                                    pre,
                                    s.skip(1),
                                ));
                            } else {
                                assert(!node_path(*old(node), s));
                                assert(node_path(pre, s.skip(1)) <==> s.skip(1).len() == 0);
                                if s.skip(1).len() == 0 {
                                    assert(s.skip(1).is_prefix_of(tail));
                                }
                            }
                            assert(node_path(*node, s) == node_path(*post, s.skip(1)));
                        } else {
                            assert(node.children@[s[0]] == old(node).children@[s[0]]);
                        }
                    }
                }
            }
        }
    }
}

pub struct SpellingTrie {
    pub root: Box<SpellingNode>,
}

impl SpellingTrie {
    /// The dictionary holds the index sequence `s` as a complete word.
    pub open spec fn stores(self, s: Seq<int>) -> bool {
        node_word(*self.root, s)
    }

    /// Some stored word's node path starts with the index sequence `s`.
    pub open spec fn reaches(self, s: Seq<int>) -> bool {
        node_path(*self.root, s)
    }

    /// The dictionary holds the string `w` (case-insensitively).
    pub open spec fn spec_word(self, w: Seq<char>) -> bool {
        self.stores(index_seq(w))
    }

    /// The string `w` is a prefix of some stored word (case-insensitively).
    pub open spec fn spec_prefix(self, w: Seq<char>) -> bool {
        self.reaches(index_seq(w))
    }

    /// Every node path is inhabited: it leads to at least one stored word.
    pub open spec fn canonical(self) -> bool {
        forall|s: Seq<int>|
            #[trigger] self.reaches(s) ==> s.len() == 0 || exists|t: Seq<int>|
                self.stores(t) && s.is_prefix_of(t)
    }

    pub open spec fn wf(self) -> bool {
        self.root.wf() && self.canonical()
    }

    pub fn new() -> (r: SpellingTrie)
        ensures
            r.wf(),
            forall|s: Seq<int>| !r.stores(s),
            forall|s: Seq<int>| r.reaches(s) <==> s.len() == 0,
    {
        SpellingTrie { root: Box::new(SpellingNode::new()) }
    }

    /// Inserts one word (normalized case-insensitively to alphabet slots).
    pub fn add_word(&mut self, word: &str)
        requires
            old(self).wf(),
            all_letters(word@),
        ensures
            final(self).wf(),
            forall|s: Seq<int>|
                #[trigger] final(self).stores(s) <==> old(self).stores(s) || s == index_seq(
                    word@,
                ),
            forall|s: Seq<int>|
                #[trigger] final(self).reaches(s) <==> old(self).reaches(s) || s.is_prefix_of(
                    index_seq(word@),
                ),
    {
        insert_from(&mut *self.root, word, 0);
        proof {
            assert(index_seq(word@).skip(0) =~= index_seq(word@));
            let new_self = *self;
            assert forall|s: Seq<int>| #[trigger] new_self.reaches(s) implies s.len() == 0
                || exists|t: Seq<int>| new_self.stores(t) && s.is_prefix_of(t) by {
                if s.len() > 0 {
                    if old(self).reaches(s) {
                        let t = choose|t: Seq<int>| old(self).stores(t) && s.is_prefix_of(t);
                        assert(new_self.stores(t) && s.is_prefix_of(t));
                    } else {
                        assert(s.is_prefix_of(index_seq(word@)));
                        assert(new_self.stores(index_seq(word@)));
                    }
                }
            }
        }
    }

    /// Builds the dictionary from an explicit word list.
    pub fn from_vec(words: Vec<&str>) -> (r: SpellingTrie)
        requires
            forall|j: int| 0 <= j < words@.len() ==> all_letters(#[trigger] words@[j]@),
        ensures
            r.wf(),
            forall|s: Seq<int>|
                #[trigger] r.stores(s) <==> exists|j: int|
                    0 <= j < words@.len() && s == index_seq(#[trigger] words@[j]@),
    {
        let mut r = SpellingTrie::new();
        let mut i: usize = 0;
        while i < words.len()
            invariant
                r.wf(),
                i <= words@.len(),
                forall|j: int| 0 <= j < words@.len() ==> all_letters(#[trigger] words@[j]@),
                forall|s: Seq<int>|
                    #[trigger] r.stores(s) <==> exists|j: int|
                        0 <= j < i && s == index_seq(#[trigger] words@[j]@),
            decreases words@.len() - i,
        {
            let ghost pre = r;
            r.add_word(words[i]);
            proof {
                assert forall|s: Seq<int>| #[trigger] r.stores(s) implies exists|j: int|
                    0 <= j < i + 1 && s == index_seq(#[trigger] words@[j]@) by {
                    if pre.stores(s) {
                        let j = choose|j: int| 0 <= j < i && s == index_seq(#[trigger] words@[j]@);
                        assert(0 <= j < i + 1 && s == index_seq(words@[j]@));
                    } else {
                        assert(s == index_seq(words@[i as int]@));
                    }
                }
            }
            i = i + 1;
        }
        r
    }

    /// Walks the trie along `word`'s letters; returns the node the walk ends
    /// at, or `None` as soon as a letter has no child.
    pub fn get_tail_node_for<'a>(&'a self, word: &str) -> (r: Option<&'a Box<SpellingNode>>)
        requires
            self.wf(),
        ensures
            match r {
                Some(t) => self.spec_prefix(word@) && t.wf() && t.valid == self.spec_word(word@),
                None => !self.spec_prefix(word@),
            },
    {
        proof {
            assert(index_seq(word@).skip(0) =~= index_seq(word@));
        }
        find_node(&self.root, word, 0)
    }

    /// Is `word` a prefix of some stored word? Case-insensitive; exact.
    pub fn contains_prefix(&self, word: &str) -> (r: bool)
        requires
            self.wf(),
        ensures
            r == self.spec_prefix(word@),
    {
        self.get_tail_node_for(word).is_some()
    }

    /// Is `word` itself a stored word? Case-insensitive; exact.
    pub fn contains_word(&self, word: &str) -> (r: bool)
        requires
            self.wf(),
        ensures
            r == self.spec_word(word@),
    {
        let r = match self.get_tail_node_for(word) {
            Some(node) => node.valid,
            None => false,
        };
        proof {
            if !self.spec_prefix(word@) {
                if self.spec_word(word@) {
                    lemma_word_is_path(*self.root, index_seq(word@));
                }
            }
        }
        r
    }
}

/// Recursive walk below `node` along the letters of `w[i..]`.
fn find_node<'a>(node: &'a Box<SpellingNode>, w: &str, i: usize) -> (r: Option<
    &'a Box<SpellingNode>,
>)
    requires
        node.wf(),
        i <= w@.len(),
    ensures
        match r {
            Some(t) => node_path(**node, index_seq(w@).skip(i as int)) && t.wf() && t.valid
                == node_word(**node, index_seq(w@).skip(i as int)),
            None => !node_path(**node, index_seq(w@).skip(i as int)),
        },
    decreases w@.len() - i,
{
    let ghost suffix = index_seq(w@).skip(i as int);
    if i == w.unicode_len() {
        proof {
            assert(suffix =~= Seq::<int>::empty());
        }
        Some(node)
    } else {
        let c = w.get_char(i);
        assert(letter_index(w@[i as int]) == letter_index(c));
        assert(suffix[0] == letter_index(c));
        match letter_index_of(c) {
            None => None,
            Some(idx) => {
                match &node.children[idx as usize] {
                    None => None,
                    Some(b) => {
                        let r = find_node(b, w, i + 1);
                        proof {
                            assert(suffix.skip(1) =~= index_seq(w@).skip(i as int + 1));
                        }
                        r
                    },
                }
            },
        }
    }
}

/// Every complete word's full letter path exists in the tree.
pub proof fn lemma_word_is_path(n: SpellingNode, s: Seq<int>)
    requires
        node_word(n, s),
    ensures
        node_path(n, s),
    decreases s.len(),
{
    if s.len() > 0 {
        if n.children@[s[0]] is Some {
            lemma_word_is_path(*n.children@[s[0]]->Some_0, s.skip(1));
        }
    }
}

/// Reachability is closed under taking prefixes.
pub proof fn lemma_path_prefix_closed(n: SpellingNode, s: Seq<int>, t: Seq<int>)
    requires
        node_path(n, t),
        s.is_prefix_of(t),
    ensures
        node_path(n, s),
    decreases s.len(),
{
    if s.len() > 0 {
        lemma_prefix_step(s, t);
        if n.children@[s[0]] is Some {
            lemma_path_prefix_closed(*n.children@[s[0]]->Some_0, s.skip(1), t.skip(1));
        }
    }
}

/// Law: if a word is stored, then each of its leading substrings — the word
/// itself included — is reported as a prefix.
pub proof fn lemma_word_gives_prefix(t: SpellingTrie, w: Seq<char>, k: int)
    requires
        t.wf(),
        t.spec_word(w),
        0 <= k <= w.len(),
    ensures
        t.spec_prefix(w.take(k)),
{
    assert(w.take(k).is_prefix_of(w)) by {
        assert(w.take(k) =~= w.subrange(0, k));
    }
    lemma_word_prefix_reaches(t, w, w.take(k));
}

/// A leading substring of a stored word is reported as a prefix.
pub proof fn lemma_word_prefix_reaches(t: SpellingTrie, w: Seq<char>, p: Seq<char>)
    requires
        t.spec_word(w),
        p.is_prefix_of(w),
    ensures
        t.spec_prefix(p),
{
    lemma_word_is_path(*t.root, index_seq(w));
    assert(index_seq(p).is_prefix_of(index_seq(w))) by {
        assert(index_seq(p) =~= index_seq(w).subrange(0, p.len() as int));
    }
    lemma_path_prefix_closed(*t.root, index_seq(p), index_seq(w));
}

/// Law: a string reported as a prefix shares its whole walked letter
/// sequence with some stored word; so a string sharing no nonempty prefix
/// with any stored word is never reported.
pub proof fn lemma_prefix_inhabited(t: SpellingTrie, w: Seq<char>)
    requires
        t.wf(),
        t.spec_prefix(w),
        w.len() > 0,
    ensures
        exists|u: Seq<int>| t.stores(u) && index_seq(w).is_prefix_of(u),
{
    assert(t.reaches(index_seq(w)));
    assert(index_seq(w).len() > 0);
}

/// Law: pruning is monotone — once a string is not a prefix, no extension of
/// it ever is.
pub proof fn lemma_prefix_monotone(t: SpellingTrie, w: Seq<char>, c: char)
    requires
        !t.spec_prefix(w),
    ensures
        !t.spec_prefix(w.push(c)),
{
    if t.spec_prefix(w.push(c)) {
        assert(index_seq(w).is_prefix_of(index_seq(w.push(c)))) by {
            assert(index_seq(w) =~= index_seq(w.push(c)).subrange(0, w.len() as int));
        }
        lemma_path_prefix_closed(*t.root, index_seq(w), index_seq(w.push(c)));
    }
}

} // verus!
