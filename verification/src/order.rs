//! The output order on words: shorter first, lexicographic among equals.

use vstd::prelude::*;
use vstd::string::StrSliceExecFns;

verus! {

/// Lexicographic order on character sequences, by code point.
pub open spec fn lex_le(a: Seq<char>, b: Seq<char>) -> bool
    decreases a.len(),
{
    if a.len() == 0 {
        true
    } else if b.len() == 0 {
        false
    } else if (a[0] as u32) < (b[0] as u32) {
        true
    } else if (a[0] as u32) == (b[0] as u32) {
        lex_le(a.skip(1), b.skip(1))
    } else {
        false
    }
}

/// The order of the reported word list: by character length first, then
/// lexicographically.
pub open spec fn word_le(a: Seq<char>, b: Seq<char>) -> bool {
    a.len() < b.len() || (a.len() == b.len() && lex_le(a, b))
}

pub proof fn lemma_lex_le_refl(a: Seq<char>)
    ensures
        lex_le(a, a),
    decreases a.len(),
{
    if a.len() > 0 {
        lemma_lex_le_refl(a.skip(1));
    }
}

pub proof fn lemma_lex_le_total(a: Seq<char>, b: Seq<char>)
    ensures
        lex_le(a, b) || lex_le(b, a),
    decreases a.len(),
{
    if a.len() > 0 && b.len() > 0 && a[0] as u32 == b[0] as u32 {
        lemma_lex_le_total(a.skip(1), b.skip(1));
    }
}

pub proof fn lemma_lex_le_trans(a: Seq<char>, b: Seq<char>, c: Seq<char>)
    requires
        lex_le(a, b),
        lex_le(b, c),
    ensures
        lex_le(a, c),
    decreases a.len(),
{
    if a.len() > 0 && b.len() > 0 && c.len() > 0 && a[0] as u32 == b[0] as u32 && b[0] as u32
        == c[0] as u32 {
        lemma_lex_le_trans(a.skip(1), b.skip(1), c.skip(1));
    }
}

pub proof fn lemma_word_le_refl(a: Seq<char>)
    ensures
        word_le(a, a),
{
    lemma_lex_le_refl(a);
}

pub proof fn lemma_word_le_total(a: Seq<char>, b: Seq<char>)
    ensures
        word_le(a, b) || word_le(b, a),
{
    lemma_lex_le_total(a, b);
}

pub proof fn lemma_word_le_trans(a: Seq<char>, b: Seq<char>, c: Seq<char>)
    requires
        word_le(a, b),
        word_le(b, c),
    ensures
        word_le(a, c),
{
    if a.len() == b.len() && b.len() == c.len() {
        lemma_lex_le_trans(a, b, c);
    }
}

/// Decides `word_le` on two strings.
pub fn word_comes_before(a: &String, b: &String) -> (r: bool)
    ensures
        r == word_le(a@, b@),
{
    let na = a.as_str().unicode_len();
    let nb = b.as_str().unicode_len();
    if na < nb {
        return true;
    }
    if na > nb {
        return false;
    }
    let mut i: usize = 0;
    proof {
        assert(a@.skip(0) =~= a@);
        assert(b@.skip(0) =~= b@);
    }
    while i < na
        invariant
            i <= na,
            na == a@.len(),
            na == b@.len(),
            lex_le(a@, b@) == lex_le(a@.skip(i as int), b@.skip(i as int)),
        decreases na - i,
    {
        let ca = a.as_str().get_char(i);
        let cb = b.as_str().get_char(i);
        let ua = ca as u32;
        let ub = cb as u32;
        if ua < ub {
            return true;
        }
        if ua > ub {
            return false;
        }
        proof {
            assert(a@.skip(i as int).skip(1) =~= a@.skip(i as int + 1));
            assert(b@.skip(i as int).skip(1) =~= b@.skip(i as int + 1));
        }
        i = i + 1;
    }
    proof {
        assert(a@.skip(na as int) =~= Seq::<char>::empty());
    }
    true
}

} // verus!
