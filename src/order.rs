use vstd::prelude::*;
use vstd::string::*;

verus! {

/// Strict lexicographic order of two character sequences, compared from
/// position `i` on, character by character by code point.
pub open spec fn lex_lt_from(a: Seq<char>, b: Seq<char>, i: nat) -> bool
    decreases a.len() - i,
{
    if i >= a.len() {
        i < b.len()
    } else if i >= b.len() {
        false
    } else if a[i as int] != b[i as int] {
        (a[i as int] as int) < (b[i as int] as int)
    } else {
        lex_lt_from(a, b, i + 1)
    }
}

/// Strict lexicographic order of two strings: the order of `String`'s `Ord`.
pub open spec fn lex_lt(a: Seq<char>, b: Seq<char>) -> bool {
    lex_lt_from(a, b, 0)
}

pub proof fn lemma_lex_irreflexive_from(a: Seq<char>, i: nat)
    ensures
        !lex_lt_from(a, a, i),
    decreases a.len() - i,
{
    if i < a.len() {
        lemma_lex_irreflexive_from(a, i + 1);
    }
}

pub proof fn lemma_lex_transitive_from(a: Seq<char>, b: Seq<char>, c: Seq<char>, i: nat)
    requires
        lex_lt_from(a, b, i),
        lex_lt_from(b, c, i),
    ensures
        lex_lt_from(a, c, i),
    decreases a.len() - i,
{
    if i < a.len() && i < b.len() && i < c.len() && a[i as int] == b[i as int] && b[i as int]
        == c[i as int] {
        lemma_lex_transitive_from(a, b, c, i + 1);
    }
}

/// Two sequences that agree on their first `i` characters and are not ordered
/// either way from `i` on are equal.
pub proof fn lemma_lex_total_from(a: Seq<char>, b: Seq<char>, i: nat)
    requires
        i <= a.len(),
        i <= b.len(),
        a.subrange(0, i as int) == b.subrange(0, i as int),
        !lex_lt_from(a, b, i),
        !lex_lt_from(b, a, i),
    ensures
        a == b,
    decreases a.len() - i,
{
    if i < a.len() && i < b.len() {
        if a[i as int] == b[i as int] {
            assert(a.subrange(0, (i + 1) as int) =~= a.subrange(0, i as int).push(a[i as int]));
            assert(b.subrange(0, (i + 1) as int) =~= b.subrange(0, i as int).push(b[i as int]));
            lemma_lex_total_from(a, b, i + 1);
        } else {
            assert((a[i as int] as int) != (b[i as int] as int));
        }
    } else {
        assert(a.len() == i && b.len() == i);
        assert(a =~= a.subrange(0, i as int));
        assert(b =~= b.subrange(0, i as int));
    }
}

pub proof fn lemma_lex_irreflexive(a: Seq<char>)
    ensures
        !lex_lt(a, a),
{
    lemma_lex_irreflexive_from(a, 0);
}

pub proof fn lemma_lex_transitive(a: Seq<char>, b: Seq<char>, c: Seq<char>)
    requires
        lex_lt(a, b),
        lex_lt(b, c),
    ensures
        lex_lt(a, c),
{
    lemma_lex_transitive_from(a, b, c, 0);
}

pub proof fn lemma_lex_total(a: Seq<char>, b: Seq<char>)
    ensures
        a == b || lex_lt(a, b) || lex_lt(b, a),
{
    if !lex_lt(a, b) && !lex_lt(b, a) {
        assert(a.subrange(0, 0) =~= b.subrange(0, 0));
        lemma_lex_total_from(a, b, 0);
    }
}

/// Compares two strings in lexicographic order of their characters.
pub fn str_lt(a: &str, b: &str) -> (r: bool)
    ensures
        r == lex_lt(a@, b@),
{
    let la = a.unicode_len();
    let lb = b.unicode_len();
    let mut i: usize = 0;
    while i < la && i < lb
        invariant
            la == a@.len(),
            lb == b@.len(),
            i <= la,
            i <= lb,
            lex_lt(a@, b@) == lex_lt_from(a@, b@, i as nat),
        decreases la - i,
    {
        let ca = a.get_char(i);
        let cb = b.get_char(i);
        if ca != cb {
            return (ca as u32) < (cb as u32);
        }
        i = i + 1;
    }
    i < lb
}

} // verus!
