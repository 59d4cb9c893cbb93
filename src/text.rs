//! Case-insensitive matching of a query against package text.
use vstd::prelude::*;
use vstd::string::*;

verus! {

/// What `str::to_lowercase` makes of a string.
pub uninterp spec fn lower_of(s: Seq<char>) -> Seq<char>;

/// Relies on str::to_lowercase: the lowercase form of the text, which depends
/// on its characters alone.
#[verifier::external_body]
pub(crate) fn lowercase(s: &str) -> (r: String)
    ensures
        r@ == lower_of(s@),
{
    s.to_lowercase()
}

/// `needle` occurs in `hay` as a run of consecutive characters.
pub open spec fn contains_seq(hay: Seq<char>, needle: Seq<char>) -> bool {
    exists|i: int| 0 <= i && i + needle.len() <= hay.len() && #[trigger] hay.subrange(i, i + needle.len()) == needle
}

/// Whether `needle` occurs in `hay`.
pub fn text_contains(hay: &str, needle: &str) -> (r: bool)
    ensures
        r == contains_seq(hay@, needle@),
{
    let h = hay.unicode_len();
    let n = needle.unicode_len();
    if n > h {
        return false;
    }
    if n == 0 {
        assert(hay@.subrange(0, 0 + needle@.len() as int) =~= needle@);
        return true;
    }
    let mut start: usize = 0;
    while start <= h - n
        invariant
            h == hay@.len(),
            n == needle@.len(),
            0 < n <= h,
            start <= h - n + 1,
            forall|s: int| 0 <= s < start ==> #[trigger] hay@.subrange(s, s + n) != needle@,
        decreases h - n + 1 - start,
    {
        let mut k: usize = 0;
        let mut same = true;
        while k < n
            invariant
                h == hay@.len(),
                n == needle@.len(),
                start + n <= h,
                k <= n,
                same ==> forall|j: int| 0 <= j < k ==> hay@[start + j] == needle@[j],
                !same ==> hay@.subrange(start as int, start + n) != needle@,
            decreases n - k,
        {
            if same && hay.get_char(start + k) != needle.get_char(k) {
                proof {
                    assert(hay@.subrange(start as int, start + n)[k as int] == hay@[start + k]);
                }
                same = false;
            }
            k = k + 1;
        }
        if same {
            assert(hay@.subrange(start as int, start + n) =~= needle@);
            return true;
        }
        start = start + 1;
    }
    proof {
        assert forall|i: int| 0 <= i && i + n <= h implies #[trigger] hay@.subrange(i, i + n) != needle@ by {
            assert(i < start);
        }
    }
    false
}

/// A package matches a query where the lowercase query occurs in the
/// lowercase name or in the lowercase description.
pub open spec fn lowered_match(name_lower: Seq<char>, description_lower: Seq<char>, query_lower: Seq<char>) -> bool {
    contains_seq(name_lower, query_lower) || contains_seq(description_lower, query_lower)
}

/// Matches a query against a package's name and description, all three
/// already in lowercase.
pub fn matches_lowered(name_lower: &str, description_lower: &str, query_lower: &str) -> (r: bool)
    ensures
        r == lowered_match(name_lower@, description_lower@, query_lower@),
{
    text_contains(name_lower, query_lower) || text_contains(description_lower, query_lower)
}

/// `s` followed by spaces up to `width` characters; a longer `s` is kept whole.
pub open spec fn padded(s: Seq<char>, width: nat) -> Seq<char> {
    if s.len() >= width {
        s
    } else {
        s + Seq::new((width - s.len()) as nat, |k: int| ' ')
    }
}

/// A line of a package table: the name in a column of 20 characters, the
/// version in one of 15, then the rest.
pub open spec fn table_row(name: Seq<char>, version: Seq<char>, rest: Seq<char>) -> Seq<char> {
    padded(name, 20) + " "@ + padded(version, 15) + " "@ + rest
}

/// Appends spaces to `s` up to `width` characters.
pub fn pad_right(s: &str, width: usize) -> (r: String)
    ensures
        r@ == padded(s@, width as nat),
{
    let mut out = String::from_str(s);
    let mut n = s.unicode_len();
    while n < width
        invariant
            n <= width || n == s@.len(),
            n >= s@.len(),
            s@.len() >= width ==> n == s@.len(),
            out@ == s@ + Seq::new((n - s@.len()) as nat, |k: int| ' '),
        decreases width - n,
    {
        out.append(" ");
        n = n + 1;
        proof {
            reveal_strlit(" ");
        }
        assert(out@ =~= s@ + Seq::new((n - s@.len()) as nat, |k: int| ' '));
    }
    proof {
        if s@.len() >= width {
            assert(n == s@.len());
            let tail = Seq::new((n - s@.len()) as nat, |k: int| ' ');
            assert(tail.len() == 0);
            assert(s@ + tail =~= s@);
        }
    }
    out
}

pub fn table_line(name: &str, version: &str, rest: &str) -> (r: String)
    ensures
        r@ == table_row(name@, version@, rest@),
{
    let mut line = pad_right(name, 20);
    line.append(" ");
    let v = pad_right(version, 15);
    line.append(v.as_str());
    line.append(" ");
    line.append(rest);
    line
}

} // verus!
