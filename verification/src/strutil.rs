use vstd::prelude::*;

verus! {

/// Relies on `str`'s `PartialEq` impl from core: two string slices are equal
/// exactly when their character sequences are equal.
#[verifier::external_body]
pub(crate) fn str_eq(a: &str, b: &str) -> (r: bool)
    ensures
        r == (a@ == b@),
{
    a == b
}

/// The whitespace characters recognized by the word-count rules: the
/// characters with the Unicode `White_Space` property.
pub open spec fn is_wspace(c: char) -> bool {
    c == ' ' || c == '\t' || c == '\n' || c == '\r' || c == '\u{000B}' || c == '\u{000C}'
        || c == '\u{0085}' || c == '\u{00A0}' || c == '\u{1680}' || c == '\u{2000}'
        || c == '\u{2001}' || c == '\u{2002}' || c == '\u{2003}' || c == '\u{2004}'
        || c == '\u{2005}' || c == '\u{2006}' || c == '\u{2007}' || c == '\u{2008}'
        || c == '\u{2009}' || c == '\u{200A}' || c == '\u{2028}' || c == '\u{2029}'
        || c == '\u{202F}' || c == '\u{205F}' || c == '\u{3000}'
}

pub fn is_whitespace_char(c: char) -> (r: bool)
    ensures
        r == is_wspace(c),
{
    c == ' ' || c == '\t' || c == '\n' || c == '\r' || c == '\u{000B}' || c == '\u{000C}'
        || c == '\u{0085}' || c == '\u{00A0}' || c == '\u{1680}' || c == '\u{2000}'
        || c == '\u{2001}' || c == '\u{2002}' || c == '\u{2003}' || c == '\u{2004}'
        || c == '\u{2005}' || c == '\u{2006}' || c == '\u{2007}' || c == '\u{2008}'
        || c == '\u{2009}' || c == '\u{200A}' || c == '\u{2028}' || c == '\u{2029}'
        || c == '\u{202F}' || c == '\u{205F}' || c == '\u{3000}'
}

/// Number of non-whitespace characters in a character sequence; this is the
/// word count recorded on chapters and versions.
pub open spec fn non_ws_count(s: Seq<char>) -> nat {
    s.filter(|c: char| !is_wspace(c)).len()
}

proof fn lemma_non_ws_count_push(s: Seq<char>, c: char)
    ensures
        non_ws_count(s.push(c)) == if is_wspace(c) {
            non_ws_count(s)
        } else {
            non_ws_count(s) + 1
        },
{
    reveal_with_fuel(Seq::filter, 2);
    assert(s.push(c).drop_last() == s);
}

proof fn lemma_non_ws_count_le_len(s: Seq<char>)
    ensures
        non_ws_count(s) <= s.len(),
    decreases s.len(),
{
    reveal_with_fuel(Seq::filter, 2);
    if s.len() > 0 {
        lemma_non_ws_count_le_len(s.drop_last());
        assert(s == s.drop_last().push(s.last()));
        lemma_non_ws_count_push(s.drop_last(), s.last());
    }
}

/// Count the non-whitespace characters of a string.
pub fn count_non_whitespace(s: &str) -> (r: usize)
    ensures
        r == non_ws_count(s@),
        r <= s@.len(),
{
    let len = s.unicode_len();
    let mut i: usize = 0;
    let mut count: usize = 0;
    proof {
        assert(s@.subrange(0, 0) =~= Seq::<char>::empty());
        reveal_with_fuel(Seq::filter, 1);
    }
    while i < len
        invariant
            i <= len,
            len == s@.len(),
            count == non_ws_count(s@.subrange(0, i as int)),
            count <= i,
        decreases len - i,
    {
        let c = s.get_char(i);
        proof {
            lemma_non_ws_count_push(s@.subrange(0, i as int), s@[i as int]);
            assert(s@.subrange(0, i + 1) =~= s@.subrange(0, i as int).push(s@[i as int]));
        }
        if !is_whitespace_char(c) {
            count = count + 1;
        }
        i = i + 1;
    }
    proof {
        assert(s@.subrange(0, len as int) =~= s@);
    }
    count
}

} // verus!
