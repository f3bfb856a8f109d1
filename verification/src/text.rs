//! Text operations on skill fields: lowercasing (a call of std's
//! `str::to_lowercase`), substring search and dash replacement.

use vstd::prelude::*;

verus! {

/// What `str::to_lowercase` makes of a string: the Unicode lowercase mapping,
/// character by character, which may change the length.
pub uninterp spec fn lowercase(s: Seq<char>) -> Seq<char>;

/// Every character is ASCII.
pub open spec fn is_ascii_text(s: Seq<char>) -> bool {
    forall|i: int| 0 <= i < s.len() ==> (#[trigger] s[i] as int) < 128
}

/// ASCII letters `A`..=`Z` turned into `a`..=`z`; every other character kept.
pub open spec fn ascii_lowercase(s: Seq<char>) -> Seq<char> {
    s.map_values(|c: char| if 'A' <= c && c <= 'Z' { ((c as int) + 32) as char } else { c })
}

/// `needle` occurs in `hay` as a contiguous run of characters.
pub open spec fn has_substring(hay: Seq<char>, needle: Seq<char>) -> bool {
    exists|i: int|
        0 <= i && i + needle.len() <= hay.len() && #[trigger] hay.subrange(i, i + needle.len())
            == needle
}

/// Every `-` replaced by a space; every other character kept.
pub open spec fn dashes_to_spaces(s: Seq<char>) -> Seq<char> {
    s.map_values(|c: char| if c == '-' { ' ' } else { c })
}

/// ASCII letters `a`..=`z` turned into `A`..=`Z`; every other character kept.
pub open spec fn ascii_uppercase(s: Seq<char>) -> Seq<char> {
    s.map_values(|c: char| if 'a' <= c && c <= 'z' { ((c as int) - 32) as char } else { c })
}

/// Changing the case of the ASCII letters of a text changes neither whether
/// it is ASCII nor its ASCII lowercase: a search that lowercases its query
/// answers an upper-cased ASCII query as it answers the query itself.
pub proof fn lemma_ascii_case_blind(s: Seq<char>)
    requires
        is_ascii_text(s),
    ensures
        is_ascii_text(ascii_uppercase(s)),
        ascii_lowercase(ascii_uppercase(s)) == ascii_lowercase(s),
{
    let u = ascii_uppercase(s);
    assert forall|i: int| 0 <= i < u.len() implies (#[trigger] u[i] as int) < 128 by {
        assert((s[i] as int) < 128);
    }
    assert(ascii_lowercase(u) =~= ascii_lowercase(s));
}

/// Calls `str::to_lowercase`; the result is named by `lowercase`, a function
/// of the string alone (std's mapping does not depend on a locale). Of an
/// ASCII string it is the ASCII lowercase, as Unicode maps `A`..=`Z` to
/// `a`..=`z` and every other ASCII character to itself; of other strings
/// nothing more is stated.
#[verifier::external_body]
pub(crate) fn to_lowercase(s: &str) -> (r: String)
    ensures
        r@ == lowercase(s@),
        is_ascii_text(s@) ==> r@ == ascii_lowercase(s@),
{
    s.to_lowercase()
}

/// Whether `needle` occurs in `hay`, as `str::contains` with a `&str`
/// pattern answers (the empty pattern occurs in every string).
pub fn contains_str(hay: &str, needle: &str) -> (r: bool)
    ensures
        r == has_substring(hay@, needle@),
{
    let n = hay.unicode_len();
    let m = needle.unicode_len();
    if m > n {
        return false;
    }
    let mut i: usize = 0;
    while i <= n - m
        invariant
            n == hay@.len(),
            m == needle@.len(),
            m <= n,
            i <= n - m + 1,
            forall|k: int| 0 <= k < i ==> #[trigger] hay@.subrange(k, k + m as int) != needle@,
        decreases n - m + 1 - i,
    {
        let mut j: usize = 0;
        let mut same = true;
        while j < m && same
            invariant
                n == hay@.len(),
                m == needle@.len(),
                i + m <= n,
                j <= m,
                forall|t: int| 0 <= t < j ==> hay@[i + t] == needle@[t],
                !same ==> j < m && hay@[i + j] != needle@[j as int],
            decreases m - j + if same { 1int } else { 0int },
        {
            if hay.get_char(i + j) != needle.get_char(j) {
                same = false;
            } else {
                j = j + 1;
            }
        }
        if same {
            assert(hay@.subrange(i as int, i + m) =~= needle@);
            return true;
        }
        assert(hay@.subrange(i as int, i + m)[j as int] == hay@[i + j]);
        i = i + 1;
    }
    proof {
        assert forall|k: int| 0 <= k && k + needle@.len() <= hay@.len() implies #[trigger] hay@.subrange(
            k,
            k + needle@.len(),
        ) != needle@ by {
            assert(k < i);
        }
    }
    false
}

/// `s` with every `-` replaced by a space, as `str::replace('-', " ")` gives.
pub fn replace_dashes(s: &str) -> (r: String)
    ensures
        r@ == dashes_to_spaces(s@),
{
    let n = s.unicode_len();
    let mut r = String::new();
    let mut i: usize = 0;
    while i < n
        invariant
            n == s@.len(),
            i <= n,
            r@ == dashes_to_spaces(s@.take(i as int)),
        decreases n - i,
    {
        let c = s.get_char(i);
        let ghost before = r@;
        if c == '-' {
            r.append(" ");
            proof {
                reveal_strlit(" ");
            }
        } else {
            r.append(s.substring_char(i, i + 1));
            assert(s@.subrange(i as int, i + 1) =~= seq![c]);
        }
        assert(r@ =~= before.push(if c == '-' { ' ' } else { c }));
        assert(dashes_to_spaces(s@.take(i + 1)) =~= dashes_to_spaces(s@.take(i as int)).push(
            if c == '-' { ' ' } else { c },
        ));
        i = i + 1;
    }
    assert(s@.take(n as int) =~= s@);
    r
}

} // verus!
