//! Canonicalization of the input stream: Unicode decomposition, removal of
//! combining marks and banned characters, recomposition, and the per-character
//! lowercase expansion used by the matcher.

use unicode_categories::UnicodeCategories;
use unicode_normalization::UnicodeNormalization;
use vstd::prelude::*;

verus! {

/// The canonical decomposition (NFD) of a character sequence.
pub uninterp spec fn nfd_of(s: Seq<char>) -> Seq<char>;

/// The canonical recomposition (NFC) of a character sequence.
pub uninterp spec fn nfc_of(s: Seq<char>) -> Seq<char>;

/// The lowercase mapping of one character, as one or more characters.
pub uninterp spec fn lower_of(c: char) -> Seq<char>;

/// Membership of the Unicode "Mark, Nonspacing" (Mn) category.
pub uninterp spec fn spec_is_mark_nonspacing(c: char) -> bool;

/// Membership of a Unicode "Punctuation" (P) category.
pub uninterp spec fn spec_is_punctuation(c: char) -> bool;

/// Membership of a Unicode "Separator" (Z) category.
pub uninterp spec fn spec_is_separator(c: char) -> bool;

/// Membership of a Unicode "Other" (C) category.
pub uninterp spec fn spec_is_other(c: char) -> bool;

/// A character the matcher may skip over inside a match: punctuation,
/// separator, or "other".
pub open spec fn spec_skippable(c: char) -> bool {
    spec_is_punctuation(c) || spec_is_separator(c) || spec_is_other(c)
}

/// What the NFD-filter-NFC pipeline keeps of a decomposed sequence:
/// everything that is neither a nonspacing mark nor banned.
pub open spec fn spec_filter_keep(s: Seq<char>, banned: Seq<char>) -> Seq<char> {
    s.filter(|c: char| !spec_is_mark_nonspacing(c) && !banned.contains(c))
}

/// The canonical form of the input: NFD, then the filter, then NFC.
pub open spec fn spec_canon(s: Seq<char>, banned: Seq<char>) -> Seq<char> {
    nfc_of(spec_filter_keep(nfd_of(s), banned))
}

/// The concatenated lowercase expansions of a character sequence.
pub open spec fn lower_seq(s: Seq<char>) -> Seq<char>
    decreases s.len(),
{
    if s.len() == 0 {
        Seq::<char>::empty()
    } else {
        lower_of(s[0]) + lower_seq(s.drop_first())
    }
}

/// Relies on unicode_normalization's `nfd`: the canonical decomposition
/// of the character stream, which depends on the characters alone.
#[verifier::external_body]
pub(crate) fn nfd_chars(v: &Vec<char>) -> (r: Vec<char>)
    ensures
        r@ == nfd_of(v@),
{
    v.iter().copied().nfd().collect()
}

/// Relies on unicode_normalization's `nfc`: the canonical recomposition
/// of the character stream, which depends on the characters alone.
#[verifier::external_body]
pub(crate) fn nfc_chars(v: &Vec<char>) -> (r: Vec<char>)
    ensures
        r@ == nfc_of(v@),
{
    v.iter().copied().nfc().collect()
}

/// Relies on char::to_lowercase: the lowercase mapping of the character,
/// documented to yield one or more characters.
#[verifier::external_body]
pub(crate) fn lowercase_char(c: char) -> (r: Vec<char>)
    ensures
        r@ == lower_of(c),
        r@.len() >= 1,
{
    c.to_lowercase().collect()
}

/// Relies on unicode_categories' `is_mark_nonspacing`: membership of the
/// Mn category, a function of the character alone.
#[verifier::external_body]
pub(crate) fn char_is_mark_nonspacing(c: char) -> (r: bool)
    ensures
        r == spec_is_mark_nonspacing(c),
{
    c.is_mark_nonspacing()
}

/// Relies on unicode_categories' `is_punctuation`: membership of the
/// P categories, a function of the character alone.
#[verifier::external_body]
pub(crate) fn char_is_punctuation(c: char) -> (r: bool)
    ensures
        r == spec_is_punctuation(c),
{
    c.is_punctuation()
}

/// Relies on unicode_categories' `is_separator`: membership of the
/// Z categories, a function of the character alone.
#[verifier::external_body]
pub(crate) fn char_is_separator(c: char) -> (r: bool)
    ensures
        r == spec_is_separator(c),
{
    c.is_separator()
}

/// Relies on unicode_categories' `is_other`: membership of the
/// C categories, a function of the character alone.
#[verifier::external_body]
pub(crate) fn char_is_other(c: char) -> (r: bool)
    ensures
        r == spec_is_other(c),
{
    c.is_other()
}

/// Relies on str::chars: the characters of the string, in order.
#[verifier::external_body]
pub(crate) fn chars_of(s: &str) -> (r: Vec<char>)
    ensures
        r@ == s@,
{
    s.chars().collect()
}

/// Relies on String's FromIterator impl over chars: collecting the
/// characters in order.
#[verifier::external_body]
pub(crate) fn string_from_chars(v: &Vec<char>) -> (r: String)
    ensures
        r@ == v@,
{
    v.iter().collect()
}

/// Whether the matcher may skip this character inside a match.
pub(crate) fn skippable_char(c: char) -> (r: bool)
    ensures
        r == spec_skippable(c),
{
    char_is_punctuation(c) || char_is_separator(c) || char_is_other(c)
}

/// Linear membership test in a character list.
pub(crate) fn contains_char(v: &Vec<char>, c: char) -> (r: bool)
    ensures
        r == v@.contains(c),
{
    let mut i: usize = 0;
    while i < v.len()
        invariant
            i <= v@.len(),
            forall|k: int| 0 <= k < i ==> v@[k] != c,
        decreases v@.len() - i,
    {
        if v[i] == c {
            return true;
        }
        i += 1;
    }
    false
}

/// The canonical form of the input text: NFD decomposition, removal of
/// nonspacing marks and banned characters, NFC recomposition.
pub(crate) fn canonicalize(text: &Vec<char>, banned: &Vec<char>) -> (r: Vec<char>)
    ensures
        r@ == spec_canon(text@, banned@),
{
    let d = nfd_chars(text);
    let mut kept: Vec<char> = Vec::new();
    let mut i: usize = 0;
    while i < d.len()
        invariant
            i <= d@.len(),
            kept@ == spec_filter_keep(d@.take(i as int), banned@),
        decreases d@.len() - i,
    {
        let c = d[i];
        proof {
            reveal(Seq::filter);
            assert(d@.take(i + 1).drop_last() == d@.take(i as int));
            assert(d@.take(i + 1).last() == c);
        }
        if !char_is_mark_nonspacing(c) && !contains_char(banned, c) {
            kept.push(c);
        }
        i += 1;
    }
    proof {
        assert(d@.take(d@.len() as int) == d@);
    }
    nfc_chars(&kept)
}

} // verus!
