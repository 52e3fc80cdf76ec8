//! The Unicode text operations the library relies on: grapheme and word
//! segmentation (unicode-segmentation) and NFC normalization
//! (unicode-normalization).
use unicode_normalization::{is_nfc_quick, IsNormalized, UnicodeNormalization};
use unicode_segmentation::UnicodeSegmentation;
use vstd::prelude::*;

verus! {

/// The extended grapheme clusters of a text, as unicode-segmentation splits it.
pub uninterp spec fn extended_graphemes(s: Seq<char>) -> Seq<Seq<char>>;

/// The words of a text, as unicode-segmentation splits it on UAX#29 word
/// boundaries (the pieces that hold an alphanumeric character).
pub uninterp spec fn uax29_words(s: Seq<char>) -> Seq<Seq<char>>;

/// The NFC normal form of a text, as unicode-normalization computes it.
pub uninterp spec fn nfc_form(s: Seq<char>) -> Seq<char>;

/// Whether unicode-normalization's quick check answers `IsNormalized::Yes` for a text.
pub uninterp spec fn nfc_quick_yes(s: Seq<char>) -> bool;

/// Calls `UnicodeSegmentation::graphemes(s, true)` and collects the pieces.
/// Trusted: the pieces, as char sequences, are `extended_graphemes(s@)`.
#[verifier::external_body]
pub(crate) fn graphemes<'a>(s: &'a str) -> (r: Vec<&'a str>)
    ensures
        r.deep_view() == extended_graphemes(s@),
{
    s.graphemes(true).collect()
}

/// Calls `UnicodeSegmentation::unicode_words(s)` and collects the pieces.
/// Trusted: the pieces, as char sequences, are `uax29_words(s@)`.
#[verifier::external_body]
pub(crate) fn unicode_words<'a>(s: &'a str) -> (r: Vec<&'a str>)
    ensures
        r.deep_view() == uax29_words(s@),
{
    s.unicode_words().collect()
}

/// Calls `unicode_normalization::is_nfc_quick(s.chars())` and tells whether it
/// answered `Yes`. Trusted: the answer is `nfc_quick_yes(s@)`, and a `Yes`
/// means the text is its own NFC form, as the crate documents ("the text is
/// definitely normalized").
#[verifier::external_body]
pub(crate) fn quick_check_is_nfc(s: &str) -> (r: bool)
    ensures
        r == nfc_quick_yes(s@),
        r ==> nfc_form(s@) == s@,
{
    match is_nfc_quick(s.chars()) {
        IsNormalized::Yes => true,
        IsNormalized::No => false,
        IsNormalized::Maybe => false,
    }
}

/// Calls `UnicodeNormalization::nfc` on the text and collects the chars.
/// Trusted: the result is `nfc_form(s@)`.
#[verifier::external_body]
pub(crate) fn to_nfc(s: &str) -> (r: String)
    ensures
        r@ == nfc_form(s@),
{
    s.nfc().collect()
}

} // verus!
