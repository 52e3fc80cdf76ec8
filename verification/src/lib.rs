//! Word-guessing helpers: a dictionary of words split into graphemes, the
//! scoring of a suggested word against a hidden one, and an index of the
//! dictionary by grapheme, position and count, kept in roaring bitmaps.
use vstd::prelude::*;

pub mod best_choice;
pub mod bitmap;
pub mod bitmap_iter;
pub mod check_result;
pub mod check_word;
pub mod dict;
pub mod dict_loader;
pub mod grapheme_map;
pub mod grapheme_rule;
pub mod index;
pub mod order;
pub mod rules;
pub mod text;

verus! {

/// Brings a text into NFC normal form, skipping the work when the quick check
/// already answers that it is normalized.
pub fn normalize(s: String) -> (r: String)
    ensures
        r@ == text::nfc_form(s@),
{
    if text::quick_check_is_nfc(s.as_str()) {
        s
    } else {
        text::to_nfc(s.as_str())
    }
}

} // verus!
