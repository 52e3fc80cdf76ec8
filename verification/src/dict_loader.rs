//! Making the dictionary out of a text: its words, split into graphemes.
use crate::dict::{dict_outcome, Dict, DictError};
use crate::text;
use std::path::PathBuf;
use vstd::prelude::*;

verus! {

#[verifier::external_type_specification]
#[verifier::external_body]
pub struct ExPathBuf(PathBuf);

#[verifier::external_type_specification]
#[verifier::external_body]
pub struct ExIoError(std::io::Error);

/// Why no dictionary could be loaded.
#[derive(Debug)]
pub enum DictLoaderError {
    DictError(DictError),
    IoError { file: PathBuf, source: std::io::Error },
}

/// The graphemes of each word of a text.
pub open spec fn words_graphemes(content: Seq<char>) -> Seq<Seq<Seq<char>>> {
    text::uax29_words(content).map_values(|w: Seq<char>| text::extended_graphemes(w))
}

/// Makes the dictionary of the words of a text (UAX#29 words, each split
/// into extended grapheme clusters).
pub fn load(content: &str) -> (r: Result<Dict<'_>, DictLoaderError>)
    ensures
        match r {
            Ok(d) => dict_outcome(words_graphemes(content@), Ok(d)),
            Err(DictLoaderError::DictError(e)) => dict_outcome(words_graphemes(content@), Err(e)),
            Err(DictLoaderError::IoError { .. }) => false,
        },
{
    let words = text::unicode_words(content);
    let ghost wv = words.deep_view();
    let mut split: Vec<Vec<&str>> = Vec::new();
    let mut i: usize = 0;
    while i < words.len()
        invariant
            wv == words.deep_view(),
            wv == text::uax29_words(content@),
            i <= words@.len(),
            split.deep_view() == words_graphemes(content@).take(i as int),
        decreases words@.len() - i,
    {
        let word = text::graphemes(words[i]);
        proof {
            assert(wv[i as int] == words@[i as int]@);
        }
        let ghost before = split.deep_view();
        split.push(word);
        proof {
            assert(split.deep_view() =~= before.push(split@[i as int].deep_view()));
            assert(split@[i as int].deep_view() == text::extended_graphemes(wv[i as int]));
            assert(words_graphemes(content@)[i as int] == text::extended_graphemes(wv[i as int]));
            assert(split.deep_view() =~= words_graphemes(content@).take(i as int + 1));
        }
        i += 1;
    }
    proof {
        assert(words_graphemes(content@).take(i as int) =~= words_graphemes(content@));
    }
    match Dict::try_from_iter(split) {
        Ok(d) => Ok(d),
        Err(e) => Err(DictLoaderError::DictError(e)),
    }
}

} // verus!
