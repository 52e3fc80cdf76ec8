use mordle2::dict::DictError;
use mordle2::dict_loader::{load, DictLoaderError};
use mordle2::normalize;

#[test]
fn loads_words_of_a_text() {
    let dict = load("world, hello; hello!\nwords 12345").unwrap();
    assert_eq!(dict.word_len(), 5);
    assert_eq!(dict.len(), 4);
    assert_eq!(dict.words()[0], vec!["1", "2", "3", "4", "5"]);
    assert_eq!(dict.words()[1], vec!["h", "e", "l", "l", "o"]);
}

#[test]
fn words_are_split_into_graphemes() {
    let dict = load("e\u{301}te\u{301} abc").unwrap();
    assert_eq!(dict.word_len(), 3);
    assert_eq!(dict.words()[0], vec!["a", "b", "c"]);
    assert_eq!(dict.words()[1], vec!["e\u{301}", "t", "e\u{301}"]);
}

#[test]
fn loader_reports_length_mismatch() {
    match load("hello word") {
        Err(DictLoaderError::DictError(DictError::WordLenMismatch {
            expected_word_len,
            actual_word_len,
            word,
        })) => {
            assert_eq!(expected_word_len, 5);
            assert_eq!(actual_word_len, 4);
            assert_eq!(word, "word");
        }
        other => panic!("unexpected {other:?}"),
    }
}

#[test]
fn empty_text_gives_empty_dict() {
    let dict = load("  ,.; ").unwrap();
    assert!(dict.is_empty());
}

#[test]
fn normalize_composes() {
    assert_eq!(normalize("e\u{301}".to_string()), "\u{e9}");
    assert_eq!(normalize("already".to_string()), "already");
}
