use mordle2::check_result::CheckResult;
use mordle2::check_word::{check_word, check_word_enumerating, check_word_hashing};
use mordle2::dict::Dict;
use unicode_segmentation::UnicodeSegmentation;

fn assert_check_word(dict: Dict, hidden: usize, suggested: usize, expected: &[CheckResult]) {
    let suggested = &dict.words()[suggested];
    let hidden = &dict.words()[hidden];

    assert_eq!(check_word(hidden, suggested), expected);
    assert_eq!(check_word_enumerating(hidden, suggested), expected);
    assert_eq!(check_word_hashing(hidden, suggested), expected);
}

fn dict_of<'a>(words: &[&'a str]) -> Dict<'a> {
    Dict::try_from_iter(
        words
            .iter()
            .map(|w| Vec::from_iter(w.graphemes(true)))
            .collect(),
    )
    .unwrap()
}

#[test]
fn test_check_word_exact() {
    let dict = dict_of(&["hello", "world"]);
    let expected = vec![CheckResult::ExactPlace; dict.word_len()];
    assert_check_word(dict, 0, 0, &expected);
}

#[test]
fn test_check_word_partial0() {
    let dict = dict_of(&["hello", "world"]);
    assert_check_word(
        dict,
        1,
        0,
        &[
            CheckResult::NotInWord,
            CheckResult::NotInWord,
            CheckResult::NotInWord,
            CheckResult::ExactPlace,
            CheckResult::InWord,
        ],
    );
}

#[test]
fn test_check_word_partial1() {
    let dict = dict_of(&["hello", "world"]);
    assert_check_word(
        dict,
        0,
        1,
        &[
            CheckResult::NotInWord,
            CheckResult::InWord,
            CheckResult::NotInWord,
            CheckResult::ExactPlace,
            CheckResult::NotInWord,
        ],
    );
}

#[test]
fn test_check_word_long_partial0() {
    let dict = dict_of(&["abcdefghjjk", "jjjnopqrstk"]);
    assert_check_word(
        dict,
        0,
        1,
        &[
            CheckResult::InWord,
            CheckResult::InWord,
            CheckResult::NotInWord,
            CheckResult::NotInWord,
            CheckResult::NotInWord,
            CheckResult::NotInWord,
            CheckResult::NotInWord,
            CheckResult::NotInWord,
            CheckResult::NotInWord,
            CheckResult::NotInWord,
            CheckResult::ExactPlace,
        ],
    );
}

#[test]
fn test_check_word_long_partial1() {
    let dict = dict_of(&["abcdefghjjk", "jjjnopqrstk"]);
    assert_check_word(
        dict,
        1,
        0,
        &[
            CheckResult::NotInWord,
            CheckResult::NotInWord,
            CheckResult::NotInWord,
            CheckResult::NotInWord,
            CheckResult::NotInWord,
            CheckResult::NotInWord,
            CheckResult::NotInWord,
            CheckResult::NotInWord,
            CheckResult::InWord,
            CheckResult::InWord,
            CheckResult::ExactPlace,
        ],
    );
}

#[test]
fn repeated_guess_grapheme_claims_only_available_copies() {
    // hidden "abbey" has two b's, both matched in place, so none is left
    // over for the other suggested b's
    let hidden = ["a", "b", "b", "e", "y"];
    let suggested = ["b", "b", "b", "b", "x"];
    let expected = [
        CheckResult::NotInWord,
        CheckResult::ExactPlace,
        CheckResult::ExactPlace,
        CheckResult::NotInWord,
        CheckResult::NotInWord,
    ];
    assert_eq!(check_word(&hidden, &suggested), expected);
    assert_eq!(check_word_enumerating(&hidden, &suggested), expected);
    assert_eq!(check_word_hashing(&hidden, &suggested), expected);
}

#[test]
fn leftover_copy_goes_to_first_suggested_grapheme() {
    // hidden "bobby": one b in place, two left over for the suggested b's
    let hidden = ["b", "o", "b", "b", "y"];
    let suggested = ["b", "b", "x", "x", "b"];
    let expected = [
        CheckResult::ExactPlace,
        CheckResult::InWord,
        CheckResult::NotInWord,
        CheckResult::NotInWord,
        CheckResult::InWord,
    ];
    assert_eq!(check_word(&hidden, &suggested), expected);
    assert_eq!(check_word_hashing(&hidden, &suggested), expected);
}

#[test]
fn earlier_suggested_copy_is_claimed_first() {
    let hidden = ["x", "y", "a"];
    let suggested = ["a", "a", "z"];
    let expected = [CheckResult::InWord, CheckResult::NotInWord, CheckResult::NotInWord];
    assert_eq!(check_word(&hidden, &suggested), expected);
    assert_eq!(check_word_hashing(&hidden, &suggested), expected);
}

#[test]
fn longer_suggestion_scores_its_extra_graphemes() {
    let hidden = ["a", "b"];
    let suggested = ["a", "c", "b"];
    let expected = [CheckResult::ExactPlace, CheckResult::NotInWord, CheckResult::InWord];
    assert_eq!(check_word(&hidden, &suggested), expected);
    assert_eq!(check_word_hashing(&hidden, &suggested), expected);
}

#[test]
fn shorter_suggestion_sees_only_paired_graphemes() {
    // the hidden "c" past the suggestion's end is not offered
    let hidden = ["a", "b", "c"];
    let suggested = ["c", "b"];
    let expected = [CheckResult::NotInWord, CheckResult::ExactPlace];
    assert_eq!(check_word(&hidden, &suggested), expected);
    assert_eq!(check_word_hashing(&hidden, &suggested), expected);
}

#[test]
fn empty_suggestion_scores_nothing() {
    let hidden = ["a"];
    let suggested: [&str; 0] = [];
    assert_eq!(check_word(&hidden, &suggested), Vec::<CheckResult>::new());
}

#[test]
fn long_words_take_the_tally_path() {
    let hidden: Vec<&str> = "abcdefghijklmnopqrstuvw".graphemes(true).collect();
    let mut suggested = hidden.clone();
    suggested.reverse();
    let r = check_word(&hidden, &suggested);
    assert_eq!(r, check_word_enumerating(&hidden, &suggested));
    assert_eq!(r[11], CheckResult::ExactPlace);
    assert_eq!(r.iter().filter(|x| **x == CheckResult::InWord).count(), 22);
}

#[test]
fn word_against_itself_is_all_in_place() {
    let w = ["ж", "у", "ж", "e\u{301}"];
    assert_eq!(check_word(&w, &w), vec![CheckResult::ExactPlace; 4]);
}
