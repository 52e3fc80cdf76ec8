use mordle2::dict::{Dict, DictError};
use unicode_segmentation::UnicodeSegmentation;

fn split<'a>(words: &[&'a str]) -> Vec<Vec<&'a str>> {
    words
        .iter()
        .map(|w| Vec::from_iter(w.graphemes(true)))
        .collect()
}

#[test]
fn test_collect_from_iter() {
    let dict = Dict::try_from_iter(split(&["world", "hello", "hello", "world"])).unwrap();
    assert_eq!(dict.word_len(), 5);
    assert_eq!(
        dict.words(),
        &vec![vec!["h", "e", "l", "l", "o"], vec!["w", "o", "r", "l", "d"]]
    );
}

#[test]
fn test_collect_from_iter_zalgo() {
    let dict = Dict::try_from_iter(split(&[
        "h̛̞́͜e͉͛l̐ͅlȯ͉͔͖͝͞",
        "w̲̃o͖̜̅̍r̗̹̐̔l̝͊ď̘",
        "щ̲͋ё̢̭̍̅͜͝т̧̻̟͂̅̄к̣̘͉̀̇͝а̡̧̗̂̒̂",
        "щ̢̡̪̲͗͒̓̒ѐ̧̱̩̪̄̾̂̅͟т̰̇к̰̘̊̒а̱̰̟͔̊̆̕̚",
    ]))
    .unwrap();
    assert_eq!(dict.word_len(), 5);
    assert_eq!(dict.len(), 4);
}

#[test]
fn empty_dict() {
    let dict = Dict::try_from_iter(Vec::new()).unwrap();
    assert_eq!(dict, Default::default());
}

#[test]
fn test_word_len_mismatch() {
    assert_eq!(
        Dict::try_from_iter(split(&["hello", "word"])),
        Err(DictError::WordLenMismatch {
            expected_word_len: 5,
            actual_word_len: 4,
            word: "word".to_string(),
        })
    );
}

#[test]
fn first_mismatch_is_reported() {
    assert_eq!(
        Dict::try_from_iter(split(&["ab", "cd", "efg", "h"])),
        Err(DictError::WordLenMismatch {
            expected_word_len: 2,
            actual_word_len: 3,
            word: "efg".to_string(),
        })
    );
}

#[test]
fn order_and_repeats_do_not_matter() {
    let a = Dict::try_from_iter(split(&["cab", "abc", "bca", "abc"])).unwrap();
    let b = Dict::try_from_iter(split(&["bca", "cab", "abc"])).unwrap();
    assert_eq!(a, b);
    assert_eq!(
        a.words(),
        &vec![vec!["a", "b", "c"], vec!["b", "c", "a"], vec!["c", "a", "b"]]
    );
}

#[test]
fn words_are_sorted_by_code_point() {
    let dict = Dict::try_from_iter(split(&["яя", "ab", "Zz", "éa"])).unwrap();
    let joined: Vec<String> = dict.words().iter().map(|w| w.concat()).collect();
    assert_eq!(joined, vec!["Zz", "ab", "éa", "яя"]);
}

#[test]
fn word_index_finds_each_word() {
    let dict = Dict::try_from_iter(split(&["world", "hello", "words"])).unwrap();
    for (i, w) in dict.words().iter().enumerate() {
        assert_eq!(dict.word_index(w), Some(i));
    }
    assert_eq!(dict.word_index(&vec!["w", "o", "r", "m", "s"]), None);
}

#[test]
fn len_and_is_empty() {
    let dict = Dict::try_from_iter(split(&["one", "two"])).unwrap();
    assert_eq!(dict.len(), 2);
    assert!(!dict.is_empty());
    assert!(Dict::default().is_empty());
    assert_eq!(Dict::default().word_len(), 0);
}
