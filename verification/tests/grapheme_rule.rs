use mordle2::dict::Dict;
use mordle2::grapheme_rule::GraphemeRule;
use mordle2::index::Index;
use roaring::RoaringBitmap;
use std::borrow::Cow;
use unicode_segmentation::UnicodeSegmentation;

fn dict_of<'a>(words: &[&'a str]) -> Dict<'a> {
    Dict::try_from_iter(
        words
            .iter()
            .map(|w| Vec::from_iter(w.graphemes(true)))
            .collect(),
    )
    .unwrap()
}

fn bm(values: &[u32]) -> RoaringBitmap {
    values.iter().copied().collect()
}

#[test]
fn not_in_word_keeps_words_without_the_grapheme() {
    let dict = dict_of(&["hello", "world", "sunny"]);
    let index = Index::from_dict(&dict).unwrap();
    // sorted: hello(0), sunny(1), world(2)
    let r = GraphemeRule::NotInWord.to_bitmap(&index, "l").unwrap();
    assert!(matches!(r, Cow::Owned(_)));
    assert_eq!(r.into_owned(), bm(&[1]));
    let r = GraphemeRule::NotInWord.to_bitmap(&index, "z").unwrap();
    assert_eq!(r.into_owned(), bm(&[0, 1, 2]));
}

#[test]
fn exact_place_count_and_count_from() {
    let dict = dict_of(&["hello", "world", "sunny"]);
    let index = Index::from_dict(&dict).unwrap();
    let r = GraphemeRule::ExactPlace { grapheme_pos: 3 }.to_bitmap(&index, "l").unwrap();
    assert!(matches!(r, Cow::Borrowed(_)));
    assert_eq!(r.into_owned(), bm(&[0, 2]));
    let r = GraphemeRule::ExactCount { count: 1 }.to_bitmap(&index, "n").unwrap();
    assert_eq!(r.into_owned(), bm(&[1]));
    let r = GraphemeRule::CountFrom { count_from: 0 }.to_bitmap(&index, "o").unwrap();
    assert_eq!(r.into_owned(), bm(&[0, 2]));
    assert!(GraphemeRule::ExactPlace { grapheme_pos: 9 }.to_bitmap(&index, "l").is_none());
    assert!(GraphemeRule::ExactCount { count: 0 }.to_bitmap(&index, "q").is_none());
}

#[test]
fn only_not_in_word_owns_its_bitmap() {
    let dict = dict_of(&["hello", "world", "sunny"]);
    let index = Index::from_dict(&dict).unwrap();
    let r = GraphemeRule::NotInWord.to_bitmap(&index, "q").unwrap();
    assert!(matches!(r, Cow::Owned(_)));
    let r = GraphemeRule::ExactCount { count: 1 }.to_bitmap(&index, "l").unwrap();
    assert!(matches!(r, Cow::Borrowed(_)));
    assert_eq!(r.into_owned(), bm(&[0]));
    let r = GraphemeRule::CountFrom { count_from: 0 }.to_bitmap(&index, "l").unwrap();
    assert!(matches!(r, Cow::Borrowed(_)));
    assert_eq!(r.into_owned(), bm(&[0, 2]));
}
