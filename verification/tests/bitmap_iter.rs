use mordle2::bitmap_iter::{BitmapIter, BitmapIterError};
use mordle2::dict::Dict;
use roaring::RoaringBitmap;
use unicode_segmentation::UnicodeSegmentation;

fn dict_of<'a>(words: &[&'a str]) -> Dict<'a> {
    Dict::try_from_iter(
        words
            .iter()
            .map(|w| Vec::from_iter(w.graphemes(true)))
            .collect(),
    )
    .unwrap()
}

fn collect_all<'s, 'd>(mut it: BitmapIter<'s, 'd, '_>) -> Vec<&'d Vec<&'s str>> {
    let mut out = Vec::new();
    while let Some(w) = it.next() {
        out.push(w);
    }
    out
}

#[test]
fn test_bitmap_iter() {
    let dict = dict_of(&["world", "hello"]);
    let bitmap = RoaringBitmap::from([0, 1]);
    assert_eq!(
        collect_all(BitmapIter::try_from_dict(&dict, &bitmap).unwrap()),
        vec![
            &vec!["h", "e", "l", "l", "o"],
            &vec!["w", "o", "r", "l", "d"],
        ]
    );
}

#[test]
fn test_empty_bitmap_iter() {
    let dict = dict_of(&["world", "hello"]);
    let bitmap = RoaringBitmap::new();
    assert_eq!(BitmapIter::try_from_dict(&dict, &bitmap).unwrap().next(), None);
}

#[test]
fn test_invalid_bitmap() {
    let dict = dict_of(&["world", "hello"]);
    let bitmap = RoaringBitmap::from([2]);
    assert_eq!(
        BitmapIter::try_from_dict(&dict, &bitmap).err().unwrap(),
        BitmapIterError::DictLengthMismatch {
            dict_len: 2,
            max_bitmap_value: 2
        }
    );
}

#[test]
fn test_bitmap_on_dict_with_duplicates() {
    let dict = dict_of(&["world", "hello", "hello", "world"]);
    let bitmap = RoaringBitmap::from([0, 1]);
    assert_eq!(
        collect_all(BitmapIter::try_from_dict(&dict, &bitmap).unwrap()),
        vec![
            &vec!["h", "e", "l", "l", "o"],
            &vec!["w", "o", "r", "l", "d"],
        ]
    );
}

#[test]
fn walks_from_both_ends() {
    let dict = dict_of(&["aa", "bb", "cc", "dd", "ee"]);
    let bitmap = RoaringBitmap::from([0, 2, 4]);
    let mut it = dict.try_bitmap_iter(&bitmap).unwrap();
    assert_eq!(it.size_hint(), (3, Some(3)));
    assert_eq!(it.next_back(), Some(&vec!["e", "e"]));
    assert_eq!(it.next(), Some(&vec!["a", "a"]));
    assert_eq!(it.next_back(), Some(&vec!["c", "c"]));
    assert_eq!(it.next(), None);
    assert_eq!(it.next_back(), None);
}

#[test]
fn nth_skips_and_count_counts() {
    let dict = dict_of(&["aa", "bb", "cc", "dd", "ee"]);
    let bitmap = RoaringBitmap::from([0, 1, 2, 3, 4]);
    let mut it = dict.try_bitmap_iter(&bitmap).unwrap();
    assert_eq!(it.nth(1), Some(&vec!["b", "b"]));
    assert_eq!(it.nth_back(1), Some(&vec!["d", "d"]));
    assert_eq!(it.clone().count(), 1);
    assert_eq!(it.nth(5), None);
    assert_eq!(it.count(), 0);
}

#[test]
fn advancing_drops_positions_out_of_range() {
    let dict = dict_of(&["aa", "bb", "cc", "dd", "ee"]);
    let bitmap = RoaringBitmap::from([0, 1, 3, 4]);
    let mut it = dict.try_bitmap_iter(&bitmap).unwrap();
    it.advance_to_pos(2);
    it.advance_back_to_pos(3);
    assert_eq!(collect_all(it), vec![&vec!["d", "d"]]);

    let mut it = dict.try_bitmap_iter(&bitmap).unwrap();
    it.advance_to_pos(usize::MAX);
    assert_eq!(it.next(), None);

    let mut it = dict.try_bitmap_iter(&bitmap).unwrap();
    it.advance_back_to_pos(usize::MAX);
    assert_eq!(it.count(), 4);
}
