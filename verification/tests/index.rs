use mordle2::dict::Dict;
use mordle2::index::Index;
use roaring::RoaringBitmap;
use unicode_segmentation::UnicodeSegmentation;

fn dict_of<'a>(words: &[&'a str]) -> Dict<'a> {
    Dict::try_from_iter(
        words
            .iter()
            .map(|w| Vec::from_iter(w.graphemes(true)))
            .collect(),
    )
    .unwrap()
}

fn bm(values: &[u32]) -> RoaringBitmap {
    values.iter().copied().collect()
}

fn assert_entry(
    index: &Index,
    grapheme: &str,
    counts: [&[u32]; 5],
    counts_from: [&[u32]; 5],
    by_pos: [&[u32]; 5],
) {
    let entry = index.get_entry_by_grapheme(grapheme).unwrap();
    for i in 0..5 {
        assert_eq!(entry.counts(i), Some(&bm(counts[i])), "{grapheme} counts {i}");
        assert_eq!(entry.counts_from(i), Some(&bm(counts_from[i])), "{grapheme} counts_from {i}");
        assert_eq!(entry.get_by_pos(i), Some(&bm(by_pos[i])), "{grapheme} by_pos {i}");
    }
    assert_eq!(entry.counts(5), None);
    assert_eq!(entry.counts_from(5), None);
    assert_eq!(entry.get_by_pos(5), None);
}

#[test]
fn test_empty_dict() {
    let dict = Dict::try_from_iter(Vec::new()).unwrap();
    let index = Index::from_dict(&dict).unwrap();
    assert_eq!(index.dict(), &dict);
    assert!(index.get_entry_by_grapheme("a").is_none());
    assert!(format!("{index:?}").contains("bitmaps: []"));
    assert_eq!(index.full_bitmap(), RoaringBitmap::new());
}

#[test]
fn test_index_from_dict() {
    let dict = dict_of(&["hello", "world"]);
    let index = Index::from_dict(&dict).unwrap();
    assert_eq!(index.dict(), &dict);
    let e: &[u32] = &[];
    assert_entry(&index, "h", [&[0], e, e, e, e], [&[0], e, e, e, e], [&[0], e, e, e, e]);
    assert_entry(&index, "e", [&[0], e, e, e, e], [&[0], e, e, e, e], [e, &[0], e, e, e]);
    assert_entry(
        &index,
        "l",
        [&[1], &[0], e, e, e],
        [&[0, 1], &[0], e, e, e],
        [e, e, &[0], &[0, 1], e],
    );
    assert_entry(&index, "o", [&[0, 1], e, e, e, e], [&[0, 1], e, e, e, e], [e, &[1], e, e, &[0]]);
    assert_entry(&index, "w", [&[1], e, e, e, e], [&[1], e, e, e, e], [&[1], e, e, e, e]);
    assert_entry(&index, "r", [&[1], e, e, e, e], [&[1], e, e, e, e], [e, e, &[1], e, e]);
    assert_entry(&index, "d", [&[1], e, e, e, e], [&[1], e, e, e, e], [e, e, e, e, &[1]]);
    assert!(index.get_entry_by_grapheme("x").is_none());
}

#[test]
fn lookups_by_grapheme() {
    let dict = dict_of(&["hello", "world"]);
    let index = Index::from_dict(&dict).unwrap();
    assert_eq!(index.get_by_grapheme_by_count("l", 1), Some(&bm(&[0])));
    assert_eq!(index.get_by_grapheme_by_count_from("l", 0), Some(&bm(&[0, 1])));
    assert_eq!(index.get_by_grapheme_and_pos("o", 4), Some(&bm(&[0])));
    assert_eq!(index.get_by_grapheme_and_pos("o", 5), None);
    assert_eq!(index.get_by_grapheme_by_count("z", 0), None);
    assert_eq!(index.full_bitmap(), bm(&[0, 1]));
    assert_eq!(Index::empty_bitmap(), RoaringBitmap::new());
}

#[test]
fn words_counted_with_repeats() {
    let dict = dict_of(&["aaa", "aab", "abc", "bcd"]);
    let index = Index::from_dict(&dict).unwrap();
    // "a" three times in "aaa", twice in "aab", once in "abc"
    assert_eq!(index.get_by_grapheme_by_count("a", 0), Some(&bm(&[2])));
    assert_eq!(index.get_by_grapheme_by_count("a", 1), Some(&bm(&[1])));
    assert_eq!(index.get_by_grapheme_by_count("a", 2), Some(&bm(&[0])));
    assert_eq!(index.get_by_grapheme_by_count_from("a", 1), Some(&bm(&[0, 1])));
    assert_eq!(index.get_by_grapheme_by_count_from("a", 2), Some(&bm(&[0])));
    assert_eq!(index.get_by_grapheme_by_count_from("a", 3), None);
}
