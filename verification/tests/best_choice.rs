use mordle2::best_choice::{choice_step, tally_check_results, ChoiceStep};
use mordle2::check_result::CheckResult;
use mordle2::dict::Dict;
use mordle2::order::Order;
use roaring::RoaringBitmap;
use unicode_segmentation::UnicodeSegmentation;

fn dict_of<'a>(words: &[&'a str]) -> Dict<'a> {
    Dict::try_from_iter(
        words
            .iter()
            .map(|w| Vec::from_iter(w.graphemes(true)))
            .collect(),
    )
    .unwrap()
}

#[test]
fn tally_splits_hidden_words_by_result() {
    let dict = dict_of(&["abc", "abd", "xyz"]);
    let mask = RoaringBitmap::from([0, 1, 2]);
    let hidden = dict.try_bitmap_iter(&mask).unwrap();
    let suggestion = vec!["a", "b", "e"];
    let mut tally = tally_check_results(&hidden, &suggestion);
    tally.sort_by_key(|(_, c)| *c);
    // "abc" and "abd" both give ++-; "xyz" gives ---
    assert_eq!(tally.len(), 2);
    assert_eq!(tally[0], (vec![CheckResult::NotInWord, CheckResult::NotInWord, CheckResult::NotInWord], 0));
    assert_eq!(tally[1], (vec![CheckResult::ExactPlace, CheckResult::ExactPlace, CheckResult::NotInWord], 1));
}

#[test]
fn tally_of_no_hidden_words_is_empty() {
    let dict = dict_of(&["abc"]);
    let mask = RoaringBitmap::new();
    let hidden = dict.try_bitmap_iter(&mask).unwrap();
    assert!(tally_check_results(&hidden, &["a", "b", "c"]).is_empty());
}

#[test]
fn first_suggestion_becomes_the_best() {
    assert_eq!(choice_step(None, 0, None), ChoiceStep::Replace);
    assert_eq!(choice_step(None, 3, Some(Order::Less)), ChoiceStep::Replace);
}

#[test]
fn more_groups_win_and_fewer_lose() {
    assert_eq!(choice_step(Some(2), 3, None), ChoiceStep::Replace);
    assert_eq!(choice_step(Some(2), 3, Some(Order::Less)), ChoiceStep::Replace);
    assert_eq!(choice_step(Some(4), 3, Some(Order::Greater)), ChoiceStep::Keep);
}

#[test]
fn equal_groups_go_by_variance() {
    assert_eq!(choice_step(Some(3), 3, Some(Order::Greater)), ChoiceStep::Replace);
    assert_eq!(choice_step(Some(3), 3, Some(Order::Equal)), ChoiceStep::Join);
    assert_eq!(choice_step(Some(3), 3, Some(Order::Less)), ChoiceStep::Keep);
    assert_eq!(choice_step(Some(3), 3, None), ChoiceStep::Keep);
}

#[test]
fn best_keeps_the_most_groups_over_a_run() {
    let counts = [2usize, 4, 3, 4, 4, 1];
    let orders = [None, None, None, Some(Order::Equal), Some(Order::Less), None];
    let mut best: Option<(usize, Vec<usize>)> = None;
    for (i, (&c, &o)) in counts.iter().zip(orders.iter()).enumerate() {
        best = match choice_step(best.as_ref().map(|b| b.0), c, o) {
            ChoiceStep::Replace => Some((c, vec![i])),
            ChoiceStep::Join => best.map(|(bc, mut ps)| {
                ps.push(i);
                (bc, ps)
            }),
            ChoiceStep::Keep => best,
        };
    }
    assert_eq!(best, Some((4, vec![1, 3])));
}
