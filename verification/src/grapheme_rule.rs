//! What is known of one grapheme of the hidden word, and the dictionary
//! words that agree with it.
use crate::bitmap::{bitmap_values, subtract};
use crate::dict::all_of_len;
use crate::index::{
    grapheme_in_words, lemma_at_position_counts, lemma_count_from_split,
    lemma_count_from_zero_is_containing, occurrences, words_with_at, words_with_count,
    words_with_count_from, Index,
};
use roaring::RoaringBitmap;
use std::borrow::Cow;
use vstd::prelude::*;

verus! {

/// A fact about one grapheme of the hidden word.
#[derive(Debug, Eq, PartialEq, Copy, Clone, Hash, Structural)]
pub enum GraphemeRule {
    NotInWord,
    ExactPlace { grapheme_pos: usize },
    ExactCount { count: usize },
    CountFrom { count_from: usize },
}

/// The values of a bitmap, borrowed or owned.
pub open spec fn cow_values(c: Cow<RoaringBitmap>) -> Set<u32> {
    match c {
        Cow::Borrowed(b) => bitmap_values(*b),
        Cow::Owned(o) => bitmap_values(o),
    }
}

/// The words (positions among `ws`, words of `n` graphemes) that agree with
/// the rule for grapheme `g`, when the index can tell: every word lacking
/// `g`; the words holding `g` at a position; exactly `count + 1` times; at
/// least `count_from + 1` times. `None` when no word holds `g` or the
/// position or count is not below the word length (not for `NotInWord`).
pub open spec fn rule_words(rule: GraphemeRule, ws: Seq<Seq<Seq<char>>>, n: nat, g: Seq<char>) -> Option<Set<u32>> {
    match rule {
        GraphemeRule::NotInWord => Some(
            if grapheme_in_words(ws, g) && 0 < n {
                Set::new(|x: u32| (x as int) < ws.len()).difference(words_with_count_from(ws, g, 0))
            } else {
                Set::new(|x: u32| (x as int) < ws.len())
            },
        ),
        GraphemeRule::ExactPlace { grapheme_pos } => if grapheme_in_words(ws, g) && grapheme_pos < n {
            Some(words_with_at(ws, g, grapheme_pos as int))
        } else {
            None
        },
        GraphemeRule::ExactCount { count } => if grapheme_in_words(ws, g) && count < n {
            Some(words_with_count(ws, g, count as int))
        } else {
            None
        },
        GraphemeRule::CountFrom { count_from } => if grapheme_in_words(ws, g) && count_from < n {
            Some(words_with_count_from(ws, g, count_from as int))
        } else {
            None
        },
    }
}

/// The words that agree with `NotInWord` for a grapheme are exactly the
/// words that do not hold it.
pub proof fn lemma_not_in_word_is_complement(ws: Seq<Seq<Seq<char>>>, n: nat, g: Seq<char>)
    requires
        all_of_len(ws, n),
    ensures
        rule_words(GraphemeRule::NotInWord, ws, n, g) == Some(Set::new(|x: u32| (x as int) < ws.len() && !ws[x as int].contains(g))),
{
    lemma_count_from_zero_is_containing(ws, g);
    if grapheme_in_words(ws, g) && 0 < n {
        assert(Set::new(|x: u32| (x as int) < ws.len()).difference(words_with_count_from(ws, g, 0)) =~= Set::new(|x: u32| (x as int) < ws.len() && !ws[x as int].contains(g)));
    } else {
        assert forall|x: u32| (x as int) < ws.len() implies !ws[x as int].contains(g) by {
            if ws[x as int].contains(g) {
                let p = choose|p: int| 0 <= p < ws[x as int].len() && ws[x as int][p] == g;
                assert(ws[x as int][p] == g);
            }
        }
        assert(Set::new(|x: u32| (x as int) < ws.len()) =~= Set::new(|x: u32| (x as int) < ws.len() && !ws[x as int].contains(g)));
    }
}

/// An `ExactPlace` rule can be told exactly when some word holds the
/// grapheme and the position lies inside the words; then the words that
/// agree with it are those whose grapheme at that position is the given one.
pub proof fn lemma_exact_place_words(ws: Seq<Seq<Seq<char>>>, n: nat, g: Seq<char>, pos: usize)
    requires
        all_of_len(ws, n),
    ensures
        rule_words(GraphemeRule::ExactPlace { grapheme_pos: pos }, ws, n, g) is Some <==> (grapheme_in_words(ws, g) && pos < n),
        match rule_words(GraphemeRule::ExactPlace { grapheme_pos: pos }, ws, n, g) {
            Some(agree) => forall|x: u32| #[trigger] agree.contains(x) <==> ((x as int) < ws.len() && ws[x as int][pos as int] == g),
            None => true,
        },
{
    if grapheme_in_words(ws, g) && pos < n {
        assert forall|x: u32| (x as int) < ws.len() implies ws[x as int].len() == n by {}
    }
}

/// An `ExactCount` rule can be told exactly when some word holds the
/// grapheme and the count lies below the word length; then the words that
/// agree with it are those holding the grapheme exactly `count + 1` times.
pub proof fn lemma_exact_count_words(ws: Seq<Seq<Seq<char>>>, n: nat, g: Seq<char>, count: usize)
    requires
        all_of_len(ws, n),
    ensures
        rule_words(GraphemeRule::ExactCount { count }, ws, n, g) is Some <==> (grapheme_in_words(ws, g) && count < n),
        match rule_words(GraphemeRule::ExactCount { count }, ws, n, g) {
            Some(agree) => forall|x: u32| #[trigger] agree.contains(x) <==> ((x as int) < ws.len() && occurrences(ws[x as int], g) == count + 1),
            None => true,
        },
{
}

/// A `CountFrom` rule can be told exactly when some word holds the grapheme
/// and the count lies below the word length; then the words that agree with
/// it are those holding the grapheme at least `count_from + 1` times.
pub proof fn lemma_count_from_words(ws: Seq<Seq<Seq<char>>>, n: nat, g: Seq<char>, count_from: usize)
    requires
        all_of_len(ws, n),
    ensures
        rule_words(GraphemeRule::CountFrom { count_from }, ws, n, g) is Some <==> (grapheme_in_words(ws, g) && count_from < n),
        match rule_words(GraphemeRule::CountFrom { count_from }, ws, n, g) {
            Some(agree) => forall|x: u32| #[trigger] agree.contains(x) <==> ((x as int) < ws.len() && occurrences(ws[x as int], g) >= count_from + 1),
            None => true,
        },
{
}

/// The words agreeing with "at least `c + 1` times" split into those
/// agreeing with "exactly `c + 1` times" and those agreeing with "at least
/// `c + 2` times", which share no word; so the "at least" sets shrink as the
/// count grows.
pub proof fn lemma_count_rules_split(ws: Seq<Seq<Seq<char>>>, n: nat, g: Seq<char>, c: usize, next: usize)
    requires
        all_of_len(ws, n),
        grapheme_in_words(ws, g),
        next == c + 1,
        next < n,
    ensures
        rule_words(GraphemeRule::ExactCount { count: c }, ws, n, g) is Some,
        rule_words(GraphemeRule::CountFrom { count_from: c }, ws, n, g) is Some,
        rule_words(GraphemeRule::CountFrom { count_from: next }, ws, n, g) is Some,
        rule_words(GraphemeRule::ExactCount { count: c }, ws, n, g)->0.disjoint(
            rule_words(GraphemeRule::CountFrom { count_from: next }, ws, n, g)->0,
        ),
        rule_words(GraphemeRule::CountFrom { count_from: c }, ws, n, g)->0
            == rule_words(GraphemeRule::ExactCount { count: c }, ws, n, g)->0.union(
            rule_words(GraphemeRule::CountFrom { count_from: next }, ws, n, g)->0,
        ),
        rule_words(GraphemeRule::CountFrom { count_from: next }, ws, n, g)->0.subset_of(
            rule_words(GraphemeRule::CountFrom { count_from: c }, ws, n, g)->0,
        ),
{
    lemma_count_from_split(ws, g, c as int);
}

/// Every word agreeing with an `ExactPlace` rule also agrees with "at least
/// once".
pub proof fn lemma_exact_place_holds_grapheme(ws: Seq<Seq<Seq<char>>>, n: nat, g: Seq<char>, pos: usize)
    requires
        all_of_len(ws, n),
        grapheme_in_words(ws, g),
        pos < n,
    ensures
        rule_words(GraphemeRule::ExactPlace { grapheme_pos: pos }, ws, n, g)->0.subset_of(
            rule_words(GraphemeRule::CountFrom { count_from: 0 }, ws, n, g)->0,
        ),
{
    lemma_at_position_counts(ws, g, pos as int);
}

impl GraphemeRule {
    /// The words of the index's dictionary that agree with this rule for the
    /// grapheme: a bitmap of its own for `NotInWord`, for the other rules one
    /// borrowed from the index.
    pub fn to_bitmap<'i>(&self, index: &'i Index, grapheme: &str) -> (r: Option<Cow<'i, RoaringBitmap>>)
        ensures
            match r {
                Some(c) => rule_words(*self, index.spec_dict()@, index.spec_dict().spec_word_len() as nat, grapheme@)
                    == Some(cow_values(c)),
                None => rule_words(*self, index.spec_dict()@, index.spec_dict().spec_word_len() as nat, grapheme@) is None,
            },
            match r {
                Some(Cow::Owned(o)) => *self == GraphemeRule::NotInWord,
                Some(Cow::Borrowed(b)) => *self != GraphemeRule::NotInWord,
                None => *self != GraphemeRule::NotInWord,
            },
    {
        match self {
            GraphemeRule::NotInWord => {
                let mut result = index.full_bitmap();
                if let Some(has_grapheme) = index.get_by_grapheme_by_count_from(grapheme, 0) {
                    subtract(&mut result, has_grapheme);
                }
                Some(Cow::Owned(result))
            },
            GraphemeRule::ExactPlace { grapheme_pos } => match index.get_by_grapheme_and_pos(grapheme, *grapheme_pos) {
                Some(b) => Some(Cow::Borrowed(b)),
                None => None,
            },
            GraphemeRule::ExactCount { count } => match index.get_by_grapheme_by_count(grapheme, *count) {
                Some(b) => Some(Cow::Borrowed(b)),
                None => None,
            },
            GraphemeRule::CountFrom { count_from } => match index.get_by_grapheme_by_count_from(grapheme, *count_from) {
                Some(b) => Some(Cow::Borrowed(b)),
                None => None,
            },
        }
    }
}

} // verus!
