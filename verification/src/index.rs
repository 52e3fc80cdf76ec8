//! An index of the dictionary by grapheme: for each grapheme that occurs in
//! some word, the words that hold it at each position, the words that hold
//! it a given number of times, and the words that hold it at least a given
//! number of times, all as bitmaps of word positions.
use crate::bitmap::{
    bitmap_values, copy_bitmap, insert, insert_range_below, new_bitmap, optimize, union,
    values_ascending,
};
use crate::dict::{all_of_len, Dict};
use crate::grapheme_map::{
    has_key, keys_sorted, lemma_insert_sorted, lemma_keys_distinct, search_grapheme,
};
use roaring::RoaringBitmap;
use std::collections::HashMap;
use std::num::TryFromIntError;
use vstd::prelude::*;

verus! {

broadcast use vstd::std_specs::hash::group_hash_axioms;

/// How many of the first `n` graphemes of `word` equal `g`.
pub open spec fn occurrences_upto(word: Seq<Seq<char>>, g: Seq<char>, n: int) -> nat
    decreases n,
{
    if n <= 0 {
        0
    } else {
        occurrences_upto(word, g, n - 1) + if word[n - 1] == g {
            1nat
        } else {
            0nat
        }
    }
}

/// How many graphemes of `word` equal `g`.
pub open spec fn occurrences(word: Seq<Seq<char>>, g: Seq<char>) -> nat {
    occurrences_upto(word, g, word.len() as int)
}

/// The words that hold `g` at position `p`.
pub open spec fn words_with_at(ws: Seq<Seq<Seq<char>>>, g: Seq<char>, p: int) -> Set<u32> {
    Set::new(|w: u32| (w as int) < ws.len() && 0 <= p < ws[w as int].len() && ws[w as int][p] == g)
}

/// The words that hold `g` exactly `c + 1` times.
pub open spec fn words_with_count(ws: Seq<Seq<Seq<char>>>, g: Seq<char>, c: int) -> Set<u32> {
    Set::new(|w: u32| (w as int) < ws.len() && occurrences(ws[w as int], g) == c + 1)
}

/// The words that hold `g` at least `c + 1` times.
pub open spec fn words_with_count_from(ws: Seq<Seq<Seq<char>>>, g: Seq<char>, c: int) -> Set<u32> {
    Set::new(|w: u32| (w as int) < ws.len() && occurrences(ws[w as int], g) >= c + 1)
}

/// Some word holds `g`.
pub open spec fn grapheme_in_words(ws: Seq<Seq<Seq<char>>>, g: Seq<char>) -> bool {
    exists|w: int, p: int| 0 <= w < ws.len() && 0 <= p < ws[w].len() && #[trigger] ws[w][p] == g
}

/// The bitmaps of one grapheme.
#[derive(Debug, PartialEq)]
pub struct IndexEntry {
    counts: Vec<RoaringBitmap>,
    counts_from: Vec<RoaringBitmap>,
    by_pos: Vec<RoaringBitmap>,
}

/// The sets of values of a list of bitmaps.
pub open spec fn sets_of(bs: Seq<RoaringBitmap>) -> Seq<Set<u32>> {
    bs.map_values(|b: RoaringBitmap| bitmap_values(b))
}

impl IndexEntry {
    /// Per count `c`, the words that hold the grapheme `c + 1` times.
    pub closed spec fn count_sets(&self) -> Seq<Set<u32>> {
        sets_of(self.counts@)
    }

    /// Per count `c`, the words that hold the grapheme at least `c + 1` times.
    pub closed spec fn count_from_sets(&self) -> Seq<Set<u32>> {
        sets_of(self.counts_from@)
    }

    /// Per position, the words that hold the grapheme there.
    pub closed spec fn pos_sets(&self) -> Seq<Set<u32>> {
        sets_of(self.by_pos@)
    }

    /// An entry for words of `word_len` graphemes, with every bitmap empty.
    fn new(word_len: usize) -> (e: IndexEntry)
        ensures
            e.counts@.len() == word_len,
            e.counts_from@.len() == word_len,
            e.by_pos@.len() == word_len,
            forall|i: int| 0 <= i < word_len ==> bitmap_values(#[trigger] e.counts@[i]) == Set::<u32>::empty(),
            forall|i: int| 0 <= i < word_len ==> bitmap_values(#[trigger] e.counts_from@[i]) == Set::<u32>::empty(),
            forall|i: int| 0 <= i < word_len ==> bitmap_values(#[trigger] e.by_pos@[i]) == Set::<u32>::empty(),
    {
        IndexEntry {
            counts: empty_bitmaps(word_len),
            counts_from: empty_bitmaps(word_len),
            by_pos: empty_bitmaps(word_len),
        }
    }
}

/// `n` empty bitmaps.
fn empty_bitmaps(n: usize) -> (r: Vec<RoaringBitmap>)
    ensures
        r@.len() == n,
        forall|i: int| 0 <= i < n ==> bitmap_values(#[trigger] r@[i]) == Set::<u32>::empty(),
{
    let mut r: Vec<RoaringBitmap> = Vec::new();
    let mut i: usize = 0;
    while i < n
        invariant
            i <= n,
            r@.len() == i,
            forall|k: int| 0 <= k < i ==> bitmap_values(#[trigger] r@[k]) == Set::<u32>::empty(),
        decreases n - i,
    {
        r.push(new_bitmap());
        i += 1;
    }
    r
}

/// Word `x`, position `q` comes before word `w`, position `p`.
spec fn before(x: int, q: int, w: int, p: int) -> bool {
    x < w || (x == w && q < p)
}

/// The words before word `w`, position `p` that hold `g` at position `q`.
spec fn words_with_at_before(
    ws: Seq<Seq<Seq<char>>>,
    g: Seq<char>,
    q: int,
    w: int,
    p: int,
) -> Set<u32> {
    Set::new(
        |x: u32|
            (x as int) < ws.len() && 0 <= q < ws[x as int].len() && ws[x as int][q] == g && before(
                x as int,
                q,
                w,
                p,
            ),
    )
}

/// Some word before word `w`, position `p` holds `g`.
spec fn grapheme_before(ws: Seq<Seq<Seq<char>>>, g: Seq<char>, w: int, p: int) -> bool {
    exists|x: int, q: int|
        0 <= x < ws.len() && 0 <= q < ws[x].len() && #[trigger] ws[x][q] == g && before(x, q, w, p)
}

/// The positional bitmaps of an entry for `g` cover the words before word
/// `w`, position `p`; its count bitmaps are still empty.
spec fn entry_partial(e: IndexEntry, ws: Seq<Seq<Seq<char>>>, n: nat, g: Seq<char>, w: int, p: int) -> bool {
    &&& e.counts@.len() == n
    &&& e.counts_from@.len() == n
    &&& e.by_pos@.len() == n
    &&& forall|i: int| 0 <= i < n ==> bitmap_values(#[trigger] e.counts@[i]) == Set::<u32>::empty()
    &&& forall|i: int| 0 <= i < n ==> bitmap_values(#[trigger] e.counts_from@[i]) == Set::<u32>::empty()
    &&& forall|q: int| 0 <= q < n ==> bitmap_values(#[trigger] e.by_pos@[q]) == words_with_at_before(ws, g, q, w, p)
}

/// The entries cover exactly the graphemes before word `w`, position `p`.
spec fn entries_partial(es: Seq<(&str, IndexEntry)>, ws: Seq<Seq<Seq<char>>>, n: nat, w: int, p: int) -> bool {
    &&& keys_sorted(es)
    &&& forall|k: int| 0 <= k < es.len() ==> grapheme_before(ws, (#[trigger] es[k]).0@, w, p)
    &&& forall|k: int| 0 <= k < es.len() ==> entry_partial((#[trigger] es[k]).1, ws, n, es[k].0@, w, p)
    &&& forall|g: Seq<char>| grapheme_before(ws, g, w, p) ==> #[trigger] has_key(es, g)
}

proof fn lemma_next_word(es: Seq<(&str, IndexEntry)>, ws: Seq<Seq<Seq<char>>>, n: nat, w: int)
    requires
        all_of_len(ws, n),
        0 <= w < ws.len(),
        entries_partial(es, ws, n, w, n as int),
    ensures
        entries_partial(es, ws, n, w + 1, 0),
{
    assert forall|g: Seq<char>| grapheme_before(ws, g, w, n as int) == grapheme_before(ws, g, w + 1, 0) by {
        if grapheme_before(ws, g, w + 1, 0) {
            let (x, q) = choose|x: int, q: int|
                0 <= x < ws.len() && 0 <= q < ws[x].len() && #[trigger] ws[x][q] == g && before(x, q, w + 1, 0);
            assert(ws[x].len() == n);
            assert(before(x, q, w, n as int));
        }
    }
    assert forall|k: int| 0 <= k < es.len() implies entry_partial((#[trigger] es[k]).1, ws, n, es[k].0@, w + 1, 0) by {
        assert(entry_partial(es[k].1, ws, n, es[k].0@, w, n as int));
        assert forall|q: int| 0 <= q < n implies bitmap_values(#[trigger] es[k].1.by_pos@[q]) == words_with_at_before(ws, es[k].0@, q, w + 1, 0) by {
            assert(words_with_at_before(ws, es[k].0@, q, w, n as int) =~= words_with_at_before(ws, es[k].0@, q, w + 1, 0));
        }
    }
}

pub proof fn lemma_occurrences_bound(word: Seq<Seq<char>>, g: Seq<char>, n: int)
    requires
        0 <= n,
    ensures
        occurrences_upto(word, g, n) <= n,
    decreases n,
{
    if n > 0 {
        lemma_occurrences_bound(word, g, n - 1);
    }
}

/// How many of the first `p` sets hold `w`.
pub open spec fn in_count(sets: Seq<Set<u32>>, w: u32, p: int) -> nat
    decreases p,
{
    if p <= 0 {
        0
    } else {
        in_count(sets, w, p - 1) + if sets[p - 1].contains(w) {
            1nat
        } else {
            0nat
        }
    }
}

/// The values held by exactly `k + 1` of the sets.
pub open spec fn held_exactly(sets: Seq<Set<u32>>, k: int) -> Set<u32> {
    Set::new(|w: u32| in_count(sets, w, sets.len() as int) == k + 1)
}

/// The union of the sets from index `k` on.
pub open spec fn union_from(sets: Seq<Set<u32>>, k: int) -> Set<u32>
    decreases sets.len() - k,
{
    if 0 <= k < sets.len() {
        sets[k].union(union_from(sets, k + 1))
    } else {
        Set::empty()
    }
}

/// No value is held by more of the first `p` sets than `p`.
pub proof fn lemma_in_count_bound(sets: Seq<Set<u32>>, w: u32, p: int)
    requires
        0 <= p,
    ensures
        in_count(sets, w, p) <= p,
    decreases p,
{
    if p > 0 {
        lemma_in_count_bound(sets, w, p - 1);
    }
}

/// Counting over more sets never counts less.
pub proof fn lemma_in_count_grows(sets: Seq<Set<u32>>, w: u32, a: int, b: int)
    requires
        0 <= a <= b,
    ensures
        in_count(sets, w, a) <= in_count(sets, w, b),
    decreases b - a,
{
    if a < b {
        lemma_in_count_grows(sets, w, a, b - 1);
    }
}

/// How often word `x` holds `g` among its first `p` graphemes (none for a
/// position past the dictionary).
spec fn count_before(ws: Seq<Seq<Seq<char>>>, g: Seq<char>, x: u32, p: int) -> nat {
    if (x as int) < ws.len() {
        occurrences_upto(ws[x as int], g, p)
    } else {
        0
    }
}

/// Where the sets are the positional sets of `g` in words of `n` graphemes,
/// a word is in as many of the first `p` sets as it holds `g` among its first
/// `p` graphemes.
proof fn lemma_in_count_of_words(sets: Seq<Set<u32>>, ws: Seq<Seq<Seq<char>>>, g: Seq<char>, n: nat, x: u32, p: int)
    requires
        all_of_len(ws, n),
        sets.len() == n,
        forall|q: int| 0 <= q < n ==> #[trigger] sets[q] == words_with_at(ws, g, q),
        0 <= p <= n,
    ensures
        in_count(sets, x, p) == count_before(ws, g, x, p),
    decreases p,
{
    if p > 0 {
        lemma_in_count_of_words(sets, ws, g, n, x, p - 1);
        assert(sets[p - 1] == words_with_at(ws, g, p - 1));
        if (x as int) < ws.len() {
            assert(ws[x as int].len() == n);
        }
    }
}

/// Where the sets are the positional sets of `g` in words of `n` graphemes,
/// the values held by exactly `c + 1` of them are the words holding `g`
/// exactly `c + 1` times.
pub proof fn lemma_held_exactly_of_words(sets: Seq<Set<u32>>, ws: Seq<Seq<Seq<char>>>, g: Seq<char>, n: nat, c: int)
    requires
        all_of_len(ws, n),
        sets.len() == n,
        forall|q: int| 0 <= q < n ==> #[trigger] sets[q] == words_with_at(ws, g, q),
        0 <= c,
    ensures
        held_exactly(sets, c) == words_with_count(ws, g, c),
{
    assert forall|x: u32| held_exactly(sets, c).contains(x) <==> words_with_count(ws, g, c).contains(x) by {
        lemma_in_count_of_words(sets, ws, g, n, x, n as int);
        if (x as int) < ws.len() {
            assert(ws[x as int].len() == n);
        }
    }
    assert(held_exactly(sets, c) =~= words_with_count(ws, g, c));
}

/// Where the sets are the count sets of `g` in words of `n` graphemes, their
/// union from count `k` on is the set of words holding `g` at least `k + 1`
/// times.
pub proof fn lemma_union_from_counts(sets: Seq<Set<u32>>, ws: Seq<Seq<Seq<char>>>, g: Seq<char>, n: nat, k: int)
    requires
        all_of_len(ws, n),
        sets.len() == n,
        forall|c: int| 0 <= c < n ==> #[trigger] sets[c] == words_with_count(ws, g, c),
        0 <= k <= n,
    ensures
        union_from(sets, k) == words_with_count_from(ws, g, k),
    decreases n - k,
{
    if k == n {
        assert forall|x: u32| (x as int) < ws.len() implies occurrences(ws[x as int], g) <= n by {
            lemma_occurrences_bound(ws[x as int], g, ws[x as int].len() as int);
        }
        assert(words_with_count_from(ws, g, k) =~= Set::<u32>::empty());
    } else {
        lemma_union_from_counts(sets, ws, g, n, k + 1);
        lemma_count_from_split(ws, g, k);
        assert(sets[k] == words_with_count(ws, g, k));
    }
}

/// The tally maps each word with a positive count `cnt` to one less than
/// that count, and holds no other word.
spec fn tally_is(tally: Map<u32, usize>, cnt: spec_fn(u32) -> nat) -> bool {
    &&& forall|x: u32| #[trigger] tally.contains_key(x) <==> cnt(x) > 0
    &&& forall|x: u32| #[trigger] tally.contains_key(x) ==> tally[x] + 1 == cnt(x)
}

impl IndexEntry {
    /// Fills the empty count bitmaps from the positional bitmaps: a word goes
    /// into `counts[k]` when exactly `k + 1` positional bitmaps hold it. The
    /// dictionary gives the tally's capacity.
    fn fill_counts(&mut self, dict: &Dict)
        requires
            old(self).counts@.len() == old(self).by_pos@.len(),
            forall|i: int| 0 <= i < old(self).counts@.len() ==> bitmap_values(#[trigger] old(self).counts@[i]) == Set::<u32>::empty(),
        ensures
            final(self).counts_from == old(self).counts_from,
            final(self).pos_sets() == old(self).pos_sets(),
            final(self).counts@.len() == old(self).counts@.len(),
            forall|k: int| 0 <= k < old(self).counts@.len() ==> bitmap_values(#[trigger] final(self).counts@[k]) == held_exactly(old(self).pos_sets(), k),
    {
        let ghost s = self.pos_sets();
        let n = self.by_pos.len();
        let mut tally: HashMap<u32, usize> = HashMap::with_capacity(dict.len());
        let mut p: usize = 0;
        proof {
            assert forall|x: u32| !#[trigger] tally@.contains_key(x) by {}
        }
        while p < n
            invariant
                s == old(self).pos_sets(),
                s.len() == n,
                n == self.by_pos@.len(),
                p <= n,
                self.counts == old(self).counts,
                self.counts_from == old(self).counts_from,
                forall|q: int| 0 <= q < n ==> bitmap_values(#[trigger] self.by_pos@[q]) == s[q],
                tally_is(tally@, |x: u32| in_count(s, x, p as int)),
            decreases n - p,
        {
            let ghost pre = self.by_pos@;
            optimize(&mut self.by_pos[p]);
            proof {
                assert forall|q: int| 0 <= q < n implies bitmap_values(#[trigger] self.by_pos@[q]) == s[q] by {
                    if q != p {
                        assert(self.by_pos@[q] == pre[q]);
                    }
                }
            }
            let vals = values_ascending(&self.by_pos[p]);
            let ghost cnt0 = |x: u32| in_count(s, x, p as int);
            let mut j: usize = 0;
            while j < vals.len()
                invariant
                    p < n,
                    cnt0 == (|x: u32| in_count(s, x, p as int)),
                    crate::bitmap::strictly_increasing(vals@),
                    vals@.to_set() == s[p as int],
                    j <= vals@.len(),
                    tally_is(tally@, |x: u32| cnt0(x) + if vals@.take(j as int).contains(x) { 1nat } else { 0nat }),
                decreases vals@.len() - j,
            {
                let x = vals[j];
                let ghost c_old = |y: u32| cnt0(y) + if vals@.take(j as int).contains(y) { 1nat } else { 0nat };
                let ghost c_new = |y: u32| cnt0(y) + if vals@.take(j as int + 1).contains(y) { 1nat } else { 0nat };
                proof {
                    assert(!vals@.take(j as int).contains(x)) by {
                        if vals@.take(j as int).contains(x) {
                            let k = choose|k: int| 0 <= k < j && vals@.take(j as int)[k] == x;
                            assert(vals@[k] < vals@[j as int]);
                        }
                    }
                    assert forall|y: u32| #[trigger] c_new(y) == c_old(y) + if y == x { 1nat } else { 0nat } by {
                        crate::order::lemma_take_one_more(vals@, j as int, y);
                    }
                    lemma_in_count_bound(s, x, p as int);
                }
                match tally.get(&x) {
                    Some(c) => {
                        let c = *c;
                        tally.insert(x, c + 1);
                    },
                    None => {
                        tally.insert(x, 0);
                    },
                }
                proof {
                    assert forall|y: u32| #[trigger] tally@.contains_key(y) <==> c_new(y) > 0 by {}
                    assert forall|y: u32| #[trigger] tally@.contains_key(y) implies tally@[y] + 1 == c_new(y) by {}
                }
                j += 1;
            }
            proof {
                assert(vals@.take(vals@.len() as int) =~= vals@);
                assert forall|x: u32| #[trigger] in_count(s, x, p + 1) == cnt0(x) + if vals@.take(vals@.len() as int).contains(x) { 1nat } else { 0nat } by {
                    if vals@.contains(x) {
                        assert(vals@.to_set().contains(x));
                    } else {
                        assert(!vals@.to_set().contains(x));
                    }
                }
                assert forall|x: u32| #[trigger] tally@.contains_key(x) <==> in_count(s, x, p + 1) > 0 by {}
                assert forall|x: u32| #[trigger] tally@.contains_key(x) implies tally@[x] + 1 == in_count(s, x, p + 1) by {}
            }
            p += 1;
        }
        // a word goes into the count bitmap of its tally
        let mut p: usize = 0;
        while p < n
            invariant
                s == old(self).pos_sets(),
                s.len() == n,
                n == self.by_pos@.len(),
                n == self.counts@.len(),
                p <= n,
                self.counts_from == old(self).counts_from,
                forall|q: int| 0 <= q < n ==> bitmap_values(#[trigger] self.by_pos@[q]) == s[q],
                tally_is(tally@, |x: u32| in_count(s, x, n as int)),
                forall|c: int| 0 <= c < n ==> bitmap_values(#[trigger] self.counts@[c]) == Set::new(
                    |x: u32| in_count(s, x, n as int) == c + 1 && in_count(s, x, p as int) > 0,
                ),
            decreases n - p,
        {
            let vals = values_ascending(&self.by_pos[p]);
            let mut j: usize = 0;
            while j < vals.len()
                invariant
                    s.len() == n,
                    n == self.by_pos@.len(),
                    n == self.counts@.len(),
                    p < n,
                    self.counts_from == old(self).counts_from,
                    forall|q: int| 0 <= q < n ==> bitmap_values(#[trigger] self.by_pos@[q]) == s[q],
                    tally_is(tally@, |x: u32| in_count(s, x, n as int)),
                    crate::bitmap::strictly_increasing(vals@),
                    vals@.to_set() == s[p as int],
                    j <= vals@.len(),
                    forall|c: int| 0 <= c < n ==> bitmap_values(#[trigger] self.counts@[c]) == Set::new(
                        |x: u32| in_count(s, x, n as int) == c + 1 && (in_count(s, x, p as int) > 0 || vals@.take(j as int).contains(x)),
                    ),
                decreases vals@.len() - j,
            {
                let x = vals[j];
                proof {
                    assert(vals@.to_set().contains(x));
                    lemma_in_count_grows(s, x, p as int + 1, n as int);
                    lemma_in_count_bound(s, x, n as int);
                    assert(in_count(s, x, p as int + 1) >= 1);
                }
                let c = match tally.get(&x) {
                    Some(c) => *c,
                    None => 0,
                };
                proof {
                    assert(tally@.contains_key(x));
                    assert(c + 1 == in_count(s, x, n as int));
                }
                let ghost before = self.counts@;
                insert(&mut self.counts[c], x);
                proof {
                    assert forall|c2: int| 0 <= c2 < n implies bitmap_values(#[trigger] self.counts@[c2]) == Set::new(
                        |y: u32| in_count(s, y, n as int) == c2 + 1 && (in_count(s, y, p as int) > 0 || vals@.take(j as int + 1).contains(y)),
                    ) by {
                        assert forall|y: u32| vals@.take(j as int + 1).contains(y) <==> (vals@.take(j as int).contains(y) || y == x) by {
                            crate::order::lemma_take_one_more(vals@, j as int, y);
                        }
                        if c2 == c {
                            assert(bitmap_values(self.counts@[c2]) == bitmap_values(before[c2]).insert(x));
                            assert(bitmap_values(self.counts@[c2]) =~= Set::new(
                                |y: u32| in_count(s, y, n as int) == c2 + 1 && (in_count(s, y, p as int) > 0 || vals@.take(j as int + 1).contains(y)),
                            ));
                        } else {
                            assert(self.counts@[c2] == before[c2]);
                            assert(bitmap_values(self.counts@[c2]) =~= Set::new(
                                |y: u32| in_count(s, y, n as int) == c2 + 1 && (in_count(s, y, p as int) > 0 || vals@.take(j as int + 1).contains(y)),
                            ));
                        }
                    }
                }
                j += 1;
            }
            proof {
                assert(vals@.take(vals@.len() as int) =~= vals@);
                assert forall|c2: int| 0 <= c2 < n implies bitmap_values(#[trigger] self.counts@[c2]) == Set::new(
                    |y: u32| in_count(s, y, n as int) == c2 + 1 && in_count(s, y, p + 1) > 0,
                ) by {
                    assert forall|y: u32| in_count(s, y, p + 1) > 0 <==> (in_count(s, y, p as int) > 0 || vals@.contains(y)) by {
                        if vals@.contains(y) {
                            assert(vals@.to_set().contains(y));
                        } else {
                            assert(!vals@.to_set().contains(y));
                        }
                    }
                    assert(bitmap_values(self.counts@[c2]) =~= Set::new(
                        |y: u32| in_count(s, y, n as int) == c2 + 1 && in_count(s, y, p + 1) > 0,
                    ));
                }
            }
            p += 1;
        }
        proof {
            assert forall|c: int| 0 <= c < n implies bitmap_values(#[trigger] self.counts@[c]) == held_exactly(s, c) by {
                assert(bitmap_values(self.counts@[c]) =~= held_exactly(s, c));
            }
            assert(self.pos_sets() =~= s);
        }
    }
}

impl IndexEntry {
    /// Fills the bitmaps of words counted at least `k + 1` times, from the
    /// highest count down: each is the union of the count bitmaps from `k`
    /// on.
    fn fill_counts_from_and_finalize(&mut self)
        requires
            old(self).counts@.len() == old(self).counts_from@.len(),
        ensures
            final(self).by_pos == old(self).by_pos,
            final(self).count_sets() == old(self).count_sets(),
            final(self).counts_from@.len() == old(self).counts_from@.len(),
            forall|k: int| 0 <= k < old(self).counts@.len() ==> bitmap_values(#[trigger] final(self).counts_from@[k]) == union_from(old(self).count_sets(), k),
    {
        let ghost cs = self.count_sets();
        let n = self.counts.len();
        let mut p = n;
        while p > 0
            invariant
                cs == old(self).count_sets(),
                cs.len() == n,
                n == self.counts@.len(),
                n == self.counts_from@.len(),
                p <= n,
                self.by_pos == old(self).by_pos,
                forall|c: int| 0 <= c < n ==> bitmap_values(#[trigger] self.counts@[c]) == cs[c],
                forall|c: int| p <= c < n ==> bitmap_values(#[trigger] self.counts_from@[c]) == union_from(cs, c),
            decreases p,
        {
            p -= 1;
            let ghost pre = self.counts@;
            optimize(&mut self.counts[p]);
            proof {
                assert forall|c: int| 0 <= c < n implies bitmap_values(#[trigger] self.counts@[c]) == cs[c] by {
                    if c != p {
                        assert(self.counts@[c] == pre[c]);
                    }
                }
            }
            if p + 1 == n {
                let b = copy_bitmap(&self.counts[p]);
                self.counts_from.set(p, b);
                proof {
                    assert(union_from(cs, p + 1) == Set::<u32>::empty());
                    assert(union_from(cs, p as int) =~= cs[p as int]);
                }
            } else {
                let u = union(&self.counts[p], &self.counts_from[p + 1]);
                self.counts_from.set(p, u);
                optimize(&mut self.counts_from[p]);
            }
        }
        proof {
            assert(self.count_sets() =~= cs);
        }
    }
}

/// The entry holds every bitmap of grapheme `g` for words `ws` of `n`
/// graphemes.
pub open spec fn entry_describes(e: IndexEntry, ws: Seq<Seq<Seq<char>>>, n: nat, g: Seq<char>) -> bool {
    &&& e.pos_sets().len() == n
    &&& e.count_sets().len() == n
    &&& e.count_from_sets().len() == n
    &&& forall|q: int| 0 <= q < n ==> #[trigger] e.pos_sets()[q] == words_with_at(ws, g, q)
    &&& forall|c: int| 0 <= c < n ==> #[trigger] e.count_sets()[c] == words_with_count(ws, g, c)
    &&& forall|c: int| 0 <= c < n ==> #[trigger] e.count_from_sets()[c] == words_with_count_from(ws, g, c)
}

/// The dictionary's index by grapheme.
#[derive(Debug, PartialEq)]
pub struct Index<'d, 's> {
    bitmaps: Vec<(&'s str, IndexEntry)>,
    dict: &'d Dict<'s>,
}

/// A dictionary with more words than a bitmap can number.
#[derive(Debug, PartialEq, Eq)]
pub enum IndexError {
    DictTooLarge(usize, TryFromIntError),
}

impl<'d, 's> Index<'d, 's> {
    #[verifier::type_invariant]
    spec fn inv(self) -> bool {
        &&& self.dict@.len() <= u32::MAX
        &&& keys_sorted(self.bitmaps@)
        &&& forall|k: int| 0 <= k < self.bitmaps@.len() ==> grapheme_in_words(self.dict@, (#[trigger] self.bitmaps@[k]).0@)
        &&& forall|k: int| 0 <= k < self.bitmaps@.len() ==> entry_describes((#[trigger] self.bitmaps@[k]).1, self.dict@, self.dict.spec_word_len() as nat, self.bitmaps@[k].0@)
        &&& forall|g: Seq<char>| grapheme_in_words(self.dict@, g) ==> #[trigger] has_key(self.bitmaps@, g)
    }

    /// The dictionary indexed.
    pub closed spec fn spec_dict(&self) -> Dict<'s> {
        *self.dict
    }

    /// Indexes a dictionary; refuses one with more words than `u32` numbers.
    pub fn from_dict(dict: &'d Dict<'s>) -> (r: Result<Self, IndexError>)
        ensures
            match r {
                Ok(index) => index.spec_dict() == *dict && dict@.len() <= u32::MAX,
                Err(IndexError::DictTooLarge(len, _)) => len == dict@.len() && dict@.len() > u32::MAX,
            },
    {
        if let Err(err) = u32::try_from(dict.len()) {
            return Err(IndexError::DictTooLarge(dict.len(), err));
        }
        let bitmaps = Self::create_bitmaps(dict);
        Ok(Self::finalize_entries(dict, bitmaps))
    }

    /// Fills the positional bitmaps: for each word and each position, the word
    /// goes into the bitmap of the grapheme it holds there.
    fn create_bitmaps(dict: &'d Dict<'s>) -> (r: Vec<(&'s str, IndexEntry)>)
        requires
            dict@.len() <= u32::MAX,
        ensures
            entries_partial(r@, dict@, dict.spec_word_len() as nat, dict@.len() as int, 0),
    {
        let words = dict.words();
        let n = dict.word_len();
        let wc = words.len();
        let ghost ws = dict@;
        let mut bitmaps: Vec<(&'s str, IndexEntry)> = Vec::new();
        let mut w: usize = 0;
        while w < wc
            invariant
                ws == dict@,
                ws == words.deep_view(),
                wc == ws.len(),
                wc <= u32::MAX,
                n == dict.spec_word_len(),
                all_of_len(ws, n as nat),
                w <= wc,
                entries_partial(bitmaps@, ws, n as nat, w as int, 0),
            decreases wc - w,
        {
            let word = &words[w];
            assert(word.deep_view() == ws[w as int]);
            assert(word@.len() == n);
            let mut p: usize = 0;
            while p < n
                invariant
                    ws == dict@,
                    ws == words.deep_view(),
                    wc == ws.len(),
                    wc <= u32::MAX,
                    all_of_len(ws, n as nat),
                    w < wc,
                    word.deep_view() == ws[w as int],
                    word@.len() == n,
                    p <= n,
                    entries_partial(bitmaps@, ws, n as nat, w as int, p as int),
                decreases n - p,
            {
                let g = word[p];
                let ghost gv = ws[w as int][p as int];
                assert(g@ == gv);
                let ghost es = bitmaps@;
                // which grapheme sightings come before the next step
                assert forall|h: Seq<char>| #[trigger] grapheme_before(ws, h, w as int, p + 1) <==> (grapheme_before(ws, h, w as int, p as int) || h == gv) by {
                    if grapheme_before(ws, h, w as int, p + 1) {
                        let (x, q) = choose|x: int, q: int|
                            0 <= x < ws.len() && 0 <= q < ws[x].len() && #[trigger] ws[x][q] == h && before(x, q, w as int, p + 1);
                        if !(x == w && q == p) {
                            assert(before(x, q, w as int, p as int));
                        }
                    }
                    if h == gv {
                        assert(before(w as int, p as int, w as int, p + 1));
                        assert(ws[w as int][p as int] == h);
                    }
                    if grapheme_before(ws, h, w as int, p as int) {
                        let (x, q) = choose|x: int, q: int|
                            0 <= x < ws.len() && 0 <= q < ws[x].len() && #[trigger] ws[x][q] == h && before(x, q, w as int, p as int);
                        assert(before(x, q, w as int, p + 1));
                    }
                }
                // how the positional sets grow
                assert forall|h: Seq<char>, q: int| 0 <= q < n implies #[trigger] words_with_at_before(ws, h, q, w as int, p + 1) == if h == gv && q == p {
                    words_with_at_before(ws, h, q, w as int, p as int).insert(w as u32)
                } else {
                    words_with_at_before(ws, h, q, w as int, p as int)
                } by {
                    assert(ws[w as int].len() == n);
                    if h == gv && q == p {
                        assert(words_with_at_before(ws, h, q, w as int, p + 1) =~= words_with_at_before(ws, h, q, w as int, p as int).insert(w as u32));
                    } else {
                        assert(words_with_at_before(ws, h, q, w as int, p + 1) =~= words_with_at_before(ws, h, q, w as int, p as int));
                    }
                }
                match search_grapheme(&bitmaps, g) {
                    Ok(k) => {
                        insert(&mut bitmaps[k].1.by_pos[p], w as u32);
                        proof {
                            assert forall|j: int| 0 <= j < bitmaps@.len() implies entry_partial((#[trigger] bitmaps@[j]).1, ws, n as nat, bitmaps@[j].0@, w as int, p + 1) by {
                                assert(entry_partial(es[j].1, ws, n as nat, es[j].0@, w as int, p as int));
                                if j != k {
                                    lemma_keys_distinct(es, j, k as int);
                                    assert(bitmaps@[j] == es[j]);
                                } else {
                                    assert forall|q: int| 0 <= q < n implies bitmap_values(#[trigger] bitmaps@[j].1.by_pos@[q]) == words_with_at_before(ws, bitmaps@[j].0@, q, w as int, p + 1) by {
                                        if q != p {
                                            assert(bitmaps@[j].1.by_pos@[q] == es[j].1.by_pos@[q]);
                                        }
                                    }
                                }
                            }
                            assert forall|k2: int| 0 <= k2 < bitmaps@.len() implies grapheme_before(ws, (#[trigger] bitmaps@[k2]).0@, w as int, p + 1) by {
                                assert(bitmaps@[k2].0 == es[k2].0);
                            }
                            assert(keys_sorted(bitmaps@)) by {
                                assert forall|i: int, j: int| 0 <= i < j < bitmaps@.len() implies crate::order::chars_lt(#[trigger] bitmaps@[i].0@, #[trigger] bitmaps@[j].0@) by {
                                    assert(bitmaps@[i].0 == es[i].0);
                                    assert(bitmaps@[j].0 == es[j].0);
                                }
                            }
                            assert forall|h: Seq<char>| grapheme_before(ws, h, w as int, p + 1) implies #[trigger] has_key(bitmaps@, h) by {
                                if h == gv {
                                    assert(bitmaps@[k as int].0@ == h);
                                } else {
                                    assert(has_key(es, h));
                                    let j = choose|j: int| 0 <= j < es.len() && (#[trigger] es[j]).0@ == h;
                                    assert(bitmaps@[j].0 == es[j].0);
                                }
                            }
                        }
                    },
                    Err(pos) => {
                        let mut entry = IndexEntry::new(n);
                        insert(&mut entry.by_pos[p], w as u32);
                        proof {
                            assert(!grapheme_before(ws, gv, w as int, p as int));
                            assert forall|q: int| 0 <= q < n implies words_with_at_before(ws, gv, q, w as int, p as int) == Set::<u32>::empty() by {
                                if words_with_at_before(ws, gv, q, w as int, p as int).len() > 0 || words_with_at_before(ws, gv, q, w as int, p as int) != Set::<u32>::empty() {
                                    assert(!(words_with_at_before(ws, gv, q, w as int, p as int) =~= Set::<u32>::empty()));
                                    let x = choose|x: u32| words_with_at_before(ws, gv, q, w as int, p as int).contains(x);
                                    assert(ws[x as int][q] == gv);
                                }
                            }
                            assert(entry_partial(entry, ws, n as nat, gv, w as int, p + 1)) by {
                                assert forall|q: int| 0 <= q < n implies bitmap_values(#[trigger] entry.by_pos@[q]) == words_with_at_before(ws, gv, q, w as int, p + 1) by {
                                    if q == p {
                                        assert(Set::<u32>::empty().insert(w as u32) =~= words_with_at_before(ws, gv, q, w as int, p as int).insert(w as u32));
                                    }
                                }
                            }
                        }
                        bitmaps.insert(pos, (g, entry));
                        proof {
                            lemma_insert_sorted(es, pos as int, (g, entry));
                            assert forall|j: int| 0 <= j < bitmaps@.len() implies entry_partial((#[trigger] bitmaps@[j]).1, ws, n as nat, bitmaps@[j].0@, w as int, p + 1) && grapheme_before(ws, bitmaps@[j].0@, w as int, p + 1) by {
                                if j < pos {
                                    assert(bitmaps@[j] == es[j]);
                                    assert(entry_partial(es[j].1, ws, n as nat, es[j].0@, w as int, p as int));
                                    crate::order::lemma_chars_lt_asymmetric(es[j].0@, gv);
                                } else if j > pos {
                                    assert(bitmaps@[j] == es[j - 1]);
                                    assert(entry_partial(es[j - 1].1, ws, n as nat, es[j - 1].0@, w as int, p as int));
                                    crate::order::lemma_chars_lt_asymmetric(gv, es[j - 1].0@);
                                }
                            }
                            assert forall|h: Seq<char>| grapheme_before(ws, h, w as int, p + 1) implies #[trigger] has_key(bitmaps@, h) by {
                                if h != gv {
                                    assert(has_key(es, h));
                                }
                            }
                        }
                    },
                }
                p += 1;
            }
            proof {
                lemma_next_word(bitmaps@, ws, n as nat, w as int);
            }
            w += 1;
        }
        bitmaps
    }

    /// Completes each entry's count bitmaps from its positional bitmaps.
    fn finalize_entries(dict: &'d Dict<'s>, bitmaps: Vec<(&'s str, IndexEntry)>) -> (r: Self)
        requires
            dict@.len() <= u32::MAX,
            entries_partial(bitmaps@, dict@, dict.spec_word_len() as nat, dict@.len() as int, 0),
        ensures
            r.spec_dict() == *dict,
    {
        let ghost ws = dict@;
        let ghost n = dict.spec_word_len() as nat;
        let _ = dict.words();
        let mut bitmaps = bitmaps;
        let ghost es = bitmaps@;
        proof {
            assert forall|g: Seq<char>| grapheme_before(ws, g, ws.len() as int, 0) == grapheme_in_words(ws, g) by {
                if grapheme_in_words(ws, g) {
                    let (x, q) = choose|x: int, q: int| 0 <= x < ws.len() && 0 <= q < ws[x].len() && #[trigger] ws[x][q] == g;
                    assert(before(x, q, ws.len() as int, 0));
                }
            }
            assert forall|h: Seq<char>, q: int| 0 <= q < n implies #[trigger] words_with_at_before(ws, h, q, ws.len() as int, 0) == words_with_at(ws, h, q) by {
                assert(words_with_at_before(ws, h, q, ws.len() as int, 0) =~= words_with_at(ws, h, q));
            }
        }
        let mut k: usize = 0;
        while k < bitmaps.len()
            invariant
                ws == dict@,
                n == dict.spec_word_len(),
                ws.len() <= u32::MAX,
                all_of_len(ws, n),
                k <= bitmaps@.len(),
                bitmaps@.len() == es.len(),
                forall|j: int| 0 <= j < es.len() ==> (#[trigger] bitmaps@[j]).0 == es[j].0,
                entries_partial(es, ws, n, ws.len() as int, 0),
                forall|h: Seq<char>, q: int| 0 <= q < n ==> #[trigger] words_with_at_before(ws, h, q, ws.len() as int, 0) == words_with_at(ws, h, q),
                forall|j: int| 0 <= j < k ==> entry_describes((#[trigger] bitmaps@[j]).1, ws, n, bitmaps@[j].0@),
                forall|j: int| k <= j < es.len() ==> (#[trigger] bitmaps@[j]).1 == es[j].1,
            decreases bitmaps@.len() - k,
        {
            let ghost g = bitmaps@[k as int].0@;
            proof {
                assert(entry_partial(es[k as int].1, ws, n, g, ws.len() as int, 0));
            }
            bitmaps[k].1.fill_counts(dict);
            proof {
                let ps = es[k as int].1.pos_sets();
                assert forall|q: int| 0 <= q < n implies #[trigger] ps[q] == words_with_at(ws, g, q) by {}
                assert forall|c: int| 0 <= c < n implies #[trigger] bitmap_values(bitmaps@[k as int].1.counts@[c]) == words_with_count(ws, g, c) by {
                    lemma_held_exactly_of_words(ps, ws, g, n, c);
                }
            }
            bitmaps[k].1.fill_counts_from_and_finalize();
            proof {
                let e = bitmaps@[k as int].1;
                assert forall|c: int| 0 <= c < n implies #[trigger] e.count_sets()[c] == words_with_count(ws, g, c) by {}
                assert forall|c: int| 0 <= c < n implies #[trigger] bitmap_values(e.counts_from@[c]) == words_with_count_from(ws, g, c) by {
                    lemma_union_from_counts(e.count_sets(), ws, g, n, c);
                }
                assert(entry_describes(e, ws, n, g)) by {
                    assert forall|q: int| 0 <= q < n implies #[trigger] e.pos_sets()[q] == words_with_at(ws, g, q) by {}
                    assert forall|c: int| 0 <= c < n implies #[trigger] e.count_sets()[c] == words_with_count(ws, g, c) by {}
                    assert forall|c: int| 0 <= c < n implies #[trigger] e.count_from_sets()[c] == words_with_count_from(ws, g, c) by {}
                }
            }
            k += 1;
        }
        proof {
            assert(bitmaps@.len() == es.len());
            assert forall|i: int, j: int| 0 <= i < j < bitmaps@.len() implies crate::order::chars_lt(#[trigger] bitmaps@[i].0@, #[trigger] bitmaps@[j].0@) by {
                assert(bitmaps@[i].0 == es[i].0);
                assert(bitmaps@[j].0 == es[j].0);
            }
            assert forall|k2: int| 0 <= k2 < bitmaps@.len() implies grapheme_in_words(ws, (#[trigger] bitmaps@[k2]).0@) by {
                assert(bitmaps@[k2].0 == es[k2].0);
                assert(grapheme_before(ws, es[k2].0@, ws.len() as int, 0));
            }
            assert forall|g: Seq<char>| grapheme_in_words(ws, g) implies #[trigger] has_key(bitmaps@, g) by {
                assert(grapheme_before(ws, g, ws.len() as int, 0));
                assert(has_key(es, g));
                let j = choose|j: int| 0 <= j < es.len() && (#[trigger] es[j]).0@ == g;
                assert(bitmaps@[j].0 == es[j].0);
            }
        }
        Index { dict, bitmaps }
    }

    /// A bitmap of every word position of the dictionary.
    pub fn full_bitmap(&self) -> (r: RoaringBitmap)
        ensures
            bitmap_values(r) == Set::new(|x: u32| (x as int) < self.spec_dict()@.len()),
    {
        proof {
            use_type_invariant(self);
        }
        let mut result = new_bitmap();
        insert_range_below(&mut result, self.dict.len() as u32);
        proof {
            assert(bitmap_values(result) =~= Set::new(|x: u32| (x as int) < self.spec_dict()@.len()));
        }
        result
    }

    /// A bitmap of no word position.
    pub fn empty_bitmap() -> (r: RoaringBitmap)
        ensures
            bitmap_values(r) == Set::<u32>::empty(),
    {
        new_bitmap()
    }

    /// The words that hold the grapheme `count + 1` times; `None` when no word
    /// holds it or the count is not below the word length.
    pub fn get_by_grapheme_by_count(&self, grapheme: &str, count: usize) -> (r: Option<&RoaringBitmap>)
        ensures
            match r {
                Some(b) => grapheme_in_words(self.spec_dict()@, grapheme@) && count < self.spec_dict().spec_word_len()
                    && bitmap_values(*b) == words_with_count(self.spec_dict()@, grapheme@, count as int),
                None => !grapheme_in_words(self.spec_dict()@, grapheme@) || count >= self.spec_dict().spec_word_len(),
            },
    {
        match self.get_entry_by_grapheme(grapheme) {
            Some(entry) => entry.counts(count),
            None => None,
        }
    }

    /// The words that hold the grapheme at least `count_from + 1` times;
    /// `None` when no word holds it or the count is not below the word length.
    pub fn get_by_grapheme_by_count_from(&self, grapheme: &str, count_from: usize) -> (r: Option<&RoaringBitmap>)
        ensures
            match r {
                Some(b) => grapheme_in_words(self.spec_dict()@, grapheme@) && count_from < self.spec_dict().spec_word_len()
                    && bitmap_values(*b) == words_with_count_from(self.spec_dict()@, grapheme@, count_from as int),
                None => !grapheme_in_words(self.spec_dict()@, grapheme@) || count_from >= self.spec_dict().spec_word_len(),
            },
    {
        match self.get_entry_by_grapheme(grapheme) {
            Some(entry) => entry.counts_from(count_from),
            None => None,
        }
    }

    /// The words that hold the grapheme at a position; `None` when no word
    /// holds it or the position is not below the word length.
    pub fn get_by_grapheme_and_pos(&self, grapheme: &str, grapheme_pos: usize) -> (r: Option<&RoaringBitmap>)
        ensures
            match r {
                Some(b) => grapheme_in_words(self.spec_dict()@, grapheme@) && grapheme_pos < self.spec_dict().spec_word_len()
                    && bitmap_values(*b) == words_with_at(self.spec_dict()@, grapheme@, grapheme_pos as int),
                None => !grapheme_in_words(self.spec_dict()@, grapheme@) || grapheme_pos >= self.spec_dict().spec_word_len(),
            },
    {
        match self.get_entry_by_grapheme(grapheme) {
            Some(entry) => entry.get_by_pos(grapheme_pos),
            None => None,
        }
    }

    /// The bitmaps of a grapheme, when some word holds it.
    pub fn get_entry_by_grapheme(&self, grapheme: &str) -> (r: Option<&IndexEntry>)
        ensures
            match r {
                Some(e) => grapheme_in_words(self.spec_dict()@, grapheme@) && entry_describes(
                    *e,
                    self.spec_dict()@,
                    self.spec_dict().spec_word_len() as nat,
                    grapheme@,
                ),
                None => !grapheme_in_words(self.spec_dict()@, grapheme@),
            },
    {
        proof {
            use_type_invariant(self);
        }
        match search_grapheme(&self.bitmaps, grapheme) {
            Ok(k) => Some(&self.bitmaps[k].1),
            Err(_) => None,
        }
    }

    /// The dictionary indexed.
    pub fn dict(&self) -> (r: &'d Dict<'s>)
        ensures
            *r == self.spec_dict(),
    {
        self.dict
    }
}

impl IndexEntry {
    /// The words that hold the grapheme `count + 1` times.
    pub fn counts(&self, count: usize) -> (r: Option<&RoaringBitmap>)
        ensures
            match r {
                Some(b) => count < self.count_sets().len() && bitmap_values(*b) == self.count_sets()[count as int],
                None => count >= self.count_sets().len(),
            },
    {
        if count < self.counts.len() {
            Some(&self.counts[count])
        } else {
            None
        }
    }

    /// The words that hold the grapheme at least `count_from + 1` times.
    pub fn counts_from(&self, count_from: usize) -> (r: Option<&RoaringBitmap>)
        ensures
            match r {
                Some(b) => count_from < self.count_from_sets().len() && bitmap_values(*b) == self.count_from_sets()[count_from as int],
                None => count_from >= self.count_from_sets().len(),
            },
    {
        if count_from < self.counts_from.len() {
            Some(&self.counts_from[count_from])
        } else {
            None
        }
    }

    /// The words that hold the grapheme at the position.
    pub fn get_by_pos(&self, grapheme_pos: usize) -> (r: Option<&RoaringBitmap>)
        ensures
            match r {
                Some(b) => grapheme_pos < self.pos_sets().len() && bitmap_values(*b) == self.pos_sets()[grapheme_pos as int],
                None => grapheme_pos >= self.pos_sets().len(),
            },
    {
        if grapheme_pos < self.by_pos.len() {
            Some(&self.by_pos[grapheme_pos])
        } else {
            None
        }
    }
}

/// The words holding a grapheme at least `c + 1` times are those holding it
/// exactly `c + 1` times and those holding it at least `c + 2` times.
pub proof fn lemma_count_from_split(ws: Seq<Seq<Seq<char>>>, g: Seq<char>, c: int)
    ensures
        words_with_count_from(ws, g, c) == words_with_count(ws, g, c).union(words_with_count_from(ws, g, c + 1)),
        words_with_count(ws, g, c).disjoint(words_with_count_from(ws, g, c + 1)),
{
    assert(words_with_count_from(ws, g, c) =~= words_with_count(ws, g, c).union(words_with_count_from(ws, g, c + 1)));
}

/// No word of `n` graphemes holds a grapheme more than `n` times, so the
/// words holding it at least `n` times are those holding it exactly `n` times.
pub proof fn lemma_count_from_last(ws: Seq<Seq<Seq<char>>>, g: Seq<char>, n: nat)
    requires
        all_of_len(ws, n),
        n > 0,
    ensures
        words_with_count_from(ws, g, n - 1) == words_with_count(ws, g, n - 1),
{
    assert forall|x: u32| (x as int) < ws.len() implies occurrences(ws[x as int], g) <= n by {
        lemma_occurrences_bound(ws[x as int], g, ws[x as int].len() as int);
    }
    assert(words_with_count_from(ws, g, n - 1) =~= words_with_count(ws, g, n - 1));
}

/// The words holding a grapheme at least once are the words holding it at
/// some position.
pub proof fn lemma_count_from_zero_is_containing(ws: Seq<Seq<Seq<char>>>, g: Seq<char>)
    ensures
        words_with_count_from(ws, g, 0) == Set::new(|x: u32| (x as int) < ws.len() && ws[x as int].contains(g)),
{
    assert forall|x: u32| (x as int) < ws.len() implies (occurrences(ws[x as int], g) >= 1 <==> ws[x as int].contains(g)) by {
        lemma_occurrences_positive(ws[x as int], g, ws[x as int].len() as int);
    }
    assert(words_with_count_from(ws, g, 0) =~= Set::new(|x: u32| (x as int) < ws.len() && ws[x as int].contains(g)));
}

/// A word holding a grapheme at a position holds it at least once.
pub proof fn lemma_at_position_counts(ws: Seq<Seq<Seq<char>>>, g: Seq<char>, p: int)
    ensures
        words_with_at(ws, g, p).subset_of(words_with_count_from(ws, g, 0)),
{
    assert forall|x: u32| words_with_at(ws, g, p).contains(x) implies words_with_count_from(ws, g, 0).contains(x) by {
        let w = ws[x as int];
        assert(w[p] == g);
        lemma_occurrences_positive(w, g, w.len() as int);
    }
}

/// Some of the first `n` graphemes equal `g` exactly when the count is positive.
pub proof fn lemma_occurrences_positive(word: Seq<Seq<char>>, g: Seq<char>, n: int)
    requires
        0 <= n <= word.len(),
    ensures
        occurrences_upto(word, g, n) > 0 <==> exists|p: int| 0 <= p < n && #[trigger] word[p] == g,
        n == word.len() ==> (occurrences_upto(word, g, n) > 0 <==> word.contains(g)),
    decreases n,
{
    if n > 0 {
        lemma_occurrences_positive(word, g, n - 1);
        if word[n - 1] == g {
            assert(word[n - 1] == g);
        }
    }
}

} // verus!
