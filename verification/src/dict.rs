//! The dictionary: words of equal length, each a list of graphemes, kept
//! sorted and free of duplicates.
use crate::order::{
    compare_words, lemma_word_lt_asymmetric, lemma_word_lt_total, lemma_word_lt_transitive,
    word_lt, Order,
};
use crate::bitmap_iter::{iter_outcome, BitmapIter, BitmapIterError};
use roaring::RoaringBitmap;
use vstd::prelude::*;
use vstd::string::*;

verus! {

broadcast use vstd::seq_lib::group_seq_properties;

/// The dictionary's words, in strictly increasing order.
#[derive(Debug, Eq, PartialEq)]
pub struct Dict<'s> {
    word_len: usize,
    words: Vec<Vec<&'s str>>,
}

/// Why a list of words does not make a dictionary.
#[derive(Debug, Eq, PartialEq)]
pub enum DictError {
    WordLenMismatch { expected_word_len: usize, actual_word_len: usize, word: String },
}

/// The words are in strictly increasing order.
pub open spec fn words_sorted(ws: Seq<Seq<Seq<char>>>) -> bool {
    forall|i: int, j: int| 0 <= i < j < ws.len() ==> word_lt(#[trigger] ws[i], #[trigger] ws[j])
}

/// Every word has `n` graphemes.
pub open spec fn all_of_len(ws: Seq<Seq<Seq<char>>>, n: nat) -> bool {
    forall|i: int| 0 <= i < ws.len() ==> (#[trigger] ws[i]).len() == n
}

/// Word `i` is the first whose length differs from that of the first word.
pub open spec fn first_len_mismatch(ws: Seq<Seq<Seq<char>>>, i: int) -> bool {
    &&& 0 < i < ws.len()
    &&& ws[i].len() != ws[0].len()
    &&& forall|k: int| 0 <= k < i ==> (#[trigger] ws[k]).len() == ws[0].len()
}

/// `r` is what a list of words `ws` makes: the dictionary of exactly those
/// words, sorted, when all have the length of the first (an empty
/// dictionary of word length 0 for no words); otherwise the first word of
/// another length, with both lengths and its text.
pub open spec fn dict_outcome<'s>(ws: Seq<Seq<Seq<char>>>, r: Result<Dict<'s>, DictError>) -> bool {
    match r {
        Ok(d) => {
            &&& ws.len() == 0 ==> d.spec_word_len() == 0
            &&& ws.len() > 0 ==> all_of_len(ws, ws[0].len()) && d.spec_word_len() == ws[0].len()
            &&& d@.to_set() == ws.to_set()
            &&& words_sorted(d@)
        },
        Err(DictError::WordLenMismatch { expected_word_len, actual_word_len, word }) => exists|i: int|
            #[trigger] first_len_mismatch(ws, i) && expected_word_len == ws[0].len() && actual_word_len
                == ws[i].len() && word@ == ws[i].flatten(),
    }
}

impl<'s> View for Dict<'s> {
    type V = Seq<Seq<Seq<char>>>;

    closed spec fn view(&self) -> Seq<Seq<Seq<char>>> {
        self.words.deep_view()
    }
}

/// Two strictly sorted lists of words with the same words are the same list.
pub proof fn lemma_sorted_unique(a: Seq<Seq<Seq<char>>>, b: Seq<Seq<Seq<char>>>)
    requires
        words_sorted(a),
        words_sorted(b),
        a.to_set() == b.to_set(),
    ensures
        a == b,
    decreases a.len(),
{
    if a.len() == 0 {
        if b.len() > 0 {
            assert(b.to_set().contains(b[0]));
        }
        assert(a =~= b);
    } else {
        assert(a.to_set().contains(a[0]));
        assert(b.len() > 0) by {
            if b.len() == 0 {
                assert(b.to_set().contains(a[0]));
            }
        }
        // the least elements agree
        assert(a[0] == b[0]) by {
            assert(b.to_set().contains(a[0]));
            assert(a.to_set().contains(b[0]));
            let i = choose|i: int| 0 <= i < b.len() && b[i] == a[0];
            let j = choose|j: int| 0 <= j < a.len() && a[j] == b[0];
            if a[0] != b[0] {
                assert(i != 0 && j != 0);
                assert(word_lt(b[0], b[i]));
                assert(word_lt(a[0], a[j]));
                lemma_word_lt_asymmetric(a[0], b[0]);
            }
        }
        let a1 = a.drop_first();
        let b1 = b.drop_first();
        assert(a1.to_set() =~= b1.to_set()) by {
            assert forall|x: Seq<Seq<char>>| a1.to_set().contains(x) implies b1.to_set().contains(x) by {
                let i = choose|i: int| 0 <= i < a1.len() && a1[i] == x;
                assert(word_lt(a[0], a[i + 1]));
                lemma_word_lt_asymmetric(a[0], x);
                assert(b.to_set().contains(x));
                let j = choose|j: int| 0 <= j < b.len() && b[j] == x;
                assert(j != 0);
                assert(b1[j - 1] == x);
            }
            assert forall|x: Seq<Seq<char>>| b1.to_set().contains(x) implies a1.to_set().contains(x) by {
                let i = choose|i: int| 0 <= i < b1.len() && b1[i] == x;
                assert(word_lt(b[0], b[i + 1]));
                lemma_word_lt_asymmetric(b[0], x);
                assert(a.to_set().contains(x));
                let j = choose|j: int| 0 <= j < a.len() && a[j] == x;
                assert(j != 0);
                assert(a1[j - 1] == x);
            }
        }
        lemma_sorted_unique(a1, b1);
        assert(a =~= b) by {
            assert forall|i: int| 0 <= i < a.len() implies a[i] == b[i] by {
                if i > 0 {
                    assert(a[i] == a1[i - 1]);
                    assert(b[i] == b1[i - 1]);
                }
            }
        }
    }
}

/// The dictionary made of a list of words depends only on the set of
/// words: neither their order nor their repetitions matter.
pub proof fn lemma_dict_determined_by_word_set<'s>(
    ws1: Seq<Seq<Seq<char>>>,
    ws2: Seq<Seq<Seq<char>>>,
    d1: Dict<'s>,
    d2: Dict<'s>,
)
    requires
        dict_outcome(ws1, Ok(d1)),
        dict_outcome(ws2, Ok(d2)),
        ws1.to_set() == ws2.to_set(),
    ensures
        d1@ == d2@,
{
    lemma_sorted_unique(d1@, d2@);
}

/// In a dictionary's sorted word list a word has one place.
pub proof fn lemma_word_place_unique(ws: Seq<Seq<Seq<char>>>, i: int, j: int)
    requires
        words_sorted(ws),
        0 <= i < ws.len(),
        0 <= j < ws.len(),
        ws[i] == ws[j],
    ensures
        i == j,
{
    if i < j {
        lemma_word_lt_asymmetric(ws[i], ws[j]);
    } else if j < i {
        lemma_word_lt_asymmetric(ws[j], ws[i]);
    }
}

/// Looks a word up among words sorted in strictly increasing order: `Ok`
/// with its place when present, `Err` with the place where it would be
/// inserted otherwise.
pub fn search_word(words: &Vec<Vec<&str>>, w: &[&str]) -> (r: Result<usize, usize>)
    requires
        words_sorted(words.deep_view()),
    ensures
        match r {
            Ok(i) => i < words@.len() && words.deep_view()[i as int] == w.deep_view(),
            Err(i) => {
                &&& i <= words@.len()
                &&& forall|k: int| 0 <= k < i ==> word_lt(#[trigger] words.deep_view()[k], w.deep_view())
                &&& forall|k: int|
                    i <= k < words@.len() ==> word_lt(w.deep_view(), #[trigger] words.deep_view()[k])
                &&& !words.deep_view().contains(w.deep_view())
            },
        },
{
    let ghost ws = words.deep_view();
    let ghost x = w.deep_view();
    let mut lo: usize = 0;
    let mut hi: usize = words.len();
    while lo < hi
        invariant
            ws == words.deep_view(),
            x == w.deep_view(),
            words_sorted(ws),
            ws.len() == words@.len(),
            lo <= hi <= ws.len(),
            forall|k: int| 0 <= k < lo ==> word_lt(#[trigger] ws[k], x),
            forall|k: int| hi <= k < ws.len() ==> word_lt(x, #[trigger] ws[k]),
        decreases hi - lo,
    {
        let mid = lo + (hi - lo) / 2;
        assert(words@[mid as int].deep_view() == ws[mid as int]);
        match compare_words(words[mid].as_slice(), w) {
            Order::Equal => {
                return Ok(mid);
            },
            Order::Less => {
                proof {
                    assert forall|k: int| 0 <= k < mid + 1 implies word_lt(#[trigger] ws[k], x) by {
                        if k < mid {
                            assert(word_lt(ws[k], ws[mid as int]));
                            lemma_word_lt_transitive(ws[k], ws[mid as int], x);
                        }
                    }
                }
                lo = mid + 1;
            },
            Order::Greater => {
                proof {
                    lemma_word_lt_total(ws[mid as int], x);
                    assert forall|k: int| mid <= k < ws.len() implies word_lt(x, #[trigger] ws[k]) by {
                        if k > mid {
                            assert(word_lt(ws[mid as int], ws[k]));
                            lemma_word_lt_transitive(x, ws[mid as int], ws[k]);
                        }
                    }
                }
                hi = mid;
            },
        }
    }
    proof {
        if ws.contains(x) {
            let k = choose|k: int| 0 <= k < ws.len() && ws[k] == x;
            lemma_word_lt_total(x, x);
            if k < lo {
                assert(word_lt(ws[k], x));
            } else {
                assert(word_lt(x, ws[k]));
            }
        }
    }
    Err(lo)
}

/// The words are in strictly decreasing order.
spec fn words_sorted_desc(ws: Seq<Seq<Seq<char>>>) -> bool {
    forall|i: int, j: int| 0 <= i < j < ws.len() ==> word_lt(#[trigger] ws[j], #[trigger] ws[i])
}

/// Merges two lists sorted in strictly increasing order into one, keeping
/// one copy of a word that both hold.
fn merge_dedup<'s>(a: Vec<Vec<&'s str>>, b: Vec<Vec<&'s str>>) -> (r: Vec<Vec<&'s str>>)
    requires
        words_sorted(a.deep_view()),
        words_sorted(b.deep_view()),
    ensures
        words_sorted(r.deep_view()),
        r.deep_view().to_set() == a.deep_view().to_set().union(b.deep_view().to_set()),
{
    let ghost all = a.deep_view().to_set().union(b.deep_view().to_set());
    let mut a = a;
    let mut b = b;
    let mut desc: Vec<Vec<&'s str>> = Vec::new();
    while a.len() > 0 || b.len() > 0
        invariant
            words_sorted(a.deep_view()),
            words_sorted(b.deep_view()),
            words_sorted_desc(desc.deep_view()),
            forall|i: int, k: int| 0 <= i < desc@.len() && 0 <= k < a@.len() ==> word_lt(#[trigger] a.deep_view()[k], #[trigger] desc.deep_view()[i]),
            forall|i: int, k: int| 0 <= i < desc@.len() && 0 <= k < b@.len() ==> word_lt(#[trigger] b.deep_view()[k], #[trigger] desc.deep_view()[i]),
            forall|x: Seq<Seq<char>>| desc.deep_view().contains(x) || a.deep_view().contains(x) || b.deep_view().contains(x) <==> #[trigger] all.contains(x),
        decreases a@.len() + b@.len(),
    {
        let ghost da = a.deep_view();
        let ghost db = b.deep_view();
        let ghost dd = desc.deep_view();
        let take_a: bool;
        let take_b: bool;
        if a.len() == 0 {
            take_a = false;
            take_b = true;
        } else if b.len() == 0 {
            take_a = true;
            take_b = false;
        } else {
            let la = a.len() - 1;
            let lb = b.len() - 1;
            assert(a@[la as int].deep_view() == da[la as int]);
            assert(b@[lb as int].deep_view() == db[lb as int]);
            match compare_words(a[la].as_slice(), b[lb].as_slice()) {
                Order::Greater => {
                    take_a = true;
                    take_b = false;
                },
                Order::Less => {
                    take_a = false;
                    take_b = true;
                },
                Order::Equal => {
                    take_a = true;
                    take_b = true;
                },
            }
        }
        // the greatest word left goes next
        let mut x: Vec<&'s str> = Vec::new();
        if take_a {
            x = a.pop().unwrap();
        }
        if take_b {
            x = b.pop().unwrap();
        }
        proof {
            assert(a.deep_view() =~= if take_a { da.drop_last() } else { da });
            assert(b.deep_view() =~= if take_b { db.drop_last() } else { db });
            let xv = x.deep_view();
            if take_b {
                assert(xv == db.last());
            } else {
                assert(xv == da.last());
            }
            if take_a && take_b {
                assert(da.last() == db.last());
            }
            if !take_a || !take_b {
                if da.len() > 0 && db.len() > 0 {
                    lemma_word_lt_total(da.last(), db.last());
                }
            }
            // everything left is below the word taken
            assert forall|k: int| 0 <= k < a@.len() implies word_lt(#[trigger] a.deep_view()[k], xv) by {
                assert(a.deep_view()[k] == da[k]);
                if take_a {
                    assert(word_lt(da[k], da.last()));
                } else {
                    assert(word_lt(da[k], da.last()) || k == da.len() - 1);
                    if k < da.len() - 1 {
                        lemma_word_lt_transitive(da[k], da.last(), xv);
                    }
                }
            }
            assert forall|k: int| 0 <= k < b@.len() implies word_lt(#[trigger] b.deep_view()[k], xv) by {
                assert(b.deep_view()[k] == db[k]);
                if take_b {
                    assert(word_lt(db[k], db.last()));
                } else {
                    if k < db.len() - 1 {
                        lemma_word_lt_transitive(db[k], db.last(), xv);
                    }
                }
            }
            // the word taken is below everything already taken
            assert forall|i: int| 0 <= i < dd.len() implies word_lt(xv, #[trigger] dd[i]) by {
                if take_b {
                    assert(word_lt(db[db.len() - 1], dd[i]));
                } else {
                    assert(word_lt(da[da.len() - 1], dd[i]));
                }
            }
        }
        desc.push(x);
        proof {
            let xv = x.deep_view();
            let nd = desc.deep_view();
            assert(nd =~= dd.push(xv));
            assert forall|x2: Seq<Seq<char>>| nd.contains(x2) || a.deep_view().contains(x2) || b.deep_view().contains(x2) <==> #[trigger] all.contains(x2) by {
                if dd.contains(x2) {
                    let i = choose|i: int| 0 <= i < dd.len() && dd[i] == x2;
                    assert(nd[i] == x2);
                }
                if nd.contains(x2) {
                    let i = choose|i: int| 0 <= i < nd.len() && nd[i] == x2;
                    if i < dd.len() {
                        assert(dd[i] == x2);
                    }
                }
                if da.contains(x2) {
                    let k = choose|k: int| 0 <= k < da.len() && da[k] == x2;
                    if take_a && k == da.len() - 1 {
                        assert(nd[dd.len() as int] == x2);
                    } else {
                        assert(a.deep_view()[k] == x2);
                    }
                }
                if db.contains(x2) {
                    let k = choose|k: int| 0 <= k < db.len() && db[k] == x2;
                    if take_b && k == db.len() - 1 {
                        assert(nd[dd.len() as int] == x2);
                    } else if take_a && !take_b {
                        assert(b.deep_view()[k] == x2);
                    } else {
                        assert(b.deep_view()[k] == x2);
                    }
                }
                if a.deep_view().contains(x2) {
                    let k = choose|k: int| 0 <= k < a.deep_view().len() && a.deep_view()[k] == x2;
                    assert(da[k] == x2);
                }
                if b.deep_view().contains(x2) {
                    let k = choose|k: int| 0 <= k < b.deep_view().len() && b.deep_view()[k] == x2;
                    assert(db[k] == x2);
                }
            }
        }
    }
    // turn the decreasing list around
    let mut r: Vec<Vec<&'s str>> = Vec::new();
    let ghost full = desc.deep_view();
    while desc.len() > 0
        invariant
            words_sorted_desc(desc.deep_view()),
            words_sorted(r.deep_view()),
            desc.deep_view() == full.take(desc@.len() as int),
            desc@.len() <= full.len(),
            r.deep_view() =~= full.skip(desc@.len() as int).reverse(),
            words_sorted_desc(full),
        decreases desc@.len(),
    {
        let ghost before = r.deep_view();
        let ghost n = desc@.len() as int;
        let ghost old_desc = desc@;
        assert(full[n - 1] == desc.deep_view()[n - 1]);
        let w = desc.pop().unwrap();
        r.push(w);
        proof {
            assert(desc.deep_view() =~= full.take(n - 1));
            assert(old_desc[n - 1] == w);
            assert(w.deep_view() == full[n - 1]);
            assert(r.deep_view() =~= before.push(w.deep_view()));
            assert(full.skip(n - 1).reverse() =~= full.skip(n).reverse().push(full[n - 1]));
            assert(r.deep_view() =~= full.skip(n - 1).reverse());
            assert forall|i: int, j: int| 0 <= i < j < r.deep_view().len() implies word_lt(#[trigger] r.deep_view()[i], #[trigger] r.deep_view()[j]) by {
                let rr = r.deep_view();
                assert(rr[i] == full[full.len() - 1 - i]);
                assert(rr[j] == full[full.len() - 1 - j]);
            }
        }
    }
    proof {
        assert(full.skip(0) =~= full);
        assert forall|x: Seq<Seq<char>>| r.deep_view().to_set().contains(x) <==> all.contains(x) by {
            if full.contains(x) {
                let i = choose|i: int| 0 <= i < full.len() && full[i] == x;
                assert(r.deep_view()[full.len() - 1 - i] == x);
            }
            if r.deep_view().contains(x) {
                let i = choose|i: int| 0 <= i < r.deep_view().len() && r.deep_view()[i] == x;
                assert(full[full.len() - 1 - i] == x);
            }
        }
        assert(r.deep_view().to_set() =~= all);
    }
    r
}

/// Sorts the words into strictly increasing order, dropping repeats.
fn sort_dedup<'s>(v: Vec<Vec<&'s str>>) -> (r: Vec<Vec<&'s str>>)
    ensures
        words_sorted(r.deep_view()),
        r.deep_view().to_set() == v.deep_view().to_set(),
    decreases v@.len(),
{
    if v.len() <= 1 {
        return v;
    }
    let ghost dv = v.deep_view();
    let mut left = v;
    let mid = left.len() / 2;
    let right = left.split_off(mid);
    proof {
        assert(left.deep_view() =~= dv.subrange(0, mid as int));
        assert(right.deep_view() =~= dv.subrange(mid as int, dv.len() as int));
    }
    let left = sort_dedup(left);
    let right = sort_dedup(right);
    let r = merge_dedup(left, right);
    proof {
        assert(dv =~= dv.subrange(0, mid as int) + dv.subrange(mid as int, dv.len() as int));
        assert forall|x: Seq<Seq<char>>| dv.to_set().contains(x) <==> (dv.subrange(0, mid as int).to_set().contains(x) || dv.subrange(mid as int, dv.len() as int).to_set().contains(x)) by {
            if dv.contains(x) {
                let i = choose|i: int| 0 <= i < dv.len() && dv[i] == x;
                if i < mid {
                    assert(dv.subrange(0, mid as int)[i] == x);
                } else {
                    assert(dv.subrange(mid as int, dv.len() as int)[i - mid] == x);
                }
            }
            if dv.subrange(0, mid as int).contains(x) {
                let i = choose|i: int| 0 <= i < mid && dv.subrange(0, mid as int)[i] == x;
                assert(dv[i] == x);
            }
            if dv.subrange(mid as int, dv.len() as int).contains(x) {
                let i = choose|i: int| 0 <= i < dv.len() - mid && dv.subrange(mid as int, dv.len() as int)[i] == x;
                assert(dv[i + mid] == x);
            }
        }
        assert(r.deep_view().to_set() =~= dv.to_set());
    }
    r
}

/// The graphemes of a word joined into one text.
fn concat_graphemes(gs: &Vec<&str>) -> (r: String)
    ensures
        r@ == gs.deep_view().flatten(),
{
    let ghost d = gs.deep_view();
    let mut r = String::new();
    let mut i: usize = 0;
    while i < gs.len()
        invariant
            d == gs.deep_view(),
            i <= gs@.len(),
            r@ == d.take(i as int).flatten(),
        decreases gs@.len() - i,
    {
        r.append(gs[i]);
        proof {
            assert(d.take(i as int + 1) =~= d.take(i as int).push(d[i as int]));
            d.take(i as int).lemma_flatten_push(d[i as int]);
        }
        i += 1;
    }
    assert(d.take(i as int) =~= d);
    r
}

impl<'s> Dict<'s> {
    #[verifier::type_invariant]
    spec fn inv(self) -> bool {
        &&& words_sorted(self.words.deep_view())
        &&& all_of_len(self.words.deep_view(), self.word_len as nat)
    }

    /// The number of graphemes of each word.
    pub closed spec fn spec_word_len(self) -> usize {
        self.word_len
    }

    /// The empty dictionary.
    fn new() -> (d: Dict<'s>)
        ensures
            d@ == Seq::<Seq<Seq<char>>>::empty(),
            d.spec_word_len() == 0,
    {
        let d = Dict { word_len: 0, words: Vec::new() };
        assert(d.words.deep_view() =~= Seq::<Seq<Seq<char>>>::empty());
        d
    }

    /// Makes a dictionary of the words, sorted and without duplicates.
    /// Every word must have as many graphemes as the first one; the first
    /// word that does not is reported.
    pub fn try_from_iter(iter: Vec<Vec<&'s str>>) -> (r: Result<Dict<'s>, DictError>)
        ensures
            dict_outcome(iter.deep_view(), r),
    {
        let ghost ws = iter.deep_view();
        let n = iter.len();
        if n == 0 {
            let d = Dict::new();
            proof {
                assert(d@.to_set() =~= ws.to_set());
            }
            return Ok(d);
        }
        let word_len = iter[0].len();
        assert(ws[0].len() == word_len);
        let mut i: usize = 1;
        while i < n
            invariant
                ws == iter.deep_view(),
                n == ws.len(),
                1 <= i <= n,
                word_len == ws[0].len(),
                forall|k: int| 0 <= k < i ==> (#[trigger] ws[k]).len() == word_len,
            decreases n - i,
        {
            assert(ws[i as int].len() == iter@[i as int]@.len());
            if iter[i].len() != word_len {
                let word = concat_graphemes(&iter[i]);
                assert(first_len_mismatch(ws, i as int));
                return Err(
                    DictError::WordLenMismatch {
                        expected_word_len: word_len,
                        actual_word_len: iter[i].len(),
                        word,
                    },
                );
            }
            i += 1;
        }
        let words = sort_dedup(iter);
        proof {
            let dw = words.deep_view();
            assert forall|k: int| 0 <= k < dw.len() implies (#[trigger] dw[k]).len() == word_len by {
                assert(dw.to_set().contains(dw[k]));
                assert(ws.to_set().contains(dw[k]));
                let j = choose|j: int| 0 <= j < ws.len() && ws[j] == dw[k];
                assert(ws[j].len() == word_len);
            }
        }
        let d = Dict { word_len, words };
        Ok(d)
    }

    /// The number of graphemes of each word.
    pub fn word_len(&self) -> (r: usize)
        ensures
            r == self.spec_word_len(),
    {
        self.word_len
    }

    /// The words, sorted, each of `word_len` graphemes.
    pub fn words(&self) -> (r: &Vec<Vec<&'s str>>)
        ensures
            r.deep_view() == self@,
            words_sorted(self@),
            all_of_len(self@, self.spec_word_len() as nat),
    {
        proof {
            use_type_invariant(self);
        }
        &self.words
    }

    /// The number of words.
    pub fn len(&self) -> (r: usize)
        ensures
            r == self@.len(),
    {
        self.words.len()
    }

    /// Whether there are no words.
    pub fn is_empty(&self) -> (r: bool)
        ensures
            r == (self@.len() == 0),
    {
        self.words.len() == 0
    }

    /// Walks the words at the positions that `bitmap` holds; refuses a bitmap
    /// with a position past the end of the dictionary.
    pub fn try_bitmap_iter<'b, 'd>(&'d self, bitmap: &'b RoaringBitmap) -> (r: Result<BitmapIter<'s, 'd, 'b>, BitmapIterError>)
        ensures
            iter_outcome(*self, *bitmap, r),
    {
        BitmapIter::try_from_dict(self, bitmap)
    }

    /// The place of a word in the dictionary, if it is there.
    pub fn word_index(&self, word: &Vec<&str>) -> (r: Option<usize>)
        ensures
            match r {
                Some(i) => i < self@.len() && self@[i as int] == word.deep_view(),
                None => !self@.contains(word.deep_view()),
            },
    {
        proof {
            use_type_invariant(self);
        }
        match search_word(&self.words, word.as_slice()) {
            Ok(i) => Some(i),
            Err(_) => None,
        }
    }
}

impl<'s> Default for Dict<'s> {
    fn default() -> (d: Dict<'s>)
        ensures
            d@ == Seq::<Seq<Seq<char>>>::empty(),
            d.spec_word_len() == 0,
    {
        Dict::new()
    }
}

} // verus!
