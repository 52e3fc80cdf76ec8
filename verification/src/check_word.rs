//! Scoring a suggested word against the hidden word, grapheme by grapheme.
use crate::check_result::CheckResult;
use crate::grapheme_map::{
    has_key, keys_sorted, lemma_insert_sorted, lemma_keys_distinct, lemma_remove_sorted, lemma_update_sorted,
    search_grapheme,
};
use crate::order::{lemma_chars_lt_asymmetric, same_grapheme};
use vstd::prelude::*;

verus! {

broadcast use {vstd::seq_lib::group_to_multiset_ensures, vstd::multiset::group_multiset_axioms};

/// Above this many graphemes, the leftover hidden graphemes are tallied by
/// grapheme instead of being kept in a list.
const WORD_LEN_ENUMERATION_THRESHOLD: usize = 20;

/// The number of distinct graphemes a tally makes room for at first.
const EXPECTED_ALPHABET_SIZE: usize = 64;

/// The suggested grapheme at `i` equals the hidden grapheme at `i`.
pub open spec fn exact_at(h: Seq<Seq<char>>, s: Seq<Seq<char>>, i: int) -> bool {
    0 <= i < h.len() && i < s.len() && s[i] == h[i]
}

/// How many positions the two words share.
pub open spec fn paired_len(h: Seq<Seq<char>>, s: Seq<Seq<char>>) -> int {
    if h.len() < s.len() {
        h.len() as int
    } else {
        s.len() as int
    }
}

/// How many hidden graphemes equal to `g`, among the first `n`, are not
/// matched in place by the suggested word.
pub open spec fn unmatched_hidden(h: Seq<Seq<char>>, s: Seq<Seq<char>>, n: int, g: Seq<char>) -> nat
    decreases n,
{
    if n <= 0 {
        0
    } else {
        unmatched_hidden(h, s, n - 1, g) + if n - 1 < h.len() && h[n - 1] == g && !exact_at(
            h,
            s,
            n - 1,
        ) {
            1nat
        } else {
            0nat
        }
    }
}

/// How many suggested graphemes equal to `g`, among the first `n`, are not
/// matched in place in the hidden word.
pub open spec fn unmatched_suggested(h: Seq<Seq<char>>, s: Seq<Seq<char>>, n: int, g: Seq<char>) -> nat
    decreases n,
{
    if n <= 0 {
        0
    } else {
        unmatched_suggested(h, s, n - 1, g) + if n - 1 < s.len() && s[n - 1] == g && !exact_at(
            h,
            s,
            n - 1,
        ) {
            1nat
        } else {
            0nat
        }
    }
}

/// How many of the hidden graphemes equal to `g` are left over once the
/// in-place matches are taken out.
pub open spec fn leftover_hidden(h: Seq<Seq<char>>, s: Seq<Seq<char>>, g: Seq<char>) -> nat {
    unmatched_hidden(h, s, paired_len(h, s), g)
}

/// The score of a suggested grapheme: `ExactPlace` where it matches in place;
/// otherwise `InWord` while the hidden word has a leftover copy of it not yet
/// claimed by an earlier suggested grapheme (left to right); `NotInWord` when
/// the copies are used up.
pub open spec fn check_at(h: Seq<Seq<char>>, s: Seq<Seq<char>>, i: int) -> CheckResult {
    if exact_at(h, s, i) {
        CheckResult::ExactPlace
    } else if unmatched_suggested(h, s, i, s[i]) < leftover_hidden(h, s, s[i]) {
        CheckResult::InWord
    } else {
        CheckResult::NotInWord
    }
}

/// The score of a suggested word against a hidden word, one result per
/// suggested grapheme.
pub open spec fn check_spec(h: Seq<Seq<char>>, s: Seq<Seq<char>>) -> Seq<CheckResult> {
    Seq::new(s.len(), |i: int| check_at(h, s, i))
}

/// A word checked against itself is in place everywhere.
pub proof fn lemma_check_word_same_word(w: Seq<Seq<char>>)
    ensures
        check_spec(w, w) == Seq::new(w.len(), |i: int| CheckResult::ExactPlace),
{
    assert(check_spec(w, w) =~= Seq::new(w.len(), |i: int| CheckResult::ExactPlace));
}

/// How many of the first `n` graphemes of `w` equal `g`.
pub open spec fn copies_upto(w: Seq<Seq<char>>, g: Seq<char>, n: int) -> nat
    decreases n,
{
    if n <= 0 {
        0
    } else {
        copies_upto(w, g, n - 1) + if n - 1 < w.len() && w[n - 1] == g {
            1nat
        } else {
            0nat
        }
    }
}

/// How many of the first `n` suggested graphemes equal to `g` are scored
/// `ExactPlace` or `InWord`.
pub open spec fn claimed(h: Seq<Seq<char>>, s: Seq<Seq<char>>, g: Seq<char>, n: int) -> nat
    decreases n,
{
    if n <= 0 {
        0
    } else {
        claimed(h, s, g, n - 1) + if n - 1 < s.len() && s[n - 1] == g && check_at(h, s, n - 1)
            != CheckResult::NotInWord {
            1nat
        } else {
            0nat
        }
    }
}

spec fn exact_upto(h: Seq<Seq<char>>, s: Seq<Seq<char>>, g: Seq<char>, n: int) -> nat
    decreases n,
{
    if n <= 0 {
        0
    } else {
        exact_upto(h, s, g, n - 1) + if exact_at(h, s, n - 1) && s[n - 1] == g {
            1nat
        } else {
            0nat
        }
    }
}

spec fn in_word_upto(h: Seq<Seq<char>>, s: Seq<Seq<char>>, g: Seq<char>, n: int) -> nat
    decreases n,
{
    if n <= 0 {
        0
    } else {
        in_word_upto(h, s, g, n - 1) + if n - 1 < s.len() && s[n - 1] == g && !exact_at(h, s, n - 1)
            && unmatched_suggested(h, s, n - 1, g) < leftover_hidden(h, s, g) {
            1nat
        } else {
            0nat
        }
    }
}

proof fn lemma_claimed_split(h: Seq<Seq<char>>, s: Seq<Seq<char>>, g: Seq<char>, n: int)
    requires
        0 <= n,
    ensures
        claimed(h, s, g, n) == exact_upto(h, s, g, n) + in_word_upto(h, s, g, n),
    decreases n,
{
    if n > 0 {
        lemma_claimed_split(h, s, g, n - 1);
    }
}

proof fn lemma_in_word_min(h: Seq<Seq<char>>, s: Seq<Seq<char>>, g: Seq<char>, n: int)
    requires
        0 <= n <= s.len(),
    ensures
        in_word_upto(h, s, g, n) == if unmatched_suggested(h, s, n, g) < leftover_hidden(h, s, g) {
            unmatched_suggested(h, s, n, g)
        } else {
            leftover_hidden(h, s, g)
        },
    decreases n,
{
    if n > 0 {
        lemma_in_word_min(h, s, g, n - 1);
    }
}

proof fn lemma_exact_and_unmatched(h: Seq<Seq<char>>, s: Seq<Seq<char>>, g: Seq<char>, n: int)
    requires
        0 <= n <= paired_len(h, s),
    ensures
        exact_upto(h, s, g, n) + unmatched_hidden(h, s, n, g) == copies_upto(h, g, n),
    decreases n,
{
    if n > 0 {
        lemma_exact_and_unmatched(h, s, g, n - 1);
    }
}

proof fn lemma_exact_past_pairs(h: Seq<Seq<char>>, s: Seq<Seq<char>>, g: Seq<char>, n: int)
    requires
        paired_len(h, s) <= n,
    ensures
        exact_upto(h, s, g, n) == exact_upto(h, s, g, paired_len(h, s)),
    decreases n,
{
    if n > paired_len(h, s) {
        lemma_exact_past_pairs(h, s, g, n - 1);
    }
}

proof fn lemma_copies_grow(w: Seq<Seq<char>>, g: Seq<char>, a: int, b: int)
    requires
        0 <= a <= b,
    ensures
        copies_upto(w, g, a) <= copies_upto(w, g, b),
    decreases b - a,
{
    if a < b {
        lemma_copies_grow(w, g, a, b - 1);
    }
}

/// The scoring never claims more copies of a grapheme than the hidden word
/// holds: the suggested graphemes equal to `g` scored `ExactPlace` or
/// `InWord` are at most as many as the hidden graphemes equal to `g`.
pub proof fn lemma_claims_within_hidden(h: Seq<Seq<char>>, s: Seq<Seq<char>>, g: Seq<char>)
    ensures
        claimed(h, s, g, s.len() as int) <= copies_upto(h, g, h.len() as int),
{
    let n = s.len() as int;
    let m = paired_len(h, s);
    lemma_claimed_split(h, s, g, n);
    lemma_in_word_min(h, s, g, n);
    lemma_exact_past_pairs(h, s, g, n);
    lemma_exact_and_unmatched(h, s, g, m);
    lemma_copies_grow(h, g, m, h.len() as int);
}

/// Scores the suggested word against the hidden word.
pub fn check_word(hidden: &[&str], suggested: &[&str]) -> (r: Vec<CheckResult>)
    ensures
        r@ == check_spec(hidden.deep_view(), suggested.deep_view()),
{
    if suggested.len() <= WORD_LEN_ENUMERATION_THRESHOLD {
        check_word_enumerating(hidden, suggested)
    } else {
        check_word_hashing(hidden, suggested)
    }
}

/// A vector of `n` copies of `NotInWord`.
fn not_in_word_results(n: usize) -> (r: Vec<CheckResult>)
    ensures
        r@.len() == n,
        forall|k: int| 0 <= k < n ==> r@[k] == CheckResult::NotInWord,
{
    let mut r: Vec<CheckResult> = Vec::with_capacity(n);
    let mut i: usize = 0;
    while i < n
        invariant
            i <= n,
            r@.len() == i,
            forall|k: int| 0 <= k < i ==> r@[k] == CheckResult::NotInWord,
        decreases n - i,
    {
        r.push(CheckResult::NotInWord);
        i += 1;
    }
    r
}

/// The last place in `v` that holds `g`.
fn rposition_grapheme(v: &Vec<&str>, g: &str) -> (r: Option<usize>)
    ensures
        match r {
            Some(j) => j < v@.len() && v@[j as int]@ == g@ && forall|k: int|
                j < k < v@.len() ==> (#[trigger] v@[k])@ != g@,
            None => forall|k: int| 0 <= k < v@.len() ==> (#[trigger] v@[k])@ != g@,
        },
{
    let mut i = v.len();
    while i > 0
        invariant
            i <= v@.len(),
            forall|k: int| i <= k < v@.len() ==> (#[trigger] v@[k])@ != g@,
        decreases i,
    {
        i -= 1;
        if same_grapheme(v[i], g) {
            return Some(i);
        }
    }
    None
}

/// The results of the in-place pass over positions `i..n` (`n` the paired
/// length): `ExactPlace` there where the graphemes match, `NotInWord`
/// everywhere else.
pub open spec fn after_exact_pass(h: Seq<Seq<char>>, s: Seq<Seq<char>>, i: int, k: int) -> CheckResult {
    if i <= k && exact_at(h, s, k) {
        CheckResult::ExactPlace
    } else {
        CheckResult::NotInWord
    }
}

/// The leftover copies of `g` still unclaimed once the suggested graphemes
/// before `i` have claimed theirs.
pub open spec fn unclaimed(h: Seq<Seq<char>>, s: Seq<Seq<char>>, i: int, g: Seq<char>) -> nat {
    if unmatched_suggested(h, s, i, g) < leftover_hidden(h, s, g) {
        (leftover_hidden(h, s, g) - unmatched_suggested(h, s, i, g)) as nat
    } else {
        0
    }
}

/// Scores the word keeping the leftover hidden graphemes in a list.
pub fn check_word_enumerating(hidden: &[&str], suggested: &[&str]) -> (r: Vec<CheckResult>)
    ensures
        r@ == check_spec(hidden.deep_view(), suggested.deep_view()),
{
    let ghost h = hidden.deep_view();
    let ghost s = suggested.deep_view();
    let sl = suggested.len();
    let n = if hidden.len() < sl {
        hidden.len()
    } else {
        sl
    };
    let mut not_found_hidden: Vec<&str> = Vec::with_capacity(sl);
    let mut result = not_in_word_results(sl);
    let mut i = n;
    while i > 0
        invariant
            h == hidden.deep_view(),
            s == suggested.deep_view(),
            sl == s.len(),
            n == paired_len(h, s),
            i <= n,
            result@.len() == sl,
            forall|k: int| 0 <= k < sl ==> result@[k] == after_exact_pass(h, s, i as int, k),
            forall|g: Seq<char>|
                not_found_hidden.deep_view().to_multiset().count(g) == unmatched_hidden(h, s, n as int, g)
                    - unmatched_hidden(h, s, i as int, g),
        decreases i,
    {
        i -= 1;
        assert(h[i as int] == hidden@[i as int]@);
        assert(s[i as int] == suggested@[i as int]@);
        if same_grapheme(suggested[i], hidden[i]) {
            result.set(i, CheckResult::ExactPlace);
        } else {
            let ghost old_nf = not_found_hidden.deep_view();
            not_found_hidden.push(hidden[i]);
            assert(not_found_hidden.deep_view() =~= old_nf.push(h[i as int]));
        }
    }
    let ghost m = not_found_hidden.deep_view();
    let mut i: usize = 0;
    while i < sl
        invariant
            h == hidden.deep_view(),
            s == suggested.deep_view(),
            sl == s.len(),
            n == paired_len(h, s),
            i <= sl,
            result@.len() == sl,
            forall|k: int| 0 <= k < i ==> result@[k] == check_at(h, s, k),
            forall|k: int| i <= k < sl ==> result@[k] == after_exact_pass(h, s, 0, k),
            forall|g: Seq<char>|
                not_found_hidden.deep_view().to_multiset().count(g) == unclaimed(h, s, i as int, g),
        decreases sl - i,
    {
        assert(s[i as int] == suggested@[i as int]@);
        if result[i] == CheckResult::NotInWord {
            let ghost nf = not_found_hidden.deep_view();
            match rposition_grapheme(&not_found_hidden, suggested[i]) {
                Some(j) => {
                    not_found_hidden.swap_remove(j);
                    proof {
                        assert(nf[j as int] == s[i as int]);
                        assert(nf.contains(s[i as int]));
                        assert(nf.to_multiset().count(s[i as int]) > 0);
                        assert(!exact_at(h, s, i as int));
                        assert(check_at(h, s, i as int) == CheckResult::InWord);
                        assert(not_found_hidden.deep_view() =~= nf.update(j as int, nf.last()).drop_last());
                        assert(nf.update(j as int, nf.last()).drop_last() =~= nf.update(j as int, nf.last()).remove(nf.len() - 1));
                    }
                    result.set(i, CheckResult::InWord);
                },
                None => {
                    proof {
                        if nf.contains(s[i as int]) {
                            let j = choose|j: int| 0 <= j < nf.len() && nf[j] == s[i as int];
                            assert(nf[j] == not_found_hidden@[j]@);
                        }
                        assert(!nf.contains(s[i as int]));
                        assert(nf.to_multiset().count(s[i as int]) == 0);
                        assert(!exact_at(h, s, i as int));
                        assert(check_at(h, s, i as int) == CheckResult::NotInWord);
                    }
                },
            }
        }
        i += 1;
    }
    proof {
        assert(result@ =~= check_spec(h, s));
    }
    result
}

/// How many copies of `g` a tally holds: an entry `(g, v)` stands for
/// `v + 1` copies, and a missing entry for none.
pub open spec fn tally_matches(c: Seq<(&str, usize)>, target: spec_fn(Seq<char>) -> int) -> bool {
    &&& keys_sorted(c)
    &&& forall|k: int| 0 <= k < c.len() ==> (#[trigger] c[k]).1 + 1 == target(c[k].0@)
    &&& forall|g: Seq<char>| #[trigger] has_key(c, g) <==> target(g) > 0
}

/// Scores the word tallying the leftover hidden graphemes by grapheme, for
/// long words where a list would be slow to search.
pub fn check_word_hashing<'h>(hidden: &[&'h str], suggested: &[&str]) -> (r: Vec<CheckResult>)
    ensures
        r@ == check_spec(hidden.deep_view(), suggested.deep_view()),
{
    let ghost h = hidden.deep_view();
    let ghost s = suggested.deep_view();
    let sl = suggested.len();
    let n = if hidden.len() < sl {
        hidden.len()
    } else {
        sl
    };
    let mut not_found_hidden: Vec<(&'h str, usize)> = Vec::with_capacity(
        if sl < EXPECTED_ALPHABET_SIZE {
            sl
        } else {
            EXPECTED_ALPHABET_SIZE
        },
    );
    let mut result = not_in_word_results(sl);
    let mut i = n;
    while i > 0
        invariant
            h == hidden.deep_view(),
            s == suggested.deep_view(),
            sl == s.len(),
            n == paired_len(h, s),
            i <= n,
            result@.len() == sl,
            forall|k: int| 0 <= k < sl ==> result@[k] == after_exact_pass(h, s, i as int, k),
            tally_matches(
                not_found_hidden@,
                |g: Seq<char>| unmatched_hidden(h, s, n as int, g) - unmatched_hidden(h, s, i as int, g),
            ),
        decreases i,
    {
        let ghost t_old = |g: Seq<char>| unmatched_hidden(h, s, n as int, g) - unmatched_hidden(h, s, i as int, g);
        i -= 1;
        let ghost t_new = |g: Seq<char>| unmatched_hidden(h, s, n as int, g) - unmatched_hidden(h, s, i as int, g);
        assert(h[i as int] == hidden@[i as int]@);
        assert(s[i as int] == suggested@[i as int]@);
        if same_grapheme(suggested[i], hidden[i]) {
            result.set(i, CheckResult::ExactPlace);
            assert(forall|g: Seq<char>| #[trigger] t_new(g) == t_old(g));
        } else {
            let grapheme_h = hidden[i];
            let ghost c = not_found_hidden@;
            assert(forall|g: Seq<char>| #[trigger] t_new(g) == t_old(g) + if g == h[i as int] {1int} else {0int});
            match search_grapheme(&not_found_hidden, grapheme_h) {
                Ok(k) => {
                    let v = not_found_hidden[k].1;
                    let key = not_found_hidden[k].0;
                    assert(v + 1 == t_old(h[i as int]));
                    assert(t_old(h[i as int]) <= n) by {
                        lemma_unmatched_hidden_bound(h, s, n as int, i as int + 1, h[i as int]);
                    }
                    not_found_hidden.set(k, (key, v + 1));
                    proof {
                        lemma_update_sorted(c, k as int, (key, (v + 1) as usize));
                        assert forall|j: int| 0 <= j < not_found_hidden@.len() implies (
                        #[trigger] not_found_hidden@[j]).1 + 1 == t_new(not_found_hidden@[j].0@) by {
                            if j != k {
                                lemma_keys_distinct(c, j, k as int);
                            }
                        }
                        assert forall|g: Seq<char>| #[trigger] has_key(not_found_hidden@, g) <==> t_new(g) > 0 by {
                            if g == h[i as int] {
                                assert(has_key(c, g));
                            }
                        }
                    }
                },
                Err(pos) => {
                    not_found_hidden.insert(pos, (grapheme_h, 0));
                    proof {
                        lemma_insert_sorted(c, pos as int, (grapheme_h, 0usize));
                        lemma_unmatched_hidden_bound(h, s, n as int, i as int + 1, h[i as int]);
                        assert(t_old(h[i as int]) == 0);
                        assert forall|j: int| 0 <= j < not_found_hidden@.len() implies (
                        #[trigger] not_found_hidden@[j]).1 + 1 == t_new(not_found_hidden@[j].0@) by {
                            if j < pos {
                                assert(not_found_hidden@[j] == c[j]);
                                lemma_chars_lt_asymmetric(c[j].0@, h[i as int]);
                            } else if j > pos {
                                assert(not_found_hidden@[j] == c[j - 1]);
                                lemma_chars_lt_asymmetric(h[i as int], c[j - 1].0@);
                            }
                        }
                        assert forall|g: Seq<char>| #[trigger] has_key(not_found_hidden@, g) <==> t_new(g) > 0 by {
                            assert(has_key(not_found_hidden@, g) <==> has_key(c, g) || g == h[i as int]);
                        }
                    }
                },
            }
        }
    }
    let mut i: usize = 0;
    while i < sl
        invariant
            h == hidden.deep_view(),
            s == suggested.deep_view(),
            sl == s.len(),
            n == paired_len(h, s),
            i <= sl,
            result@.len() == sl,
            forall|k: int| 0 <= k < i ==> result@[k] == check_at(h, s, k),
            forall|k: int| i <= k < sl ==> result@[k] == after_exact_pass(h, s, 0, k),
            tally_matches(not_found_hidden@, |g: Seq<char>| unclaimed(h, s, i as int, g) as int),
        decreases sl - i,
    {
        let ghost t_old = |g: Seq<char>| unclaimed(h, s, i as int, g) as int;
        let ghost t_new = |g: Seq<char>| unclaimed(h, s, i as int + 1, g) as int;
        assert(s[i as int] == suggested@[i as int]@);
        if result[i] == CheckResult::NotInWord {
            let ghost c = not_found_hidden@;
            let grapheme_s = suggested[i];
            assert(!exact_at(h, s, i as int));
            assert(forall|g: Seq<char>| #[trigger] t_new(g) == if g == s[i as int] && t_old(g) > 0 { t_old(g) - 1 } else { t_old(g) });
            match search_grapheme(&not_found_hidden, grapheme_s) {
                Ok(k) => {
                    let v = not_found_hidden[k].1;
                    let key = not_found_hidden[k].0;
                    if v >= 1 {
                        not_found_hidden.set(k, (key, v - 1));
                        proof {
                            lemma_update_sorted(c, k as int, (key, (v - 1) as usize));
                            assert forall|j: int| 0 <= j < not_found_hidden@.len() implies (
                            #[trigger] not_found_hidden@[j]).1 + 1 == t_new(not_found_hidden@[j].0@) by {
                                if j != k {
                                    lemma_keys_distinct(c, j, k as int);
                                }
                            }
                            assert forall|g: Seq<char>| #[trigger] has_key(not_found_hidden@, g) <==> t_new(g) > 0 by {
                                if g == s[i as int] {
                                    assert(not_found_hidden@[k as int].0@ == g);
                                }
                            }
                        }
                    } else {
                        not_found_hidden.remove(k);
                        proof {
                            lemma_remove_sorted(c, k as int);
                            assert forall|j: int| 0 <= j < not_found_hidden@.len() implies (
                            #[trigger] not_found_hidden@[j]).1 + 1 == t_new(not_found_hidden@[j].0@) by {
                                if j < k {
                                    assert(not_found_hidden@[j] == c[j]);
                                    lemma_keys_distinct(c, j, k as int);
                                } else {
                                    assert(not_found_hidden@[j] == c[j + 1]);
                                    lemma_keys_distinct(c, j + 1, k as int);
                                }
                            }
                        }
                    }
                    proof {
                        assert(has_key(c, s[i as int]));
                        assert(check_at(h, s, i as int) == CheckResult::InWord);
                    }
                    result.set(i, CheckResult::InWord);
                },
                Err(_) => {
                    proof {
                        assert(check_at(h, s, i as int) == CheckResult::NotInWord);
                        assert forall|g: Seq<char>| #[trigger] has_key(not_found_hidden@, g) <==> t_new(g) > 0 by {}
                    }
                },
            }
        } else {
            assert(forall|g: Seq<char>| #[trigger] t_new(g) == t_old(g));
        }
        i += 1;
    }
    proof {
        assert(result@ =~= check_spec(h, s));
    }
    result
}

/// A count of unmatched hidden graphemes over a range never exceeds its length.
pub proof fn lemma_unmatched_hidden_bound(h: Seq<Seq<char>>, s: Seq<Seq<char>>, n: int, i: int, g: Seq<char>)
    requires
        0 <= i <= n,
    ensures
        unmatched_hidden(h, s, n, g) - unmatched_hidden(h, s, i, g) <= n - i,
        unmatched_hidden(h, s, i, g) <= unmatched_hidden(h, s, n, g),
    decreases n - i,
{
    if i < n {
        lemma_unmatched_hidden_bound(h, s, n - 1, i, g);
    }
}

} // verus!
