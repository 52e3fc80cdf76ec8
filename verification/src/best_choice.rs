//! The integer part of choosing the best word to suggest: how the words
//! still possible split by the check result that a suggestion would get, and
//! which suggestions stay the best as each is weighed in turn.
use crate::bitmap_iter::{words_at, BitmapIter};
use crate::check_result::CheckResult;
use crate::check_word::{check_spec, check_word};
use crate::order::Order;
use vstd::prelude::*;

verus! {

/// How many of the first `n` hidden words give the suggestion the check
/// result `p`.
pub open spec fn hidden_with_result(hs: Seq<Seq<Seq<char>>>, s: Seq<Seq<char>>, p: Seq<CheckResult>, n: int) -> nat
    decreases n,
{
    if n <= 0 {
        0
    } else {
        hidden_with_result(hs, s, p, n - 1) + if check_spec(hs[n - 1], s) == p {
            1nat
        } else {
            0nat
        }
    }
}

/// The tally holds each check result that some of the first `n` hidden words
/// give, once, with one less than the number of those words.
pub open spec fn tally_of(t: Seq<(Vec<CheckResult>, usize)>, hs: Seq<Seq<Seq<char>>>, s: Seq<Seq<char>>, n: int) -> bool {
    &&& forall|i: int, j: int| 0 <= i < j < t.len() ==> (#[trigger] t[i]).0@ != (#[trigger] t[j]).0@
    &&& forall|i: int| 0 <= i < t.len() ==> (#[trigger] t[i]).1 + 1 == hidden_with_result(hs, s, t[i].0@, n)
    &&& forall|k: int| 0 <= k < n ==> exists|i: int| 0 <= i < t.len() && (#[trigger] t[i]).0@ == check_spec(#[trigger] hs[k], s)
}

/// The number of hidden words a tally accounts for: each entry stands for
/// one more word than it holds.
pub open spec fn tally_total(t: Seq<(Vec<CheckResult>, usize)>) -> nat
    decreases t.len(),
{
    if t.len() == 0 {
        0
    } else {
        tally_total(t.drop_last()) + (t.last().1 + 1) as nat
    }
}

proof fn lemma_tally_total_bump(t: Seq<(Vec<CheckResult>, usize)>, i: int, x: (Vec<CheckResult>, usize))
    requires
        0 <= i < t.len(),
        x.1 == t[i].1 + 1,
    ensures
        tally_total(t.update(i, x)) == tally_total(t) + 1,
    decreases t.len(),
{
    let u = t.update(i, x);
    if i == t.len() - 1 {
        assert(u.drop_last() =~= t.drop_last());
    } else {
        lemma_tally_total_bump(t.drop_last(), i, x);
        assert(u.drop_last() =~= t.drop_last().update(i, x));
    }
}

/// Whether two lists of check results are equal.
fn same_results(a: &Vec<CheckResult>, b: &Vec<CheckResult>) -> (r: bool)
    ensures
        r == (a@ == b@),
{
    if a.len() != b.len() {
        return false;
    }
    let mut i: usize = 0;
    while i < a.len()
        invariant
            a@.len() == b@.len(),
            i <= a@.len(),
            forall|k: int| 0 <= k < i ==> a@[k] == b@[k],
        decreases a@.len() - i,
    {
        if a[i] != b[i] {
            return false;
        }
        i += 1;
    }
    assert(a@ =~= b@);
    true
}

/// The entry of the tally for a check result, if there is one.
fn find_tally(tally: &Vec<(Vec<CheckResult>, usize)>, result: &Vec<CheckResult>) -> (r: Option<usize>)
    ensures
        match r {
            Some(i) => i < tally@.len() && tally@[i as int].0@ == result@,
            None => forall|k: int| 0 <= k < tally@.len() ==> (#[trigger] tally@[k]).0@ != result@,
        },
{
    let mut i: usize = 0;
    while i < tally.len()
        invariant
            i <= tally@.len(),
            forall|k: int| 0 <= k < i ==> (#[trigger] tally@[k]).0@ != result@,
        decreases tally@.len() - i,
    {
        if same_results(&tally[i].0, result) {
            return Some(i);
        }
        i += 1;
    }
    None
}

/// Splits the hidden words left in `hidden` by the check result that the
/// suggestion gets against each: one entry per distinct check result, with
/// one less than the number of hidden words that give it (the tally counts
/// a result's first word as 0).
pub fn tally_check_results(hidden: &BitmapIter, suggestion: &[&str]) -> (r: Vec<(Vec<CheckResult>, usize)>)
    requires
        hidden.wf(),
        hidden.remaining().len() <= usize::MAX,
    ensures
        tally_of(
            r@,
            words_at(hidden.spec_dict()@, hidden.remaining()),
            suggestion.deep_view(),
            hidden.remaining().len() as int,
        ),
        tally_total(r@) == hidden.remaining().len(),
{
    let ghost hs = words_at(hidden.spec_dict()@, hidden.remaining());
    let ghost s = suggestion.deep_view();
    let ghost rem = hidden.remaining();
    let (total, _) = hidden.size_hint();
    let mut it = hidden.clone();
    let mut tally: Vec<(Vec<CheckResult>, usize)> = Vec::new();
    let mut n: usize = 0;
    while n < total
        invariant
            total == rem.len(),
            n <= total,
            it.spec_dict() == hidden.spec_dict(),
            it.wf(),
            it.remaining() == rem.skip(n as int),
            hs == words_at(hidden.spec_dict()@, rem),
            s == suggestion.deep_view(),
            tally_of(tally@, hs, s, n as int),
            tally_total(tally@) == n,
        decreases total - n,
    {
        let possible_hidden = match it.next() {
            Some(h) => h,
            None => {
                proof {
                    assert(rem.skip(n as int).len() > 0);
                }
                return tally;
            },
        };
        proof {
            assert(rem.skip(n as int)[0] == rem[n as int]);
            assert(rem.skip(n as int).drop_first() =~= rem.skip(n as int + 1));
            assert(possible_hidden.deep_view() == hs[n as int]);
        }
        let result = check_word(possible_hidden.as_slice(), suggestion);
        let ghost p = result@;
        assert(p == check_spec(hs[n as int], s));
        let ghost before = tally@;
        if let Some(i) = find_tally(&tally, &result) {
            let c = tally[i].1;
            proof {
                assert(c + 1 == hidden_with_result(hs, s, p, n as int));
                assert(hidden_with_result(hs, s, p, n as int) <= n) by {
                    lemma_hidden_with_result_bound(hs, s, p, n as int);
                }
            }
            let key = tally[i].0.clone();
            tally.set(i, (key, c + 1));
            proof {
                lemma_tally_total_bump(before, i as int, tally@[i as int]);
                assert(tally@ =~= before.update(i as int, tally@[i as int]));
                assert forall|k: int| 0 <= k < tally@.len() implies (#[trigger] tally@[k]).1 + 1 == hidden_with_result(hs, s, tally@[k].0@, n + 1) by {
                    if k != i {
                        assert(tally@[k] == before[k]);
                    }
                }
                assert forall|k: int| 0 <= k < n + 1 implies exists|j: int| 0 <= j < tally@.len() && (#[trigger] tally@[j]).0@ == check_spec(#[trigger] hs[k], s) by {
                    if k < n {
                        let j = choose|j: int| 0 <= j < before.len() && (#[trigger] before[j]).0@ == check_spec(hs[k], s);
                        assert(tally@[j].0@ == before[j].0@);
                    } else {
                        assert(tally@[i as int].0@ == p);
                    }
                }
            }
        } else {
            tally.push((result, 0));
            proof {
                assert(tally@.drop_last() =~= before);
                lemma_hidden_with_result_zero(hs, s, p, n as int, before);
                assert forall|k: int| 0 <= k < tally@.len() implies (#[trigger] tally@[k]).1 + 1 == hidden_with_result(hs, s, tally@[k].0@, n + 1) by {
                    if k < before.len() {
                        assert(tally@[k] == before[k]);
                    }
                }
                assert forall|k: int| 0 <= k < n + 1 implies exists|j: int| 0 <= j < tally@.len() && (#[trigger] tally@[j]).0@ == check_spec(#[trigger] hs[k], s) by {
                    if k < n {
                        let j = choose|j: int| 0 <= j < before.len() && (#[trigger] before[j]).0@ == check_spec(hs[k], s);
                        assert(tally@[j] == before[j]);
                    } else {
                        assert(tally@[before.len() as int].0@ == p);
                    }
                }
            }
        }
        n += 1;
    }
    tally
}

pub proof fn lemma_hidden_with_result_bound(hs: Seq<Seq<Seq<char>>>, s: Seq<Seq<char>>, p: Seq<CheckResult>, n: int)
    requires
        0 <= n,
    ensures
        hidden_with_result(hs, s, p, n) <= n,
    decreases n,
{
    if n > 0 {
        lemma_hidden_with_result_bound(hs, s, p, n - 1);
    }
}

/// A check result given by some of the first `n` hidden words is given by
/// one of them in particular.
proof fn lemma_hidden_with_result_witness(hs: Seq<Seq<Seq<char>>>, s: Seq<Seq<char>>, p: Seq<CheckResult>, n: int)
    requires
        0 <= n,
        hidden_with_result(hs, s, p, n) > 0,
    ensures
        exists|k: int| 0 <= k < n && check_spec(#[trigger] hs[k], s) == p,
    decreases n,
{
    if check_spec(hs[n - 1], s) != p {
        lemma_hidden_with_result_witness(hs, s, p, n - 1);
        let k = choose|k: int| 0 <= k < n - 1 && check_spec(#[trigger] hs[k], s) == p;
        assert(0 <= k < n && check_spec(hs[k], s) == p);
    } else {
        assert(check_spec(hs[n - 1], s) == p);
    }
}

/// A check result that no entry of a tally of the first `n` hidden words
/// holds is given by none of them.
proof fn lemma_hidden_with_result_zero(
    hs: Seq<Seq<Seq<char>>>,
    s: Seq<Seq<char>>,
    p: Seq<CheckResult>,
    n: int,
    t: Seq<(Vec<CheckResult>, usize)>,
)
    requires
        0 <= n,
        tally_of(t, hs, s, n),
        forall|k: int| 0 <= k < t.len() ==> (#[trigger] t[k]).0@ != p,
    ensures
        hidden_with_result(hs, s, p, n) == 0,
{
    if hidden_with_result(hs, s, p, n) > 0 {
        lemma_hidden_with_result_witness(hs, s, p, n);
        let k = choose|k: int| 0 <= k < n && check_spec(#[trigger] hs[k], s) == p;
        let j = choose|j: int| 0 <= j < t.len() && (#[trigger] t[j]).0@ == check_spec(#[trigger] hs[k], s);
        assert(t[j].0@ == p);
    }
}

/// What weighing a new suggestion does to the best choice so far.
#[derive(Clone, Copy, Debug, PartialEq, Eq, Structural)]
pub enum ChoiceStep {
    /// The new suggestion alone becomes the best choice.
    Replace,
    /// The new suggestion joins the best choice.
    Join,
    /// The best choice stays as it is.
    Keep,
}

/// The step for a suggestion that splits the hidden words into `new_count`
/// groups, against a best choice of `best_count` groups (`None` before the
/// first suggestion). More groups win; with as many groups,
/// `variance_order` (the best choice's variance of group sizes compared with
/// the new one's) decides: a greater variance loses, an equal one shares,
/// and a smaller one or no comparison keeps the best choice.
pub open spec fn step_for(best_count: Option<usize>, new_count: usize, variance_order: Option<Order>) -> ChoiceStep {
    match best_count {
        None => ChoiceStep::Replace,
        Some(c) => if c < new_count {
            ChoiceStep::Replace
        } else if c > new_count {
            ChoiceStep::Keep
        } else {
            match variance_order {
                Some(Order::Greater) => ChoiceStep::Replace,
                Some(Order::Equal) => ChoiceStep::Join,
                _ => ChoiceStep::Keep,
            }
        },
    }
}

/// Decides what a new suggestion does to the best choice so far; the
/// variance comparison is read only where the counts of groups are equal.
pub fn choice_step(best_count: Option<usize>, new_count: usize, variance_order: Option<Order>) -> (r: ChoiceStep)
    ensures
        r == step_for(best_count, new_count, variance_order),
        best_count is None ==> r == ChoiceStep::Replace,
        forall|c: usize| best_count == Some(c) && c < new_count ==> r == ChoiceStep::Replace,
        forall|c: usize| best_count == Some(c) && c > new_count ==> r == ChoiceStep::Keep,
        best_count == Some(new_count) && variance_order == Some(Order::Greater) ==> r == ChoiceStep::Replace,
        best_count == Some(new_count) && variance_order == Some(Order::Equal) ==> r == ChoiceStep::Join,
        best_count == Some(new_count) && (variance_order == Some(Order::Less) || variance_order is None)
            ==> r == ChoiceStep::Keep,
{
    match best_count {
        None => ChoiceStep::Replace,
        Some(c) => if c < new_count {
            ChoiceStep::Replace
        } else if c > new_count {
            ChoiceStep::Keep
        } else {
            match variance_order {
                Some(Order::Greater) => ChoiceStep::Replace,
                Some(Order::Equal) => ChoiceStep::Join,
                _ => ChoiceStep::Keep,
            }
        },
    }
}

/// The best choice after weighing the first `k` suggestions, where
/// suggestion `i` splits the hidden words into `counts[i]` groups and
/// `orders[i]` compares variances when it is weighed: its count of groups
/// and the places of the suggestions chosen.
pub open spec fn best_after(counts: Seq<usize>, orders: Seq<Option<Order>>, k: int) -> Option<(usize, Seq<int>)>
    decreases k,
{
    if k <= 0 {
        None
    } else {
        let prev = best_after(counts, orders, k - 1);
        let prev_count = match prev {
            Some(b) => Some(b.0),
            None => None,
        };
        match step_for(prev_count, counts[k - 1], orders[k - 1]) {
            ChoiceStep::Replace => Some((counts[k - 1], seq![k - 1])),
            ChoiceStep::Join => match prev {
                Some(b) => Some((b.0, b.1.push(k - 1))),
                None => None,
            },
            ChoiceStep::Keep => prev,
        }
    }
}

/// The count of groups of a best choice (0 for none).
pub open spec fn best_count(b: Option<(usize, Seq<int>)>) -> usize {
    match b {
        Some(x) => x.0,
        None => 0,
    }
}

/// The places of the suggestions a best choice holds (none for none).
pub open spec fn best_places(b: Option<(usize, Seq<int>)>) -> Seq<int> {
    match b {
        Some(x) => x.1,
        None => Seq::empty(),
    }
}

/// Whatever the variance comparisons, once some suggestion has been
/// weighed the best choice has the most groups of any suggestion weighed so
/// far, and every suggestion it holds has that many groups.
pub proof fn lemma_best_has_most_groups(counts: Seq<usize>, orders: Seq<Option<Order>>, k: int)
    requires
        0 < k <= counts.len(),
        orders.len() == counts.len(),
    ensures
        best_after(counts, orders, k) is Some,
        forall|i: int| 0 <= i < k ==> counts[i] <= best_count(best_after(counts, orders, k)),
        best_places(best_after(counts, orders, k)).len() > 0,
        forall|j: int|
            0 <= j < best_places(best_after(counts, orders, k)).len() ==> 0 <= #[trigger] best_places(best_after(counts, orders, k))[j] < k
                && counts[best_places(best_after(counts, orders, k))[j]] == best_count(best_after(counts, orders, k)),
    decreases k,
{
    let b = best_after(counts, orders, k);
    if k > 1 {
        lemma_best_has_most_groups(counts, orders, k - 1);
        let prev = best_after(counts, orders, k - 1);
        match step_for(Some(best_count(prev)), counts[k - 1], orders[k - 1]) {
            ChoiceStep::Replace => {
                assert(best_places(b) == seq![k - 1]);
                assert(best_places(b)[0] == k - 1);
            },
            ChoiceStep::Join => {
                assert(best_places(b) == best_places(prev).push(k - 1));
                assert forall|j: int| 0 <= j < best_places(b).len() implies 0 <= #[trigger] best_places(b)[j] < k && counts[best_places(b)[j]] == best_count(b) by {
                    if j < best_places(prev).len() {
                        assert(best_places(b)[j] == best_places(prev)[j]);
                    }
                }
            },
            ChoiceStep::Keep => {},
        }
    } else {
        assert(best_places(b) == seq![0int]);
        assert(best_places(b)[0] == 0);
    }
}

/// The first suggestion weighed always becomes the best choice.
pub proof fn lemma_first_suggestion_becomes_best(new_count: usize, variance_order: Option<Order>)
    ensures
        step_for(None, new_count, variance_order) == ChoiceStep::Replace,
{
}

/// A suggestion with more groups than the best choice replaces it, and one
/// with fewer leaves it, whatever the variances.
pub proof fn lemma_more_groups_win(best: usize, new_count: usize, variance_order: Option<Order>)
    ensures
        best < new_count ==> step_for(Some(best), new_count, variance_order) == ChoiceStep::Replace,
        best > new_count ==> step_for(Some(best), new_count, variance_order) == ChoiceStep::Keep,
{
}

/// With as many groups as the best choice, whatever that number is, a
/// suggestion with a smaller variance replaces the best, one with the same
/// variance joins it, and one with a greater or incomparable variance
/// leaves it.
pub proof fn lemma_equal_groups_smaller_variance_wins(count: usize)
    ensures
        step_for(Some(count), count, Some(Order::Greater)) == ChoiceStep::Replace,
        step_for(Some(count), count, Some(Order::Equal)) == ChoiceStep::Join,
        step_for(Some(count), count, Some(Order::Less)) == ChoiceStep::Keep,
        step_for(Some(count), count, None) == ChoiceStep::Keep,
{
}

/// How `a` compares with `b`.
pub open spec fn order_of(a: int, b: int) -> Order {
    if a < b {
        Order::Less
    } else if a == b {
        Order::Equal
    } else {
        Order::Greater
    }
}

/// The best choice after weighing the first `k` suggestions, where
/// suggestion `i` splits the hidden words into `counts[i]` groups whose
/// sizes have variance `vars[i]`, and each comparison of variances is made
/// between the best choice's and the new suggestion's: its count of groups,
/// its variance, and the places of the suggestions chosen.
pub open spec fn best_by_variance(counts: Seq<usize>, vars: Seq<int>, k: int) -> Option<(usize, int, Seq<int>)>
    decreases k,
{
    if k <= 0 {
        None
    } else {
        let prev = best_by_variance(counts, vars, k - 1);
        match prev {
            None => Some((counts[k - 1], vars[k - 1], seq![k - 1])),
            Some(b) => match step_for(Some(b.0), counts[k - 1], Some(order_of(b.1, vars[k - 1]))) {
                ChoiceStep::Replace => Some((counts[k - 1], vars[k - 1], seq![k - 1])),
                ChoiceStep::Join => Some((b.0, b.1, b.2.push(k - 1))),
                ChoiceStep::Keep => prev,
            },
        }
    }
}

/// Weighing suggestions in turn, the best choice is the set of suggestions
/// with the most groups and, among those, the smallest variance: no
/// suggestion weighed has more groups, none with as many has a smaller
/// variance, and the suggestions chosen are exactly those with that count
/// and that variance.
pub proof fn lemma_best_minimises_variance(counts: Seq<usize>, vars: Seq<int>, k: int)
    requires
        0 < k <= counts.len(),
        vars.len() == counts.len(),
    ensures
        best_by_variance(counts, vars, k) is Some,
        ({
            let b = best_by_variance(counts, vars, k)->0;
            &&& forall|i: int| 0 <= i < k ==> counts[i] <= b.0
            &&& forall|i: int| 0 <= i < k && counts[i] == b.0 ==> b.1 <= vars[i]
            &&& b.2.len() > 0
            &&& forall|j: int| 0 <= j < b.2.len() ==> 0 <= #[trigger] b.2[j] < k
            &&& forall|i: int| 0 <= i < k ==> (b.2.contains(i) <==> (counts[i] == b.0 && vars[i] == b.1))
        }),
    decreases k,
{
    let b = best_by_variance(counts, vars, k)->0;
    if k == 1 {
        assert(b.2 == seq![0int]);
        assert(b.2[0] == 0);
        assert forall|i: int| 0 <= i < k implies (b.2.contains(i) <==> (counts[i] == b.0 && vars[i] == b.1)) by {
            assert(i == 0);
            assert(b.2[0] == i);
        }
    } else {
        lemma_best_minimises_variance(counts, vars, k - 1);
        let p = best_by_variance(counts, vars, k - 1)->0;
        let n = k - 1;
        match step_for(Some(p.0), counts[n], Some(order_of(p.1, vars[n]))) {
            ChoiceStep::Replace => {
                assert(counts[n] > p.0 || (counts[n] == p.0 && vars[n] < p.1));
                assert(b == (counts[n], vars[n], seq![n]));
                assert(b.2[0] == n);
                assert forall|i: int| 0 <= i < k implies (b.2.contains(i) <==> (counts[i] == b.0 && vars[i] == b.1)) by {
                    if b.2.contains(i) {
                        let j = choose|j: int| 0 <= j < b.2.len() && b.2[j] == i;
                        assert(j == 0);
                    }
                    if i < n {
                        assert(counts[i] <= p.0);
                    }
                }
            },
            ChoiceStep::Join => {
                assert(counts[n] == p.0 && vars[n] == p.1);
                assert(b == (p.0, p.1, p.2.push(n)));
                assert forall|j: int| 0 <= j < b.2.len() implies 0 <= #[trigger] b.2[j] < k by {
                    if j < p.2.len() {
                        assert(b.2[j] == p.2[j]);
                    }
                }
                assert forall|i: int| 0 <= i < k implies (b.2.contains(i) <==> (counts[i] == b.0 && vars[i] == b.1)) by {
                    if b.2.contains(i) {
                        let j = choose|j: int| 0 <= j < b.2.len() && b.2[j] == i;
                        if j < p.2.len() {
                            assert(p.2[j] == i);
                            assert(p.2.contains(i));
                        }
                    }
                    if i < n && counts[i] == b.0 && vars[i] == b.1 {
                        assert(p.2.contains(i));
                        let j = choose|j: int| 0 <= j < p.2.len() && p.2[j] == i;
                        assert(b.2[j] == i);
                    }
                    if i == n {
                        assert(b.2[p.2.len() as int] == i);
                    }
                }
            },
            ChoiceStep::Keep => {
                assert(counts[n] < p.0 || (counts[n] == p.0 && vars[n] > p.1));
                assert(b == p);
                assert forall|j: int| 0 <= j < b.2.len() implies 0 <= #[trigger] b.2[j] < k by {
                    assert(b.2[j] < n);
                }
                assert forall|i: int| 0 <= i < k implies (b.2.contains(i) <==> (counts[i] == b.0 && vars[i] == b.1)) by {
                    if i == n && b.2.contains(i) {
                        let j = choose|j: int| 0 <= j < b.2.len() && b.2[j] == i;
                        assert(b.2[j] < n);
                    }
                }
            },
        }
    }
}

} // verus!
