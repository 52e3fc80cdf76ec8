//! Association lists keyed by grapheme, kept sorted by key so that a key is
//! found by binary search.
use crate::order::{chars_lt, compare_graphemes, lemma_chars_lt_total, lemma_chars_lt_transitive, Order};
use vstd::prelude::*;

verus! {

/// The keys are in strictly increasing order (so each occurs once).
pub open spec fn keys_sorted<V>(e: Seq<(&str, V)>) -> bool {
    forall|i: int, j: int| 0 <= i < j < e.len() ==> chars_lt(#[trigger] e[i].0@, #[trigger] e[j].0@)
}

/// Some entry has key `g`.
pub open spec fn has_key<V>(e: Seq<(&str, V)>, g: Seq<char>) -> bool {
    exists|k: int| 0 <= k < e.len() && (#[trigger] e[k]).0@ == g
}

/// Distinct entries have distinct keys.
pub proof fn lemma_keys_distinct<V>(e: Seq<(&str, V)>, i: int, j: int)
    requires
        keys_sorted(e),
        0 <= i < e.len(),
        0 <= j < e.len(),
        i != j,
    ensures
        e[i].0@ != e[j].0@,
{
    if i < j {
        lemma_chars_lt_total(e[i].0@, e[i].0@);
    } else {
        lemma_chars_lt_total(e[j].0@, e[j].0@);
    }
}

/// Inserting a key at the place that keeps the order keeps the entries sorted.
pub proof fn lemma_insert_sorted<V>(e: Seq<(&str, V)>, pos: int, x: (&str, V))
    requires
        keys_sorted(e),
        0 <= pos <= e.len(),
        forall|k: int| 0 <= k < pos ==> chars_lt((#[trigger] e[k]).0@, x.0@),
        forall|k: int| pos <= k < e.len() ==> chars_lt(x.0@, (#[trigger] e[k]).0@),
    ensures
        keys_sorted(e.insert(pos, x)),
        forall|g: Seq<char>| #[trigger] has_key(e.insert(pos, x), g) <==> has_key(e, g) || g == x.0@,
{
    let f = e.insert(pos, x);
    assert forall|i: int, j: int| 0 <= i < j < f.len() implies chars_lt(
        #[trigger] f[i].0@,
        #[trigger] f[j].0@,
    ) by {
        if j < pos {
        } else if j == pos {
        } else if i < pos {
            lemma_chars_lt_transitive(e[i].0@, x.0@, e[j - 1].0@);
        } else if i == pos {
        } else {
        }
    }
    assert forall|g: Seq<char>| #[trigger] has_key(f, g) <==> has_key(e, g) || g == x.0@ by {
        if has_key(f, g) {
            let k = choose|k: int| 0 <= k < f.len() && (#[trigger] f[k]).0@ == g;
            if k < pos {
                assert(e[k] == f[k]);
            } else if k > pos {
                assert(e[k - 1] == f[k]);
            }
        }
        if has_key(e, g) {
            let k = choose|k: int| 0 <= k < e.len() && (#[trigger] e[k]).0@ == g;
            if k < pos {
                assert(e[k] == f[k]);
            } else {
                assert(e[k] == f[k + 1]);
            }
        }
        if g == x.0@ {
            assert(f[pos] == x);
        }
    }
}

/// Removing an entry keeps the entries sorted and drops exactly its key.
pub proof fn lemma_remove_sorted<V>(e: Seq<(&str, V)>, pos: int)
    requires
        keys_sorted(e),
        0 <= pos < e.len(),
    ensures
        keys_sorted(e.remove(pos)),
        forall|g: Seq<char>| #[trigger] has_key(e.remove(pos), g) <==> has_key(e, g) && g != e[pos].0@,
{
    let f = e.remove(pos);
    assert forall|i: int, j: int| 0 <= i < j < f.len() implies chars_lt(
        #[trigger] f[i].0@,
        #[trigger] f[j].0@,
    ) by {
        if j < pos {
        } else if i < pos {
            assert(f[j] == e[j + 1]);
        } else {
            assert(f[i] == e[i + 1]);
            assert(f[j] == e[j + 1]);
        }
    }
    assert forall|g: Seq<char>| #[trigger] has_key(f, g) <==> has_key(e, g) && g != e[pos].0@ by {
        if has_key(f, g) {
            let k = choose|k: int| 0 <= k < f.len() && (#[trigger] f[k]).0@ == g;
            if k < pos {
                assert(e[k] == f[k]);
                assert(chars_lt(e[k].0@, e[pos].0@));
                lemma_chars_lt_total(g, g);
            } else {
                assert(e[k + 1] == f[k]);
                assert(chars_lt(e[pos].0@, e[k + 1].0@));
                lemma_chars_lt_total(g, g);
            }
        }
        if has_key(e, g) && g != e[pos].0@ {
            let k = choose|k: int| 0 <= k < e.len() && (#[trigger] e[k]).0@ == g;
            if k < pos {
                assert(e[k] == f[k]);
            } else {
                assert(k != pos);
                assert(e[k] == f[k - 1]);
            }
        }
    }
}

/// Replacing the value of an entry keeps the entries sorted and the keys.
pub proof fn lemma_update_sorted<V>(e: Seq<(&str, V)>, pos: int, x: (&str, V))
    requires
        keys_sorted(e),
        0 <= pos < e.len(),
        x.0@ == e[pos].0@,
    ensures
        keys_sorted(e.update(pos, x)),
        forall|g: Seq<char>| #[trigger] has_key(e.update(pos, x), g) <==> has_key(e, g),
{
    let f = e.update(pos, x);
    assert forall|i: int, j: int| 0 <= i < j < f.len() implies chars_lt(
        #[trigger] f[i].0@,
        #[trigger] f[j].0@,
    ) by {
        assert(f[i].0@ == e[i].0@);
        assert(f[j].0@ == e[j].0@);
    }
    assert forall|g: Seq<char>| #[trigger] has_key(f, g) <==> has_key(e, g) by {
        if has_key(f, g) {
            let k = choose|k: int| 0 <= k < f.len() && (#[trigger] f[k]).0@ == g;
            assert(e[k].0@ == g);
        }
        if has_key(e, g) {
            let k = choose|k: int| 0 <= k < e.len() && (#[trigger] e[k]).0@ == g;
            assert(f[k].0@ == g);
        }
    }
}

/// Looks a grapheme up among entries sorted by key: `Ok` with its place when
/// present, `Err` with the place where it would be inserted otherwise.
pub fn search_grapheme<'a, V>(entries: &Vec<(&'a str, V)>, g: &str) -> (r: Result<usize, usize>)
    requires
        keys_sorted(entries@),
    ensures
        match r {
            Ok(i) => i < entries@.len() && entries@[i as int].0@ == g@,
            Err(i) => {
                &&& i <= entries@.len()
                &&& forall|k: int| 0 <= k < i ==> chars_lt((#[trigger] entries@[k]).0@, g@)
                &&& forall|k: int| i <= k < entries@.len() ==> chars_lt(g@, (#[trigger] entries@[k]).0@)
                &&& !has_key(entries@, g@)
            },
        },
{
    let mut lo: usize = 0;
    let mut hi: usize = entries.len();
    while lo < hi
        invariant
            keys_sorted(entries@),
            lo <= hi <= entries@.len(),
            forall|k: int| 0 <= k < lo ==> chars_lt((#[trigger] entries@[k]).0@, g@),
            forall|k: int| hi <= k < entries@.len() ==> chars_lt(g@, (#[trigger] entries@[k]).0@),
        decreases hi - lo,
    {
        let mid = lo + (hi - lo) / 2;
        match compare_graphemes(entries[mid].0, g) {
            Order::Equal => {
                return Ok(mid);
            },
            Order::Less => {
                proof {
                    assert forall|k: int| 0 <= k < mid + 1 implies chars_lt(
                        (#[trigger] entries@[k]).0@,
                        g@,
                    ) by {
                        if k < mid {
                            assert(chars_lt(entries@[k].0@, entries@[mid as int].0@));
                            lemma_chars_lt_transitive(entries@[k].0@, entries@[mid as int].0@, g@);
                        }
                    }
                }
                lo = mid + 1;
            },
            Order::Greater => {
                proof {
                    lemma_chars_lt_total(entries@[mid as int].0@, g@);
                    assert forall|k: int| mid <= k < entries@.len() implies chars_lt(
                        g@,
                        (#[trigger] entries@[k]).0@,
                    ) by {
                        if k > mid {
                            assert(chars_lt(entries@[mid as int].0@, entries@[k].0@));
                            lemma_chars_lt_transitive(g@, entries@[mid as int].0@, entries@[k].0@);
                        }
                    }
                }
                hi = mid;
            },
        }
    }
    proof {
        if has_key(entries@, g@) {
            let k = choose|k: int| 0 <= k < entries@.len() && (#[trigger] entries@[k]).0@ == g@;
            lemma_chars_lt_total(g@, g@);
            if k < lo {
                assert(chars_lt(entries@[k].0@, g@));
            } else {
                assert(chars_lt(g@, entries@[k].0@));
            }
        }
    }
    Err(lo)
}

} // verus!
