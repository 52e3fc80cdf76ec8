//! The operations on `roaring::RoaringBitmap` that the library uses, each
//! stated over the set of values that the bitmap holds.
use roaring::bitmap::Iter;
use roaring::RoaringBitmap;
use vstd::prelude::*;

verus! {

#[verifier::external_type_specification]
#[verifier::external_body]
pub struct ExRoaringBitmap(RoaringBitmap);

/// The set of values that a bitmap holds.
pub uninterp spec fn bitmap_values(b: RoaringBitmap) -> Set<u32>;

/// The values strictly increase along the sequence.
pub open spec fn strictly_increasing(s: Seq<u32>) -> bool {
    forall|i: int, j: int| 0 <= i < j < s.len() ==> s[i] < s[j]
}

/// Calls `RoaringBitmap::new`. Trusted: the bitmap is empty.
#[verifier::external_body]
pub(crate) fn new_bitmap() -> (b: RoaringBitmap)
    ensures
        bitmap_values(b) == Set::<u32>::empty(),
{
    RoaringBitmap::new()
}

/// Calls `RoaringBitmap::insert`. Trusted: the value is added, and the result
/// tells whether it was absent.
#[verifier::external_body]
pub(crate) fn insert(b: &mut RoaringBitmap, value: u32) -> (r: bool)
    ensures
        bitmap_values(*final(b)) == bitmap_values(*old(b)).insert(value),
        r == !bitmap_values(*old(b)).contains(value),
{
    b.insert(value)
}

/// Calls `RoaringBitmap::insert_range(..end)`. Trusted: every value below
/// `end` is added, and nothing else changes.
#[verifier::external_body]
pub(crate) fn insert_range_below(b: &mut RoaringBitmap, end: u32)
    ensures
        bitmap_values(*final(b)) == bitmap_values(*old(b)).union(Set::new(|x: u32| x < end)),
{
    b.insert_range(..end);
}

/// Calls `RoaringBitmap::max`. Trusted: `None` for an empty bitmap, else the
/// greatest value.
#[verifier::external_body]
pub(crate) fn max(b: &RoaringBitmap) -> (r: Option<u32>)
    ensures
        match r {
            None => bitmap_values(*b) == Set::<u32>::empty(),
            Some(m) => bitmap_values(*b).contains(m) && forall|x: u32|
                #[trigger] bitmap_values(*b).contains(x) ==> x <= m,
        },
{
    b.max()
}

/// The values of a bitmap, in increasing order.
pub(crate) fn values_ascending(b: &RoaringBitmap) -> (r: Vec<u32>)
    ensures
        strictly_increasing(r@),
        r@.to_set() == bitmap_values(*b),
{
    let mut it = iter(b);
    let ghost all = iter_values(it);
    let mut r: Vec<u32> = Vec::new();
    loop
        invariant
            r@ + iter_values(it) == all,
            strictly_increasing(all),
            all.to_set() == bitmap_values(*b),
        ensures
            r@ == all,
        decreases iter_values(it).len(),
    {
        let ghost left = iter_values(it);
        match iter_next(&mut it) {
            Some(x) => {
                r.push(x);
                proof {
                    assert(r@ + iter_values(it) =~= all) by {
                        assert(left =~= seq![x] + left.drop_first());
                        assert(all =~= r@.drop_last() + left);
                    }
                }
            },
            None => {
                proof {
                    assert(r@ =~= all);
                }
                break;
            },
        }
    }
    r
}

#[verifier::external_type_specification]
#[verifier::external_body]
pub struct ExIter<'a>(Iter<'a>);

/// The values that an iterator over a bitmap has still to give, from the
/// front to the back.
pub uninterp spec fn iter_values(it: Iter) -> Seq<u32>;

/// Calls `RoaringBitmap::iter`. Trusted: the iterator gives the bitmap's
/// values in strictly increasing order ("ordered by value", as the crate
/// documents).
#[verifier::external_body]
pub(crate) fn iter(b: &RoaringBitmap) -> (r: Iter<'_>)
    ensures
        strictly_increasing(iter_values(r)),
        iter_values(r).to_set() == bitmap_values(*b),
{
    b.iter()
}

/// Calls `Iterator::next` on a bitmap iterator. Trusted: it takes the first
/// value left, or gives `None` when none is.
#[verifier::external_body]
pub(crate) fn iter_next(it: &mut Iter) -> (r: Option<u32>)
    ensures
        iter_values(*old(it)).len() == 0 ==> r is None && iter_values(*final(it)) == iter_values(*old(it)),
        iter_values(*old(it)).len() > 0 ==> r == Some(iter_values(*old(it))[0])
            && iter_values(*final(it)) == iter_values(*old(it)).drop_first(),
{
    it.next()
}

/// Calls `DoubleEndedIterator::next_back` on a bitmap iterator. Trusted: it
/// takes the last value left, or gives `None` when none is.
#[verifier::external_body]
pub(crate) fn iter_next_back(it: &mut Iter) -> (r: Option<u32>)
    ensures
        iter_values(*old(it)).len() == 0 ==> r is None && iter_values(*final(it)) == iter_values(*old(it)),
        iter_values(*old(it)).len() > 0 ==> r == Some(iter_values(*old(it)).last())
            && iter_values(*final(it)) == iter_values(*old(it)).drop_last(),
{
    it.next_back()
}

/// Calls `Iterator::nth` on a bitmap iterator. Trusted: it drops the first
/// `n` values left and takes the next; where fewer than `n + 1` are left it
/// drops them all and gives `None`.
#[verifier::external_body]
pub(crate) fn iter_nth(it: &mut Iter, n: usize) -> (r: Option<u32>)
    ensures
        n >= iter_values(*old(it)).len() ==> r is None && iter_values(*final(it)).len() == 0,
        n < iter_values(*old(it)).len() ==> r == Some(iter_values(*old(it))[n as int])
            && iter_values(*final(it)) == iter_values(*old(it)).skip(n + 1),
{
    it.nth(n)
}

/// Calls `DoubleEndedIterator::nth_back` on a bitmap iterator. Trusted: it
/// drops the last `n` values left and takes the one before them; where fewer
/// than `n + 1` are left it drops them all and gives `None`.
#[verifier::external_body]
pub(crate) fn iter_nth_back(it: &mut Iter, n: usize) -> (r: Option<u32>)
    ensures
        n >= iter_values(*old(it)).len() ==> r is None && iter_values(*final(it)).len() == 0,
        n < iter_values(*old(it)).len() ==> r == Some(iter_values(*old(it))[iter_values(*old(it)).len() - 1 - n])
            && iter_values(*final(it)) == iter_values(*old(it)).take(iter_values(*old(it)).len() - 1 - n),
{
    it.nth_back(n)
}

/// Calls `Iter::advance_to`. Trusted: from the front it drops the values
/// below `n` and keeps the others.
#[verifier::external_body]
pub(crate) fn iter_advance_to(it: &mut Iter, n: u32)
    requires
        strictly_increasing(iter_values(*old(it))),
    ensures
        iter_values(*final(it)).len() <= iter_values(*old(it)).len(),
        iter_values(*final(it)) == iter_values(*old(it)).skip(
            iter_values(*old(it)).len() - iter_values(*final(it)).len(),
        ),
        forall|i: int|
            0 <= i < iter_values(*old(it)).len() - iter_values(*final(it)).len() ==> (
            #[trigger] iter_values(*old(it))[i]) < n,
        forall|i: int| 0 <= i < iter_values(*final(it)).len() ==> (#[trigger] iter_values(*final(it))[i]) >= n,
{
    it.advance_to(n)
}

/// Calls `Iter::advance_back_to`. Trusted: from the back it drops the values
/// above `n` and keeps the others.
#[verifier::external_body]
pub(crate) fn iter_advance_back_to(it: &mut Iter, n: u32)
    requires
        strictly_increasing(iter_values(*old(it))),
    ensures
        iter_values(*final(it)).len() <= iter_values(*old(it)).len(),
        iter_values(*final(it)) == iter_values(*old(it)).take(iter_values(*final(it)).len() as int),
        forall|i: int|
            iter_values(*final(it)).len() <= i < iter_values(*old(it)).len() ==> (
            #[trigger] iter_values(*old(it))[i]) > n,
        forall|i: int| 0 <= i < iter_values(*final(it)).len() ==> (#[trigger] iter_values(*final(it))[i]) <= n,
{
    it.advance_back_to(n)
}

/// Calls `Iterator::size_hint` on a bitmap iterator. Trusted: where the
/// number of values left fits in `usize`, both bounds are that number; the
/// result for a larger number is left unsaid.
#[verifier::external_body]
pub(crate) fn iter_size_hint(it: &Iter) -> (r: (usize, Option<usize>))
    ensures
        iter_values(*it).len() <= usize::MAX ==> r.0 == iter_values(*it).len() && r.1 == Some(
            iter_values(*it).len() as usize,
        ),
{
    it.size_hint()
}

/// Calls `Iterator::count` on a bitmap iterator, which sums in `usize`.
/// Trusted: it gives the number of values left.
#[verifier::external_body]
pub(crate) fn iter_count(it: Iter) -> (r: usize)
    requires
        iter_values(it).len() <= usize::MAX,
    ensures
        r == iter_values(it).len(),
{
    it.count()
}

/// Calls `Clone::clone` on a bitmap iterator. Trusted: the copy has the same
/// values left.
#[verifier::external_body]
pub(crate) fn iter_clone<'a>(it: &Iter<'a>) -> (r: Iter<'a>)
    ensures
        iter_values(r) == iter_values(*it),
{
    it.clone()
}

/// Calls `RoaringBitmap -= &RoaringBitmap`. Trusted: the values of `other`
/// are taken out.
#[verifier::external_body]
pub(crate) fn subtract(b: &mut RoaringBitmap, other: &RoaringBitmap)
    ensures
        bitmap_values(*final(b)) == bitmap_values(*old(b)).difference(bitmap_values(*other)),
{
    *b -= other;
}

/// Calls `&RoaringBitmap | &RoaringBitmap`. Trusted: the result holds the
/// values of both.
#[verifier::external_body]
pub(crate) fn union(a: &RoaringBitmap, b: &RoaringBitmap) -> (r: RoaringBitmap)
    ensures
        bitmap_values(r) == bitmap_values(*a).union(bitmap_values(*b)),
{
    a | b
}

/// Calls `RoaringBitmap::clone`. Trusted: the copy holds the same values.
#[verifier::external_body]
pub(crate) fn copy_bitmap(b: &RoaringBitmap) -> (r: RoaringBitmap)
    ensures
        bitmap_values(r) == bitmap_values(*b),
{
    b.clone()
}

/// Calls `RoaringBitmap::optimize`. Trusted: only the storage changes, not
/// the values.
#[verifier::external_body]
pub(crate) fn optimize(b: &mut RoaringBitmap)
    ensures
        bitmap_values(*final(b)) == bitmap_values(*old(b)),
{
    b.optimize();
}

} // verus!
