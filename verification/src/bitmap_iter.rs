//! Walking the dictionary words that a bitmap of word positions selects, in
//! increasing position order, from the front and from the back.
use crate::bitmap::{
    bitmap_values, iter, iter_advance_back_to, iter_advance_to, iter_clone, iter_count, iter_next,
    iter_next_back, iter_nth, iter_nth_back, iter_size_hint, iter_values, max, strictly_increasing,
};
use crate::dict::Dict;
use roaring::bitmap::Iter;
use roaring::RoaringBitmap;
use vstd::prelude::*;

verus! {

/// A bitmap that names positions past the end of the dictionary.
#[derive(Eq, PartialEq, Debug)]
pub enum BitmapIterError {
    DictLengthMismatch { dict_len: usize, max_bitmap_value: u32 },
}

/// The words at the positions that a bitmap iterator has still to give.
pub struct BitmapIter<'s: 'd, 'd, 'b> {
    dict: &'d Dict<'s>,
    bitmap_iter: Iter<'b>,
}

/// The words of `dict` at `positions`.
pub open spec fn words_at(dict: Seq<Seq<Seq<char>>>, positions: Seq<u32>) -> Seq<Seq<Seq<char>>> {
    positions.map_values(|p: u32| dict[p as int])
}

/// `r` is what walking the positions of `bitmap` over `dict` gives: a walk
/// of all of them in increasing order, when each is a position of the
/// dictionary; otherwise the dictionary's length and the greatest value.
pub open spec fn iter_outcome<'s, 'd, 'b>(dict: Dict<'s>, bitmap: RoaringBitmap, r: Result<BitmapIter<'s, 'd, 'b>, BitmapIterError>) -> bool {
    match r {
        Ok(it) => {
            &&& it.spec_dict() == dict
            &&& it.wf()
            &&& strictly_increasing(it.remaining())
            &&& it.remaining().to_set() == bitmap_values(bitmap)
            &&& forall|x: u32| #[trigger] bitmap_values(bitmap).contains(x) ==> x < dict@.len()
        },
        Err(BitmapIterError::DictLengthMismatch { dict_len, max_bitmap_value }) => {
            &&& dict_len == dict@.len()
            &&& bitmap_values(bitmap).contains(max_bitmap_value)
            &&& forall|x: u32| #[trigger] bitmap_values(bitmap).contains(x) ==> x <= max_bitmap_value
            &&& max_bitmap_value >= dict@.len()
        },
    }
}

/// A strictly increasing sequence stays so once cut down to a part of it.
proof fn lemma_increasing_subrange(s: Seq<u32>, i: int, j: int)
    requires
        strictly_increasing(s),
        0 <= i <= j <= s.len(),
    ensures
        strictly_increasing(s.subrange(i, j)),
{
    assert forall|a: int, b: int| 0 <= a < b < j - i implies s.subrange(i, j)[a] < s.subrange(i, j)[b] by {
        assert(s.subrange(i, j)[a] == s[i + a]);
        assert(s.subrange(i, j)[b] == s[i + b]);
    }
}

impl<'s, 'd, 'b> BitmapIter<'s, 'd, 'b> {
    /// The positions left strictly increase and are all positions of the
    /// dictionary.
    pub closed spec fn wf(&self) -> bool {
        &&& strictly_increasing(iter_values(self.bitmap_iter))
        &&& forall|i: int|
            0 <= i < iter_values(self.bitmap_iter).len() ==> (#[trigger] iter_values(self.bitmap_iter)[i]) < self.dict@.len()
    }

    /// The positions still to be walked, in increasing order.
    pub closed spec fn remaining(&self) -> Seq<u32> {
        iter_values(self.bitmap_iter)
    }

    /// The dictionary walked.
    pub closed spec fn spec_dict(&self) -> Dict<'s> {
        *self.dict
    }

    /// Walks the words of `dict` at the positions that `bitmap` holds;
    /// refuses a bitmap with a position past the end of the dictionary.
    pub fn try_from_dict(dict: &'d Dict<'s>, bitmap: &'b RoaringBitmap) -> (r: Result<
        BitmapIter<'s, 'd, 'b>,
        BitmapIterError,
    >)
        ensures
            iter_outcome(*dict, *bitmap, r),
    {
        let dict_len = dict.len();
        if let Some(max_bitmap_value) = max(bitmap) {
            if max_bitmap_value as usize >= dict_len {
                return Err(BitmapIterError::DictLengthMismatch { dict_len, max_bitmap_value });
            }
        }
        let bitmap_iter = iter(bitmap);
        proof {
            assert forall|i: int| 0 <= i < iter_values(bitmap_iter).len() implies (#[trigger] iter_values(bitmap_iter)[i])
                < dict@.len() by {
                assert(iter_values(bitmap_iter).to_set().contains(iter_values(bitmap_iter)[i]));
            }
        }
        Ok(BitmapIter { dict, bitmap_iter })
    }

    /// Takes the word at the lowest position left.
    pub fn next(&mut self) -> (r: Option<&'d Vec<&'s str>>)
        requires
            old(self).wf(),
        ensures
            final(self).wf(),
            final(self).spec_dict() == old(self).spec_dict(),
            old(self).remaining().len() == 0 ==> r is None && final(self).remaining() == old(self).remaining(),
            old(self).remaining().len() > 0 ==> r is Some && r->0.deep_view() == old(self).spec_dict()@[old(self).remaining()[0] as int] && final(self).remaining() == old(self).remaining().drop_first(),
    {
        let pos = iter_next(&mut self.bitmap_iter);
        proof {
            if old(self).remaining().len() > 0 {
                lemma_increasing_subrange(old(self).remaining(), 1, old(self).remaining().len() as int);
            }
        }
        match pos {
            Some(p) => Some(&self.dict.words()[p as usize]),
            None => None,
        }
    }

    /// Takes the word at the highest position left.
    pub fn next_back(&mut self) -> (r: Option<&'d Vec<&'s str>>)
        requires
            old(self).wf(),
        ensures
            final(self).wf(),
            final(self).spec_dict() == old(self).spec_dict(),
            old(self).remaining().len() == 0 ==> r is None && final(self).remaining() == old(self).remaining(),
            old(self).remaining().len() > 0 ==> r is Some && r->0.deep_view() == old(self).spec_dict()@[old(self).remaining().last() as int] && final(self).remaining() == old(self).remaining().drop_last(),
    {
        let pos = iter_next_back(&mut self.bitmap_iter);
        proof {
            if old(self).remaining().len() > 0 {
                lemma_increasing_subrange(old(self).remaining(), 0, old(self).remaining().len() - 1);
            }
        }
        match pos {
            Some(p) => Some(&self.dict.words()[p as usize]),
            None => None,
        }
    }

    /// Skips `n` words from the front and takes the next one.
    pub fn nth(&mut self, n: usize) -> (r: Option<&'d Vec<&'s str>>)
        requires
            old(self).wf(),
        ensures
            final(self).wf(),
            final(self).spec_dict() == old(self).spec_dict(),
            n >= old(self).remaining().len() ==> r is None && final(self).remaining().len() == 0,
            n < old(self).remaining().len() ==> r is Some && r->0.deep_view() == old(self).spec_dict()@[old(self).remaining()[n as int] as int] && final(self).remaining()
                == old(self).remaining().skip(n + 1),
    {
        let pos = iter_nth(&mut self.bitmap_iter, n);
        proof {
            if n < old(self).remaining().len() {
                lemma_increasing_subrange(old(self).remaining(), n + 1, old(self).remaining().len() as int);
            }
        }
        match pos {
            Some(p) => Some(&self.dict.words()[p as usize]),
            None => None,
        }
    }

    /// Skips `n` words from the back and takes the next one from the back.
    pub fn nth_back(&mut self, n: usize) -> (r: Option<&'d Vec<&'s str>>)
        requires
            old(self).wf(),
        ensures
            final(self).wf(),
            final(self).spec_dict() == old(self).spec_dict(),
            n >= old(self).remaining().len() ==> r is None && final(self).remaining().len() == 0,
            n < old(self).remaining().len() ==> r is Some && r->0.deep_view() == old(self).spec_dict()@[old(self).remaining()[old(self).remaining().len() - 1 - n] as int]
                && final(self).remaining() == old(self).remaining().take(
                old(self).remaining().len() - 1 - n,
            ),
    {
        let pos = iter_nth_back(&mut self.bitmap_iter, n);
        proof {
            if n < old(self).remaining().len() {
                lemma_increasing_subrange(old(self).remaining(), 0, old(self).remaining().len() - 1 - n);
            }
        }
        match pos {
            Some(p) => Some(&self.dict.words()[p as usize]),
            None => None,
        }
    }

    /// The number of words left.
    pub fn count(self) -> (r: usize)
        requires
            self.remaining().len() <= usize::MAX,
        ensures
            r == self.remaining().len(),
    {
        iter_count(self.bitmap_iter)
    }

    /// The number of words left, as lower and upper bound, where it fits in
    /// `usize`.
    pub fn size_hint(&self) -> (r: (usize, Option<usize>))
        ensures
            self.remaining().len() <= usize::MAX ==> r.0 == self.remaining().len() && r.1 == Some(
                self.remaining().len() as usize,
            ),
    {
        iter_size_hint(&self.bitmap_iter)
    }

    /// Drops from the front the words at positions below `n`.
    pub fn advance_to_pos(&mut self, n: usize)
        requires
            old(self).wf(),
        ensures
            final(self).wf(),
            final(self).spec_dict() == old(self).spec_dict(),
            final(self).remaining().len() <= old(self).remaining().len(),
            final(self).remaining() == old(self).remaining().skip(
                old(self).remaining().len() - final(self).remaining().len(),
            ),
            forall|i: int|
                0 <= i < old(self).remaining().len() - final(self).remaining().len() ==> (
                #[trigger] old(self).remaining()[i]) < n,
            forall|i: int|
                0 <= i < final(self).remaining().len() ==> (#[trigger] final(self).remaining()[i]) >= n,
    {
        let big = n > u32::MAX as usize;
        iter_advance_to(&mut self.bitmap_iter, if big { u32::MAX } else { n as u32 });
        let ghost mid = iter_values(self.bitmap_iter);
        proof {
            lemma_increasing_subrange(old(self).remaining(), old(self).remaining().len() - mid.len(), old(self).remaining().len() as int);
        }
        if big {
            iter_next(&mut self.bitmap_iter);
            proof {
                if mid.len() > 1 {
                    assert(mid[0] < mid[1]);
                }
                assert(self.remaining().len() == 0);
                assert(self.remaining() =~= old(self).remaining().skip(old(self).remaining().len() as int));
            }
        }
    }

    /// Drops from the back the words at positions above `n`.
    pub fn advance_back_to_pos(&mut self, n: usize)
        requires
            old(self).wf(),
        ensures
            final(self).wf(),
            final(self).spec_dict() == old(self).spec_dict(),
            final(self).remaining().len() <= old(self).remaining().len(),
            final(self).remaining() == old(self).remaining().take(final(self).remaining().len() as int),
            forall|i: int|
                final(self).remaining().len() <= i < old(self).remaining().len() ==> (
                #[trigger] old(self).remaining()[i]) > n,
            forall|i: int|
                0 <= i < final(self).remaining().len() ==> (#[trigger] final(self).remaining()[i]) <= n,
    {
        let to = match u32::try_from(n) {
            Ok(v) => v,
            Err(_) => u32::MAX,
        };
        proof {
            if n <= u32::MAX {
                assert(to == n);
            }
        }
        iter_advance_back_to(&mut self.bitmap_iter, to);
        proof {
            lemma_increasing_subrange(old(self).remaining(), 0, self.remaining().len() as int);
        }
    }
}

impl<'s, 'd, 'b> Clone for BitmapIter<'s, 'd, 'b> {
    fn clone(&self) -> (r: Self)
        ensures
            self.wf() ==> r.wf(),
            r.spec_dict() == self.spec_dict(),
            r.remaining() == self.remaining(),
    {
        BitmapIter { dict: self.dict, bitmap_iter: iter_clone(&self.bitmap_iter) }
    }
}

} // verus!
