//! The owned backing store for multi-word magnitudes: a little-endian word
//! vector with the small set of operations the kernels use.  Growth is
//! delegated to the vector's own amortized policy; `allocate` pre-reserves
//! the requested length.

use vstd::prelude::*;
use crate::primitive::Word;

verus! {

#[derive(Debug)]
pub struct Buffer {
    pub(crate) words: Vec<Word>,
}

impl View for Buffer {
    type V = Seq<Word>;

    closed spec fn view(&self) -> Seq<Word> {
        self.words@
    }
}

impl Buffer {
    /// A fresh buffer with room for `n` words.
    pub(crate) fn allocate(n: usize) -> (r: Buffer)
        ensures
            r@ == Seq::<Word>::empty(),
    {
        Buffer { words: Vec::with_capacity(n) }
    }

    pub(crate) fn len(&self) -> (n: usize)
        ensures
            n == self@.len(),
    {
        self.words.len()
    }

    pub(crate) fn get(&self, i: usize) -> (w: Word)
        requires
            i < self@.len(),
        ensures
            w == self@[i as int],
    {
        self.words[i]
    }

    pub(crate) fn set(&mut self, i: usize, w: Word)
        requires
            i < old(self)@.len(),
        ensures
            final(self)@ == old(self)@.update(i as int, w),
    {
        self.words[i] = w;
    }

    pub(crate) fn push(&mut self, w: Word)
        ensures
            final(self)@ == old(self)@.push(w),
    {
        self.words.push(w);
    }

    /// Append `k` zero words on top.
    pub(crate) fn push_zeros(&mut self, k: usize)
        ensures
            final(self)@ == old(self)@ + Seq::new(k as nat, |j: int| 0u64),
            final(self)@.len() == old(self)@.len() + k,
    {
        let mut i: usize = 0;
        while i < k
            invariant
                i <= k,
                self@ == old(self)@ + Seq::new(i as nat, |j: int| 0u64),
            decreases k - i,
        {
            self.words.push(0);
            proof {
                assert(old(self)@ + Seq::new((i + 1) as nat, |j: int| 0u64) =~= (old(self)@
                    + Seq::new(i as nat, |j: int| 0u64)).push(0u64));
            }
            i = i + 1;
        }
        proof {
            assert(self@.len() == old(self)@.len() + k);
        }
    }

    /// Append a word slice on top.
    pub(crate) fn extend(&mut self, other: &[Word])
        ensures
            final(self)@ == old(self)@ + other@,
    {
        self.words.extend_from_slice(other);
        proof {
            assert(self@ =~= old(self)@ + other@);
        }
    }

    /// Drop every word above position `n`.
    pub(crate) fn truncate(&mut self, n: usize)
        requires
            n <= old(self)@.len(),
        ensures
            final(self)@ == old(self)@.take(n as int),
    {
        self.words.truncate(n);
        proof {
            assert(self@ =~= old(self)@.take(n as int));
        }
    }

    /// Strip all zero words from the top.
    pub(crate) fn pop_leading_zeros(&mut self)
        ensures
            final(self)@ == old(self)@.take(final(self)@.len() as int),
            final(self)@.len() <= old(self)@.len(),
            final(self)@.len() > 0 ==> final(self)@.last() != 0,
            forall|j: int| final(self)@.len() <= j < old(self)@.len() ==> old(self)@[j] == 0,
    {
        let mut n = self.words.len();
        while n > 0 && self.words[n - 1] == 0
            invariant
                n <= self@.len(),
                self@ == old(self)@,
                forall|j: int| n <= j < self@.len() ==> self@[j] == 0,
            decreases n,
        {
            n = n - 1;
        }
        self.words.truncate(n);
        proof {
            assert(self@ =~= old(self)@.take(n as int));
        }
    }

    /// Give up the buffer, handing out its word vector.
    pub(crate) fn into_words(self) -> (r: Vec<Word>)
        ensures
            r@ == self@,
    {
        self.words
    }

    /// The words as a slice, least significant first.
    pub(crate) fn as_slice(&self) -> (r: &[Word])
        ensures
            r@ == self@,
    {
        self.words.as_slice()
    }
}

impl Clone for Buffer {
    fn clone(&self) -> (r: Self)
        ensures
            r@ == self@,
    {
        Buffer { words: self.words.clone() }
    }
}

} // verus!
