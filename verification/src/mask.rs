use vstd::prelude::*;

use crate::error::HybitError;

verus! {

/// Bit `b` (counted from the least significant end) of the word `w`.
pub open spec fn bit_of(w: u64, b: u64) -> bool {
    (w >> b) & 1u64 == 1u64
}

/// Number of 64-bit words that hold `len` bits.
pub open spec fn word_count(len: nat) -> nat {
    len / 64 + if len % 64 == 0 { 0nat } else { 1nat }
}

/// Number of `true` entries of a sequence.
pub open spec fn count_true(s: Seq<bool>) -> nat
    decreases s.len(),
{
    if s.len() == 0 {
        0
    } else {
        count_true(s.drop_last()) + if s.last() { 1nat } else { 0nat }
    }
}

/// A strictly increasing sequence of indices whose members are exactly the
/// `true` positions of `s`.
pub open spec fn lists_true_positions(r: Seq<usize>, s: Seq<bool>) -> bool {
    &&& forall|k: int, l: int| 0 <= k < l < r.len() ==> r[k] < r[l]
    &&& forall|k: int| 0 <= k < r.len() ==> r[k] < s.len() && s[r[k] as int]
    &&& forall|i: int| 0 <= i < s.len() && s[i] ==> r.contains(i as usize)
}

pub proof fn lemma_bit_zero(b: u64)
    by (bit_vector)
    requires
        b < 64,
    ensures
        !bit_of(0u64, b),
{
}

proof fn lemma_bit_set(w: u64, b: u64, c: u64)
    by (bit_vector)
    requires
        b < 64,
        c < 64,
    ensures
        bit_of(w | (1u64 << b), c) == (c == b || bit_of(w, c)),
        bit_of(w & !(1u64 << b), c) == (c != b && bit_of(w, c)),
        ((w & (1u64 << b)) != 0u64) == bit_of(w, b),
{
}

proof fn lemma_bit_combine(x: u64, y: u64, c: u64)
    by (bit_vector)
    requires
        c < 64,
    ensures
        bit_of(x | y, c) == (bit_of(x, c) || bit_of(y, c)),
        bit_of(x & y, c) == (bit_of(x, c) && bit_of(y, c)),
{
}

proof fn lemma_low_mask(w: u64, v: u64, c: u64)
    by (bit_vector)
    requires
        0 < v < 64,
        c < 64,
    ensures
        bit_of(w & (((1u64 << v) - 1u64) as u64), c) == (c < v && bit_of(w, c)),
{
}

proof fn lemma_shift_positive(v: u64)
    by (bit_vector)
    requires
        v < 64,
    ensures
        (1u64 << v) >= 1u64,
{
}

proof fn lemma_bit_shift(w: u64, b: u64)
    by (bit_vector)
    requires
        b < 64,
    ensures
        ((w >> b) & 1u64 == 1u64) == bit_of(w, b),
        ((w >> b) & 1u64 == 0u64) == !bit_of(w, b),
{
}

/// A nonzero word has a set bit, namely at its trailing-zero count.
proof fn lemma_nonzero_has_bit(w: u64)
    requires
        w != 0,
    ensures
        (w.trailing_zeros() as u64) < 64,
        bit_of(w, w.trailing_zeros() as u64),
{
    vstd::std_specs::bits::axiom_u64_trailing_zeros(w);
}

/// Appending one element to a sequence adds it to the count.
pub proof fn lemma_count_push(s: Seq<bool>, p: int)
    requires
        0 <= p < s.len(),
    ensures
        count_true(s.take(p + 1)) == count_true(s.take(p)) + if s[p] { 1nat } else { 0nat },
{
    assert(s.take(p + 1).drop_last() =~= s.take(p));
}

/// The count of a prefix never exceeds the count of a longer prefix.
pub proof fn lemma_count_prefix_mono(s: Seq<bool>, a: int, b: int)
    requires
        0 <= a <= b <= s.len(),
    ensures
        count_true(s.take(a)) <= count_true(s.take(b)),
    decreases b - a,
{
    if a < b {
        lemma_count_prefix_mono(s, a, b - 1);
        lemma_count_push(s, b - 1);
    }
}

/// A run of `false` entries does not change the count.
pub proof fn lemma_count_skip(s: Seq<bool>, p: int, q: int)
    requires
        0 <= p <= q <= s.len(),
        forall|i: int| p <= i < q ==> !s[i],
    ensures
        count_true(s.take(q)) == count_true(s.take(p)),
    decreases q - p,
{
    if q > p {
        lemma_count_skip(s, p, q - 1);
        lemma_count_push(s, q - 1);
    }
}

/// The count of a sequence is at most its length.
pub proof fn lemma_count_bound(s: Seq<bool>)
    ensures
        count_true(s) <= s.len(),
    decreases s.len(),
{
    if s.len() > 0 {
        lemma_count_bound(s.drop_last());
    }
}

/// A sequence with no `true` entry has count zero, and conversely.
pub proof fn lemma_count_zero(s: Seq<bool>)
    ensures
        (count_true(s) == 0) <==> (forall|i: int| 0 <= i < s.len() ==> !s[i]),
    decreases s.len(),
{
    if s.len() > 0 {
        lemma_count_zero(s.drop_last());
        assert forall|i: int| 0 <= i < s.len() - 1 implies s.drop_last()[i] == s[i] by {}
    }
}

/// A dense bitmap over the degrees of freedom `0..len` of a system.
#[derive(Clone, Debug, PartialEq, Eq)]
pub struct DofMask {
    len: usize,
    words: Vec<u64>,
}

impl View for DofMask {
    type V = Seq<bool>;

    /// Entry `i` is `true` exactly when degree of freedom `i` is in the mask.
    open spec fn view(&self) -> Seq<bool> {
        Seq::new(self.spec_len(), |i: int| bit_of(self.word_seq()[i / 64], (i % 64) as u64))
    }
}

impl DofMask {
    /// Number of degrees of freedom the mask ranges over.
    pub closed spec fn spec_len(&self) -> nat {
        self.len as nat
    }

    /// The packed words, 64 degrees of freedom per word, least significant first.
    pub closed spec fn word_seq(&self) -> Seq<u64> {
        self.words@
    }

    /// The word vector has the length `len` needs and no bit at or beyond
    /// `len` is set. Every mask built by this type satisfies it.
    pub closed spec fn wf(&self) -> bool {
        &&& self.words@.len() == word_count(self.len as nat)
        &&& forall|w: int, b: u64|
            0 <= w < self.words@.len() && b < 64 && w * 64 + b >= self.len ==> !(#[trigger] bit_of(self.words@[w], b))
    }

    /// An empty mask over `len` degrees of freedom.
    pub fn new(len: usize) -> (mask: Self)
        ensures
            mask.wf(),
            mask.spec_len() == len,
            mask@ == Seq::new(len as nat, |i: int| false),
    {
        let count = len / 64 + if len % 64 == 0 {
            0
        } else {
            1
        };
        let words = vec![0u64; count];
        let mask = DofMask { len, words };
        proof {
            assert forall|w: int, b: u64| 0 <= w < mask.words@.len() && b < 64 implies !(#[trigger] bit_of(mask.words@[w], b)) by {
                lemma_bit_zero(b);
            }
            assert forall|i: int| 0 <= i < len implies !mask@[i] by {
                lemma_bit_zero((i % 64) as u64);
            }
            assert(mask@ =~= Seq::new(len as nat, |i: int| false));
        }
        mask
    }

    /// A mask holding exactly `indices`; fails if one of them is `>= len`.
    pub fn from_indices(len: usize, indices: &[usize]) -> (result: Result<Self, HybitError>)
        ensures
            result.is_ok() <==> (forall|k: int| 0 <= k < indices@.len() ==> indices@[k] < len),
            result matches Ok(mask) ==> mask.wf() && mask.spec_len() == len && mask@ == Seq::new(
                len as nat,
                |i: int| indices@.contains(i as usize),
            ),
            result matches Err(e) ==> e == HybitError::InvalidArgument(
                "DOF mask index out of range",
            ),
    {
        let mut mask = Self::new(len);
        let mut k: usize = 0;
        while k < indices.len()
            invariant
                k <= indices@.len(),
                mask.wf(),
                mask.spec_len() == len,
                forall|k2: int| 0 <= k2 < k ==> indices@[k2] < len,
                mask@ == Seq::new(len as nat, |i: int| indices@.take(k as int).contains(i as usize)),
            decreases indices@.len() - k,
        {
            let index = indices[k];
            let ghost before = mask@;
            match mask.set(index, true) {
                Ok(()) => {},
                Err(e) => {
                    return Err(e);
                },
            }
            proof {
                assert(indices@.take(k + 1) =~= indices@.take(k as int).push(index));
                assert forall|i: int| 0 <= i < len implies mask@[i] == indices@.take(
                    k + 1,
                ).contains(i as usize) by {
                    if i == index {
                        assert(indices@.take(k + 1)[k as int] == index);
                    } else {
                        if indices@.take(k + 1).contains(i as usize) {
                            let j = choose|j: int|
                                0 <= j < k + 1 && #[trigger] indices@.take(k + 1)[j] == i as usize;
                            assert(indices@.take(k as int)[j] == i as usize);
                        }
                    }
                }
                assert(mask@ =~= Seq::new(
                    len as nat,
                    |i: int| indices@.take(k + 1).contains(i as usize),
                ));
            }
            k = k + 1;
        }
        proof {
            assert(indices@.take(k as int) =~= indices@);
        }
        Ok(mask)
    }

    /// A copy of the mask.
    pub fn copy(&self) -> (mask: Self)
        requires
            self.wf(),
        ensures
            mask.wf(),
            mask.spec_len() == self.spec_len(),
            mask@ == self@,
    {
        let words = self.words.clone();
        proof {
            assert(words@ =~= self.words@);
        }
        DofMask { len: self.len, words }
    }

    /// Number of degrees of freedom the mask ranges over.
    pub fn len(&self) -> (n: usize)
        requires
            self.wf(),
        ensures
            n == self.spec_len(),
            n == self@.len(),
    {
        self.len
    }

    /// `true` when no degree of freedom is in the mask.
    pub fn is_empty(&self) -> (b: bool)
        requires
            self.wf(),
        ensures
            b <==> (forall|i: int| 0 <= i < self@.len() ==> !self@[i]),
    {
        let c = self.count_ones();
        proof {
            lemma_count_zero(self@);
        }
        c == 0
    }

    /// The packed words of the mask.
    pub fn words(&self) -> (w: &[u64])
        requires
            self.wf(),
        ensures
            w@ == self.word_seq(),
            w@.len() == word_count(self.spec_len()),
    {
        self.words.as_slice()
    }

    /// Adds (`value == true`) or removes degree of freedom `index`.
    pub fn set(&mut self, index: usize, value: bool) -> (result: Result<(), HybitError>)
        requires
            old(self).wf(),
        ensures
            final(self).wf(),
            result.is_ok() <==> index < old(self).spec_len(),
            final(self).spec_len() == old(self).spec_len(),
            result.is_ok() ==> final(self)@ == old(self)@.update(index as int, value),
            result.is_err() ==> final(self)@ == old(self)@,
            result matches Err(e) ==> e == HybitError::InvalidArgument(
                "DOF mask index out of range",
            ),
    {
        if index >= self.len {
            return Err(HybitError::InvalidArgument("DOF mask index out of range"));
        }
        let word = index / 64;
        let bit = (index % 64) as u64;
        let old_word = self.words[word];
        let new_word = if value {
            old_word | (1u64 << bit)
        } else {
            old_word & !(1u64 << bit)
        };
        let ghost old_words = self.words@;
        proof {
            assert forall|c: u64| c < 64 implies bit_of(new_word, c) == (if c == bit {
                value
            } else {
                bit_of(old_word, c)
            }) by {
                lemma_bit_set(old_word, bit, c);
            }
        }
        self.words.set(word, new_word);
        proof {
            assert forall|w: int, b: u64|
                0 <= w < self.words@.len() && b < 64 && w * 64 + b >= self.len implies !(#[trigger] bit_of(self.words@[w], b)) by {
                if w == word as int {
                    assert(b != bit);
                    assert(!bit_of(old_word, b));
                } else {
                    assert(self.words@[w] == old_words[w]);
                }
            }
            assert forall|i: int| 0 <= i < self.len implies #[trigger] self@[i] == old(
                self,
            )@.update(index as int, value)[i] by {
                if i / 64 == word as int {
                    assert((i % 64) < 64);
                } else {
                    assert(self.words@[i / 64] == old_words[i / 64]);
                }
            }
            assert(self@ =~= old(self)@.update(index as int, value));
        }
        Ok(())
    }

    /// `true` when `index` is in range and in the mask.
    pub fn contains(&self, index: usize) -> (b: bool)
        requires
            self.wf(),
        ensures
            b == (index < self@.len() && self@[index as int]),
    {
        if index >= self.len {
            return false;
        }
        let w = self.words[index / 64];
        let bit = (index % 64) as u64;
        proof {
            lemma_bit_set(w, bit, bit);
        }
        (w & (1u64 << bit)) != 0
    }

    /// Number of degrees of freedom in the mask.
    pub fn count_ones(&self) -> (c: usize)
        requires
            self.wf(),
        ensures
            c == count_true(self@),
    {
        let mut c: usize = 0;
        let mut p: usize = 0;
        while p < self.len
            invariant
                p <= self.len,
                self.wf(),
                c == count_true(self@.take(p as int)),
                c <= p,
            decreases self.len - p,
        {
            let w = self.words[p / 64];
            if p % 64 == 0 && w == 0 {
                let step = if self.len - p < 64 {
                    self.len - p
                } else {
                    64
                };
                proof {
                    assert forall|i: int| p <= i < p + step implies !self@[i] by {
                        assert(i / 64 == p / 64);
                        lemma_bit_zero((i % 64) as u64);
                    }
                    lemma_count_skip(self@, p as int, (p + step) as int);
                }
                p = p + step;
            } else {
                let bit = (p % 64) as u64;
                proof {
                    lemma_bit_shift(w, bit);
                    lemma_count_push(self@, p as int);
                }
                if (w >> bit) & 1 == 1 {
                    c = c + 1;
                }
                p = p + 1;
            }
        }
        proof {
            assert(self@.take(p as int) =~= self@);
        }
        c
    }

    fn ensure_same_len(&self, other: &Self) -> (result: Result<(), HybitError>)
        ensures
            result.is_ok() <==> self.spec_len() == other.spec_len(),
            result matches Err(e) ==> e == (HybitError::DimensionMismatch {
                expected: self.len,
                actual: other.len,
            }),
    {
        if self.len != other.len {
            return Err(HybitError::DimensionMismatch { expected: self.len, actual: other.len });
        }
        Ok(())
    }

    /// Adds every degree of freedom of `other`; the two masks must have the same length.
    pub fn union_assign(&mut self, other: &Self) -> (result: Result<(), HybitError>)
        requires
            old(self).wf(),
            other.wf(),
        ensures
            final(self).wf(),
            result.is_ok() <==> old(self).spec_len() == other.spec_len(),
            final(self).spec_len() == old(self).spec_len(),
            result.is_ok() ==> final(self)@ == Seq::new(
                old(self).spec_len(),
                |i: int| old(self)@[i] || other@[i],
            ),
            result.is_err() ==> final(self)@ == old(self)@,
            result matches Err(e) ==> e == (HybitError::DimensionMismatch {
                expected: old(self).spec_len() as usize,
                actual: other.spec_len() as usize,
            }),
    {
        self.ensure_same_len(other)?;
        let n = self.words.len();
        let mut merged: Vec<u64> = Vec::with_capacity(n);
        let mut i: usize = 0;
        while i < n
            invariant
                n == self.words@.len(),
                n == other.words@.len(),
                i <= n,
                merged@.len() == i,
                forall|k: int| 0 <= k < i ==> merged@[k] == self.words@[k] | other.words@[k],
            decreases n - i,
        {
            merged.push(self.words[i] | other.words[i]);
            i = i + 1;
        }
        let ghost old_words = self.words@;
        proof {
            assert forall|w: int, b: u64|
                0 <= w < merged@.len() && b < 64 && w * 64 + b >= self.len implies !(#[trigger] bit_of(merged@[w], b)) by {
                lemma_bit_combine(old_words[w], other.words@[w], b);
            }
        }
        self.words = merged;
        proof {
            assert forall|i: int| 0 <= i < self.len implies #[trigger] self@[i] == (old(self)@[i]
                || other@[i]) by {
                lemma_bit_combine(old_words[i / 64], other.words@[i / 64], (i % 64) as u64);
            }
            assert(self@ =~= Seq::new(old(self).spec_len(), |i: int| old(self)@[i] || other@[i]));
        }
        Ok(())
    }

    /// Keeps only the degrees of freedom that are also in `other`; the two
    /// masks must have the same length.
    pub fn intersect_assign(&mut self, other: &Self) -> (result: Result<(), HybitError>)
        requires
            old(self).wf(),
            other.wf(),
        ensures
            final(self).wf(),
            result.is_ok() <==> old(self).spec_len() == other.spec_len(),
            final(self).spec_len() == old(self).spec_len(),
            result.is_ok() ==> final(self)@ == Seq::new(
                old(self).spec_len(),
                |i: int| old(self)@[i] && other@[i],
            ),
            result.is_err() ==> final(self)@ == old(self)@,
            result matches Err(e) ==> e == (HybitError::DimensionMismatch {
                expected: old(self).spec_len() as usize,
                actual: other.spec_len() as usize,
            }),
    {
        self.ensure_same_len(other)?;
        let n = self.words.len();
        let mut merged: Vec<u64> = Vec::with_capacity(n);
        let mut i: usize = 0;
        while i < n
            invariant
                n == self.words@.len(),
                n == other.words@.len(),
                i <= n,
                merged@.len() == i,
                forall|k: int| 0 <= k < i ==> merged@[k] == self.words@[k] & other.words@[k],
            decreases n - i,
        {
            merged.push(self.words[i] & other.words[i]);
            i = i + 1;
        }
        let ghost old_words = self.words@;
        proof {
            assert forall|w: int, b: u64|
                0 <= w < merged@.len() && b < 64 && w * 64 + b >= self.len implies !(#[trigger] bit_of(merged@[w], b)) by {
                lemma_bit_combine(old_words[w], other.words@[w], b);
            }
        }
        self.words = merged;
        proof {
            assert forall|i: int| 0 <= i < self.len implies #[trigger] self@[i] == (old(self)@[i]
                && other@[i]) by {
                lemma_bit_combine(old_words[i / 64], other.words@[i / 64], (i % 64) as u64);
            }
            assert(self@ =~= Seq::new(old(self).spec_len(), |i: int| old(self)@[i] && other@[i]));
        }
        Ok(())
    }

    /// Whether the two masks share a degree of freedom; they must have the same length.
    pub fn intersects(&self, other: &Self) -> (result: Result<bool, HybitError>)
        requires
            self.wf(),
            other.wf(),
        ensures
            result.is_ok() <==> self.spec_len() == other.spec_len(),
            result matches Ok(b) ==> (b <==> exists|i: int|
                0 <= i < self@.len() && self@[i] && other@[i]),
            result matches Err(e) ==> e == (HybitError::DimensionMismatch {
                expected: self.spec_len() as usize,
                actual: other.spec_len() as usize,
            }),
    {
        self.ensure_same_len(other)?;
        let n = self.words.len();
        let mut i: usize = 0;
        while i < n
            invariant
                n == self.words@.len(),
                n == other.words@.len(),
                self.len == other.len,
                self.wf(),
                other.wf(),
                i <= n,
                forall|k: int| 0 <= k < i ==> self.words@[k] & other.words@[k] == 0u64,
            decreases n - i,
        {
            let both = self.words[i] & other.words[i];
            if both != 0 {
                proof {
                    lemma_nonzero_has_bit(both);
                    let b = both.trailing_zeros() as u64;
                    lemma_bit_combine(self.words@[i as int], other.words@[i as int], b);
                    let j = i * 64 + b;
                    if j >= self.len {
                        assert(!bit_of(self.words@[i as int], b));
                    }
                    assert(j / 64 == i && j % 64 == b);
                    assert(self@[j as int] && other@[j as int]);
                }
                return Ok(true);
            }
            i = i + 1;
        }
        proof {
            assert forall|j: int| 0 <= j < self@.len() implies !(self@[j] && other@[j]) by {
                let w = j / 64;
                let b = (j % 64) as u64;
                assert(self.words@[w] & other.words@[w] == 0u64);
                lemma_bit_combine(self.words@[w], other.words@[w], b);
                lemma_bit_zero(b);
            }
        }
        Ok(false)
    }

    /// The degrees of freedom in the mask, in increasing order.
    pub fn indices(&self) -> (result: Vec<usize>)
        requires
            self.wf(),
        ensures
            lists_true_positions(result@, self@),
            result@.len() == count_true(self@),
    {
        let mut result: Vec<usize> = Vec::with_capacity(self.count_ones());
        let mut p: usize = 0;
        while p < self.len
            invariant
                p <= self.len,
                self.wf(),
                forall|k: int, l: int| 0 <= k < l < result@.len() ==> result@[k] < result@[l],
                forall|k: int| 0 <= k < result@.len() ==> result@[k] < p && self@[result@[k] as int],
                forall|i: int| 0 <= i < p && self@[i] ==> result@.contains(i as usize),
                result@.len() == count_true(self@.take(p as int)),
            decreases self.len - p,
        {
            let w = self.words[p / 64];
            if p % 64 == 0 && w == 0 {
                let step = if self.len - p < 64 {
                    self.len - p
                } else {
                    64
                };
                proof {
                    assert forall|i: int| p <= i < p + step implies !self@[i] by {
                        assert(i / 64 == p / 64);
                        lemma_bit_zero((i % 64) as u64);
                    }
                    lemma_count_skip(self@, p as int, (p + step) as int);
                }
                p = p + step;
            } else {
                let bit = (p % 64) as u64;
                proof {
                    lemma_bit_shift(w, bit);
                    lemma_count_push(self@, p as int);
                }
                if (w >> bit) & 1 == 1 {
                    let ghost before = result@;
                    result.push(p);
                    proof {
                        assert(result@[before.len() as int] == p);
                        assert forall|i: int| 0 <= i < p + 1 && self@[i] implies result@.contains(
                            i as usize,
                        ) by {
                            if i < p {
                                let j = choose|j: int| 0 <= j < before.len() && #[trigger] before[j] == i as usize;
                                assert(result@[j] == i as usize);
                            }
                        }
                    }
                }
                p = p + 1;
            }
        }
        proof {
            assert(self@.take(p as int) =~= self@);
        }
        result
    }

    /// Ors `bits` into word `word_index`, dropping bits past the end of the
    /// mask; an out-of-range word index leaves the mask unchanged.
    pub(crate) fn or_word(&mut self, word_index: usize, bits: u64)
        requires
            old(self).wf(),
        ensures
            final(self).wf(),
            final(self).spec_len() == old(self).spec_len(),
            final(self)@ == Seq::new(
                old(self).spec_len(),
                |i: int|
                    old(self)@[i] || (i / 64 == word_index && word_index < word_count(
                        old(self).spec_len(),
                    ) && bit_of(bits, (i % 64) as u64)),
            ),
    {
        let n = self.words.len();
        if word_index < n {
            let old_word = self.words[word_index];
            let mut new_word = old_word | bits;
            proof {
                assert forall|c: u64| c < 64 implies bit_of(new_word, c) == (bit_of(old_word, c)
                    || bit_of(bits, c)) by {
                    lemma_bit_combine(old_word, bits, c);
                }
            }
            if word_index + 1 == n && self.len % 64 != 0 {
                let valid = (self.len % 64) as u64;
                proof {
                    lemma_shift_positive(valid);
                }
                let masked = new_word & ((1u64 << valid) - 1);
                proof {
                    assert forall|c: u64| c < 64 implies bit_of(masked, c) == (c < valid
                        && bit_of(new_word, c)) by {
                        lemma_low_mask(new_word, valid, c);
                    }
                    assert forall|c: u64| c < 64 && c >= valid implies !bit_of(old_word, c) by {
                        assert(word_index * 64 + c >= self.len);
                    }
                }
                new_word = masked;
            }
            let ghost old_words = self.words@;
            proof {
                assert forall|c: u64| c < 64 && word_index * 64 + c >= self.len implies !bit_of(
                    new_word,
                    c,
                ) by {
                    assert(!bit_of(old_words[word_index as int], c));
                    if !(word_index + 1 == n && self.len % 64 != 0) {
                        assert(false);
                    }
                }
            }
            self.words.set(word_index, new_word);
            proof {
                assert forall|i: int| 0 <= i < self.len implies #[trigger] self@[i] == (old(
                    self,
                )@[i] || (i / 64 == word_index && word_index < word_count(old(self).spec_len())
                    && bit_of(bits, (i % 64) as u64))) by {
                    if i / 64 != word_index as int {
                        assert(self.words@[i / 64] == old_words[i / 64]);
                    }
                }
                assert(self@ =~= Seq::new(
                    old(self).spec_len(),
                    |i: int|
                        old(self)@[i] || (i / 64 == word_index && word_index < word_count(
                            old(self).spec_len(),
                        ) && bit_of(bits, (i % 64) as u64)),
                ));
            }
        } else {
            proof {
                assert(self@ =~= Seq::new(
                    old(self).spec_len(),
                    |i: int|
                        old(self)@[i] || (i / 64 == word_index && word_index < word_count(
                            old(self).spec_len(),
                        ) && bit_of(bits, (i % 64) as u64)),
                ));
            }
        }
    }
}

} // verus!
