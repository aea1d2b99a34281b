//! A bitset with a fixed capacity of `NUM_OF_CCES` bits.

use crate::defines::NUM_OF_CCES;
use vstd::prelude::*;
use vstd::set_lib::*;

verus! {

/// Bit `b` of the word `w`.
pub open spec fn word_bit(w: u64, b: u64) -> bool {
    (w >> b) & 1 == 1
}

proof fn lemma_zero_word(b: u64)
    requires
        b < 64,
    ensures
        !word_bit(0, b),
{
    assert((0u64 >> b) & 1 != 1) by (bit_vector)
        requires
            b < 64,
    ;
}

proof fn lemma_set_word_bit(w: u64, k: u64, b: u64)
    requires
        k < 64,
        b < 64,
    ensures
        word_bit(w | (1u64 << k), b) == (b == k || word_bit(w, b)),
{
    assert((((w | (1u64 << k)) >> b) & 1 == 1) == (b == k || (w >> b) & 1 == 1)) by (bit_vector)
        requires
            k < 64,
            b < 64,
    ;
}

proof fn lemma_clear_word_bit(w: u64, k: u64, b: u64)
    requires
        k < 64,
        b < 64,
    ensures
        word_bit(w & !(1u64 << k), b) == (b != k && word_bit(w, b)),
{
    assert((((w & !(1u64 << k)) >> b) & 1 == 1) == (b != k && (w >> b) & 1 == 1)) by (bit_vector)
        requires
            k < 64,
            b < 64,
    ;
}

proof fn lemma_and_word(x: u64, y: u64, b: u64)
    requires
        b < 64,
    ensures
        word_bit(x & y, b) == (word_bit(x, b) && word_bit(y, b)),
{
    assert((((x & y) >> b) & 1 == 1) == ((x >> b) & 1 == 1 && (y >> b) & 1 == 1)) by (bit_vector)
        requires
            b < 64,
    ;
}

proof fn lemma_or_word(x: u64, y: u64, b: u64)
    requires
        b < 64,
    ensures
        word_bit(x | y, b) == (word_bit(x, b) || word_bit(y, b)),
{
    assert((((x | y) >> b) & 1 == 1) == ((x >> b) & 1 == 1 || (y >> b) & 1 == 1)) by (bit_vector)
        requires
            b < 64,
    ;
}

/// A word that is not zero has a bit set at or above position `from`,
/// provided that something is left of it after a shift by `from`.
proof fn lemma_nonzero_word(w: u64, from: u64) -> (b: u64)
    requires
        from < 64,
        (w >> from) != 0,
    ensures
        from <= b < 64,
        word_bit(w, b),
    decreases 64 - from,
{
    if word_bit(w, from) {
        from
    } else {
        let next: u64 = (from + 1) as u64;
        assert(from < 63 && (w >> next) != 0) by (bit_vector)
            requires
                from < 64,
                (w >> from) != 0,
                (w >> from) & 1 != 1,
                next == from + 1,
        ;
        lemma_nonzero_word(w, next)
    }
}

/// Bit `i` of four words laid end to end.
spec fn has_bit(words: [u64; 4], i: int) -> bool {
    word_bit(words@[i / 64], (i % 64) as u64)
}

/// Four words with no bit set.
fn zero_words() -> (words: [u64; 4])
    ensures
        forall|i: int| 0 <= i < NUM_OF_CCES ==> !#[trigger] has_bit(words, i),
{
    let words: [u64; 4] = [0, 0, 0, 0];
    proof {
        assert forall|i: int| 0 <= i < NUM_OF_CCES implies !#[trigger] has_bit(words, i) by {
            lemma_zero_word((i % 64) as u64);
        }
    }
    words
}

/// A set of bit positions below a size that is fixed when the set is made.
/// The size is at most `NUM_OF_CCES`.
#[derive(Clone, Copy, Debug, PartialEq, Eq)]
pub struct BoundedBitset {
    size: usize,
    words: [u64; 4],
}

impl View for BoundedBitset {
    type V = Set<int>;

    /// The positions of the bits that are set.
    closed spec fn view(&self) -> Set<int> {
        Set::new(|i: int| 0 <= i < self.size && has_bit(self.words, i))
    }
}

impl Default for BoundedBitset {
    fn default() -> (r: Self)
        ensures
            r.spec_size() == 0,
            r@ == Set::<int>::empty(),
    {
        let r = BoundedBitset { size: 0, words: zero_words() };
        assert(r@ =~= Set::<int>::empty());
        r
    }
}

impl BoundedBitset {
    #[verifier::type_invariant]
    spec fn inv(&self) -> bool {
        &&& self.size <= NUM_OF_CCES
        &&& forall|i: int| self.size <= i < NUM_OF_CCES ==> !#[trigger] has_bit(self.words, i)
    }

    pub closed spec fn spec_size(&self) -> usize {
        self.size
    }

    /// Every set position is below the size, and the positions are finitely many.
    pub proof fn lemma_view_bounded(self)
        ensures
            self@.finite(),
            self@.subset_of(set_int_range(0, self.spec_size() as int)),
            self@.len() <= self.spec_size(),
    {
        let range = set_int_range(0, self.size as int);
        lemma_int_range(0, self.size as int);
        assert(self@.subset_of(range));
        lemma_len_subset(self@, range);
    }

    /// The bitset of the given size with no bit set.
    pub fn new(size: usize) -> (r: Self)
        requires
            size <= NUM_OF_CCES,
        ensures
            r.spec_size() == size,
            r@ == Set::<int>::empty(),
    {
        let r = BoundedBitset { size, words: zero_words() };
        assert(r@ =~= Set::<int>::empty());
        r
    }

    /// Number of positions that the bitset ranges over.
    #[verifier::when_used_as_spec(spec_size)]
    pub fn size(&self) -> (r: usize)
        ensures
            r == self.spec_size(),
            r <= NUM_OF_CCES,
    {
        proof {
            use_type_invariant(self);
        }
        self.size
    }

    /// Whether bit `i` is set; `None` when `i` is not below the size.
    pub fn get(&self, i: usize) -> (r: Option<bool>)
        ensures
            i < self.spec_size() ==> r == Some(self@.contains(i as int)),
            i >= self.spec_size() ==> r is None,
    {
        proof {
            use_type_invariant(self);
        }
        if i < self.size {
            let w: u64 = self.words[i / 64];
            let b: u64 = (i % 64) as u64;
            Some((w >> b) & 1 == 1)
        } else {
            None
        }
    }

    /// Sets or clears bit `i`. Fails, changing nothing, when `i` is not below
    /// the size.
    pub fn set(&mut self, i: usize, value: bool) -> (r: Result<(), ()>)
        ensures
            final(self).spec_size() == old(self).spec_size(),
            r is Ok <==> i < old(self).spec_size(),
            r is Ok && value ==> final(self)@ == old(self)@.insert(i as int),
            r is Ok && !value ==> final(self)@ == old(self)@.remove(i as int),
            r is Err ==> *final(self) == *old(self),
    {
        self.fill(i, 1, value)
    }

    /// Sets or clears the `len` bits from position `start` on. Fails,
    /// changing nothing, when the run does not end at or below the size.
    pub fn fill(&mut self, start: usize, len: usize, value: bool) -> (r: Result<(), ()>)
        ensures
            final(self).spec_size() == old(self).spec_size(),
            r is Ok <==> start + len <= old(self).spec_size(),
            r is Ok && value ==> final(self)@ == old(self)@.union(
                set_int_range(start as int, start + len),
            ),
            r is Ok && !value ==> final(self)@ == old(self)@.difference(
                set_int_range(start as int, start + len),
            ),
            r is Err ==> *final(self) == *old(self),
    {
        proof {
            use_type_invariant(&*self);
        }
        let size: usize = self.size;
        if len > size || start > size - len {
            return Err(());
        }
        let ghost before = self.words;
        let mut words: [u64; 4] = self.words;
        let mut i: usize = start;
        while i < start + len
            invariant
                start <= i <= start + len <= size <= NUM_OF_CCES,
                forall|j: int|
                    0 <= j < NUM_OF_CCES ==> #[trigger] has_bit(words, j) == if start <= j < i {
                        value
                    } else {
                        has_bit(before, j)
                    },
            decreases start + len - i,
        {
            let k: usize = i / 64;
            let b: u64 = (i % 64) as u64;
            let ghost prev = words;
            let w: u64 = words[k];
            let updated: u64 = if value {
                w | (1u64 << b)
            } else {
                w & !(1u64 << b)
            };
            words[k] = updated;
            proof {
                assert forall|j: int| 0 <= j < NUM_OF_CCES implies #[trigger] has_bit(words, j)
                    == if start <= j < i + 1 {
                    value
                } else {
                    has_bit(before, j)
                } by {
                    if j / 64 == k as int {
                        if value {
                            lemma_set_word_bit(w, b, (j % 64) as u64);
                        } else {
                            lemma_clear_word_bit(w, b, (j % 64) as u64);
                        }
                        assert(has_bit(prev, j) == if start <= j < i {
                            value
                        } else {
                            has_bit(before, j)
                        });
                    } else {
                        assert(words@[j / 64] == prev@[j / 64]);
                        assert(has_bit(words, j) == has_bit(prev, j));
                    }
                }
            }
            i += 1;
        }
        let ghost old_view = self@;
        *self = BoundedBitset { size, words };
        proof {
            let run = set_int_range(start as int, start + len);
            if value {
                assert(self@ =~= old_view.union(run));
            } else {
                assert(self@ =~= old_view.difference(run));
            }
        }
        Ok(())
    }

    /// The positions set in both bitsets, over the smaller of the two sizes.
    pub fn intersection(&self, other: &Self) -> (r: Self)
        ensures
            r.spec_size() == if self.spec_size() <= other.spec_size() {
                self.spec_size()
            } else {
                other.spec_size()
            },
            r@ == self@.intersect(other@),
    {
        proof {
            use_type_invariant(self);
            use_type_invariant(other);
        }
        let size: usize = if self.size <= other.size {
            self.size
        } else {
            other.size
        };
        let words: [u64; 4] = [
            self.words[0] & other.words[0],
            self.words[1] & other.words[1],
            self.words[2] & other.words[2],
            self.words[3] & other.words[3],
        ];
        proof {
            assert forall|i: int| 0 <= i < NUM_OF_CCES implies #[trigger] has_bit(words, i) == (
            has_bit(self.words, i) && has_bit(other.words, i)) by {
                lemma_and_word(self.words@[i / 64], other.words@[i / 64], (i % 64) as u64);
            }
        }
        let r = BoundedBitset { size, words };
        assert(r@ =~= self@.intersect(other@));
        r
    }

    /// The positions set in either bitset, over the larger of the two sizes.
    pub fn union(&self, other: &Self) -> (r: Self)
        ensures
            r.spec_size() == if self.spec_size() >= other.spec_size() {
                self.spec_size()
            } else {
                other.spec_size()
            },
            r@ == self@.union(other@),
    {
        proof {
            use_type_invariant(self);
            use_type_invariant(other);
        }
        let size: usize = if self.size >= other.size {
            self.size
        } else {
            other.size
        };
        let words: [u64; 4] = [
            self.words[0] | other.words[0],
            self.words[1] | other.words[1],
            self.words[2] | other.words[2],
            self.words[3] | other.words[3],
        ];
        proof {
            assert forall|i: int| 0 <= i < NUM_OF_CCES implies #[trigger] has_bit(words, i) == (
            has_bit(self.words, i) || has_bit(other.words, i)) by {
                lemma_or_word(self.words@[i / 64], other.words@[i / 64], (i % 64) as u64);
            }
        }
        let r = BoundedBitset { size, words };
        assert(r@ =~= self@.union(other@));
        r
    }

    /// Whether any bit is set.
    pub fn any(&self) -> (r: bool)
        ensures
            r <==> exists|i: int| self@.contains(i),
            r <==> self@ != Set::<int>::empty(),
    {
        proof {
            use_type_invariant(self);
        }
        let mut k: usize = 0;
        while k < 4
            invariant
                k <= 4,
                forall|j: int| 0 <= j < k ==> self.words@[j] == 0,
            decreases 4 - k,
        {
            if self.words[k] != 0 {
                proof {
                    use_type_invariant(self);
                    let w = self.words@[k as int];
                    assert((w >> 0u64) != 0) by (bit_vector)
                        requires
                            w != 0,
                    ;
                    let b = lemma_nonzero_word(w, 0);
                    let i: int = 64 * k + b;
                    assert(i / 64 == k as int && i % 64 == b as int);
                    assert(has_bit(self.words, i));
                    assert(self@.contains(i));
                }
                return true;
            }
            k += 1;
        }
        proof {
            assert forall|i: int| !self@.contains(i) by {
                if 0 <= i < self.size {
                    lemma_zero_word((i % 64) as u64);
                }
            }
            assert(self@ =~= Set::<int>::empty());
        }
        false
    }

    /// Number of bits that are set.
    pub fn count(&self) -> (r: usize)
        ensures
            r == self@.len(),
            r <= self.spec_size(),
    {
        proof {
            use_type_invariant(self);
        }
        let ghost view = self@;
        let mut n: usize = 0;
        let mut i: usize = 0;
        assert(view.intersect(set_int_range(0, 0)) =~= Set::<int>::empty());
        while i < self.size
            invariant
                i <= self.size <= NUM_OF_CCES,
                view == self@,
                n <= i,
                view.intersect(set_int_range(0, i as int)).finite(),
                n == view.intersect(set_int_range(0, i as int)).len(),
            decreases self.size - i,
        {
            let w: u64 = self.words[i / 64];
            let b: u64 = (i % 64) as u64;
            let ghost below = view.intersect(set_int_range(0, i as int));
            let ghost next = view.intersect(set_int_range(0, i + 1));
            if (w >> b) & 1 == 1 {
                proof {
                    assert(view.contains(i as int));
                    assert(next =~= below.insert(i as int));
                }
                n += 1;
            } else {
                proof {
                    assert(!view.contains(i as int));
                    assert(next =~= below);
                }
            }
            i += 1;
        }
        proof {
            self.lemma_view_bounded();
            assert(view.intersect(set_int_range(0, self.size as int)) =~= view);
        }
        n
    }
}

} // verus!
