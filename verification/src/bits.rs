//! A fixed-size, index-addressable set of boolean flags, bit-packed into
//! 32-bit words. This is the storage representation behind the grid: bit `i`
//! of the flag sequence lives at bit `i % 32` of word `i / 32`.

use vstd::prelude::*;
use vstd::arithmetic::div_mod::lemma_fundamental_div_mod;

verus! {

/// True when bit `k` (counting from the least significant end) of `w` is set.
pub open spec fn nth_bit(w: u32, k: u32) -> bool {
    w & (1u32 << k) != 0u32
}

/// Bit `i` of a row of 32-bit words, little-endian within each word.
pub open spec fn bit_in_words(ws: Seq<u32>, i: int) -> bool {
    nth_bit(ws[i / 32], (i % 32) as u32)
}

/// Number of 32-bit words needed to hold `n` bits.
pub open spec fn words_for(n: int) -> int {
    (n + 31) / 32
}

/// A fixed-size sequence of boolean flags, bit-packed into 32-bit words.
/// The view is the flag sequence itself: `self@[i]` is flag `i`.
pub struct PackedBits {
    words: Vec<u32>,
    nbits: usize,
}

impl View for PackedBits {
    type V = Seq<bool>;

    closed spec fn view(&self) -> Seq<bool> {
        Seq::new(self.nbits as nat, |i: int| bit_in_words(self.words@, i))
    }
}

/// Setting bit `k` of a word leaves every other bit as it was and raises bit `k`.
proof fn lemma_or_bit(w: u32, k: u32, j: u32)
    requires
        k < 32,
        j < 32,
    ensures
        nth_bit(w | (1u32 << k), j) == (j == k || nth_bit(w, j)),
{
    assert(((w | (1u32 << k)) & (1u32 << j) != 0u32) == ((j == k) || (w & (1u32 << j)
        != 0u32))) by (bit_vector)
        requires
            k < 32,
            j < 32,
    ;
}

/// Clearing bit `k` of a word leaves every other bit as it was and lowers bit `k`.
proof fn lemma_and_not_bit(w: u32, k: u32, j: u32)
    requires
        k < 32,
        j < 32,
    ensures
        nth_bit(w & !(1u32 << k), j) == (j != k && nth_bit(w, j)),
{
    assert(((w & !(1u32 << k)) & (1u32 << j) != 0u32) == ((j != k) && (w & (1u32 << j)
        != 0u32))) by (bit_vector)
        requires
            k < 32,
            j < 32,
    ;
}

/// A zero word has no bit set.
proof fn lemma_zero_bit(j: u32)
    requires
        j < 32,
    ensures
        !nth_bit(0u32, j),
{
    assert(0u32 & (1u32 << j) == 0u32) by (bit_vector);
}

/// Two distinct bit positions in the same word differ in their offset.
proof fn lemma_same_word_distinct_offsets(i: int, j: int)
    requires
        0 <= i,
        0 <= j,
        i != j,
        i / 32 == j / 32,
    ensures
        i % 32 != j % 32,
{
    lemma_fundamental_div_mod(i, 32);
    lemma_fundamental_div_mod(j, 32);
}

/// A bit index below `n` falls inside the `words_for(n)` words.
proof fn lemma_index_in_words(i: int, n: int)
    requires
        0 <= i < n,
    ensures
        0 <= i / 32 < words_for(n),
        n <= words_for(n) * 32,
{
    lemma_fundamental_div_mod(i, 32);
    lemma_fundamental_div_mod(n + 31, 32);
    assert(0 <= i / 32) by (nonlinear_arith)
        requires 0 <= i;
    assert(i / 32 < (n + 31) / 32 && n <= ((n + 31) / 32) * 32) by (nonlinear_arith)
        requires
            0 <= i < n,
            i == 32 * (i / 32) + i % 32,
            0 <= i % 32 < 32,
            n + 31 == 32 * ((n + 31) / 32) + (n + 31) % 32,
            0 <= (n + 31) % 32 < 32,
    ;
}

impl PackedBits {
    /// All words are present and the bits beyond `nbits` in the last word are clear.
    pub closed spec fn wf(self) -> bool {
        &&& self.words@.len() == words_for(self.nbits as int)
        &&& forall|j: int|
            self.nbits <= j < self.words@.len() * 32 ==> !bit_in_words(self.words@, j)
    }

    /// A set of `nbits` flags, all initially false.
    pub fn with_capacity(nbits: usize) -> (r: PackedBits)
        ensures
            r.wf(),
            r@.len() == nbits,
            forall|i: int| 0 <= i < nbits ==> !r@[i],
    {
        let nwords: usize = if nbits % 32 == 0 {
            nbits / 32
        } else {
            nbits / 32 + 1
        };
        proof {
            lemma_fundamental_div_mod(nbits as int, 32);
            lemma_fundamental_div_mod(nbits as int + 31, 32);
            assert(nwords == words_for(nbits as int)) by (nonlinear_arith)
                requires
                    nbits as int == 32 * (nbits as int / 32) + nbits as int % 32,
                    0 <= nbits as int % 32 < 32,
                    nbits as int + 31 == 32 * ((nbits as int + 31) / 32) + (nbits as int + 31) % 32,
                    0 <= (nbits as int + 31) % 32 < 32,
                    nwords == if nbits as int % 32 == 0 { nbits as int / 32 } else { nbits as int / 32 + 1 },
                    words_for(nbits as int) == (nbits as int + 31) / 32,
            ;
        }
        let words: Vec<u32> = vec![0u32; nwords];
        let r = PackedBits { words, nbits };
        proof {
            assert forall|j: int| 0 <= j < r.words@.len() * 32 implies !bit_in_words(
                r.words@, j) by {
                if 0 < r.words@.len() {
                    lemma_index_in_words(j, (r.words@.len() * 32) as int);
                }
                lemma_zero_bit((j % 32) as u32);
            }
            assert(r@.len() == nbits);
        }
        r
    }

    /// Flag `i`, read straight out of the packed word.
    pub fn get(&self, i: usize) -> (r: bool)
        requires
            self.wf(),
            i < self@.len(),
        ensures
            r == self@[i as int],
    {
        proof {
            lemma_index_in_words(i as int, self.nbits as int);
        }
        let wi: usize = i / 32;
        let k: u32 = (i % 32) as u32;
        (self.words[wi] & (1u32 << k)) != 0u32
    }

    /// Replaces flag `i` by `b`, leaving every other flag unchanged.
    pub fn set(&mut self, i: usize, b: bool)
        requires
            old(self).wf(),
            i < old(self)@.len(),
        ensures
            final(self).wf(),
            final(self)@ == old(self)@.update(i as int, b),
    {
        proof {
            lemma_index_in_words(i as int, self.nbits as int);
        }
        let wi: usize = i / 32;
        let k: u32 = (i % 32) as u32;
        let w: u32 = self.words[wi];
        let neww: u32 = if b {
            w | (1u32 << k)
        } else {
            w & !(1u32 << k)
        };
        self.words.set(wi, neww);
        proof {
            let ows = old(self).words@;
            let nws = self.words@;
            assert forall|j: int| 0 <= j < nws.len() * 32 implies bit_in_words(nws, j)
                == (if j == i { b } else { bit_in_words(ows, j) }) by {
                lemma_index_in_words(j, (nws.len() * 32) as int);
                if j / 32 == wi {
                    if j != i {
                        lemma_same_word_distinct_offsets(i as int, j);
                    }
                    if b {
                        lemma_or_bit(w, k, (j % 32) as u32);
                    } else {
                        lemma_and_not_bit(w, k, (j % 32) as u32);
                    }
                } else {
                    assert(nws[j / 32] == ows[j / 32]);
                }
            }
            assert(self@ =~= old(self)@.update(i as int, b));
        }
    }

    /// The packed words themselves, for a renderer that reads raw storage:
    /// bit `i % 32` of word `i / 32` is flag `i`, and the spare bits at the
    /// end of the last word are all clear.
    pub fn as_slice(&self) -> (r: &Vec<u32>)
        requires
            self.wf(),
        ensures
            r@.len() == words_for(self@.len() as int),
            forall|i: int| 0 <= i < self@.len() ==> bit_in_words(r@, i) == self@[i],
            forall|j: int| self@.len() <= j < r@.len() * 32 ==> !bit_in_words(r@, j),
    {
        &self.words
    }

    /// How many flags the set holds.
    pub fn len(&self) -> (r: usize)
        ensures
            r == self@.len(),
    {
        self.nbits
    }
}

} // verus!
