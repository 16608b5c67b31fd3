use vstd::prelude::*;

verus! {

/// Whether bit `index` of `word` is set; bit 0 is the lowest.
pub open spec fn word_bit(word: u32, index: u32) -> bool {
    (word >> index) & 1 == 1
}

/// The number of 32-bit words that hold `bits` bits.
pub open spec fn words_for(bits: int) -> int {
    if bits % 32 == 0 {
        bits / 32
    } else {
        bits / 32 + 1
    }
}

/// A bit vector of fixed size, stored in 32-bit words. Its size is always
/// a whole number of words.
pub struct BitVec {
    data: Vec<u32>,
    nbits: usize,
}

impl View for BitVec {
    type V = Seq<bool>;

    closed spec fn view(&self) -> Seq<bool> {
        Seq::new(self.nbits as nat, |i: int| word_bit(self.data@[i / 32], (i % 32) as u32))
    }
}

impl BitVec {
    /// The words hold exactly the bits of the vector.
    #[verifier::type_invariant]
    spec fn whole_words(&self) -> bool {
        self.data@.len() * 32 == self.nbits
    }

    /// A vector of at least `bits` bits, rounded up to whole words, with
    /// every bit clear.
    pub fn new(bits: usize) -> (bv: BitVec)
        requires
            bits <= usize::MAX - 31,
        ensures
            bv@.len() == 32 * words_for(bits as int),
            forall|i: int| 0 <= i < bv@.len() ==> !bv@[i],
    {
        let words = u32s(bits);
        let bv = BitVec { data: vec![0; words], nbits: words * 32 };
        proof {
            assert forall|i: int| 0 <= i < bv@.len() implies !bv@[i] by {
                assert(bv.data@[i / 32] == 0u32);
                lemma_zero_word((i % 32) as u32);
            }
        }
        bv
    }

    /// A vector of at least `bits` bits, rounded up to whole words, in
    /// which the lowest bit of every word is set and every other bit is
    /// clear.
    pub fn ones(bits: usize) -> (bv: BitVec)
        requires
            bits <= usize::MAX - 31,
        ensures
            bv@.len() == 32 * words_for(bits as int),
            forall|i: int| 0 <= i < bv@.len() ==> bv@[i] == (i % 32 == 0),
    {
        let words = u32s(bits);
        let bv = BitVec { data: vec![1; words], nbits: words * 32 };
        proof {
            assert forall|i: int| 0 <= i < bv@.len() implies bv@[i] == (i % 32 == 0) by {
                assert(bv.data@[i / 32] == 1u32);
                lemma_one_word((i % 32) as u32);
            }
        }
        bv
    }

    /// The number of bits.
    pub fn len(&self) -> (n: usize)
        ensures
            n == self@.len(),
    {
        self.nbits
    }

    /// Whether bit `bit` is set.
    pub fn get(&self, bit: usize) -> (set: bool)
        requires
            bit < self@.len(),
        ensures
            set == self@[bit as int],
    {
        proof {
            use_type_invariant(self);
        }
        let word = bit / 32;
        let b = (bit % 32) as u32;
        (self.data[word] >> b) & 1 == 1
    }

    /// Sets bit `bit`. Every other bit stays as it is.
    pub fn set(&mut self, bit: usize)
        requires
            bit < old(self)@.len(),
        ensures
            final(self)@ == old(self)@.update(bit as int, true),
    {
        proof {
            use_type_invariant(&*self);
        }
        let word = bit / 32;
        let b = (bit % 32) as u32;
        let flag = 1u32 << b;
        let before = self.data[word];
        self.data[word] = before | flag;
        proof {
            assert forall|i: int| 0 <= i < self@.len() implies self@[i] == old(self)@.update(
                bit as int,
                true,
            )[i] by {
                if i / 32 == word as int {
                    lemma_set_bit(before, b, (i % 32) as u32);
                }
            }
            assert(self@ =~= old(self)@.update(bit as int, true));
        }
    }

    /// Clears bit `bit`. Every other bit stays as it is.
    pub fn unset(&mut self, bit: usize)
        requires
            bit < old(self)@.len(),
        ensures
            final(self)@ == old(self)@.update(bit as int, false),
    {
        proof {
            use_type_invariant(&*self);
        }
        let word = bit / 32;
        let b = (bit % 32) as u32;
        let flag = 1u32 << b;
        let before = self.data[word];
        self.data[word] = before & !flag;
        proof {
            assert forall|i: int| 0 <= i < self@.len() implies self@[i] == old(self)@.update(
                bit as int,
                false,
            )[i] by {
                if i / 32 == word as int {
                    lemma_unset_bit(before, b, (i % 32) as u32);
                }
            }
            assert(self@ =~= old(self)@.update(bit as int, false));
        }
    }

    /// Whether no bit is set in both vectors.
    pub fn distinct(&self, other: &BitVec) -> (disjoint: bool)
        requires
            self@.len() == other@.len(),
        ensures
            disjoint == (forall|i: int| 0 <= i < self@.len() ==> !(self@[i] && other@[i])),
    {
        proof {
            use_type_invariant(self);
            use_type_invariant(other);
        }
        let mut w: usize = 0;
        while w < self.data.len()
            invariant
                self.whole_words(),
                other.whole_words(),
                self@.len() == other@.len(),
                w <= self.data@.len(),
                forall|i: int| 0 <= i < 32 * w ==> !(self@[i] && other@[i]),
            decreases self.data@.len() - w,
        {
            let my_val = self.data[w];
            let other_val = other.data[w];
            if my_val & other_val != 0 {
                proof {
                    let k = lemma_shared_bit(my_val, other_val);
                    let i = 32 * w + k;
                    assert(i / 32 == w as int && i % 32 == k as int);
                    assert(self@[i] && other@[i]);
                }
                return false;
            }
            proof {
                assert forall|i: int| 0 <= i < 32 * (w + 1) implies !(self@[i] && other@[i]) by {
                    if i >= 32 * w {
                        assert(i / 32 == w as int);
                        lemma_no_shared_bit(my_val, other_val, (i % 32) as u32);
                    }
                }
            }
            w += 1;
        }
        true
    }

    /// Whether every word holds a bit that is set in both vectors.
    pub fn overlap(&self, other: &BitVec) -> (every_word: bool)
        requires
            self@.len() == other@.len(),
        ensures
            every_word == (forall|w: int|
                0 <= w < self@.len() / 32 ==> #[trigger] word_overlaps(self@, other@, w)),
    {
        proof {
            use_type_invariant(self);
            use_type_invariant(other);
        }
        let mut w: usize = 0;
        while w < self.data.len()
            invariant
                self.whole_words(),
                other.whole_words(),
                self@.len() == other@.len(),
                w <= self.data@.len(),
                forall|v: int| 0 <= v < w ==> #[trigger] word_overlaps(self@, other@, v),
            decreases self.data@.len() - w,
        {
            let my_val = self.data[w];
            let other_val = other.data[w];
            if my_val & other_val == 0 {
                proof {
                    assert forall|i: int| 32 * w <= i < 32 * w + 32 implies !set_in_both(
                        self@,
                        other@,
                        i,
                    ) by {
                        assert(i / 32 == w as int);
                        lemma_no_shared_bit(my_val, other_val, (i % 32) as u32);
                    }
                    assert(!word_overlaps(self@, other@, w as int));
                }
                return false;
            }
            proof {
                let k = lemma_shared_bit(my_val, other_val);
                let i = 32 * w + k;
                assert(i / 32 == w as int && i % 32 == k as int);
                assert(set_in_both(self@, other@, i));
                assert(word_overlaps(self@, other@, w as int));
            }
            w += 1;
        }
        true
    }

    /// Whether every bit that is set in this vector is set in `other`.
    pub fn all_overlap(&self, other: &BitVec) -> (covered: bool)
        requires
            self@.len() == other@.len(),
        ensures
            covered == (forall|i: int| 0 <= i < self@.len() ==> (self@[i] ==> other@[i])),
    {
        proof {
            use_type_invariant(self);
            use_type_invariant(other);
        }
        let mut w: usize = 0;
        while w < self.data.len()
            invariant
                self.whole_words(),
                other.whole_words(),
                self@.len() == other@.len(),
                w <= self.data@.len(),
                forall|i: int| 0 <= i < 32 * w ==> (self@[i] ==> other@[i]),
            decreases self.data@.len() - w,
        {
            let my_val = self.data[w];
            let other_val = other.data[w];
            if my_val & other_val != my_val {
                proof {
                    let k = lemma_uncovered_bit(my_val, other_val);
                    let i = 32 * w + k;
                    assert(i / 32 == w as int && i % 32 == k as int);
                    assert(self@[i] && !other@[i]);
                }
                return false;
            }
            proof {
                assert forall|i: int| 0 <= i < 32 * (w + 1) && self@[i] implies other@[i] by {
                    if i >= 32 * w {
                        assert(i / 32 == w as int);
                        lemma_covered_bit(my_val, other_val, (i % 32) as u32);
                    }
                }
            }
            w += 1;
        }
        true
    }
}

/// Whether bit `i` is set in both vectors.
pub open spec fn set_in_both(a: Seq<bool>, b: Seq<bool>, i: int) -> bool {
    a[i] && b[i]
}

/// Whether word `w`, the bits from `32 * w` up to `32 * w + 31`, holds a
/// bit that is set in both vectors.
pub open spec fn word_overlaps(a: Seq<bool>, b: Seq<bool>, w: int) -> bool {
    exists|i: int| 32 * w <= i < 32 * w + 32 && #[trigger] set_in_both(a, b, i)
}

/// The number of 32-bit words that hold `bits` bits.
pub fn u32s(bits: usize) -> (words: usize)
    ensures
        words == words_for(bits as int),
        words * 32 >= bits,
        words * 32 < bits + 32,
{
    if bits % 32 == 0 {
        bits / 32
    } else {
        bits / 32 + 1
    }
}

proof fn lemma_zero_word(k: u32)
    requires
        k < 32,
    ensures
        !word_bit(0, k),
{
    assert((0u32 >> k) & 1 != 1) by (bit_vector)
        requires
            k < 32,
    ;
}

proof fn lemma_one_word(k: u32)
    requires
        k < 32,
    ensures
        word_bit(1, k) == (k == 0),
{
    assert(((1u32 >> k) & 1 == 1) == (k == 0)) by (bit_vector)
        requires
            k < 32,
    ;
}

proof fn lemma_set_bit(word: u32, b: u32, k: u32)
    requires
        b < 32,
        k < 32,
    ensures
        word_bit(word | (1u32 << b), k) == (k == b || word_bit(word, k)),
{
    assert((((word | (1u32 << b)) >> k) & 1 == 1) == (k == b || (word >> k) & 1 == 1))
        by (bit_vector)
        requires
            b < 32,
            k < 32,
    ;
}

proof fn lemma_unset_bit(word: u32, b: u32, k: u32)
    requires
        b < 32,
        k < 32,
    ensures
        word_bit(word & !(1u32 << b), k) == (k != b && word_bit(word, k)),
{
    assert((((word & !(1u32 << b)) >> k) & 1 == 1) == (k != b && (word >> k) & 1 == 1))
        by (bit_vector)
        requires
            b < 32,
            k < 32,
    ;
}

proof fn lemma_no_shared_bit(a: u32, b: u32, k: u32)
    requires
        a & b == 0,
        k < 32,
    ensures
        !(word_bit(a, k) && word_bit(b, k)),
{
    assert(!((a >> k) & 1 == 1 && (b >> k) & 1 == 1)) by (bit_vector)
        requires
            a & b == 0,
            k < 32,
    ;
}

proof fn lemma_covered_bit(a: u32, b: u32, k: u32)
    requires
        a & b == a,
        k < 32,
    ensures
        word_bit(a, k) ==> word_bit(b, k),
{
    assert((a >> k) & 1 == 1 ==> (b >> k) & 1 == 1) by (bit_vector)
        requires
            a & b == a,
            k < 32,
    ;
}

/// A word that is not zero and has no bit set at `n` or above has a set
/// bit below `n`.
proof fn lemma_some_bit_below(x: u32, n: u32) -> (k: u32)
    requires
        x != 0,
        n <= 32,
        n < 32 ==> x >> n == 0,
    ensures
        k < n,
        word_bit(x, k),
    decreases n,
{
    if n == 0 {
        assert(false) by (bit_vector)
            requires
                x != 0,
                x >> 0u32 == 0,
        ;
        0
    } else {
        let m = (n - 1) as u32;
        if word_bit(x, m) {
            m
        } else {
            assert(x >> m == 0) by (bit_vector)
                requires
                    m < 32,
                    n == m + 1,
                    n < 32 ==> x >> n == 0,
                    (x >> m) & 1 != 1,
            ;
            lemma_some_bit_below(x, m)
        }
    }
}

/// A word that is not zero has a set bit.
proof fn lemma_some_bit(x: u32) -> (k: u32)
    requires
        x != 0,
    ensures
        k < 32,
        word_bit(x, k),
{
    lemma_some_bit_below(x, 32)
}

proof fn lemma_shared_bit(a: u32, b: u32) -> (k: u32)
    requires
        a & b != 0,
    ensures
        k < 32,
        word_bit(a, k),
        word_bit(b, k),
{
    let k = lemma_some_bit(a & b);
    assert(((a & b) >> k) & 1 == 1 ==> (a >> k) & 1 == 1 && (b >> k) & 1 == 1) by (bit_vector)
        requires
            k < 32,
    ;
    k
}

proof fn lemma_uncovered_bit(a: u32, b: u32) -> (k: u32)
    requires
        a & b != a,
    ensures
        k < 32,
        word_bit(a, k),
        !word_bit(b, k),
{
    assert(a & !b != 0) by (bit_vector)
        requires
            a & b != a,
    ;
    let k = lemma_some_bit(a & !b);
    assert(((a & !b) >> k) & 1 == 1 ==> (a >> k) & 1 == 1 && (b >> k) & 1 != 1) by (bit_vector)
        requires
            k < 32,
    ;
    k
}

} // verus!
