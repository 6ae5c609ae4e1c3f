//! A set of small integers packed one bit per element in 64-bit words:
//! element `i` is bit `i % 64` of word `i / 64`.
use vstd::prelude::*;

verus! {

/// Bit `k` of the word `w`.
pub open spec fn word_bit(w: u64, k: int) -> bool {
    (w >> (k as u64)) & 1u64 == 1u64
}

proof fn lemma_word_ops(a: u64, b: u64, k: int)
    requires
        0 <= k < 64,
    ensures
        word_bit(a | b, k) == (word_bit(a, k) || word_bit(b, k)),
        word_bit(a & b, k) == (word_bit(a, k) && word_bit(b, k)),
        word_bit(a ^ b, k) == (word_bit(a, k) != word_bit(b, k)),
        word_bit(a & !b, k) == (word_bit(a, k) && !word_bit(b, k)),
        !word_bit(0u64, k),
        word_bit(u64::MAX, k),
{
    let kk = k as u64;
    assert((((a | b) >> kk) & 1u64 == 1u64) == (((a >> kk) & 1u64 == 1u64) || ((b >> kk) & 1u64
        == 1u64))) by (bit_vector)
        requires
            kk < 64,
    ;
    assert((((a & b) >> kk) & 1u64 == 1u64) == (((a >> kk) & 1u64 == 1u64) && ((b >> kk) & 1u64
        == 1u64))) by (bit_vector)
        requires
            kk < 64,
    ;
    assert((((a ^ b) >> kk) & 1u64 == 1u64) == (((a >> kk) & 1u64 == 1u64) != ((b >> kk) & 1u64
        == 1u64))) by (bit_vector)
        requires
            kk < 64,
    ;
    assert((((a & !b) >> kk) & 1u64 == 1u64) == (((a >> kk) & 1u64 == 1u64) && !((b >> kk) & 1u64
        == 1u64))) by (bit_vector)
        requires
            kk < 64,
    ;
    assert(!((0u64 >> kk) & 1u64 == 1u64)) by (bit_vector);
    assert((0xffff_ffff_ffff_ffffu64 >> kk) & 1u64 == 1u64) by (bit_vector)
        requires
            kk < 64,
    ;
}

proof fn lemma_word_mask(w: u64, j: u64, k: int)
    requires
        j < 64,
        0 <= k < 64,
    ensures
        word_bit(w | (1u64 << j), k) == (word_bit(w, k) || k == j),
        word_bit(w & !(1u64 << j), k) == (word_bit(w, k) && k != j),
        ((w & (1u64 << j)) != 0) == word_bit(w, j as int),
        ((w | (1u64 << j)) != w) == !word_bit(w, j as int),
        ((w & !(1u64 << j)) != w) == word_bit(w, j as int),
{
    assert(((w | (1u64 << j)) != w) == !((w >> j) & 1u64 == 1u64)) by (bit_vector)
        requires
            j < 64,
    ;
    assert(((w & !(1u64 << j)) != w) == ((w >> j) & 1u64 == 1u64)) by (bit_vector)
        requires
            j < 64,
    ;
    let kk = k as u64;
    assert((((w | (1u64 << j)) >> kk) & 1u64 == 1u64) == (((w >> kk) & 1u64 == 1u64) || kk == j))
        by (bit_vector)
        requires
            kk < 64,
            j < 64,
    ;
    assert((((w & !(1u64 << j)) >> kk) & 1u64 == 1u64) == (((w >> kk) & 1u64 == 1u64) && kk != j))
        by (bit_vector)
        requires
            kk < 64,
            j < 64,
    ;
    assert(((w & (1u64 << j)) != 0) == ((w >> j) & 1u64 == 1u64)) by (bit_vector)
        requires
            j < 64,
    ;
}

/// A word with a set bit has a witness for it.
proof fn lemma_nonzero_bit(w: u64) -> (k: int)
    requires
        w != 0,
    ensures
        0 <= k < 64,
        word_bit(w, k),
    decreases w,
{
    if w & 1u64 == 1u64 {
        assert((w >> 0u64) & 1u64 == w & 1u64) by (bit_vector);
        0
    } else {
        let h = w >> 1u64;
        assert(h != 0 && h < w) by (bit_vector)
            requires
                w != 0,
                w & 1u64 != 1u64,
                h == w >> 1u64,
        ;
        let j = lemma_nonzero_bit(h);
        let jj = j as u64;
        assert(((h >> jj) & 1u64 == 1u64) ==> jj < 63 && (((w >> (jj + 1)) & 1u64) == 1u64))
            by (bit_vector)
            requires
                h == w >> 1u64,
                jj < 64,
        ;
        j + 1
    }
}

/// Two words are equal exactly when all their bits are.
proof fn lemma_word_eq(a: u64, b: u64)
    ensures
        (a == b) == (forall|k: int| 0 <= k < 64 ==> #[trigger] word_bit(a, k) == word_bit(b, k)),
{
    if a != b {
        assert(a ^ b != 0) by (bit_vector)
            requires
                a != b,
        ;
        let k = lemma_nonzero_bit(a ^ b);
        lemma_word_ops(a, b, k);
    }
}

proof fn lemma_low_ones(off: u64, k: int)
    requires
        1 <= off < 64,
        0 <= k < 64,
    ensures
        word_bit(u64::MAX >> (64 - off), k) == (k < off),
{
    let kk = k as u64;
    let s = (64 - off) as u64;
    assert((((0xffff_ffff_ffff_ffffu64 >> s) >> kk) & 1u64 == 1u64) == (kk < off)) by (bit_vector)
        requires
            1 <= off < 64,
            s == 64 - off,
            kk < 64,
    ;
}


/// A word-by-word operation on two sets.
#[derive(PartialEq, Eq, Structural, Clone, Copy)]
enum WordOp {
    Or,
    And,
    AndNot,
    Xor,
}

spec fn op_bit(op: WordOp, x: bool, y: bool) -> bool {
    match op {
        WordOp::Or => x || y,
        WordOp::And => x && y,
        WordOp::AndNot => x && !y,
        WordOp::Xor => x != y,
    }
}

spec fn op_word(op: WordOp, a: u64, b: u64) -> u64 {
    match op {
        WordOp::Or => a | b,
        WordOp::And => a & b,
        WordOp::AndNot => a & !b,
        WordOp::Xor => a ^ b,
    }
}

fn apply_op(op: WordOp, a: u64, b: u64) -> (r: u64)
    ensures
        r == op_word(op, a, b),
{
    match op {
        WordOp::Or => a | b,
        WordOp::And => a & b,
        WordOp::AndNot => a & !b,
        WordOp::Xor => a ^ b,
    }
}

proof fn lemma_op_word(op: WordOp, a: u64, b: u64, k: int)
    requires
        0 <= k < 64,
    ensures
        word_bit(op_word(op, a, b), k) == op_bit(op, word_bit(a, k), word_bit(b, k)),
{
    lemma_word_ops(a, b, k);
}

/// Membership in `s`, false beyond its length.
pub open spec fn bit_at(s: Seq<bool>, i: int) -> bool {
    0 <= i < s.len() && s[i]
}

/// Largest `k < 64` on which two words agree from bit 0 up to bit `k`
/// exactly when their shifts by `63 - k` are equal.
proof fn lemma_low_bits_eq(a: u64, b: u64, off: u64)
    requires
        off < 64,
    ensures
        ((a << (63 - off) as u64) == (b << (63 - off) as u64)) == (forall|k: int|
            0 <= k <= off ==> #[trigger] word_bit(a, k) == word_bit(b, k)),
{
    let s = (63 - off) as u64;
    assert(((a << s) == (b << s)) == (((a ^ b) << s) == 0)) by (bit_vector)
        requires
            s < 64,
    ;
    if (a << s) != (b << s) {
        let j = lemma_nonzero_bit((a ^ b) << s);
        let jj = j as u64;
        let x = a ^ b;
        assert((((x << s) >> jj) & 1u64 == 1u64) ==> jj >= s && ((x >> ((jj - s) as u64)) & 1u64
            == 1u64)) by (bit_vector)
            requires
                s < 64,
                jj < 64,
        ;
        lemma_word_ops(a, b, j - s);
    } else {
        assert forall|k: int| 0 <= k <= off implies #[trigger] word_bit(a, k) == word_bit(b, k) by {
            let kk = k as u64;
            let x = a ^ b;
            assert(((x << s) == 0 && kk <= off) ==> ((x >> kk) & 1u64 != 1u64)) by (bit_vector)
                requires
                    s == 63 - off,
                    off < 64,
                    kk < 64,
            ;
            lemma_word_ops(a, b, k);
        }
    }
}


/// Number of members of `s`.
pub open spec fn count_true(s: Seq<bool>) -> nat
    decreases s.len(),
{
    if s.len() == 0 {
        0
    } else {
        count_true(s.drop_last()) + if s.last() { 1nat } else { 0nat }
    }
}

proof fn lemma_count_true_le(s: Seq<bool>)
    ensures
        count_true(s) <= s.len(),
    decreases s.len(),
{
    if s.len() > 0 {
        lemma_count_true_le(s.drop_last());
    }
}

proof fn lemma_count_true_append(a: Seq<bool>, b: Seq<bool>)
    ensures
        count_true(a + b) == count_true(a) + count_true(b),
    decreases b.len(),
{
    if b.len() > 0 {
        assert((a + b).drop_last() =~= a + b.drop_last());
        lemma_count_true_append(a, b.drop_last());
    } else {
        assert(a + b =~= a);
    }
}

/// The 64 bits of a word, lowest first.
spec fn word_seq(w: u64) -> Seq<bool> {
    Seq::new(64, |k: int| word_bit(w, k))
}

/// Number of set bits of `w`.
fn word_count(w: u64) -> (r: usize)
    ensures
        r == count_true(word_seq(w)),
{
    let mut c: usize = 0;
    let mut k: u64 = 0;
    while k < 64
        invariant
            k <= 64,
            c == count_true(word_seq(w).take(k as int)),
            c <= k,
        decreases 64 - k,
    {
        let b = (w >> k) & 1;
        proof {
            assert(b == 0 || b == 1) by (bit_vector)
                requires
                    b == (w >> k) & 1u64,
            ;
            assert(word_seq(w).take(k as int + 1).drop_last() =~= word_seq(w).take(k as int));
        }
        c = c + b as usize;
        k = k + 1;
    }
    proof {
        assert(word_seq(w).take(64) =~= word_seq(w));
    }
    c
}

/// Number of words that hold `elements` bits.
fn u64s(elements: usize) -> (r: usize)
    requires
        elements <= usize::MAX - 63,
    ensures
        r == (elements + 63) / 64,
{
    (elements + 63) / 64
}

fn word_offset(index: usize) -> (r: (usize, usize))
    ensures
        r.0 == index / 64,
        r.1 == index % 64,
{
    (index / 64, index % 64)
}

fn word_mask(index: usize) -> (r: (usize, u64))
    ensures
        r.0 == index / 64,
        r.1 == 1u64 << (index % 64) as u64,
{
    let word = index / 64;
    let mask = 1u64 << (index % 64) as u64;
    (word, mask)
}

/// A set of integers below its capacity, one bit per element.
#[derive(Clone)]
pub struct BitVector {
    vector: Vec<u64>,
}

impl View for BitVector {
    /// Whether each integer below the capacity belongs to the set.
    type V = Seq<bool>;

    closed spec fn view(&self) -> Seq<bool> {
        Seq::new((self.vector@.len() * 64) as nat, |i: int| word_bit(self.vector@[i / 64], i % 64))
    }
}

impl BitVector {
    /// The capacity, a whole number of 64-bit words, fits in a `usize`.
    pub closed spec fn wf(&self) -> bool {
        self.vector@.len() * 64 <= usize::MAX
    }

    /// The capacity is a whole number of words.
    pub proof fn lemma_capacity(&self)
        ensures
            self@.len() % 64 == 0,
    {
    }

    proof fn lemma_view(&self, i: int)
        requires
            0 <= i < self@.len(),
        ensures
            0 <= i / 64 < self.vector@.len(),
            0 <= i % 64 < 64,
            self@[i] == word_bit(self.vector@[i / 64], i % 64),
    {
    }

    /// An empty set with room for `bits` elements (rounded up to whole words).
    pub fn new(bits: usize) -> (r: Self)
        requires
            bits <= usize::MAX - 63,
        ensures
            r.wf(),
            r@.len() == 64 * ((bits + 63) / 64),
            forall|i: int| 0 <= i < r@.len() ==> !#[trigger] r@[i],
    {
        let words = u64s(bits);
        let mut vector: Vec<u64> = Vec::new();
        while vector.len() < words
            invariant
                vector@.len() <= words,
                forall|j: int| 0 <= j < vector@.len() ==> vector@[j] == 0,
            decreases words - vector@.len(),
        {
            vector.push(0);
        }
        let r = BitVector { vector };
        proof {
            assert forall|i: int| 0 <= i < r@.len() implies !#[trigger] r@[i] by {
                r.lemma_view(i);
                lemma_word_ops(0, 0, i % 64);
            }
        }
        r
    }

    /// The set of all integers below `bits`, in `bits / 64 + 1` words.
    pub fn ones(bits: usize) -> (r: Self)
        requires
            bits <= usize::MAX - 64,
        ensures
            r.wf(),
            r@.len() == 64 * (bits / 64 + 1),
            forall|i: int| 0 <= i < r@.len() ==> #[trigger] r@[i] == (i < bits),
    {
        let (word, offset) = word_offset(bits);
        let mut bvec: Vec<u64> = Vec::new();
        while bvec.len() < word
            invariant
                bvec@.len() <= word,
                forall|j: int| 0 <= j < bvec@.len() ==> bvec@[j] == u64::MAX,
            decreases word - bvec@.len(),
        {
            bvec.push(u64::MAX);
        }
        if offset == 0 {
            bvec.push(0);
        } else {
            bvec.push(u64::MAX >> (64 - offset as u64));
        }
        let r = BitVector { vector: bvec };
        proof {
            assert forall|i: int| 0 <= i < r@.len() implies #[trigger] r@[i] == (i < bits) by {
                r.lemma_view(i);
                lemma_word_ops(0, 0, i % 64);
                if i / 64 == word as int && offset > 0 {
                    lemma_low_ones(offset as u64, i % 64);
                }
            }
        }
        r
    }

    /// The number of elements the set can hold.
    pub fn capacity(&self) -> (r: usize)
        requires
            self.wf(),
        ensures
            r == self@.len(),
            r % 64 == 0,
    {
        self.vector.len() * 64
    }

    /// Whether `bit` belongs to the set.
    pub fn contains(&self, bit: usize) -> (r: bool)
        requires
            self.wf(),
        ensures
            r == (bit < self@.len() && self@[bit as int]),
    {
        if bit >= self.capacity() {
            return false;
        }
        let (word, mask) = word_mask(bit);
        proof {
            self.lemma_view(bit as int);
            lemma_word_mask(self.vector@[word as int], (bit % 64) as u64, 0);
        }
        (self.vector[word] & mask) != 0
    }

    fn grow(&mut self, num_bits: usize)
        requires
            old(self).wf(),
            num_bits <= usize::MAX - 63,
        ensures
            final(self).wf(),
            final(self)@.len() == if old(self)@.len() < 64 * ((num_bits + 63) / 64) {
                64 * ((num_bits + 63) / 64)
            } else {
                old(self)@.len() as int
            },
            forall|i: int| 0 <= i < final(self)@.len() ==> #[trigger] final(self)@[i] == (i < old(
                self,
            )@.len() && old(self)@[i]),
    {
        let num_words = u64s(num_bits);
        let ghost old_vector = self.vector@;
        while self.vector.len() < num_words
            invariant
                old_vector.len() <= self.vector@.len(),
                self.vector@.len() <= num_words || self.vector@.len() == old_vector.len(),
                forall|j: int| 0 <= j < old_vector.len() ==> self.vector@[j] == old_vector[j],
                forall|j: int| old_vector.len() <= j < self.vector@.len() ==> self.vector@[j] == 0,
            decreases num_words - self.vector@.len(),
        {
            self.vector.push(0);
        }
        proof {
            assert forall|i: int| 0 <= i < self@.len() implies #[trigger] self@[i] == (i < old(
                self,
            )@.len() && old(self)@[i]) by {
                self.lemma_view(i);
                lemma_word_ops(0, 0, i % 64);
                if i < old(self)@.len() {
                    old(self).lemma_view(i);
                    assert(old(self).vector@ == old_vector);
                }
            }
        }
    }

    /// Adds `bit` to the set, growing it when `bit` is beyond the capacity.
    /// Tells whether `bit` was absent.
    pub fn insert(&mut self, bit: usize) -> (r: bool)
        requires
            old(self).wf(),
            bit < usize::MAX - 63,
        ensures
            final(self).wf(),
            r == !(bit < old(self)@.len() && old(self)@[bit as int]),
            final(self)@.len() == if bit < old(self)@.len() {
                old(self)@.len() as int
            } else {
                64 * ((bit + 64) / 64)
            },
            forall|i: int| 0 <= i < final(self)@.len() ==> #[trigger] final(self)@[i] == (i == bit
                || (i < old(self)@.len() && old(self)@[i])),
    {
        if bit >= self.capacity() {
            self.grow(bit + 1);
        }
        let ghost grown = *self;
        let (word, mask) = word_mask(bit);
        proof {
            grown.lemma_view(bit as int);
        }
        let value = self.vector[word];
        let new_value = value | mask;
        self.vector.set(word, new_value);
        proof {
            lemma_word_mask(value, (bit % 64) as u64, 0);
            assert forall|i: int| 0 <= i < self@.len() implies #[trigger] self@[i] == (i == bit || (i
                < old(self)@.len() && old(self)@[i])) by {
                self.lemma_view(i);
                grown.lemma_view(i);
                lemma_word_mask(value, (bit % 64) as u64, i % 64);
            }
        }
        new_value != value
    }

    /// Takes `bit` out of the set; tells whether it was there.
    pub fn remove(&mut self, bit: usize) -> (r: bool)
        requires
            old(self).wf(),
            bit < old(self)@.len(),
        ensures
            final(self).wf(),
            r == old(self)@[bit as int],
            final(self)@ == old(self)@.update(bit as int, false),
    {
        let (word, mask) = word_mask(bit);
        proof {
            old(self).lemma_view(bit as int);
        }
        let value = self.vector[word];
        let new_value = value & !mask;
        self.vector.set(word, new_value);
        proof {
            lemma_word_mask(value, (bit % 64) as u64, 0);
            assert forall|i: int| 0 <= i < self@.len() implies #[trigger] self@[i] == old(
                self,
            )@.update(bit as int, false)[i] by {
                self.lemma_view(i);
                old(self).lemma_view(i);
                lemma_word_mask(value, (bit % 64) as u64, i % 64);
            }
            assert(self@ =~= old(self)@.update(bit as int, false));
        }
        new_value != value
    }

    /// Removes every element.
    pub fn clear(&mut self)
        requires
            old(self).wf(),
        ensures
            final(self).wf(),
            final(self)@.len() == old(self)@.len(),
            forall|i: int| 0 <= i < final(self)@.len() ==> !#[trigger] final(self)@[i],
    {
        let mut j: usize = 0;
        while j < self.vector.len()
            invariant
                self.vector@.len() == old(self).vector@.len(),
                forall|m: int| 0 <= m < j ==> self.vector@[m] == 0,
            decreases self.vector@.len() - j,
        {
            self.vector.set(j, 0);
            j = j + 1;
        }
        proof {
            assert forall|i: int| 0 <= i < self@.len() implies !#[trigger] self@[i] by {
                self.lemma_view(i);
                lemma_word_ops(0, 0, i % 64);
            }
        }
    }

    /// Whether the set has no element.
    pub fn is_empty(&self) -> (r: bool)
        requires
            self.wf(),
        ensures
            r == (forall|i: int| 0 <= i < self@.len() ==> !#[trigger] self@[i]),
    {
        let mut j: usize = 0;
        while j < self.vector.len()
            invariant
                j <= self.vector@.len(),
                forall|m: int| 0 <= m < j ==> self.vector@[m] == 0,
            decreases self.vector@.len() - j,
        {
            if self.vector[j] != 0 {
                proof {
                    let k = lemma_nonzero_bit(self.vector@[j as int]);
                    self.lemma_view(64 * j + k);
                }
                return false;
            }
            j = j + 1;
        }
        proof {
            assert forall|i: int| 0 <= i < self@.len() implies !#[trigger] self@[i] by {
                self.lemma_view(i);
                lemma_word_ops(0, 0, i % 64);
            }
        }
        true
    }

    /// Word `j`, or zero beyond the last word.
    spec fn word_or_zero(&self, j: int) -> u64 {
        if 0 <= j < self.vector@.len() {
            self.vector@[j]
        } else {
            0
        }
    }

    proof fn lemma_word_or_zero(&self, i: int)
        requires
            0 <= i,
        ensures
            word_bit(self.word_or_zero(i / 64), i % 64) == bit_at(self@, i),
    {
        lemma_word_ops(0, 0, i % 64);
    }

    fn word_at(&self, j: usize) -> (r: u64)
        ensures
            r == self.word_or_zero(j as int),
    {
        if j < self.vector.len() {
            self.vector[j]
        } else {
            0
        }
    }

    /// The first `words` words of `op` applied to both sets word by word.
    fn combine(&self, other: &BitVector, op: WordOp, words: usize) -> (r: BitVector)
        requires
            self.wf(),
            other.wf(),
            words <= self.vector@.len() || words <= other.vector@.len(),
        ensures
            r.wf(),
            r@.len() == 64 * words,
            forall|i: int| 0 <= i < r@.len() ==> #[trigger] r@[i] == op_bit(op, bit_at(self@, i), bit_at(other@, i)),
    {
        let mut vector: Vec<u64> = Vec::new();
        let mut j: usize = 0;
        while j < words
            invariant
                j <= words,
                vector@.len() == j,
                forall|m: int|
                    0 <= m < j ==> #[trigger] vector@[m] == op_word(
                        op,
                        self.word_or_zero(m),
                        other.word_or_zero(m),
                    ),
            decreases words - j,
        {
            vector.push(apply_op(op, self.word_at(j), other.word_at(j)));
            j = j + 1;
        }
        let r = BitVector { vector };
        proof {
            assert forall|i: int| 0 <= i < r@.len() implies #[trigger] r@[i] == op_bit(op, bit_at(self@, i), bit_at(other@, i)) by {
                r.lemma_view(i);
                self.lemma_word_or_zero(i);
                other.lemma_word_or_zero(i);
                lemma_op_word(op, self.word_or_zero(i / 64), other.word_or_zero(i / 64), i % 64);
            }
        }
        r
    }

    /// Applies `op` word by word to this set and `other`, of equal capacity.
    fn combine_inplace(&mut self, other: &BitVector, op: WordOp)
        requires
            old(self).wf(),
            other.wf(),
            old(self)@.len() == other@.len(),
        ensures
            final(self).wf(),
            final(self)@.len() == old(self)@.len(),
            forall|i: int| 0 <= i < final(self)@.len() ==> #[trigger] final(self)@[i] == op_bit(op, old(self)@[i], other@[i]),
    {
        let mut j: usize = 0;
        while j < self.vector.len()
            invariant
                self.vector@.len() == old(self).vector@.len(),
                self.vector@.len() == other.vector@.len(),
                forall|m: int|
                    0 <= m < j ==> #[trigger] self.vector@[m] == op_word(
                        op,
                        old(self).vector@[m],
                        other.vector@[m],
                    ),
                forall|m: int| j <= m < self.vector@.len() ==> #[trigger] self.vector@[m] == old(self).vector@[m],
            decreases self.vector@.len() - j,
        {
            let v = apply_op(op, self.vector[j], other.vector[j]);
            self.vector.set(j, v);
            j = j + 1;
        }
        proof {
            assert forall|i: int| 0 <= i < self@.len() implies #[trigger] self@[i] == op_bit(op, old(self)@[i], other@[i]) by {
                self.lemma_view(i);
                old(self).lemma_view(i);
                other.lemma_view(i);
                lemma_op_word(op, old(self).vector@[i / 64], other.vector@[i / 64], i % 64);
            }
        }
    }

    /// The union, as large as the larger set.
    pub fn union(&self, other: &BitVector) -> (r: BitVector)
        requires
            self.wf(),
            other.wf(),
        ensures
            r.wf(),
            r@.len() == if self@.len() > other@.len() { self@.len() } else { other@.len() },
            forall|i: int| 0 <= i < r@.len() ==> #[trigger] r@[i] == (bit_at(self@, i) || bit_at(other@, i)),
    {
        let len1 = self.vector.len();
        let len2 = other.vector.len();
        let words = if len1 > len2 { len1 } else { len2 };
        self.combine(other, WordOp::Or, words)
    }

    /// The intersection, as large as the smaller set.
    pub fn intersection(&self, other: &BitVector) -> (r: BitVector)
        requires
            self.wf(),
            other.wf(),
        ensures
            r.wf(),
            r@.len() == if self@.len() < other@.len() { self@.len() } else { other@.len() },
            forall|i: int| 0 <= i < r@.len() ==> #[trigger] r@[i] == (self@[i] && other@[i]),
    {
        let len1 = self.vector.len();
        let len2 = other.vector.len();
        let words = if len1 < len2 { len1 } else { len2 };
        self.combine(other, WordOp::And, words)
    }

    /// The elements of this set that are not in `other`, as large as this set.
    pub fn difference(&self, other: &BitVector) -> (r: BitVector)
        requires
            self.wf(),
            other.wf(),
        ensures
            r.wf(),
            r@.len() == self@.len(),
            forall|i: int| 0 <= i < r@.len() ==> #[trigger] r@[i] == (self@[i] && !bit_at(other@, i)),
    {
        self.combine(other, WordOp::AndNot, self.vector.len())
    }

    /// The elements in exactly one of the two sets, as large as the larger set.
    pub fn difference_d(&self, other: &BitVector) -> (r: BitVector)
        requires
            self.wf(),
            other.wf(),
        ensures
            r.wf(),
            r@.len() == if self@.len() > other@.len() { self@.len() } else { other@.len() },
            forall|i: int| 0 <= i < r@.len() ==> #[trigger] r@[i] == (bit_at(self@, i) != bit_at(other@, i)),
    {
        let len1 = self.vector.len();
        let len2 = other.vector.len();
        let words = if len1 > len2 { len1 } else { len2 };
        self.combine(other, WordOp::Xor, words)
    }

    /// Adds the elements of `other`, of equal capacity, to this set.
    pub fn union_inplace(&mut self, other: &BitVector) -> (r: &mut BitVector)
        requires
            old(self).wf(),
            other.wf(),
            old(self)@.len() == other@.len(),
        ensures
            r.wf(),
            r@.len() == old(self)@.len(),
            forall|i: int| 0 <= i < r@.len() ==> #[trigger] r@[i] == (old(self)@[i] || other@[i]),
            *final(self) == *final(r),
    {
        self.combine_inplace(other, WordOp::Or);
        self
    }

    /// Keeps the elements that are also in `other`, of equal capacity.
    pub fn intersection_inplace(&mut self, other: &BitVector) -> (r: &mut BitVector)
        requires
            old(self).wf(),
            other.wf(),
            old(self)@.len() == other@.len(),
        ensures
            r.wf(),
            r@.len() == old(self)@.len(),
            forall|i: int| 0 <= i < r@.len() ==> #[trigger] r@[i] == (old(self)@[i] && other@[i]),
            *final(self) == *final(r),
    {
        self.combine_inplace(other, WordOp::And);
        self
    }

    /// Removes the elements of `other`, of equal capacity.
    pub fn difference_inplace(&mut self, other: &BitVector) -> (r: &mut BitVector)
        requires
            old(self).wf(),
            other.wf(),
            old(self)@.len() == other@.len(),
        ensures
            r.wf(),
            r@.len() == old(self)@.len(),
            forall|i: int| 0 <= i < r@.len() ==> #[trigger] r@[i] == (old(self)@[i] && !other@[i]),
            *final(self) == *final(r),
    {
        self.combine_inplace(other, WordOp::AndNot);
        self
    }

    /// Keeps the elements in exactly one of the two sets, of equal capacity.
    pub fn difference_d_inplace(&mut self, other: &BitVector) -> (r: &mut BitVector)
        requires
            old(self).wf(),
            other.wf(),
            old(self)@.len() == other@.len(),
        ensures
            r.wf(),
            r@.len() == old(self)@.len(),
            forall|i: int| 0 <= i < r@.len() ==> #[trigger] r@[i] == (old(self)@[i] != other@[i]),
            *final(self) == *final(r),
    {
        self.combine_inplace(other, WordOp::Xor);
        self
    }

    /// Whether the two sets agree on every integer below `bit`.
    pub fn eq_left(&self, other: &BitVector, bit: usize) -> (r: bool)
        requires
            self.wf(),
            other.wf(),
            bit <= self@.len(),
            bit <= other@.len(),
        ensures
            r == (forall|i: int| 0 <= i < bit ==> #[trigger] self@[i] == other@[i]),
    {
        if bit == 0 {
            return true;
        }
        let (word, offset) = word_offset(bit - 1);
        let mut m: usize = 0;
        while m < word
            invariant
                m <= word,
                64 * word + offset == bit - 1,
                bit <= self@.len(),
                bit <= other@.len(),
                word < self.vector@.len(),
                word < other.vector@.len(),
                forall|j: int| 0 <= j < m ==> self.vector@[j] == other.vector@[j],
            decreases word - m,
        {
            if self.vector[m] != other.vector[m] {
                proof {
                    lemma_word_eq(self.vector@[m as int], other.vector@[m as int]);
                    let k = choose|k: int| 0 <= k < 64 && word_bit(self.vector@[m as int], k) != word_bit(other.vector@[m as int], k);
                    self.lemma_view(64 * m + k);
                    other.lemma_view(64 * m + k);
                    assert(self@[64 * m + k] != other@[64 * m + k]);
                }
                return false;
            }
            m = m + 1;
        }
        let a = self.vector[word];
        let b = other.vector[word];
        proof {
            lemma_low_bits_eq(a, b, offset as u64);
            assert forall|i: int| 0 <= i < 64 * word implies #[trigger] self@[i] == other@[i] by {
                self.lemma_view(i);
                other.lemma_view(i);
            }
            if (a << (63 - offset) as u64) == (b << (63 - offset) as u64) {
                assert forall|i: int| 0 <= i < bit implies #[trigger] self@[i] == other@[i] by {
                    self.lemma_view(i);
                    other.lemma_view(i);
                    if i >= 64 * word {
                        assert(word_bit(a, i % 64) == word_bit(b, i % 64));
                    }
                }
            } else {
                let k = choose|k: int| 0 <= k <= offset && word_bit(a, k) != word_bit(b, k);
                self.lemma_view(64 * word + k);
                other.lemma_view(64 * word + k);
            }
        }
        (a << (63 - offset) as u64) == (b << (63 - offset) as u64)
    }

    /// Number of elements.
    pub fn len(&self) -> (r: usize)
        requires
            self.wf(),
        ensures
            r == count_true(self@),
    {
        let mut total: usize = 0;
        let mut j: usize = 0;
        while j < self.vector.len()
            invariant
                self.wf(),
                j <= self.vector@.len(),
                total == count_true(self@.take(64 * j)),
                total <= 64 * j,
            decreases self.vector@.len() - j,
        {
            let c = word_count(self.vector[j]);
            proof {
                let w = self.vector@[j as int];
                assert(self@.take(64 * j + 64) =~= self@.take(64 * j) + word_seq(w)) by {
                    assert forall|i: int| 64 * j <= i < 64 * j + 64 implies #[trigger] self@[i] == word_seq(w)[i - 64 * j] by {
                        self.lemma_view(i);
                    }
                }
                lemma_count_true_append(self@.take(64 * j), word_seq(w));
                lemma_count_true_le(word_seq(w));
            }
            total = total + c;
            j = j + 1;
        }
        proof {
            assert(self@.take(64 * j) =~= self@);
        }
        total
    }

    /// Adds the elements of `all`, which has as many words. Tells whether
    /// any element was new.
    pub fn insert_all(&mut self, all: &BitVector) -> (r: bool)
        requires
            old(self).wf(),
            all.wf(),
            old(self)@.len() == all@.len(),
        ensures
            final(self).wf(),
            final(self)@.len() == old(self)@.len(),
            forall|i: int| 0 <= i < final(self)@.len() ==> #[trigger] final(self)@[i] == (old(self)@[i] || all@[i]),
            r == exists|i: int| 0 <= i < old(self)@.len() && all@[i] && !old(self)@[i],
    {
        let mut changed = false;
        let mut j: usize = 0;
        while j < self.vector.len()
            invariant
                self.vector@.len() == old(self).vector@.len(),
                self.vector@.len() == all.vector@.len(),
                j <= self.vector@.len(),
                forall|m: int|
                    0 <= m < j ==> #[trigger] self.vector@[m] == (old(self).vector@[m] | all.vector@[m]),
                forall|m: int| j <= m < self.vector@.len() ==> #[trigger] self.vector@[m] == old(self).vector@[m],
                changed == exists|i: int| 0 <= i < 64 * j && all@[i] && !old(self)@[i],
            decreases self.vector@.len() - j,
        {
            let value = self.vector[j];
            let w = all.vector[j];
            let new_value = value | w;
            self.vector.set(j, new_value);
            proof {
                lemma_word_eq(value, new_value);
                if value != new_value {
                    let k = choose|k: int| 0 <= k < 64 && word_bit(value, k) != word_bit(new_value, k);
                    lemma_word_ops(value, w, k);
                    old(self).lemma_view(64 * j + k);
                    all.lemma_view(64 * j + k);
                    assert(all@[64 * j + k] && !old(self)@[64 * j + k]);
                } else if !changed {
                    assert forall|i: int| 0 <= i < 64 * j + 64 implies !(all@[i] && !old(self)@[i]) by {
                        if i >= 64 * j {
                            old(self).lemma_view(i);
                            all.lemma_view(i);
                            lemma_word_ops(value, w, i % 64);
                            assert(word_bit(value, i % 64) == word_bit(new_value, i % 64));
                        }
                    }
                }
            }
            if value != new_value {
                changed = true;
            }
            j = j + 1;
        }
        proof {
            assert forall|i: int| 0 <= i < self@.len() implies #[trigger] self@[i] == (old(self)@[i] || all@[i]) by {
                self.lemma_view(i);
                old(self).lemma_view(i);
                all.lemma_view(i);
                lemma_word_ops(old(self).vector@[i / 64], all.vector@[i / 64], i % 64);
            }
        }
        changed
    }

    /// Keeps the elements for which `filter` answers true. The filter is
    /// asked only about elements of the set.
    pub fn filter_in_place<F: Fn(usize) -> bool>(&mut self, filter: F)
        requires
            old(self).wf(),
            forall|i: usize| #[trigger] filter.requires((i,)),
        ensures
            final(self).wf(),
            final(self)@.len() == old(self)@.len(),
            forall|i: int|
                0 <= i < final(self)@.len() ==> (#[trigger] final(self)@[i] ==> old(self)@[i]
                    && filter.ensures((i as usize,), true)) && (old(self)@[i] && !final(self)@[i]
                    ==> filter.ensures((i as usize,), false)),
    {
        let len = self.capacity();
        proof {
            assert(usize::MAX == 0xffff_ffff || usize::MAX == 0xffff_ffff_ffff_ffff);
        }
        let mut new_rem = BitVector::new(len);
        let mut i: usize = 0;
        while i < len
            invariant
                *self == *old(self),
                forall|i: usize| #[trigger] filter.requires((i,)),
                self.wf(),
                len == self@.len(),
                len <= usize::MAX - 63,
                i <= len,
                new_rem.wf(),
                new_rem@.len() == len,
                forall|m: int|
                    0 <= m < len ==> (#[trigger] new_rem@[m] ==> m < i && self@[m] && filter.ensures(
                        (m as usize,),
                        true,
                    )) && (m < i && self@[m] && !new_rem@[m] ==> filter.ensures((m as usize,), false)),
            decreases len - i,
        {
            if self.contains(i) && filter(i) {
                new_rem.insert(i);
            }
            i = i + 1;
        }
        self.intersection_inplace(&new_rem);
    }

    /// The elements in increasing order, one at a time.
    pub fn iter<'a>(&'a self) -> (r: BitVectorIter<'a>)
        requires
            self.wf(),
        ensures
            r.wf(),
            r.items() == self@,
            r.position() == 0,
    {
        BitVectorIter { bits: self, idx: 0 }
    }

    /// The elements in increasing order, one at a time, taking the set.
    pub fn into_iter(self) -> (r: BitVectorIntoIter)
        requires
            self.wf(),
        ensures
            r.wf(),
            r.items() == self@,
            r.position() == 0,
    {
        BitVectorIntoIter { content: self, idx: 0 }
    }
}

/// Walks the elements of a borrowed set in increasing order.
pub struct BitVectorIter<'a> {
    bits: &'a BitVector,
    idx: usize,
}

impl<'a> BitVectorIter<'a> {
    pub closed spec fn wf(&self) -> bool {
        self.bits.wf()
    }

    /// The set being walked.
    pub closed spec fn items(&self) -> Seq<bool> {
        self.bits@
    }

    /// Where the walk stands: the elements below it have been handed out.
    pub closed spec fn position(&self) -> int {
        self.idx as int
    }

    /// The least element at or after the position, if any.
    pub fn next(&mut self) -> (r: Option<usize>)
        requires
            old(self).wf(),
        ensures
            final(self).wf(),
            final(self).items() == old(self).items(),
            r matches Some(i) ==> old(self).position() <= i < old(self).items().len() && old(
                self,
            ).items()[i as int] && final(self).position() == i + 1,
            forall|j: int|
                old(self).position() <= j < final(self).position() && (r matches Some(i) ==> j
                    < i) ==> !#[trigger] old(self).items()[j],
            r is None ==> final(self).position() >= old(self).items().len(),
    {
        let size = self.bits.capacity();
        while self.idx < size
            invariant
                self.wf(),
                self.bits == old(self).bits,
                size == self.items().len(),
                old(self).position() <= self.position(),
                forall|j: int| old(self).position() <= j < self.position() ==> !#[trigger] self.items()[j],
            decreases size - self.idx,
        {
            let i = self.idx;
            self.idx = self.idx + 1;
            if self.bits.contains(i) {
                return Some(i);
            }
        }
        None
    }
}

/// Walks the elements of an owned set in increasing order.
pub struct BitVectorIntoIter {
    content: BitVector,
    idx: usize,
}

impl BitVectorIntoIter {
    pub closed spec fn wf(&self) -> bool {
        self.content.wf()
    }

    /// The set being walked.
    pub closed spec fn items(&self) -> Seq<bool> {
        self.content@
    }

    /// Where the walk stands: the elements below it have been handed out.
    pub closed spec fn position(&self) -> int {
        self.idx as int
    }

    /// The least element at or after the position, if any.
    pub fn next(&mut self) -> (r: Option<usize>)
        requires
            old(self).wf(),
        ensures
            final(self).wf(),
            final(self).items() == old(self).items(),
            r matches Some(i) ==> old(self).position() <= i < old(self).items().len() && old(
                self,
            ).items()[i as int] && final(self).position() == i + 1,
            forall|j: int|
                old(self).position() <= j < final(self).position() && (r matches Some(i) ==> j
                    < i) ==> !#[trigger] old(self).items()[j],
            r is None ==> final(self).position() >= old(self).items().len(),
    {
        let size = self.content.capacity();
        while self.idx < size
            invariant
                self.wf(),
                self.content == old(self).content,
                size == self.items().len(),
                old(self).position() <= self.position(),
                forall|j: int| old(self).position() <= j < self.position() ==> !#[trigger] self.items()[j],
            decreases size - self.idx,
        {
            let i = self.idx;
            self.idx = self.idx + 1;
            if self.content.contains(i) {
                return Some(i);
            }
        }
        None
    }
}

} // verus!
