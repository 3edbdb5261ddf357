//! A fixed-length set of bits stored in a `bitvec` bit-vector, with its
//! cardinality kept beside it.

use bitvec::order::Lsb0;
use bitvec::vec::BitVec;
use vstd::prelude::*;
use vstd::std_specs::bits::{
    axiom_u64_trailing_zeros, u64_trailing_zeros,
};

verus! {

/// A bit-vector of 64-bit words, least significant bit first.
#[verifier::external_body]
#[derive(Debug, PartialEq, Eq, PartialOrd, Ord, Hash)]
pub struct Bits {
    inner: BitVec<u64, Lsb0>,
}

/// The live bits of a bit-vector, in index order.
pub uninterp spec fn bit_vec_bits(v: Bits) -> Seq<bool>;

/// The largest length a bit-vector can have.
pub open spec fn max_len() -> nat {
    (usize::MAX / 8) as nat
}

/// Bit `j` of the word `w`, counted from the least significant end.
pub open spec fn word_bit(w: u64, j: int) -> bool {
    (w >> (j as u64)) & 1u64 == 1u64
}

/// The number of storage words that hold `len` bits.
pub open spec fn words_for(len: nat) -> nat {
    ((len + 63) / 64) as nat
}

/// The bit of `s` at `i`, reading every position outside `s` as unset.
pub open spec fn bit_at(s: Seq<bool>, i: int) -> bool {
    0 <= i < s.len() && s[i]
}

/// The number of set positions below `k`.
pub open spec fn count_upto(s: Seq<bool>, k: nat) -> nat
    decreases k,
{
    if k == 0 {
        0
    } else {
        count_upto(s, (k - 1) as nat) + if k - 1 < s.len() && s[k - 1] { 1nat } else { 0nat }
    }
}

/// The number of set positions of `s`.
pub open spec fn count_true(s: Seq<bool>) -> nat {
    count_upto(s, s.len())
}

/// `BitVec::repeat`: a bit-vector of `len` copies of `bit`.
#[verifier::external_body]
fn bv_repeat(bit: bool, len: usize) -> (r: Bits)
    requires
        len <= max_len(),
    ensures
        bit_vec_bits(r) == Seq::new(len as nat, |i: int| bit),
{
    Bits { inner: BitVec::repeat(bit, len) }
}

/// `BitVec::len`: the number of live bits, which never exceeds the largest
/// length a bit-vector can encode.
#[verifier::external_body]
fn bv_len(v: &Bits) -> (r: usize)
    ensures
        r == bit_vec_bits(*v).len(),
        r <= max_len(),
{
    v.inner.len()
}

/// `BitSlice::get` with a single index: the bit at `idx`, or `None` past the end.
#[verifier::external_body]
fn bv_get(v: &Bits, idx: usize) -> (r: Option<bool>)
    ensures
        r == if idx < bit_vec_bits(*v).len() {
            Some(bit_vec_bits(*v)[idx as int])
        } else {
            None
        },
{
    v.inner.get(idx).map(|b| *b)
}

/// `BitSlice::set`: writes one bit and leaves every other bit and the length
/// alone. It panics past the end, which `requires` excludes.
#[verifier::external_body]
fn bv_set(v: &mut Bits, idx: usize, value: bool)
    requires
        idx < bit_vec_bits(*old(v)).len(),
    ensures
        bit_vec_bits(*final(v)) == bit_vec_bits(*old(v)).update(idx as int, value),
{
    v.inner.set(idx, value)
}

/// `BitVec::resize`: truncates to `new_len`, or grows to it with copies of
/// `value`. It panics on a length that cannot be encoded, which `requires`
/// excludes.
#[verifier::external_body]
fn bv_resize(v: &mut Bits, new_len: usize, value: bool)
    requires
        new_len <= max_len(),
    ensures
        bit_vec_bits(*final(v)) == if new_len <= bit_vec_bits(*old(v)).len() {
            bit_vec_bits(*old(v)).take(new_len as int)
        } else {
            bit_vec_bits(*old(v)) + Seq::new(
                (new_len - bit_vec_bits(*old(v)).len()) as nat,
                |i: int| value,
            )
        },
{
    v.inner.resize(new_len, value)
}

/// `BitSlice::count_ones`: the number of live bits that are set.
#[verifier::external_body]
fn bv_count_ones(v: &Bits) -> (r: usize)
    ensures
        r == count_true(bit_vec_bits(*v)),
{
    v.inner.count_ones()
}

/// `BitVec::as_raw_slice`: the storage words. Live bit `i` is bit `i % 64` of
/// word `i / 64`; nothing is said of the bits of the last word past the length.
#[verifier::external_body]
fn bv_raw(v: &Bits) -> (r: &[u64])
    ensures
        r@.len() == words_for(bit_vec_bits(*v).len()),
        forall|i: int|
            0 <= i < bit_vec_bits(*v).len() ==> #[trigger] bit_vec_bits(*v)[i] == word_bit(
                r@[i / 64],
                i % 64,
            ),
{
    v.inner.as_raw_slice()
}

/// `BitVec::as_raw_mut_slice`, written at one index: storage word `k` becomes
/// `w`, so the live bits of that word become those of `w` and all others stay.
#[verifier::external_body]
fn bv_store(v: &mut Bits, k: usize, w: u64)
    requires
        k < words_for(bit_vec_bits(*old(v)).len()),
    ensures
        bit_vec_bits(*final(v)).len() == bit_vec_bits(*old(v)).len(),
        forall|i: int|
            0 <= i < bit_vec_bits(*old(v)).len() ==> #[trigger] bit_vec_bits(*final(v))[i] == (if i
                / 64 == k {
                word_bit(w, i % 64)
            } else {
                bit_vec_bits(*old(v))[i]
            }),
{
    v.inner.as_raw_mut_slice()[k] = w;
}

/// `num::NumCast::from`, from a 32-bit number to an index: the same number,
/// as `usize` has 32 bits or more.
#[verifier::external_body]
fn index_from(i: u32) -> (r: Option<usize>)
    ensures
        r == Some(i as usize),
{
    num::NumCast::from(i)
}

/// `BitVec::clone`: a bit-vector with the same live bits.
#[verifier::external_body]
fn bv_clone(v: &Bits) -> (r: Bits)
    ensures
        bit_vec_bits(r) == bit_vec_bits(*v),
{
    Bits { inner: v.inner.clone() }
}

/// Counting is monotone in the bound and never exceeds it.
pub proof fn lemma_count_bounds(s: Seq<bool>, k: nat)
    ensures
        count_upto(s, k) <= k,
        k >= s.len() ==> count_upto(s, k) == count_true(s),
    decreases k,
{
    if k > 0 {
        lemma_count_bounds(s, (k - 1) as nat);
    }
}

/// Two sequences that agree below `k` when read with zero padding have the
/// same count below `k`.
pub proof fn lemma_count_agree(s: Seq<bool>, t: Seq<bool>, k: nat)
    requires
        forall|i: int| 0 <= i < k ==> bit_at(s, i) == bit_at(t, i),
    ensures
        count_upto(s, k) == count_upto(t, k),
    decreases k,
{
    if k > 0 {
        lemma_count_agree(s, t, (k - 1) as nat);
        assert(bit_at(s, k - 1) == bit_at(t, k - 1));
    }
}

/// If every set position of `s` below `k` is set in `t`, `t` has at least as
/// many set positions below `k`.
pub proof fn lemma_count_monotone(s: Seq<bool>, t: Seq<bool>, k: nat)
    requires
        forall|i: int| 0 <= i < k && bit_at(s, i) ==> bit_at(t, i),
    ensures
        count_upto(s, k) <= count_upto(t, k),
    decreases k,
{
    if k > 0 {
        lemma_count_monotone(s, t, (k - 1) as nat);
        assert(bit_at(s, k - 1) ==> bit_at(t, k - 1));
    }
}

/// The count below `k` is zero exactly when no position below `k` is set, and
/// `k` (for `k` within the length) exactly when all are.
pub proof fn lemma_count_extremes(s: Seq<bool>, k: nat)
    ensures
        count_upto(s, k) == 0 <==> (forall|i: int| 0 <= i < k ==> !bit_at(s, i)),
        k <= s.len() ==> (count_upto(s, k) == k <==> (forall|i: int| 0 <= i < k ==> s[i])),
    decreases k,
{
    if k > 0 {
        lemma_count_extremes(s, (k - 1) as nat);
        lemma_count_bounds(s, (k - 1) as nat);
        if forall|i: int| 0 <= i < k ==> !bit_at(s, i) {
            assert(!bit_at(s, k - 1));
        }
        if k <= s.len() && (forall|i: int| 0 <= i < k ==> s[i]) {
            assert(s[k - 1]);
        }
        if count_upto(s, k) == 0 {
            assert forall|i: int| 0 <= i < k implies !bit_at(s, i) by {
                if i < k - 1 {
                } else {
                    assert(i == k - 1);
                }
            }
        }
        if k <= s.len() && count_upto(s, k) == k {
            assert forall|i: int| 0 <= i < k implies s[i] by {
                if i < k - 1 {
                } else {
                    assert(i == k - 1);
                }
            }
        }
    }
}

/// Writing one position changes the count by the difference of the old and
/// the new bit.
pub proof fn lemma_count_update(s: Seq<bool>, idx: int, value: bool, k: nat)
    requires
        0 <= idx < s.len(),
    ensures
        count_upto(s.update(idx, value), k) + (if idx < k && s[idx] { 1nat } else { 0nat })
            == count_upto(s, k) + (if idx < k && value { 1nat } else { 0nat }),
    decreases k,
{
    if k > 0 {
        lemma_count_update(s, idx, value, (k - 1) as nat);
    }
}

/// How the bits of a word follow from those of its operands.
pub proof fn lemma_bit_ops(a: u64, b: u64, j: int)
    requires
        0 <= j < 64,
    ensures
        word_bit(a & b, j) == (word_bit(a, j) && word_bit(b, j)),
        word_bit(a | b, j) == (word_bit(a, j) || word_bit(b, j)),
        word_bit(a & !b, j) == (word_bit(a, j) && !word_bit(b, j)),
        word_bit(!a, j) == !word_bit(a, j),
        !word_bit(0u64, j),
        word_bit(u64::MAX, j),
{
    let ju = j as u64;
    assert(((a & b) >> ju) & 1u64 == 1u64 <==> ((a >> ju) & 1u64 == 1u64 && (b >> ju) & 1u64
        == 1u64)) by (bit_vector)
        requires
            ju < 64,
    ;
    assert(((a | b) >> ju) & 1u64 == 1u64 <==> ((a >> ju) & 1u64 == 1u64 || (b >> ju) & 1u64
        == 1u64)) by (bit_vector)
        requires
            ju < 64,
    ;
    assert(((a & !b) >> ju) & 1u64 == 1u64 <==> ((a >> ju) & 1u64 == 1u64 && !((b >> ju) & 1u64
        == 1u64))) by (bit_vector)
        requires
            ju < 64,
    ;
    assert(((!a) >> ju) & 1u64 == 1u64 <==> !((a >> ju) & 1u64 == 1u64)) by (bit_vector)
        requires
            ju < 64,
    ;
    assert((0u64 >> ju) & 1u64 != 1u64) by (bit_vector)
        requires
            ju < 64,
    ;
    assert((0xffff_ffff_ffff_ffffu64 >> ju) & 1u64 == 1u64) by (bit_vector)
        requires
            ju < 64,
    ;
}

/// The bits of a word cut off below or above position `r`.
pub proof fn lemma_bit_masks(w: u64, r: u64, j: int)
    requires
        0 <= j < 64,
        r < 64,
    ensures
        (1u64 << r) >= 1,
        word_bit(w & (((1u64 << r) - 1) as u64), j) == (j < r && word_bit(w, j)),
        word_bit(w & (u64::MAX << r), j) == (j >= r && word_bit(w, j)),
{
    let ju = j as u64;
    assert((1u64 << r) >= 1) by (bit_vector)
        requires
            r < 64,
    ;
    assert(((w & (((1u64 << r) - 1) as u64)) >> ju) & 1u64 == 1u64 <==> (ju < r && (w >> ju) & 1u64
        == 1u64)) by (bit_vector)
        requires
            ju < 64,
            r < 64,
    ;
    assert(((w & (0xffff_ffff_ffff_ffffu64 << r)) >> ju) & 1u64 == 1u64 <==> (ju >= r && (w >> ju)
        & 1u64 == 1u64)) by (bit_vector)
        requires
            ju < 64,
            r < 64,
    ;
}

/// A word that is not zero has a lowest set bit, which `trailing_zeros` finds.
pub proof fn lemma_lowest_set(w: u64)
    ensures
        w == 0 ==> forall|j: int| 0 <= j < 64 ==> !#[trigger] word_bit(w, j),
        w != 0 ==> u64_trailing_zeros(w) < 64 && word_bit(w, u64_trailing_zeros(w) as int),
        forall|j: int| 0 <= j < u64_trailing_zeros(w) && j < 64 ==> !#[trigger] word_bit(w, j),
{
    axiom_u64_trailing_zeros(w);
    assert forall|j: int| 0 <= j < u64_trailing_zeros(w) && j < 64 implies !#[trigger] word_bit(
        w,
        j,
    ) by {
        let ju = j as u64;
        assert((w >> ju) & 1u64 == 0u64);
    }
}

/// Two words share no set bit exactly when their exclusive or equals their or.
pub proof fn lemma_disjoint_words(x: u64, y: u64)
    ensures
        (x ^ y) == (x | y) <==> (forall|j: int|
            0 <= j < 64 ==> !(#[trigger] word_bit(x, j) && word_bit(y, j))),
{
    let d = x & y;
    assert(((x ^ y) == (x | y)) <==> (x & y == 0)) by (bit_vector);
    lemma_lowest_set(d);
    if d != 0 {
        let t = u64_trailing_zeros(d) as int;
        lemma_bit_ops(x, y, t);
        assert(word_bit(x, t) && word_bit(y, t));
    } else {
        assert forall|j: int| 0 <= j < 64 implies !(#[trigger] word_bit(x, j) && word_bit(
            y,
            j,
        )) by {
            lemma_bit_ops(x, y, j);
            assert(!word_bit(d, j));
        }
    }
}

/// Every set bit of `a` is set in `b` exactly when or-ing `a` into `b` changes
/// nothing.
pub proof fn lemma_subset_words(a: u64, b: u64)
    ensures
        (a | b) == b <==> (forall|j: int| 0 <= j < 64 && #[trigger] word_bit(a, j) ==> word_bit(b, j)),
{
    let d = a & !b;
    assert(((a | b) == b) <==> (a & !b == 0)) by (bit_vector);
    lemma_lowest_set(d);
    if d != 0 {
        let t = u64_trailing_zeros(d) as int;
        lemma_bit_ops(a, b, t);
        assert(word_bit(a, t) && !word_bit(b, t));
    } else {
        assert forall|j: int| 0 <= j < 64 && #[trigger] word_bit(a, j) implies word_bit(b, j) by {
            lemma_bit_ops(a, b, j);
            assert(!word_bit(d, j));
        }
    }
}

/// The word-wise operations that the set algebra is built from.
#[derive(Clone, Copy, Debug, PartialEq, Eq, Structural)]
pub enum WordOp {
    And,
    Or,
    AndNot,
    Not,
    Fill,
    Clear,
}

/// What an operation makes of one bit of the receiver and one of the operand.
pub open spec fn op_bit(op: WordOp, a: bool, b: bool) -> bool {
    match op {
        WordOp::And => a && b,
        WordOp::Or => a || b,
        WordOp::AndNot => a && !b,
        WordOp::Not => !a,
        WordOp::Fill => true,
        WordOp::Clear => false,
    }
}

/// Applies an operation to two words, bit by bit.
pub fn op_word(op: WordOp, x: u64, y: u64) -> (w: u64)
    ensures
        forall|j: int| 0 <= j < 64 ==> #[trigger] word_bit(w, j) == op_bit(op, word_bit(x, j), word_bit(y, j)),
{
    let w = match op {
        WordOp::And => x & y,
        WordOp::Or => x | y,
        WordOp::AndNot => x & !y,
        WordOp::Not => !x,
        WordOp::Fill => u64::MAX,
        WordOp::Clear => 0,
    };
    proof {
        assert forall|j: int| 0 <= j < 64 implies #[trigger] word_bit(w, j) == op_bit(
            op,
            word_bit(x, j),
            word_bit(y, j),
        ) by {
            lemma_bit_ops(x, y, j);
        }
    }
    w
}

/// The number of bits in one storage word.
pub fn block_size() -> (r: usize)
    ensures
        r == 64,
{
    64
}

/// A bit set over a fixed range of indices, with its cardinality kept
/// alongside.
#[derive(Debug, PartialEq, Eq, PartialOrd, Ord, Hash)]
pub struct BitSet {
    bit_vec: Bits,
    cardinality: usize,
}

impl View for BitSet {
    type V = Seq<bool>;

    closed spec fn view(&self) -> Seq<bool> {
        bit_vec_bits(self.bit_vec)
    }
}

impl Default for BitSet {
    /// The set over no index at all.
    fn default() -> (r: Self)
        ensures
            r.wf(),
            r@.len() == 0,
    {
        BitSet::new(0)
    }
}

impl Clone for BitSet {
    /// An empty set is rebuilt from its length alone; any other is copied.
    fn clone(&self) -> (r: Self)
        ensures
            self.wf() ==> r.wf() && r@ == self@,
    {
        if self.cardinality == 0 {
            let n = bv_len(&self.bit_vec);
            let r = BitSet { bit_vec: bv_repeat(false, n), cardinality: 0 };
            proof {
                if self.wf() {
                    lemma_count_extremes(self@, self@.len());
                    assert forall|i: int| 0 <= i < self@.len() implies r@[i] == self@[i] by {
                        assert(!bit_at(self@, i));
                    }
                    lemma_count_extremes(r@, r@.len());
                    assert(r@ =~= self@);
                }
            }
            r
        } else {
            BitSet { bit_vec: bv_clone(&self.bit_vec), cardinality: self.cardinality }
        }
    }
}

impl BitSet {
    /// The cardinality field equals the number of set bits.
    pub closed spec fn wf(&self) -> bool {
        self.cardinality == count_true(self@) && self@.len() <= max_len()
    }

    /// The set of `size` indices with none set.
    pub fn new(size: usize) -> (r: Self)
        requires
            size <= max_len(),
        ensures
            r.wf(),
            r@ == Seq::new(size as nat, |i: int| false),
            count_true(r@) == 0,
    {
        let r = BitSet { bit_vec: bv_repeat(false, size), cardinality: 0 };
        proof {
            lemma_count_extremes(r@, r@.len());
        }
        r
    }

    /// The set with the bits of a copy of `bit_vec`; its set bits are
    /// counted.
    pub fn from_bitvec(bit_vec: &Bits) -> (r: Self)
        ensures
            r.wf(),
            r@ == bit_vec_bits(*bit_vec),
    {
        let copy = bv_clone(bit_vec);
        let cardinality = bv_count_ones(&copy);
        let n = bv_len(&copy);
        BitSet { cardinality, bit_vec: copy }
    }

    /// The bit-vector that holds the bits.
    pub fn as_bit_vec(&self) -> (r: &Bits)
        ensures
            bit_vec_bits(*r) == self@,
    {
        &self.bit_vec
    }

    /// The set of `size` indices with all set.
    pub fn new_all_set(size: usize) -> (r: Self)
        requires
            size <= max_len(),
        ensures
            r.wf(),
            r@ == Seq::new(size as nat, |i: int| true),
            count_true(r@) == size,
    {
        let r = BitSet { bit_vec: bv_repeat(true, size), cardinality: size };
        proof {
            lemma_count_extremes(r@, r@.len());
        }
        r
    }

    /// Whether no bit is set.
    pub fn empty(&self) -> (r: bool)
        requires
            self.wf(),
        ensures
            r == (forall|i: int| 0 <= i < self@.len() ==> !self@[i]),
    {
        proof {
            lemma_count_extremes(self@, self@.len());
            if self.cardinality == 0 {
                assert forall|i: int| 0 <= i < self@.len() implies !self@[i] by {
                    assert(!bit_at(self@, i));
                }
            } else {
                let i = choose|i: int| 0 <= i < self@.len() && bit_at(self@, i);
                assert(self@[i]);
            }
        }
        self.cardinality == 0
    }

    /// Whether every bit is set.
    pub fn full(&self) -> (r: bool)
        requires
            self.wf(),
        ensures
            r == (forall|i: int| 0 <= i < self@.len() ==> self@[i]),
    {
        proof {
            lemma_count_extremes(self@, self@.len());
        }
        self.cardinality == bv_len(&self.bit_vec)
    }

    /// Sets bit `idx` and returns whether it was set before.
    pub fn set_bit(&mut self, idx: usize) -> (r: bool)
        requires
            old(self).wf(),
            idx < old(self)@.len(),
        ensures
            final(self).wf(),
            r == old(self)@[idx as int],
            final(self)@ == old(self)@.update(idx as int, true),
            count_true(final(self)@) == count_true(old(self)@) + if r { 0nat } else { 1nat },
    {
        proof {
            lemma_count_update(self@, idx as int, true, self@.len());
            lemma_count_bounds(self@, self@.len());
            lemma_count_bounds(self@.update(idx as int, true), self@.len());
        }
        let was = bv_get(&self.bit_vec, idx);
        if was == Some(false) {
            bv_set(&mut self.bit_vec, idx, true);
            self.cardinality += 1;
            false
        } else {
            assert(self@ =~= old(self)@.update(idx as int, true));
            true
        }
    }

    /// Clears bit `idx` and returns whether it was set before.
    pub fn unset_bit(&mut self, idx: usize) -> (r: bool)
        requires
            old(self).wf(),
            idx < old(self)@.len(),
        ensures
            final(self).wf(),
            r == old(self)@[idx as int],
            final(self)@ == old(self)@.update(idx as int, false),
            count_true(old(self)@) == count_true(final(self)@) + if r { 1nat } else { 0nat },
    {
        proof {
            lemma_count_update(self@, idx as int, false, self@.len());
            lemma_count_bounds(self@, self@.len());
        }
        let was = bv_get(&self.bit_vec, idx);
        if was == Some(true) {
            bv_set(&mut self.bit_vec, idx, false);
            self.cardinality -= 1;
            true
        } else {
            assert(self@ =~= old(self)@.update(idx as int, false));
            false
        }
    }

    /// The number of set bits.
    pub fn cardinality(&self) -> (r: usize)
        requires
            self.wf(),
        ensures
            r == count_true(self@),
    {
        self.cardinality
    }

    /// The number of indices, set or not.
    pub fn len(&self) -> (r: usize)
        ensures
            r == self@.len(),
            r <= max_len(),
    {
        bv_len(&self.bit_vec)
    }

    /// Whether the set ranges over no index at all.
    pub fn is_empty(&self) -> (r: bool)
        ensures
            r == (self@.len() == 0),
    {
        bv_len(&self.bit_vec) == 0
    }

    /// The bit at `idx`.
    pub fn at(&self, idx: usize) -> (r: bool)
        requires
            idx < self@.len(),
        ensures
            r == self@[idx as int],
    {
        match bv_get(&self.bit_vec, idx) {
            Some(b) => b,
            None => false,
        }
    }
}

/// Every set position of `a` is a set position of `b`.
pub open spec fn subset_of(a: Seq<bool>, b: Seq<bool>) -> bool {
    forall|i: int| 0 <= i < a.len() && #[trigger] bit_at(a, i) ==> bit_at(b, i)
}

/// No position is set in both `a` and `b`.
pub open spec fn disjoint(a: Seq<bool>, b: Seq<bool>) -> bool {
    forall|i: int| 0 <= i < a.len() ==> !(#[trigger] bit_at(a, i) && bit_at(b, i))
}

/// No position of `s` from `from` up to, but not including, `to` holds `want`.
pub open spec fn none_between(s: Seq<bool>, want: bool, from: int, to: int) -> bool {
    forall|i: int| from <= i < to && 0 <= i < s.len() ==> #[trigger] s[i] != want
}

/// What a scan for the first position at or after `from` that holds `want`
/// must return.
pub open spec fn is_next(s: Seq<bool>, want: bool, from: int, r: Option<usize>) -> bool {
    match r {
        Some(v) => from <= v < s.len() && s[v as int] == want && none_between(s, want, from, v as int),
        None => none_between(s, want, from, s.len() as int),
    }
}

impl BitSet {
    /// The number of storage words.
    fn words(&self) -> (r: usize)
        ensures
            r == words_for(self@.len()),
            r * 64 <= usize::MAX,
    {
        let n = bv_len(&self.bit_vec);
        (n + 63) / 64
    }

    /// Storage word `k`, with the bits past the length cleared, and zero for
    /// a word past the storage.
    fn word_at(&self, k: usize) -> (w: u64)
        requires
            k * 64 + 64 <= usize::MAX,
        ensures
            forall|j: int| 0 <= j < 64 ==> #[trigger] word_bit(w, j) == bit_at(self@, k * 64 + j),
    {
        let n = bv_len(&self.bit_vec);
        if k * 64 >= n {
            proof {
                assert forall|j: int| 0 <= j < 64 implies !#[trigger] word_bit(0u64, j) by {
                    lemma_bit_ops(0, 0, j);
                }
            }
            return 0;
        }
        let raw = bv_raw(&self.bit_vec);
        let x = raw[k];
        let live = n - k * 64;
        if live >= 64 {
            proof {
                assert forall|j: int| 0 <= j < 64 implies #[trigger] word_bit(x, j) == bit_at(
                    self@,
                    k * 64 + j,
                ) by {
                    let i = k * 64 + j;
                    assert(self@[i] == word_bit(raw@[i / 64], i % 64));
                }
            }
            x
        } else {
            let r = live as u64;
            proof {
                lemma_bit_masks(x, r, 0);
            }
            let w = x & ((1u64 << r) - 1);
            proof {
                assert forall|j: int| 0 <= j < 64 implies #[trigger] word_bit(w, j) == bit_at(
                    self@,
                    k * 64 + j,
                ) by {
                    lemma_bit_masks(x, r, j);
                    let i = k * 64 + j;
                    if i < n {
                        assert(self@[i] == word_bit(raw@[i / 64], i % 64));
                    }
                }
            }
            w
        }
    }

    /// Applies `op` to each of the first `limit` storage words, with the
    /// matching word of `other` as operand, and recounts.
    fn apply(&mut self, other: &BitSet, op: WordOp, limit: usize)
        requires
            old(self)@.len() <= max_len(),
            limit <= words_for(old(self)@.len()),
        ensures
            final(self).wf(),
            final(self)@.len() == old(self)@.len(),
            forall|i: int|
                0 <= i < old(self)@.len() ==> #[trigger] final(self)@[i] == (if i / 64 < limit {
                    op_bit(op, old(self)@[i], bit_at(other@, i))
                } else {
                    old(self)@[i]
                }),
    {
        let mut k: usize = 0;
        while k < limit
            invariant
                k <= limit,
                limit <= words_for(self@.len()),
                self@.len() == old(self)@.len(),
                self@.len() <= max_len(),
                forall|i: int|
                    0 <= i < self@.len() ==> #[trigger] self@[i] == (if i / 64 < k {
                        op_bit(op, old(self)@[i], bit_at(other@, i))
                    } else {
                        old(self)@[i]
                    }),
            decreases limit - k,
        {
            let x = self.word_at(k);
            let y = other.word_at(k);
            let w = op_word(op, x, y);
            let ghost before = self@;
            bv_store(&mut self.bit_vec, k, w);
            proof {
                assert forall|i: int| 0 <= i < self@.len() implies #[trigger] self@[i] == (if i / 64
                    < k + 1 {
                    op_bit(op, old(self)@[i], bit_at(other@, i))
                } else {
                    old(self)@[i]
                }) by {
                    if i / 64 == k {
                        let j = i % 64;
                        assert(i == k * 64 + j);
                        assert(word_bit(x, j) == bit_at(before, k * 64 + j));
                        assert(word_bit(y, j) == bit_at(other@, k * 64 + j));
                        assert(word_bit(w, j) == op_bit(op, word_bit(x, j), word_bit(y, j)));
                        assert(before[i] == old(self)@[i]);
                    } else {
                        assert(self@[i] == before[i]);
                    }
                }
            }
            k += 1;
        }
        self.cardinality = bv_count_ones(&self.bit_vec);
    }

    /// The storage words. Bit `i` of the set is bit `i % 64` of word `i / 64`.
    pub fn as_slice(&self) -> (r: &[u64])
        ensures
            r@.len() == words_for(self@.len()),
            forall|i: int| 0 <= i < self@.len() ==> #[trigger] self@[i] == word_bit(r@[i / 64], i % 64),
    {
        bv_raw(&self.bit_vec)
    }

    /// Keeps the bits that are also set in `other`, reading `other` as unset
    /// past its end. The cardinality becomes the number of positions that
    /// were set in both.
    pub fn and(&mut self, other: &BitSet)
        requires
            old(self).wf(),
        ensures
            final(self).wf(),
            final(self)@.len() == old(self)@.len(),
            forall|i: int|
                0 <= i < old(self)@.len() ==> #[trigger] final(self)@[i] == (old(self)@[i]
                    && bit_at(other@, i)),
            count_true(final(self)@) == count_common(old(self)@, other@, old(self)@.len()),
    {
        let wa = self.words();
        self.apply(other, WordOp::And, wa);
        proof {
            lemma_count_common(old(self)@, other@, self@, self@.len());
        }
    }

    /// Clears the bits that are set in `other`.
    pub fn and_not(&mut self, other: &BitSet)
        requires
            old(self).wf(),
        ensures
            final(self).wf(),
            final(self)@.len() == old(self)@.len(),
            forall|i: int|
                0 <= i < old(self)@.len() ==> #[trigger] final(self)@[i] == (old(self)@[i]
                    && !bit_at(other@, i)),
    {
        let wa = self.words();
        let wb = other.words();
        let limit = if wa < wb { wa } else { wb };
        self.apply(other, WordOp::AndNot, limit);
    }

    /// Grows the receiver to the length of `other` if that is larger, then
    /// sets the bits that are set in `other`.
    pub fn or(&mut self, other: &BitSet)
        requires
            old(self).wf(),
        ensures
            final(self).wf(),
            final(self)@.len() == if other@.len() > old(self)@.len() {
                other@.len()
            } else {
                old(self)@.len()
            },
            forall|i: int|
                0 <= i < final(self)@.len() ==> #[trigger] final(self)@[i] == (bit_at(old(self)@, i)
                    || bit_at(other@, i)),
    {
        let n = other.len();
        if n > bv_len(&self.bit_vec) {
            bv_resize(&mut self.bit_vec, n, false);
        }
        let wb = other.words();
        self.apply(other, WordOp::Or, wb);
    }

    /// Flips every bit.
    pub fn not(&mut self)
        requires
            old(self).wf(),
        ensures
            final(self).wf(),
            final(self)@.len() == old(self)@.len(),
            forall|i: int| 0 <= i < old(self)@.len() ==> #[trigger] final(self)@[i] == !old(self)@[i],
    {
        let wa = self.words();
        let none = BitSet::new(0);
        self.apply(&none, WordOp::Not, wa);
    }

    /// Clears every bit.
    pub fn unset_all(&mut self)
        requires
            old(self).wf(),
        ensures
            final(self).wf(),
            final(self)@ == Seq::new(old(self)@.len(), |i: int| false),
    {
        let wa = self.words();
        let none = BitSet::new(0);
        self.apply(&none, WordOp::Clear, wa);
        assert(self@ =~= Seq::new(old(self)@.len(), |i: int| false));
    }

    /// Sets every bit.
    pub fn set_all(&mut self)
        requires
            old(self).wf(),
        ensures
            final(self).wf(),
            final(self)@ == Seq::new(old(self)@.len(), |i: int| true),
    {
        let wa = self.words();
        let none = BitSet::new(0);
        self.apply(&none, WordOp::Fill, wa);
        assert(self@ =~= Seq::new(old(self)@.len(), |i: int| true));
    }

    /// Cuts the set down to `size` indices, or extends it to `size` with
    /// unset bits.
    pub fn resize(&mut self, size: usize)
        requires
            old(self).wf(),
            size <= max_len(),
        ensures
            final(self).wf(),
            final(self)@ == if size <= old(self)@.len() {
                old(self)@.take(size as int)
            } else {
                old(self)@ + Seq::new((size - old(self)@.len()) as nat, |i: int| false)
            },
    {
        let old_size = bv_len(&self.bit_vec);
        bv_resize(&mut self.bit_vec, size, false);
        if size < old_size {
            self.cardinality = bv_count_ones(&self.bit_vec);
        } else {
            proof {
                let a = old(self)@;
                let b = self@;
                lemma_count_bounds(a, b.len());
                assert forall|i: int| 0 <= i < b.len() implies bit_at(a, i) == bit_at(b, i) by {}
                lemma_count_agree(a, b, b.len());
            }
        }
    }

    /// Whether no index is set in both sets.
    pub fn is_disjoint_with(&self, other: &BitSet) -> (r: bool)
        ensures
            r == disjoint(self@, other@),
    {
        let wa = self.words();
        let wb = other.words();
        let limit = if wa < wb { wa } else { wb };
        let mut k: usize = 0;
        while k < limit
            invariant
                k <= limit,
                limit <= words_for(self@.len()),
                limit <= words_for(other@.len()),
                limit * 64 <= usize::MAX,
                forall|i: int| 0 <= i < self@.len() && i / 64 < k ==> !(#[trigger] bit_at(self@, i) && bit_at(other@, i)),
            decreases limit - k,
        {
            let x = self.word_at(k);
            let y = other.word_at(k);
            proof {
                lemma_disjoint_words(x, y);
            }
            if x ^ y != x | y {
                proof {
                    let j = choose|j: int| 0 <= j < 64 && word_bit(x, j) && word_bit(y, j);
                    assert(bit_at(self@, k * 64 + j) && bit_at(other@, k * 64 + j));
                }
                return false;
            }
            proof {
                assert forall|i: int| 0 <= i < self@.len() && i / 64 < k + 1 implies !(
                #[trigger] bit_at(self@, i) && bit_at(other@, i)) by {
                    if i / 64 == k {
                        let j = i % 64;
                        assert(i == k * 64 + j);
                        assert(!(word_bit(x, j) && word_bit(y, j)));
                    }
                }
            }
            k += 1;
        }
        true
    }

    /// Whether some index is set in both sets.
    pub fn intersects_with(&self, other: &BitSet) -> (r: bool)
        ensures
            r == !disjoint(self@, other@),
    {
        !self.is_disjoint_with(other)
    }

    /// Whether every index set in the receiver is set in `other`.
    pub fn is_subset_of(&self, other: &BitSet) -> (r: bool)
        requires
            self.wf(),
            other.wf(),
        ensures
            r == subset_of(self@, other@),
    {
        proof {
            if subset_of(self@, other@) {
                lemma_subset_count(self@, other@);
            }
        }
        self.cardinality <= other.cardinality && subset_helper(self, other)
    }

    /// Whether every index set in `other` is set in the receiver.
    pub fn is_superset_of(&self, other: &BitSet) -> (r: bool)
        requires
            self.wf(),
            other.wf(),
        ensures
            r == subset_of(other@, self@),
    {
        other.is_subset_of(self)
    }
}

/// The number of positions below `k` that are set in both `a` and `b`.
pub open spec fn count_common(a: Seq<bool>, b: Seq<bool>, k: nat) -> nat
    decreases k,
{
    if k == 0 {
        0
    } else {
        count_common(a, b, (k - 1) as nat) + if bit_at(a, k - 1) && bit_at(b, k - 1) {
            1nat
        } else {
            0nat
        }
    }
}

/// A sequence whose positions below `k` are set exactly where both `a` and
/// `b` are has, below `k`, as many set positions as `a` and `b` share.
pub proof fn lemma_count_common(a: Seq<bool>, b: Seq<bool>, r: Seq<bool>, k: nat)
    requires
        k <= r.len(),
        forall|i: int| 0 <= i < k ==> #[trigger] r[i] == (bit_at(a, i) && bit_at(b, i)),
    ensures
        count_upto(r, k) == count_common(a, b, k),
    decreases k,
{
    if k > 0 {
        lemma_count_common(a, b, r, (k - 1) as nat);
        assert(r[k - 1] == (bit_at(a, k - 1) && bit_at(b, k - 1)));
    }
}

/// Every sequence of bits is a subset of itself.
pub proof fn lemma_subset_reflexive(a: Seq<bool>)
    ensures
        subset_of(a, a),
{
}

/// A subset has at most as many set positions as its superset.
pub proof fn lemma_subset_count(a: Seq<bool>, b: Seq<bool>)
    requires
        subset_of(a, b),
    ensures
        count_true(a) <= count_true(b),
{
    let k = if a.len() > b.len() { a.len() } else { b.len() };
    assert forall|i: int| 0 <= i < k && bit_at(a, i) implies bit_at(b, i) by {}
    lemma_count_monotone(a, b, k);
    lemma_count_bounds(a, k);
    lemma_count_bounds(b, k);
}

/// Checks word by word that or-ing `a` into `b` would change nothing, reading
/// `b` as zero past its end.
pub fn subset_helper(a: &BitSet, b: &BitSet) -> (r: bool)
    ensures
        r == subset_of(a@, b@),
{
    let wa = a.words();
    let mut k: usize = 0;
    while k < wa
        invariant
            k <= wa,
            wa == words_for(a@.len()),
            wa * 64 <= usize::MAX,
            forall|i: int| 0 <= i < a@.len() && i / 64 < k && #[trigger] bit_at(a@, i) ==> bit_at(b@, i),
        decreases wa - k,
    {
        let x = a.word_at(k);
        let y = b.word_at(k);
        proof {
            lemma_subset_words(x, y);
        }
        if (x | y) != y {
            proof {
                let j = choose|j: int| 0 <= j < 64 && word_bit(x, j) && !word_bit(y, j);
                assert(bit_at(a@, k * 64 + j) && !bit_at(b@, k * 64 + j));
            }
            return false;
        }
        proof {
            assert forall|i: int| 0 <= i < a@.len() && i / 64 < k + 1 && #[trigger] bit_at(
                a@,
                i,
            ) implies bit_at(b@, i) by {
                if i / 64 == k {
                    let j = i % 64;
                    assert(i == k * 64 + j);
                    assert(word_bit(x, j) ==> word_bit(y, j));
                }
            }
        }
        k += 1;
    }
    true
}

/// The set positions of `s` from `from` up to, but not including, `to`, in
/// ascending order.
pub open spec fn indices_between(s: Seq<bool>, from: int, to: int) -> Seq<usize>
    decreases to - from,
{
    if to <= from {
        Seq::empty()
    } else {
        let rest = indices_between(s, from, to - 1);
        if bit_at(s, to - 1) {
            rest.push((to - 1) as usize)
        } else {
            rest
        }
    }
}

/// All set positions of `s`, in ascending order.
pub open spec fn set_indices(s: Seq<bool>) -> Seq<usize> {
    indices_between(s, 0, s.len() as int)
}

/// A stretch without set positions adds nothing to the set positions.
pub proof fn lemma_indices_gap(s: Seq<bool>, from: int, mid: int, to: int)
    requires
        0 <= from <= mid <= to,
        none_between(s, true, mid, to),
    ensures
        indices_between(s, from, to) == indices_between(s, from, mid),
    decreases to - mid,
{
    if mid < to {
        lemma_indices_gap(s, from, mid, to - 1);
        if to - 1 < s.len() {
            assert(s[to - 1] != true);
        }
    }
}

/// The ascending list of set positions is strictly increasing, holds set
/// positions of the range only, misses none of them, and is as long as the
/// number of set positions in the range.
pub proof fn lemma_indices_ascending(s: Seq<bool>, from: int, to: int)
    requires
        0 <= from <= to <= s.len(),
        s.len() <= usize::MAX,
    ensures
        indices_between(s, from, to).len() + count_upto(s, from as nat) == count_upto(s, to as nat),
        forall|a: int, b: int|
            0 <= a < b < indices_between(s, from, to).len() ==> indices_between(s, from, to)[a]
                < indices_between(s, from, to)[b],
        forall|a: int|
            0 <= a < indices_between(s, from, to).len() ==> from <= #[trigger] indices_between(
                s,
                from,
                to,
            )[a] < to && s[indices_between(s, from, to)[a] as int],
        forall|i: int|
            from <= i < to && s[i] ==> indices_between(s, from, to).contains(i as usize),
    decreases to - from,
{
    if from < to {
        lemma_indices_ascending(s, from, to - 1);
        let rest = indices_between(s, from, to - 1);
        let all = indices_between(s, from, to);
        if bit_at(s, to - 1) {
            assert(all == rest.push((to - 1) as usize));
            assert(all[rest.len() as int] == (to - 1) as usize);
            assert forall|i: int| from <= i < to && s[i] implies all.contains(i as usize) by {
                if i < to - 1 {
                    let a = choose|a: int| 0 <= a < rest.len() && rest[a] == i as usize;
                    assert(all[a] == i as usize);
                } else {
                    assert(all[rest.len() as int] == i as usize);
                }
            }
        } else {
            assert(all == rest);
        }
    }
}

/// The ascending list of all set positions is strictly increasing and as
/// long as the number of set positions.
pub proof fn lemma_set_indices(s: Seq<bool>)
    requires
        s.len() <= usize::MAX,
    ensures
        set_indices(s).len() == count_true(s),
        forall|a: int, b: int|
            0 <= a < b < set_indices(s).len() ==> set_indices(s)[a] < set_indices(s)[b],
        forall|i: int| 0 <= i < s.len() ==> (s[i] <==> set_indices(s).contains(i as usize)),
{
    lemma_indices_ascending(s, 0, s.len() as int);
    assert forall|i: int| 0 <= i < s.len() && set_indices(s).contains(i as usize) implies s[i] by {
        let a = set_indices(s).index_of(i as usize);
        assert(s[set_indices(s)[a] as int]);
    }
}

impl BitSet {
    /// Storage word `k` as the scan for `want` sees it: a bit is set where
    /// the set agrees with `want`, positions past the length counting as unset.
    fn facing(&self, k: usize, want: bool) -> (w: u64)
        requires
            k * 64 + 64 <= usize::MAX,
        ensures
            forall|j: int|
                0 <= j < 64 ==> #[trigger] word_bit(w, j) == (bit_at(self@, k * 64 + j) == want),
    {
        let x = self.word_at(k);
        let w = if want { x } else { !x };
        proof {
            assert forall|j: int| 0 <= j < 64 implies #[trigger] word_bit(w, j) == (bit_at(
                self@,
                k * 64 + j,
            ) == want) by {
                lemma_bit_ops(x, x, j);
            }
        }
        w
    }

    /// The lowest index at or after `idx` whose bit equals `want`: the current
    /// word is masked below `idx`, whole words without a hit are skipped, and
    /// the trailing-zero count finds the bit.
    fn scan(&self, idx: usize, want: bool) -> (r: Option<usize>)
        ensures
            is_next(self@, want, idx as int, r),
    {
        let n = bv_len(&self.bit_vec);
        if idx >= n {
            return None;
        }
        let max = self.words();
        let mut block_idx = idx / block_size();
        let word_idx = (idx % block_size()) as u64;
        let first = self.facing(block_idx, want);
        let mut block = first & (u64::MAX << word_idx);
        proof {
            assert forall|j: int| 0 <= j < 64 implies #[trigger] word_bit(block, j) == (block_idx
                * 64 + j >= idx && bit_at(self@, block_idx * 64 + j) == want) by {
                lemma_bit_masks(first, word_idx, j);
            }
        }
        while block == 0
            invariant
                n == self@.len(),
                idx < n,
                max == words_for(self@.len()),
                max * 64 <= usize::MAX,
                block_idx < max,
                idx < (block_idx + 1) * 64,
                none_between(self@, want, idx as int, block_idx * 64),
                forall|j: int|
                    0 <= j < 64 ==> #[trigger] word_bit(block, j) == (block_idx * 64 + j >= idx
                        && bit_at(self@, block_idx * 64 + j) == want),
            decreases max - block_idx,
        {
            proof {
                lemma_lowest_set(block);
                assert forall|i: int|
                    idx <= i < (block_idx + 1) * 64 && 0 <= i < self@.len() implies #[trigger] self@[i]
                    != want by {
                    if i >= block_idx * 64 {
                        let j = i - block_idx * 64;
                        assert(!word_bit(block, j));
                    }
                }
            }
            block_idx += 1;
            if block_idx >= max {
                return None;
            }
            block = self.facing(block_idx, want);
        }
        proof {
            lemma_lowest_set(block);
        }
        let t = block.trailing_zeros() as usize;
        let v = block_idx * block_size() + t;
        proof {
            assert(word_bit(block, t as int));
            assert forall|i: int| idx <= i < v && 0 <= i < self@.len() implies #[trigger] self@[i]
                != want by {
                if i >= block_idx * 64 {
                    let j = i - block_idx * 64;
                    assert(!word_bit(block, j));
                }
            }
        }
        if v >= n {
            None
        } else {
            Some(v)
        }
    }

    /// The lowest set index at or after `idx`, if there is one.
    pub fn get_next_set(&self, idx: usize) -> (r: Option<usize>)
        ensures
            is_next(self@, true, idx as int, r),
    {
        self.scan(idx, true)
    }

    /// The lowest unset index at or after `idx`, if there is one.
    pub fn get_next_unset(&self, idx: usize) -> (r: Option<usize>)
        ensures
            is_next(self@, false, idx as int, r),
    {
        self.scan(idx, false)
    }

    /// The lowest set index, if any bit is set.
    pub fn get_first_set(&self) -> (r: Option<usize>)
        requires
            self.wf(),
        ensures
            is_next(self@, true, 0, r),
    {
        if self.cardinality != 0 {
            return self.get_next_set(0);
        }
        proof {
            lemma_count_extremes(self@, self@.len());
            assert forall|i: int| 0 <= i < self@.len() implies #[trigger] self@[i] != true by {
                assert(!bit_at(self@, i));
            }
        }
        None
    }

    /// The lowest unset index, if any bit is unset.
    pub fn get_first_unset(&self) -> (r: Option<usize>)
        requires
            self.wf(),
        ensures
            is_next(self@, false, 0, r),
    {
        if self.cardinality != self.len() {
            return self.get_next_unset(0);
        }
        proof {
            lemma_count_extremes(self@, self@.len());
        }
        None
    }

    /// Whether the lowest set index of the receiver lies below that of
    /// `other`; `None` if either set is empty.
    pub fn has_smaller(&mut self, other: &BitSet) -> (r: Option<bool>)
        requires
            old(self).wf(),
            other.wf(),
        ensures
            *final(self) == *old(self),
            match r {
                Some(b) => exists|x: usize, y: usize|
                    is_next(old(self)@, true, 0, Some(x)) && is_next(other@, true, 0, Some(y)) && b
                        == (x < y),
                None => is_next(old(self)@, true, 0, None) || is_next(other@, true, 0, None),
            },
    {
        match self.get_first_set() {
            None => None,
            Some(self_idx) => match other.get_first_set() {
                None => None,
                Some(other_idx) => Some(self_idx < other_idx),
            },
        }
    }

    /// The set indices in ascending order, as 32-bit numbers.
    pub fn to_vec(&self) -> (r: Vec<u32>)
        requires
            self@.len() <= 0x1_0000_0000,
        ensures
            r@.len() == set_indices(self@).len(),
            forall|k: int| 0 <= k < r@.len() ==> #[trigger] r@[k] as usize == set_indices(self@)[k],
    {
        let mut tmp: Vec<u32> = Vec::new();
        let mut pos: usize = 0;
        let n = self.len();
        while pos < n
            invariant
                n == self@.len(),
                n <= 0x1_0000_0000,
                pos <= n,
                tmp@.len() == indices_between(self@, 0, pos as int).len(),
                forall|k: int|
                    0 <= k < tmp@.len() ==> #[trigger] tmp@[k] as usize == indices_between(
                        self@,
                        0,
                        pos as int,
                    )[k],
            decreases n - pos,
        {
            match self.get_next_set(pos) {
                Some(v) => {
                    proof {
                        lemma_indices_gap(self@, 0, pos as int, v as int);
                        assert(indices_between(self@, 0, v + 1) == indices_between(
                            self@,
                            0,
                            v as int,
                        ).push(v));
                    }
                    tmp.push(v as u32);
                    pos = v + 1;
                },
                None => {
                    proof {
                        lemma_indices_gap(self@, 0, pos as int, n as int);
                    }
                    pos = n;
                },
            }
        }
        tmp
    }

    /// A pass over the set indices in ascending order, from the start.
    pub fn iter(&self) -> (r: BitSetIterator<'_>)
        ensures
            r.bits() == self@,
            r.position() == 0,
            r.wf(),
    {
        BitSetIterator { set: self, idx: 0 }
    }

    /// The set of `size` indices with all set but those listed.
    pub fn new_all_set_but(size: usize, bits_unset: &[usize]) -> (r: Self)
        requires
            size <= max_len(),
            forall|k: int| 0 <= k < bits_unset@.len() ==> bits_unset@[k] < size,
        ensures
            r.wf(),
            r@.len() == size,
            forall|i: int| 0 <= i < size ==> #[trigger] r@[i] == !bits_unset@.contains(i as usize),
    {
        let mut bs = BitSet::new_all_set(size);
        let mut k: usize = 0;
        while k < bits_unset.len()
            invariant
                k <= bits_unset@.len(),
                bs.wf(),
                bs@.len() == size,
                forall|k: int| 0 <= k < bits_unset@.len() ==> bits_unset@[k] < size,
                forall|i: int|
                    0 <= i < size ==> #[trigger] bs@[i] == !bits_unset@.take(k as int).contains(
                        i as usize,
                    ),
            decreases bits_unset@.len() - k,
        {
            let ghost before = bs@;
            bs.unset_bit(bits_unset[k]);
            proof {
                let done = bits_unset@.take(k as int);
                let next = bits_unset@.take(k + 1);
                assert(next == done.push(bits_unset@[k as int]));
                assert forall|i: int| 0 <= i < size implies #[trigger] bs@[i] == !next.contains(
                    i as usize,
                ) by {
                    if next.contains(i as usize) {
                        let a = choose|a: int| 0 <= a < next.len() && next[a] == i as usize;
                        if a < k {
                            assert(done[a] == i as usize);
                        }
                    } else {
                        if done.contains(i as usize) {
                            let a = choose|a: int| 0 <= a < done.len() && done[a] == i as usize;
                            assert(next[a] == i as usize);
                        }
                        assert(next[k as int] != i as usize);
                    }
                }
            }
            k += 1;
        }
        assert(bits_unset@.take(k as int) == bits_unset@);
        bs
    }

    /// The set of `size` indices with none set but those listed.
    pub fn new_all_unset_but(size: usize, bits_set: &[usize]) -> (r: Self)
        requires
            size <= max_len(),
            forall|k: int| 0 <= k < bits_set@.len() ==> bits_set@[k] < size,
        ensures
            r.wf(),
            r@.len() == size,
            forall|i: int| 0 <= i < size ==> #[trigger] r@[i] == bits_set@.contains(i as usize),
    {
        let mut bs = BitSet::new(size);
        let mut k: usize = 0;
        while k < bits_set.len()
            invariant
                k <= bits_set@.len(),
                bs.wf(),
                bs@.len() == size,
                forall|k: int| 0 <= k < bits_set@.len() ==> bits_set@[k] < size,
                forall|i: int|
                    0 <= i < size ==> #[trigger] bs@[i] == bits_set@.take(k as int).contains(
                        i as usize,
                    ),
            decreases bits_set@.len() - k,
        {
            bs.set_bit(bits_set[k]);
            proof {
                let done = bits_set@.take(k as int);
                let next = bits_set@.take(k + 1);
                assert(next == done.push(bits_set@[k as int]));
                assert forall|i: int| 0 <= i < size implies #[trigger] bs@[i] == next.contains(
                    i as usize,
                ) by {
                    if next.contains(i as usize) {
                        let a = choose|a: int| 0 <= a < next.len() && next[a] == i as usize;
                        if a < k {
                            assert(done[a] == i as usize);
                        }
                    } else {
                        if done.contains(i as usize) {
                            let a = choose|a: int| 0 <= a < done.len() && done[a] == i as usize;
                            assert(next[a] == i as usize);
                        }
                        assert(next[k as int] != i as usize);
                    }
                }
            }
            k += 1;
        }
        assert(bits_set@.take(k as int) == bits_set@);
        bs
    }

    /// The set of `size` indices in which exactly the listed ones are set.
    pub fn from_slice(size: usize, slice: &[u32]) -> (r: Self)
        requires
            size <= max_len(),
            forall|k: int| 0 <= k < slice@.len() ==> slice@[k] < size,
        ensures
            r.wf(),
            r@.len() == size,
            forall|i: int|
                0 <= i < size ==> #[trigger] r@[i] == (exists|k: int|
                    0 <= k < slice@.len() && slice@[k] == i),
    {
        let mut bs = BitSet::new(size);
        let mut n: usize = 0;
        while n < slice.len()
            invariant
                n <= slice@.len(),
                bs.wf(),
                bs@.len() == size,
                forall|k: int| 0 <= k < slice@.len() ==> slice@[k] < size,
                forall|i: int|
                    0 <= i < size ==> #[trigger] bs@[i] == (exists|k: int|
                        0 <= k < n && slice@[k] == i),
            decreases slice@.len() - n,
        {
            let ghost before = bs@;
            match index_from(slice[n]) {
                Some(idx) => {
                    bs.set_bit(idx);
                },
                None => {},
            }
            proof {
                assert forall|i: int| 0 <= i < size implies #[trigger] bs@[i] == (exists|k: int|
                    0 <= k < n + 1 && slice@[k] == i) by {
                    if before[i] {
                        let k = choose|k: int| 0 <= k < n && slice@[k] == i;
                        assert(0 <= k < n + 1 && slice@[k] == i);
                    }
                    if i == slice@[n as int] {
                        assert(0 <= n < n + 1 && slice@[n as int] == i);
                    }
                    if exists|k: int| 0 <= k < n + 1 && slice@[k] == i {
                        let k = choose|k: int| 0 <= k < n + 1 && slice@[k] == i;
                        if k < n {
                            assert(before[i]);
                        }
                    }
                }
            }
            n += 1;
        }
        bs
    }
}

/// A single pass over the set indices of a bit set, in ascending order.
pub struct BitSetIterator<'a> {
    set: &'a BitSet,
    idx: usize,
}

impl<'a> BitSetIterator<'a> {
    /// The bits of the set that is walked.
    pub closed spec fn bits(&self) -> Seq<bool> {
        self.set@
    }

    /// The index from which the search for the next set bit starts.
    pub closed spec fn position(&self) -> int {
        self.idx as int
    }

    /// The position lies within the set.
    pub closed spec fn wf(&self) -> bool {
        self.idx <= self.set@.len()
    }

    /// The next set index, if one is left; the pass then continues behind it.
    pub fn next(&mut self) -> (r: Option<usize>)
        requires
            old(self).wf(),
        ensures
            final(self).wf(),
            final(self).bits() == old(self).bits(),
            is_next(old(self).bits(), true, old(self).position(), r),
            final(self).position() == match r {
                Some(v) => v + 1,
                None => old(self).bits().len() as int,
            },
    {
        let n = self.set.len();
        match self.set.get_next_set(self.idx) {
            Some(v) => {
                self.idx = v + 1;
                Some(v)
            },
            None => {
                self.idx = n;
                None
            },
        }
    }

    /// All set indices that the pass has not yet given out, in ascending order.
    pub fn collect(self) -> (r: Vec<usize>)
        requires
            self.wf(),
        ensures
            r@ == indices_between(self.bits(), self.position(), self.bits().len() as int),
    {
        let mut it = self;
        let mut out: Vec<usize> = Vec::new();
        let n = it.set.len();
        while it.idx < n
            invariant
                it.wf(),
                it.bits() == self.bits(),
                n == self.bits().len(),
                self.position() <= it.position(),
                out@ == indices_between(self.bits(), self.position(), it.position()),
            decreases n - it.idx,
        {
            let ghost from = it.position();
            match it.next() {
                Some(v) => {
                    proof {
                        lemma_indices_gap(self.bits(), self.position(), from, v as int);
                        assert(indices_between(self.bits(), self.position(), v + 1)
                            == indices_between(self.bits(), self.position(), v as int).push(v));
                    }
                    out.push(v);
                },
                None => {
                    proof {
                        lemma_indices_gap(self.bits(), self.position(), from, n as int);
                    }
                },
            }
        }
        out
    }
}

} // verus!
