//! Bit-parallel free-slot search over an occupancy bitmap.
//!
//! The checker keeps one bit per double-array slot (1 = occupied) and tests
//! the 64 base candidates of an aligned window against all the labels of a
//! node in `O(C log W)` word operations, where `C` is the number of labels
//! and `W = 64`.
use vstd::prelude::*;
use crate::{INVALID_IDX, OFFSET_MASK};

verus! {

/// Number of words whose slots still lie in the 31-bit index domain.
pub const NUM_ADDRESSABLE_WORDS: u32 = 0x200_0000;

/// Block masks of the butterfly swaps, one for each block width.
pub const BLOCK_MASK_1: u64 = 0x5555_5555_5555_5555;
pub const BLOCK_MASK_2: u64 = 0x3333_3333_3333_3333;
pub const BLOCK_MASK_4: u64 = 0x0F0F_0F0F_0F0F_0F0F;
pub const BLOCK_MASK_8: u64 = 0x00FF_00FF_00FF_00FF;
pub const BLOCK_MASK_16: u64 = 0x0000_FFFF_0000_FFFF;
pub const BLOCK_MASK_32: u64 = 0x0000_0000_FFFF_FFFF;

/// Whether bit `i` of `w` is set.
pub open spec fn bit_of(w: u64, i: u64) -> bool {
    (w >> i) & 1u64 == 1u64
}

/// The (width, mask) pairs of the butterfly swaps.
pub open spec fn is_block_pair(width: u64, mask: u64) -> bool {
    ||| width == 1 && mask == 0x5555_5555_5555_5555u64
    ||| width == 2 && mask == 0x3333_3333_3333_3333u64
    ||| width == 4 && mask == 0x0F0F_0F0F_0F0F_0F0Fu64
    ||| width == 8 && mask == 0x00FF_00FF_00FF_00FFu64
    ||| width == 16 && mask == 0x0000_FFFF_0000_FFFFu64
    ||| width == 32 && mask == 0x0000_0000_FFFF_FFFFu64
}

proof fn lemma_swap_blocks_bit(w: u64, width: u64, mask: u64, i: u64)
    by (bit_vector)
    requires
        (width == 1 && mask == 0x5555_5555_5555_5555u64) || (width == 2 && mask
            == 0x3333_3333_3333_3333u64) || (width == 4 && mask == 0x0F0F_0F0F_0F0F_0F0Fu64) || (
        width == 8 && mask == 0x00FF_00FF_00FF_00FFu64) || (width == 16 && mask
            == 0x0000_FFFF_0000_FFFFu64) || (width == 32 && mask == 0x0000_0000_FFFF_FFFFu64),
        i < 64,
    ensures
        (((((w >> width) & mask) | ((w & mask) << width)) >> i) & 1u64) == ((w >> (i ^ width))
            & 1u64),
        (i ^ width) < 64,
{
}

/// `lo` holds the label bits below `width`, `hi` those up to and including it.
pub open spec fn is_stage(width: u64, lo: u64, hi: u64) -> bool {
    ||| width == 1 && lo == 0 && hi == 1
    ||| width == 2 && lo == 1 && hi == 3
    ||| width == 4 && lo == 3 && hi == 7
    ||| width == 8 && lo == 7 && hi == 15
    ||| width == 16 && lo == 15 && hi == 31
    ||| width == 32 && lo == 31 && hi == 63
}

proof fn lemma_xor_step(i: u64, l: u64, width: u64, lo: u64, hi: u64)
    by (bit_vector)
    requires
        (width == 1 && lo == 0 && hi == 1) || (width == 2 && lo == 1 && hi == 3) || (width == 4
            && lo == 3 && hi == 7) || (width == 8 && lo == 7 && hi == 15) || (width == 16 && lo
            == 15 && hi == 31) || (width == 32 && lo == 31 && hi == 63),
        i < 64,
    ensures
        l & width != 0 ==> (i ^ width) ^ (l & lo) == i ^ (l & hi),
        l & width == 0 ==> i ^ (l & lo) == i ^ (l & hi),
{
}

proof fn lemma_or_bit(x: u64, w: u64, i: u64)
    by (bit_vector)
    requires
        i < 64,
    ensures
        (((x | w) >> i) & 1u64 == 1u64) == (((x >> i) & 1u64 == 1u64) || ((w >> i) & 1u64
            == 1u64)),
{
}

/// Every bit of the all-ones word is set; no bit of the zero word is.
pub proof fn lemma_all_ones_bit(i: u64)
    by (bit_vector)
    requires
        i < 64,
    ensures
        ((0xffff_ffff_ffff_ffffu64 >> i) & 1u64) == 1u64,
        ((0u64 >> i) & 1u64) == 0u64,
{
}

proof fn lemma_window_index(front: u32, i: u32, l: u32)
    by (bit_vector)
    requires
        front % 64 == 0,
        i < 64,
    ensures
        (front + i) as u32 == front ^ i,
        ((front ^ i) ^ l) / 64 == (front ^ l) / 64,
        ((front ^ i) ^ l) % 64 == i ^ (l & 63),
{
}

/// Swaps the adjacent `width`-wide blocks of `w`: bit `i` of the result is bit
/// `i ^ width` of `w`.
fn swap_blocks(w: u64, width: u64, mask: u64) -> (r: u64)
    requires
        is_block_pair(width, mask),
    ensures
        forall|i: u64| i < 64 ==> bit_of(r, i) == bit_of(w, i ^ width),
{
    let r = ((w >> width) & mask) | ((w & mask) << width);
    assert forall|i: u64| i < 64 implies bit_of(r, i) == bit_of(w, i ^ width) by {
        lemma_swap_blocks_bit(w, width, mask, i);
    }
    r
}

/// One butterfly stage: where `label` has the bit `width`, swaps blocks of
/// that width, which extends the permutation by that bit of the label.
fn permute_stage(
    w: u64,
    label: u64,
    width: u64,
    mask: u64,
    Ghost(w0): Ghost<u64>,
    Ghost(lo): Ghost<u64>,
    Ghost(hi): Ghost<u64>,
) -> (r: u64)
    requires
        is_block_pair(width, mask),
        is_stage(width, lo, hi),
        forall|i: u64| i < 64 ==> bit_of(w, i) == bit_of(w0, i ^ (label & lo)),
    ensures
        forall|i: u64| i < 64 ==> bit_of(r, i) == bit_of(w0, i ^ (label & hi)),
{
    if label & width != 0 {
        let r = swap_blocks(w, width, mask);
        assert forall|i: u64| i < 64 implies bit_of(r, i) == bit_of(w0, i ^ (label & hi)) by {
            lemma_xor_step(i, label, width, lo, hi);
            lemma_swap_blocks_bit(w, width, mask, i);
            assert(bit_of(r, i) == bit_of(w, i ^ width));
        }
        r
    } else {
        assert forall|i: u64| i < 64 implies bit_of(w, i) == bit_of(w0, i ^ (label & hi)) by {
            lemma_xor_step(i, label, width, lo, hi);
        }
        w
    }
}

/// Reorders the bits of `w` so that bit `i` of the result is bit
/// `i ^ (label % 64)` of `w`, by a butterfly of block swaps.
pub fn permute_word(w: u64, label: u32) -> (r: u64)
    ensures
        forall|i: u64| i < 64 ==> bit_of(r, i) == bit_of(w, i ^ ((label as u64) & 63)),
{
    let l = label as u64;
    assert forall|i: u64| i < 64 implies bit_of(w, i) == bit_of(w, i ^ (l & 0)) by {
        assert(i ^ (l & 0) == i) by (bit_vector);
    }
    let r = permute_stage(w, l, 1, BLOCK_MASK_1, Ghost(w), Ghost(0), Ghost(1));
    let r = permute_stage(r, l, 2, BLOCK_MASK_2, Ghost(w), Ghost(1), Ghost(3));
    let r = permute_stage(r, l, 4, BLOCK_MASK_4, Ghost(w), Ghost(3), Ghost(7));
    let r = permute_stage(r, l, 8, BLOCK_MASK_8, Ghost(w), Ghost(7), Ghost(15));
    let r = permute_stage(r, l, 16, BLOCK_MASK_16, Ghost(w), Ghost(15), Ghost(31));
    let r = permute_stage(r, l, 32, BLOCK_MASK_32, Ghost(w), Ghost(31), Ghost(63));
    r
}

/// A bitmap with one bit per slot of a double array: 1 where the slot is
/// occupied (fixed), 0 where it is vacant.
pub struct BPXChecker {
    pub bitmap: Vec<u64>,
}

impl BPXChecker {
    /// Word length of the bitmap.
    pub const BITS: u32 = 64;

    /// Mask that aligns an index down to a 64-boundary.
    pub const BASE_FRONT_MASK: u32 = 0xffff_ffc0;

    /// Result of [`Self::disabled_base_mask`] when no candidate is left.
    pub const NO_CANDIDATE: u64 = 0xffff_ffff_ffff_ffff;

    /// The occupancy word of block `wi`: blocks past the bitmap or past the
    /// 31-bit index domain read as fully occupied.
    pub open spec fn word_spec(&self, wi: int) -> u64 {
        if 0 <= wi < NUM_ADDRESSABLE_WORDS && wi < self.bitmap@.len() {
            self.bitmap@[wi]
        } else {
            0xffff_ffff_ffff_ffffu64
        }
    }

    /// Whether slot `i` counts as occupied.
    pub open spec fn fixed_spec(&self, i: int) -> bool {
        bit_of(self.word_spec(i / 64), (i % 64) as u64)
    }

    /// Whether `b` is a valid base for `labels`: each child slot `b ^ l` is vacant.
    pub open spec fn base_ok(&self, b: u32, labels: Seq<u32>) -> bool {
        forall|j: int| 0 <= j < labels.len() ==> !#[trigger] self.fixed_spec((b ^ labels[j]) as int)
    }

    /// A word whose bits are all `bit`.
    fn word_filled_by(bit: bool) -> (r: u64)
        ensures
            r == (if bit { 0xffff_ffff_ffff_ffffu64 } else { 0u64 }),
    {
        assert(!0u64 == 0xffff_ffff_ffff_ffffu64) by (bit_vector);
        if bit {
            !0u64
        } else {
            0u64
        }
    }

    /// Number of words that hold `len` bits.
    pub fn required_word_len(len: usize) -> (r: usize)
        ensures
            r == (len + 63) / 64,
    {
        len / 64 + if len % 64 == 0 {
            0
        } else {
            1
        }
    }

    /// Block that holds slot `i`.
    pub fn word_index(i: u32) -> (r: u32)
        ensures
            r == i / 64,
    {
        i / BPXChecker::BITS
    }

    fn word_offset(i: u32) -> (r: u32)
        ensures
            r == i % 64,
    {
        i % BPXChecker::BITS
    }

    fn index_pair(i: u32) -> (r: (u32, u32))
        ensures
            r.0 == i / 64,
            r.1 == i % 64,
    {
        (BPXChecker::word_index(i), BPXChecker::word_offset(i))
    }

    /// A bitmap of `len` vacant slots (rounded up to whole words).
    pub fn new(len: usize) -> (r: Self)
        ensures
            r.bitmap@.len() == (len + 63) / 64,
            forall|wi: int| 0 <= wi < r.bitmap@.len() ==> r.bitmap@[wi] == 0u64,
            forall|x: int|
                0 <= x < r.bitmap@.len() * 64 && x < 0x8000_0000 ==> !#[trigger] r.fixed_spec(x),
    {
        let r = BPXChecker {
            bitmap: vec![BPXChecker::word_filled_by(false); BPXChecker::required_word_len(len)],
        };
        assert forall|x: int| 0 <= x < r.bitmap@.len() * 64 && x < 0x8000_0000 implies !#[trigger] r.fixed_spec(x) by {
            lemma_all_ones_bit((x % 64) as u64);
        }
        r
    }

    /// The occupancy word of block `wi`.
    pub fn get_word(&self, wi: u32) -> (r: u64)
        ensures
            r == self.word_spec(wi as int),
    {
        assert(wi & !(0x7fff_ffffu32 >> 6u32) != 0 <==> wi >= 0x200_0000) by (bit_vector);
        if wi & !(OFFSET_MASK >> 6) != 0 {
            BPXChecker::word_filled_by(true)
        } else if wi as usize >= self.bitmap.len() {
            BPXChecker::word_filled_by(true)
        } else {
            self.bitmap[wi as usize]
        }
    }

    /// Whether slot `i` is occupied.
    pub fn is_fixed(&self, i: u32) -> (r: bool)
        ensures
            r == self.fixed_spec(i as int),
    {
        let (q, r) = BPXChecker::index_pair(i);
        let w = self.get_word(q);
        let rr = r as u64;
        assert((w & (1u64 << rr) != 0) == ((w >> rr) & 1u64 == 1u64)) by (bit_vector)
            requires rr < 64;
        w & (1u64 << r) != 0
    }

    /// Marks slot `i` occupied.
    pub fn set_fixed(&mut self, i: u32)
        requires
            (i / 64) < old(self).bitmap@.len(),
        ensures
            final(self).bitmap@ == old(self).bitmap@.update(
                (i / 64) as int,
                old(self).bitmap@[(i / 64) as int] | (1u64 << (i % 64)),
            ),
            final(self).bitmap@.len() == old(self).bitmap@.len(),
            forall|j: int|
                0 <= j ==> #[trigger] final(self).fixed_spec(j) == (j == i || old(self).fixed_spec(j)),
    {
        let (q, r) = BPXChecker::index_pair(i);
        let ghost before = *self;
        let w = self.bitmap[q as usize];
        let nw = w | (1u64 << r);
        self.bitmap.set(q as usize, nw);
        assert forall|j: int| 0 <= j implies #[trigger] self.fixed_spec(j) == (j == i
            || before.fixed_spec(j)) by {
            let k = (j % 64) as u64;
            if j / 64 == q as int && (q as int) < NUM_ADDRESSABLE_WORDS {
                let rr = r as u64;
                assert(((w | (1u64 << rr)) >> k) & 1u64 == 1u64 <==> (((w >> k) & 1u64 == 1u64)
                    || k == rr)) by (bit_vector)
                    requires rr < 64, k < 64;
            } else if j / 64 == q as int {
                lemma_all_ones_bit(k);
                lemma_all_ones_bit((i % 64) as u64);
            } else {
                if j == i {
                    assert(false);
                }
            }
        }
    }

    /// Sets the bitmap's length to hold `new_len` slots; words added are vacant.
    pub fn resize(&mut self, new_len: usize)
        ensures
            final(self).bitmap@.len() == (new_len + 63) / 64,
            forall|wi: int|
                0 <= wi < final(self).bitmap@.len() ==> #[trigger] final(self).bitmap@[wi] == if wi
                    < old(self).bitmap@.len() {
                    old(self).bitmap@[wi]
                } else {
                    0u64
                },
            forall|x: int|
                0 <= x < 64 * old(self).bitmap@.len() && x < 64 * final(self).bitmap@.len()
                    ==> #[trigger] final(self).fixed_spec(x) == old(self).fixed_spec(x),
            forall|x: int|
                64 * old(self).bitmap@.len() <= x < 64 * final(self).bitmap@.len() && x < 0x8000_0000
                    ==> !#[trigger] final(self).fixed_spec(x),
    {
        let n = BPXChecker::required_word_len(new_len);
        self.bitmap.resize(n, BPXChecker::word_filled_by(false));
        assert forall|x: int|
            64 * old(self).bitmap@.len() <= x < 64 * self.bitmap@.len() && x < 0x8000_0000
                implies !#[trigger] self.fixed_spec(x) by {
            lemma_all_ones_bit((x % 64) as u64);
        }
    }

    /// For the aligned window of bases `base_front .. base_front + 64`, bit
    /// `i` of the result is 1 exactly when base `base_front + i` is not valid
    /// for `labels`, that is, some child slot `(base_front + i) ^ l` is occupied.
    pub fn disabled_base_mask(&self, base_front: u32, labels: &[u32]) -> (r: u64)
        requires
            base_front % 64 == 0,
        ensures
            forall|i: int|
                0 <= i < 64 ==> (bit_of(r, i as u64) <==> !#[trigger] self.base_ok(
                    (base_front + i) as u32,
                    labels@,
                )),
    {
        let mut x: u64 = 0;
        let mut k: usize = 0;
        assert forall|i: int| 0 <= i < 64 implies !#[trigger] bit_of(x, i as u64) by {
            lemma_all_ones_bit(i as u64);
        }
        while k < labels.len() && x != BPXChecker::NO_CANDIDATE
            invariant
                k <= labels@.len(),
                base_front % 64 == 0,
                forall|i: int|
                    0 <= i < 64 ==> (#[trigger] bit_of(x, i as u64) <==> exists|j: int|
                        0 <= j < k && #[trigger] self.fixed_spec(
                            ((base_front + i) as u32 ^ labels@[j]) as int,
                        )),
            decreases labels@.len() - k,
        {
            let label = labels[k];
            let q = BPXChecker::word_index(base_front ^ label);
            let w = self.get_word(q);
            let pw = permute_word(w, label);
            let ghost xo = x;
            x = x | pw;
            assert forall|i: int| 0 <= i < 64 implies (#[trigger] bit_of(x, i as u64) <==> exists|j: int|
                0 <= j < k + 1 && #[trigger] self.fixed_spec(
                    ((base_front + i) as u32 ^ labels@[j]) as int,
                )) by {
                let iu = i as u32;
                let idx = (base_front + i) as u32 ^ label;
                lemma_window_index(base_front, iu, label);
                assert((iu as u64) ^ ((label as u64) & 63) == (iu ^ (label & 63)) as u64)
                    by (bit_vector)
                    requires
                        iu < 64,
                ;
                assert(idx / 64 == q as int);
                assert((idx % 64) as u64 == (i as u64) ^ ((label as u64) & 63));
                assert(bit_of(pw, i as u64) == self.fixed_spec(idx as int));
                lemma_or_bit(xo, pw, i as u64);
                assert(label == labels@[k as int]);
                if bit_of(x, i as u64) {
                    if bit_of(xo, i as u64) {
                        let j = choose|j: int|
                            0 <= j < k && #[trigger] self.fixed_spec(
                                ((base_front + i) as u32 ^ labels@[j]) as int,
                            );
                        assert(0 <= j < k + 1);
                    } else {
                        assert(self.fixed_spec(
                            ((base_front + i) as u32 ^ labels@[k as int]) as int,
                        ));
                    }
                }
                if exists|j: int|
                    0 <= j < k + 1 && #[trigger] self.fixed_spec(
                        ((base_front + i) as u32 ^ labels@[j]) as int,
                    ) {
                    let j = choose|j: int|
                        0 <= j < k + 1 && #[trigger] self.fixed_spec(
                            ((base_front + i) as u32 ^ labels@[j]) as int,
                        );
                    if j < k {
                        assert(bit_of(xo, i as u64));
                    } else {
                        assert(bit_of(pw, i as u64));
                    }
                }
            }
            k += 1;
        }
        assert forall|i: int| 0 <= i < 64 implies (#[trigger] bit_of(x, i as u64) <==> !#[trigger] self.base_ok(
            (base_front + i) as u32,
            labels@,
        )) by {
            if x == BPXChecker::NO_CANDIDATE {
                lemma_all_ones_bit(i as u64);
            }
        }
        x
    }

    /// The lowest valid base for `labels` in the aligned window that holds
    /// `base_origin`, or `INVALID_IDX` when no base of that window is valid
    /// (`INVALID_IDX` itself, the last slot of the index space, is no base).
    pub fn find_base_for_64adjacent(&self, base_origin: u32, labels: &[u32]) -> (r: u32)
        ensures
            r == INVALID_IDX <==> forall|b: u32|
                base_origin - base_origin % 64 <= b < base_origin - base_origin % 64 + 64 && b
                    != INVALID_IDX ==> !#[trigger] self.base_ok(b, labels@),
            r != INVALID_IDX ==> {
                &&& base_origin - base_origin % 64 <= r < base_origin - base_origin % 64 + 64
                &&& self.base_ok(r, labels@)
                &&& forall|b: u32|
                    base_origin - base_origin % 64 <= b < r ==> !#[trigger] self.base_ok(b, labels@)
            },
    {
        let base_front = base_origin & BPXChecker::BASE_FRONT_MASK;
        assert(base_front == base_origin - base_origin % 64 && base_front % 64 == 0)
            by (bit_vector)
            requires base_front == base_origin & 0xffff_ffc0u32;
        let x = self.disabled_base_mask(base_front, labels);
        proof {
            broadcast use vstd::std_specs::bits::axiom_u64_trailing_ones;
        }
        if x != BPXChecker::NO_CANDIDATE {
            let t = x.trailing_ones();
            let r = base_front ^ t;
            assert(r == base_front + t) by (bit_vector)
                requires base_front % 64 == 0, t < 64, r == base_front ^ t;
            assert(self.base_ok(r, labels@)) by {
                assert(!bit_of(x, t as u64));
            }
            assert forall|b: u32| base_front <= b < r implies !#[trigger] self.base_ok(b, labels@) by {
                let i = b - base_front;
                assert(bit_of(x, i as u64));
                assert(self.base_ok((base_front + i) as u32, labels@) == self.base_ok(b, labels@));
            }
            r
        } else {
            assert forall|b: u32| base_front <= b < base_front + 64 implies !#[trigger] self.base_ok(
                b,
                labels@,
            ) by {
                let i = b - base_front;
                lemma_all_ones_bit(i as u64);
                assert(bit_of(x, i as u64));
                assert(self.base_ok((base_front + i) as u32, labels@) == self.base_ok(b, labels@));
            }
            INVALID_IDX
        }
    }
}

} // verus!
