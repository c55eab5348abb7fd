//! A double-array trie: a sorted set of string keys encoded in two parallel
//! integer arrays, with exact-match and common-prefix search.
use vstd::prelude::*;

pub mod bpxcheck;
pub mod builder;
pub mod errors;
pub mod mapper;
pub mod laws;
pub mod shape;
pub mod trie;

pub use errors::CrawdadError;
pub use trie::Trie;

verus! {

/// Mask of the low 31 bits of a node field: the value or index part.
pub const OFFSET_MASK: u32 = 0x7fff_ffff;

/// The top bit of a node field: the leaf flag in `base`, the has-leaf flag in `check`.
pub const FLAG_BIT: u32 = 0x8000_0000;

/// Index that never names a node.
pub const INVALID_IDX: u32 = 0xffff_ffff;

/// Code that ends a key.
pub const END_MARKER: u32 = 0;

/// Edge label of the synthetic leaf child that holds the value of a key
/// which is a proper prefix of another key.
pub const END_CODE: u32 = 0;

/// A slot of the double array: a `base` and a `check`, each a 31-bit value
/// with a flag in its top bit.
#[derive(Default, Clone, Copy)]
pub struct Node {
    pub(crate) base: u32,
    pub(crate) check: u32,
}

impl Node {
    /// The low 31 bits of `base`: a child offset, or the value of a leaf.
    pub open(crate) spec fn base_spec(&self) -> u32 {
        (self.base % 0x8000_0000) as u32
    }

    /// The low 31 bits of `check`: the index of the parent.
    pub open(crate) spec fn check_spec(&self) -> u32 {
        (self.check % 0x8000_0000) as u32
    }

    /// Whether `base` holds a value instead of an offset.
    pub open(crate) spec fn leaf_spec(&self) -> bool {
        self.base >= 0x8000_0000
    }

    /// Whether the node owns a synthetic leaf child at `base ^ END_CODE`.
    pub open(crate) spec fn has_leaf_spec(&self) -> bool {
        self.check >= 0x8000_0000
    }

    /// Whether both fields hold the 31-bit mask, the mark of a slot never placed.
    pub open(crate) spec fn vacant_spec(&self) -> bool {
        self.base == OFFSET_MASK && self.check == OFFSET_MASK
    }

    pub fn get_base(&self) -> (r: u32)
        ensures
            r == self.base_spec(),
    {
        let b = self.base;
        assert(b & 0x7fff_ffffu32 == b % 0x8000_0000) by (bit_vector);
        self.base & OFFSET_MASK
    }

    pub fn get_check(&self) -> (r: u32)
        ensures
            r == self.check_spec(),
    {
        let c = self.check;
        assert(c & 0x7fff_ffffu32 == c % 0x8000_0000) by (bit_vector);
        self.check & OFFSET_MASK
    }

    pub fn is_leaf(&self) -> (r: bool)
        ensures
            r == self.leaf_spec(),
    {
        let b = self.base;
        assert((b & !0x7fff_ffffu32 != 0) == (b >= 0x8000_0000)) by (bit_vector);
        self.base & !OFFSET_MASK != 0
    }

    pub fn has_leaf(&self) -> (r: bool)
        ensures
            r == self.has_leaf_spec(),
    {
        let c = self.check;
        assert((c & !0x7fff_ffffu32 != 0) == (c >= 0x8000_0000)) by (bit_vector);
        self.check & !OFFSET_MASK != 0
    }

    /// Whether the slot was never placed: both fields hold the 31-bit mask.
    pub fn is_vacant(&self) -> (r: bool)
        ensures
            r == self.vacant_spec(),
    {
        self.base == OFFSET_MASK && self.check == OFFSET_MASK
    }
}

/// One result of a common-prefix search: the value of the key found and the
/// position just past its end in the searched text.
#[derive(Clone, Copy, Debug, PartialEq, Eq)]
pub struct Match {
    pub(crate) value: u32,
    pub(crate) end: usize,
}

impl Match {
    /// The value of the key found.
    pub open(crate) spec fn value_spec(&self) -> u32 {
        self.value
    }

    /// The end of the key found.
    pub open(crate) spec fn end_spec(&self) -> usize {
        self.end
    }

    /// The value associated with the key found.
    pub fn value(&self) -> (r: u32)
        ensures
            r == self.value_spec(),
    {
        self.value
    }

    /// End position of the key found in the text (exclusive).
    pub fn end(&self) -> (r: usize)
        ensures
            r == self.end_spec(),
    {
        self.end
    }
}

} // verus!
