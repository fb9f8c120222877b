//! The input collaborator: a fixed, immutable sequence of binary symbols
//! with random access by position.

use vstd::prelude::*;

verus! {

/// A fixed sequence of binary symbols (`true` is an open mark, `false` a
/// close mark).
pub struct BitVec {
    bits: Vec<bool>,
}

impl View for BitVec {
    type V = Seq<bool>;

    closed spec fn view(&self) -> Seq<bool> {
        self.bits@
    }
}

impl BitVec {
    /// An empty sequence.
    pub fn new() -> (r: Self)
        ensures
            r@ == Seq::<bool>::empty(),
    {
        BitVec { bits: Vec::new() }
    }

    /// Builds the sequence from numeric symbols: a non-zero entry is an
    /// open mark, a zero entry a close mark.
    pub fn from_bits(input: &[u8]) -> (r: Self)
        ensures
            r@.len() == input@.len(),
            forall|i: int| 0 <= i < input@.len() ==> r@[i] == (input@[i] != 0),
    {
        let mut bits: Vec<bool> = Vec::new();
        let mut i: usize = 0;
        while i < input.len()
            invariant
                i <= input@.len(),
                bits@.len() == i,
                forall|j: int| 0 <= j < i ==> bits@[j] == (input@[j] != 0),
            decreases input@.len() - i,
        {
            bits.push(input[i] != 0);
            i = i + 1;
        }
        BitVec { bits }
    }

    /// Number of symbols.
    pub fn len(&self) -> (r: usize)
        ensures
            r == self@.len(),
    {
        self.bits.len()
    }

    /// Whether the sequence holds no symbols.
    pub fn is_empty(&self) -> (r: bool)
        ensures
            r == (self@.len() == 0),
    {
        self.bits.len() == 0
    }

    /// The symbol at `index`.
    pub fn is_bit_set(&self, index: usize) -> (r: bool)
        requires
            index < self@.len(),
        ensures
            r == self@[index as int],
    {
        self.bits[index]
    }
}

} // verus!
