//! Commit identifiers.

use vstd::prelude::*;

verus! {

broadcast use vstd::array::group_array_axioms;

/// A commit identifier: the twenty bytes of a content hash.
#[derive(Clone, Copy, Debug, PartialEq, Eq, Hash, PartialOrd, Ord)]
pub struct ObjectId {
    pub bytes: [u8; 20],
}

impl ObjectId {
    /// Builds an identifier from the raw bytes of its hash.
    pub fn from_bytes(bytes: [u8; 20]) -> (r: ObjectId)
        ensures
            r.bytes == bytes,
    {
        ObjectId { bytes }
    }

    /// Whether `self` and `other` name the same commit.
    pub fn same_as(&self, other: &ObjectId) -> (r: bool)
        ensures
            r == (*self == *other),
    {
        let mut i: usize = 0;
        while i < 20
            invariant
                0 <= i <= 20,
                forall|j: int| 0 <= j < i ==> self.bytes@[j] == other.bytes@[j],
            decreases 20 - i,
        {
            if self.bytes[i] != other.bytes[i] {
                return false;
            }
            i = i + 1;
        }
        assert(self.bytes@ =~= other.bytes@);
        assert(self.bytes == other.bytes);
        true
    }
}

} // verus!
