//! Addressing "the k-th element from the end" of an ordered sequence.

use vstd::prelude::*;

verus! {

/// A position counted from the back of a sequence: `Rev(0)` is the last element.
#[derive(Clone, Copy, Debug, PartialEq, Eq)]
pub enum Side {
    Rev(usize),
}

/// The forward position of the element `k` places from the end of a sequence of
/// length `len`.
pub open spec fn forward_position(k: int, len: int) -> int {
    len - 1 - k
}

impl Side {
    /// The distance from the back that this position names.
    pub open spec fn offset(&self) -> nat {
        match self {
            Side::Rev(i) => *i as nat,
        }
    }

    /// Converts this position into a forward index for a sequence of length `len`.
    pub fn to_index(&self, len: usize) -> (r: usize)
        requires
            self.offset() < len,
        ensures
            r == forward_position(self.offset() as int, len as int),
            r < len,
    {
        match self {
            Side::Rev(i) => len - (*i + 1),
        }
    }

    /// Reads the element that this position names in `v`.
    pub fn get<'a, T>(&self, v: &'a Vec<T>) -> (r: &'a T)
        requires
            self.offset() < v.len(),
        ensures
            *r == v@[forward_position(self.offset() as int, v.len() as int)],
    {
        let idx = self.to_index(v.len());
        &v[idx]
    }

    /// Overwrites the element that this position names in `v`.
    pub fn set<T>(&self, v: &mut Vec<T>, value: T)
        requires
            self.offset() < old(v).len(),
        ensures
            final(v)@ == old(v)@.update(
                forward_position(self.offset() as int, old(v).len() as int),
                value,
            ),
    {
        let idx = self.to_index(v.len());
        v.set(idx, value);
    }
}

/// The last element is at the front position `len - 1`, the first from the end
/// is at `0`, and positions count down one by one between them. An offset of
/// `len` or more names no element: its position would be negative, which is why
/// [`Side::to_index`] asks for an offset below `len`.
pub proof fn lemma_forward_position_ends(len: int)
    requires
        len >= 1,
    ensures
        forward_position(0, len) == len - 1,
        forward_position(len - 1, len) == 0,
        forward_position(len, len) == -1,
        forall|k: int| k >= len ==> #[trigger] forward_position(k, len) < 0,
        forall|k: int| 0 <= k < len ==> 0 <= #[trigger] forward_position(k, len) < len,
        forall|k: int|
            0 <= k < len - 1 ==> #[trigger] forward_position(k + 1, len) == forward_position(k, len)
                - 1,
{
}

} // verus!
