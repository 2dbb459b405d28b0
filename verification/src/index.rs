use std::fmt::Debug;
use std::hash::Hash;
use vstd::prelude::*;

verus! {

/// A type whose values can serve as vertex keys.
///
/// A key stands for its view: two values with the same view name the same
/// vertex. An implementation has to decide whether two keys are the same and
/// has to hand out a copy of a key that still names the same vertex.
pub trait Index: Clone + Debug + Hash + PartialEq + Eq + View {
    /// Whether `self` and `other` name the same vertex.
    fn same_key(&self, other: &Self) -> (same: bool)
        ensures
            same == (self@ == other@),
    ;

    /// A copy of the key, naming the same vertex.
    fn clone_key(&self) -> (copy: Self)
        ensures
            copy@ == self@,
    ;
}

impl Index for usize {
    fn same_key(&self, other: &Self) -> (same: bool) {
        *self == *other
    }

    fn clone_key(&self) -> (copy: Self) {
        *self
    }
}

impl Index for u8 {
    fn same_key(&self, other: &Self) -> (same: bool) {
        *self == *other
    }

    fn clone_key(&self) -> (copy: Self) {
        *self
    }
}

impl Index for u16 {
    fn same_key(&self, other: &Self) -> (same: bool) {
        *self == *other
    }

    fn clone_key(&self) -> (copy: Self) {
        *self
    }
}

impl Index for u32 {
    fn same_key(&self, other: &Self) -> (same: bool) {
        *self == *other
    }

    fn clone_key(&self) -> (copy: Self) {
        *self
    }
}

impl Index for u64 {
    fn same_key(&self, other: &Self) -> (same: bool) {
        *self == *other
    }

    fn clone_key(&self) -> (copy: Self) {
        *self
    }
}

impl Index for u128 {
    fn same_key(&self, other: &Self) -> (same: bool) {
        *self == *other
    }

    fn clone_key(&self) -> (copy: Self) {
        *self
    }
}

impl Index for i8 {
    fn same_key(&self, other: &Self) -> (same: bool) {
        *self == *other
    }

    fn clone_key(&self) -> (copy: Self) {
        *self
    }
}

impl Index for i16 {
    fn same_key(&self, other: &Self) -> (same: bool) {
        *self == *other
    }

    fn clone_key(&self) -> (copy: Self) {
        *self
    }
}

impl Index for i32 {
    fn same_key(&self, other: &Self) -> (same: bool) {
        *self == *other
    }

    fn clone_key(&self) -> (copy: Self) {
        *self
    }
}

impl Index for i64 {
    fn same_key(&self, other: &Self) -> (same: bool) {
        *self == *other
    }

    fn clone_key(&self) -> (copy: Self) {
        *self
    }
}

impl Index for i128 {
    fn same_key(&self, other: &Self) -> (same: bool) {
        *self == *other
    }

    fn clone_key(&self) -> (copy: Self) {
        *self
    }
}

/// Whether two byte slices hold the same bytes.
fn same_bytes(a: &[u8], b: &[u8]) -> (same: bool)
    ensures
        same == (a@ == b@),
{
    if a.len() != b.len() {
        return false;
    }
    let mut i: usize = 0;
    while i < a.len()
        invariant
            i <= a.len(),
            a.len() == b.len(),
            forall|j: int| 0 <= j < i ==> a@[j] == b@[j],
        decreases a.len() - i,
    {
        if a[i] != b[i] {
            return false;
        }
        i += 1;
    }
    assert(a@ =~= b@);
    true
}

impl Index for &str {
    fn same_key(&self, other: &Self) -> (same: bool) {
        proof {
            // Two strings with the same UTF-8 bytes hold the same characters.
            vstd::utf8::encode_utf8_decode_utf8(self@);
            vstd::utf8::encode_utf8_decode_utf8(other@);
        }
        same_bytes(self.as_bytes(), other.as_bytes())
    }

    fn clone_key(&self) -> (copy: Self) {
        *self
    }
}

impl Index for String {
    fn same_key(&self, other: &Self) -> (same: bool) {
        *self == *other
    }

    fn clone_key(&self) -> (copy: Self) {
        self.clone()
    }
}

impl Index for [u8; 32] {
    fn same_key(&self, other: &Self) -> (same: bool) {
        same_bytes(self.as_slice(), other.as_slice())
    }

    fn clone_key(&self) -> (copy: Self) {
        *self
    }
}

} // verus!
