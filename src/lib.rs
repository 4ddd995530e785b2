use vstd::prelude::*;

pub mod bytes;
pub mod coord;
pub mod hilbert;
pub mod index;
pub mod indices;
pub mod layout;
pub mod sort;
pub mod traversal;
pub mod tree;

pub use coord::Rect;
pub use index::{FlatbushBuilder, OwnedFlatbush};
pub use layout::{compute_layout, Layout, LayoutError};

verus! {

/// Whether two packed buffers have the same length and the same 8-byte header.
pub fn buffers_match(a: &Vec<u8>, b: &Vec<u8>) -> (r: bool)
    requires
        a.len() >= 8,
        b.len() >= 8,
    ensures
        r == (a@.len() == b@.len() && a@.subrange(0, 8) == b@.subrange(0, 8)),
{
    if a.len() != b.len() {
        return false;
    }
    let mut i: usize = 0;
    while i < 8
        invariant
            i <= 8,
            a@.len() >= 8,
            b@.len() >= 8,
            forall|k: int| 0 <= k < i ==> a@[k] == b@[k],
        decreases 8 - i,
    {
        if a[i] != b[i] {
            assert(a@.subrange(0, 8)[i as int] != b@.subrange(0, 8)[i as int]);
            return false;
        }
        i = i + 1;
    }
    assert(a@.subrange(0, 8) =~= b@.subrange(0, 8));
    true
}

/// Checks that two packed buffers agree in length and header; callers must
/// establish it (with `buffers_match`) before the call.
pub fn check_buffer_equality(a: &Vec<u8>, b: &Vec<u8>) -> (r: bool)
    requires
        a.len() >= 8,
        a@.len() == b@.len(),
        a@.subrange(0, 8) == b@.subrange(0, 8),
    ensures
        r,
{
    buffers_match(a, b)
}

} // verus!
