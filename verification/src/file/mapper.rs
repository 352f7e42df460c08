//! Range access to the bytes of a mapped file.

use vstd::prelude::*;

verus! {

/// The bytes of `data` in `[start, start + len)` (offsets cast to `usize`), clipped to
/// its end; empty when `start` is at or past the end.
pub fn mapped_slice(data: &[u8], start: u64, len: u64) -> (r: &[u8])
    requires
        (start as usize) < data@.len() ==> (start as usize) + (len as usize) <= usize::MAX,
    ensures
        r@ == if (start as usize) >= data@.len() {
            Seq::<u8>::empty()
        } else {
            data@.subrange(
                start as usize as int,
                if (start as usize) + (len as usize) < data@.len() {
                    (start as usize) + (len as usize)
                } else {
                    data@.len() as int
                },
            )
        },
{
    let start = #[verifier::truncate] (start as usize);
    let len = #[verifier::truncate] (len as usize);
    if start >= data.len() {
        return &data[0..0];
    }
    let end = if start + len < data.len() {
        start + len
    } else {
        data.len()
    };
    &data[start..end]
}

} // verus!
