//! Reusable buffers.
use vstd::prelude::*;

verus! {

/// Overwrites `out` with `len` copies of `value`.
pub fn fill_resize<T: Copy>(out: &mut Vec<T>, len: usize, value: T)
    ensures
        final(out)@ == Seq::new(len as nat, |i: int| value),
{
    out.clear();
    let mut i: usize = 0;
    while i < len
        invariant
            i <= len,
            out@ == Seq::new(i as nat, |k: int| value),
        decreases len - i,
    {
        out.push(value);
        i += 1;
    }
}

} // verus!
