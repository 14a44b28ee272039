//! Small byte-string helpers shared across the crate.

use vstd::prelude::*;

verus! {

/// Copy a byte string.
pub fn copy_bytes(src: &Vec<u8>) -> (r: Vec<u8>)
    ensures
        r@ == src@,
{
    let mut out: Vec<u8> = Vec::new();
    let n: usize = src.len();
    let mut i: usize = 0;
    while i < n
        invariant
            0 <= i <= n,
            n == src@.len(),
            out@ == src@.subrange(0, i as int),
        decreases n - i,
    {
        let b = src[i];
        out.push(b);
        proof {
            assert(out@ =~= src@.subrange(0, i + 1));
        }
        i = i + 1;
    }
    proof {
        assert(src@.subrange(0, n as int) =~= src@);
    }
    out
}

/// Append every byte of `tail` to `out`.
pub fn append_bytes(out: &mut Vec<u8>, tail: &[u8])
    ensures
        final(out)@ == old(out)@ + tail@,
{
    let ghost base = out@;
    let n: usize = tail.len();
    let mut i: usize = 0;
    while i < n
        invariant
            0 <= i <= n,
            n == tail@.len(),
            out@ == base + tail@.subrange(0, i as int),
        decreases n - i,
    {
        let b = tail[i];
        out.push(b);
        proof {
            assert(out@ =~= base + tail@.subrange(0, i + 1));
        }
        i = i + 1;
    }
    proof {
        assert(base + tail@.subrange(0, n as int) =~= base + tail@);
    }
}

} // verus!
