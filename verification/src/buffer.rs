//! Copying runs of elements between and within buffers.
use vstd::prelude::*;

verus! {

/// The sequence `s` with the run `run` written over it from position `at`.
pub open spec fn overwrite<T>(s: Seq<T>, at: int, run: Seq<T>) -> Seq<T> {
    Seq::new(
        s.len(),
        |p: int|
            if at <= p < at + run.len() {
                run[p - at]
            } else {
                s[p]
            },
    )
}

/// Copies `src` over the elements of `dst` that start at `at`.
pub fn copy_from<T: Copy>(dst: &mut Vec<T>, at: usize, src: &[T])
    requires
        at + src@.len() <= old(dst)@.len(),
    ensures
        final(dst)@ == overwrite(old(dst)@, at as int, src@),
{
    let n: usize = src.len();
    let len: usize = dst.len();
    let mut j: usize = 0;
    while j < n
        invariant
            n == src@.len(),
            j <= n,
            len == dst@.len(),
            at + n <= len,
            dst@ == overwrite(old(dst)@, at as int, src@.take(j as int)),
        decreases n - j,
    {
        dst[at + j] = src[j];
        j += 1;
    }
    assert(src@.take(n as int) == src@);
}

/// Copies the `n` elements that start at `from` over those that start at
/// `to`. The two runs do not overlap.
pub fn copy_within<T: Copy>(buf: &mut Vec<T>, from: usize, to: usize, n: usize)
    requires
        from + n <= old(buf)@.len(),
        to + n <= old(buf)@.len(),
        from + n <= to || to + n <= from,
    ensures
        final(buf)@ == overwrite(
            old(buf)@,
            to as int,
            old(buf)@.subrange(from as int, from + n),
        ),
{
    let len: usize = buf.len();
    let mut j: usize = 0;
    while j < n
        invariant
            j <= n,
            len == buf@.len(),
            from + n <= len,
            to + n <= len,
            from + n <= to || to + n <= from,
            buf@ == overwrite(old(buf)@, to as int, old(buf)@.subrange(from as int, from + j)),
        decreases n - j,
    {
        let v = buf[from + j];
        buf[to + j] = v;
        j += 1;
    }
}

} // verus!
