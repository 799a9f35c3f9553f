//! Copying runs of bytes, and what a copy leaves unchanged.
use vstd::prelude::*;

use crate::metadata::write_at;

verus! {

/// A buffer of `n` zero bytes.
pub fn zeroed(n: usize) -> (buf: Vec<u8>)
    ensures
        buf@ == Seq::new(n as nat, |p: int| 0u8),
{
    let mut buf: Vec<u8> = Vec::with_capacity(n);
    let mut j: usize = 0;
    while j < n
        invariant
            j <= n,
            buf@ == Seq::new(j as nat, |p: int| 0u8),
        decreases n - j,
    {
        buf.push(0u8);
        j = j + 1;
    }
    buf
}

/// Copies `n` bytes of `src`, starting at `src_pos`, into `dst` at `dst_pos`.
pub fn copy_from(dst: &mut Vec<u8>, dst_pos: usize, src: &[u8], src_pos: usize, n: usize)
    requires
        src_pos + n <= src@.len(),
        dst_pos + n <= old(dst)@.len(),
    ensures
        final(dst)@ == write_at(old(dst)@, dst_pos as int, src@.subrange(
            src_pos as int,
            src_pos + n,
        )),
{
    let ghost start = dst@;
    let src_len = src.len();
    let dst_len = dst.len();
    let mut j: usize = 0;
    while j < n
        invariant
            j <= n,
            src_pos + n <= src_len,
            dst_pos + n <= dst_len,
            src_len == src@.len(),
            dst_len == start.len(),
            src_pos + n <= src@.len(),
            dst_pos + n <= start.len(),
            dst@.len() == start.len(),
            forall|p: int|
                0 <= p < start.len() ==> #[trigger] dst@[p] == if dst_pos <= p < dst_pos + j {
                    src@[src_pos + (p - dst_pos)]
                } else {
                    start[p]
                },
        decreases n - j,
    {
        let b = src[src_pos + j];
        dst[dst_pos + j] = b;
        j = j + 1;
    }
    assert(dst@ =~= write_at(start, dst_pos as int, src@.subrange(src_pos as int, src_pos + n)));
}

/// Copies `n` bytes of `data`, starting at `src_pos`, to `dst_pos` in the same
/// buffer; the two runs do not overlap.
pub fn copy_within(data: &mut Vec<u8>, src_pos: usize, dst_pos: usize, n: usize)
    requires
        src_pos + n <= old(data)@.len(),
        dst_pos + n <= old(data)@.len(),
        src_pos + n <= dst_pos || dst_pos + n <= src_pos,
    ensures
        final(data)@ == write_at(old(data)@, dst_pos as int, old(data)@.subrange(
            src_pos as int,
            src_pos + n,
        )),
{
    let ghost start = data@;
    let len = data.len();
    let mut j: usize = 0;
    while j < n
        invariant
            j <= n,
            len == start.len(),
            src_pos + n <= start.len(),
            dst_pos + n <= start.len(),
            src_pos + n <= dst_pos || dst_pos + n <= src_pos,
            data@.len() == start.len(),
            forall|p: int|
                0 <= p < start.len() ==> #[trigger] data@[p] == if dst_pos <= p < dst_pos + j {
                    start[src_pos + (p - dst_pos)]
                } else {
                    start[p]
                },
        decreases n - j,
    {
        let b = data[src_pos + j];
        data[dst_pos + j] = b;
        j = j + 1;
    }
    assert(data@ =~= write_at(start, dst_pos as int, start.subrange(src_pos as int, src_pos + n)));
}

/// Writing a chunk keeps the length of the buffer.
pub proof fn lemma_write_at_len(buf: Seq<u8>, pos: int, chunk: Seq<u8>)
    requires
        0 <= pos,
        pos + chunk.len() <= buf.len(),
    ensures
        write_at(buf, pos, chunk).len() == buf.len(),
{
}

/// Writing a chunk leaves every run of bytes that does not overlap it unchanged.
pub proof fn lemma_write_at_elsewhere(buf: Seq<u8>, pos: int, chunk: Seq<u8>, a: int, b: int)
    requires
        0 <= pos,
        pos + chunk.len() <= buf.len(),
        0 <= a <= b <= buf.len(),
        b <= pos || pos + chunk.len() <= a,
    ensures
        write_at(buf, pos, chunk).subrange(a, b) == buf.subrange(a, b),
{
    assert(write_at(buf, pos, chunk).subrange(a, b) =~= buf.subrange(a, b));
}

/// Reading back part of a written chunk gives that part of the chunk.
pub proof fn lemma_write_at_within(buf: Seq<u8>, pos: int, chunk: Seq<u8>, a: int, b: int)
    requires
        0 <= pos,
        pos + chunk.len() <= buf.len(),
        0 <= a <= b <= chunk.len(),
    ensures
        write_at(buf, pos, chunk).subrange(pos + a, pos + b) == chunk.subrange(a, b),
{
    assert(write_at(buf, pos, chunk).subrange(pos + a, pos + b) =~= chunk.subrange(a, b));
}

} // verus!
