//! Cutting a buffer into partitions whose boundaries follow line terminators.

use vstd::prelude::*;
use crate::record::ends_lines;
use crate::scan::{find_byte, index_of, lemma_index_of_first, NEWLINE};

verus! {

/// The bytes of a buffer from `start` up to `end`.
#[derive(Clone, Copy, Debug, PartialEq, Eq)]
pub struct Partition {
    pub start: usize,
    pub end: usize,
}

/// The ideal length of a partition: the buffer's length divided by the
/// number of partitions asked for, rounded up. Asking for no partition is
/// asking for one.
pub open spec fn stride(len: int, count: int) -> int {
    if count <= 0 {
        len
    } else {
        (len + count - 1) / count
    }
}

/// The position just after the first line terminator at or after `from`, or
/// the length of the buffer where no terminator follows.
pub open spec fn line_end(buf: Seq<u8>, from: int) -> int {
    let at = from + index_of(buf.skip(from), NEWLINE);
    if at < buf.len() {
        at + 1
    } else {
        buf.len() as int
    }
}

/// Where the partition that starts at `offset` ends: at the end of the line
/// that holds the byte `stride` further on, or at the end of the buffer.
pub open spec fn boundary(buf: Seq<u8>, offset: int, stride: int) -> int {
    if offset + stride >= buf.len() {
        buf.len() as int
    } else {
        line_end(buf, offset + stride)
    }
}

/// The partitions of a buffer for a stride: the first starts at zero, each
/// ends at its boundary, the next starts where it ends, and the last ends
/// with the buffer. An empty buffer has none.
pub open spec fn is_partitioning(buf: Seq<u8>, stride: int, parts: Seq<Partition>) -> bool {
    &&& parts.len() == 0 <==> buf.len() == 0
    &&& parts.len() > 0 ==> parts[0].start == 0 && parts.last().end == buf.len()
    &&& forall|i: int|
        0 <= i < parts.len() ==> (#[trigger] parts[i]).start < buf.len() && parts[i].end
            == boundary(buf, parts[i].start as int, stride)
    &&& forall|i: int| 0 <= i < parts.len() - 1 ==> (#[trigger] parts[i]).end == parts[i + 1].start
}

/// The bytes of a partition.
pub open spec fn piece(buf: Seq<u8>, p: Partition) -> Seq<u8> {
    buf.subrange(p.start as int, p.end as int)
}

/// The partitions lie in the buffer, in order, without gap or overlap, from
/// its first byte to its last.
pub open spec fn is_cover(buf: Seq<u8>, parts: Seq<Partition>) -> bool {
    &&& forall|i: int|
        0 <= i < parts.len() ==> (#[trigger] parts[i]).start <= parts[i].end <= buf.len()
    &&& parts.len() == 0 ==> buf.len() == 0
    &&& parts.len() > 0 ==> parts[0].start == 0 && parts.last().end == buf.len()
    &&& forall|i: int| 0 <= i < parts.len() - 1 ==> (#[trigger] parts[i]).end == parts[i + 1].start
}

/// No partition ends inside a line: one that ends before the buffer does is
/// empty or ends with a line terminator.
pub open spec fn is_line_aligned(buf: Seq<u8>, parts: Seq<Partition>) -> bool {
    forall|i: int|
        0 <= i < parts.len() && (#[trigger] parts[i]).end < buf.len() ==> ends_lines(
            piece(buf, parts[i]),
        )
}

/// The pieces of the partitions, joined in order.
pub open spec fn joined_pieces(buf: Seq<u8>, parts: Seq<Partition>) -> Seq<u8>
    decreases parts.len(),
{
    if parts.len() == 0 {
        Seq::empty()
    } else {
        joined_pieces(buf, parts.drop_last()) + piece(buf, parts.last())
    }
}

/// A line end lies after its starting point and within the buffer, and
/// before the buffer's end it follows a line terminator.
pub proof fn lemma_line_end(buf: Seq<u8>, from: int)
    requires
        0 <= from < buf.len(),
    ensures
        from < line_end(buf, from) <= buf.len(),
        line_end(buf, from) < buf.len() ==> buf[line_end(buf, from) - 1] == NEWLINE,
{
    let tail = buf.skip(from);
    lemma_index_of_first(tail, NEWLINE);
    let k = index_of(tail, NEWLINE);
    if k < tail.len() {
        assert(tail[k] == buf[from + k]);
    }
}

/// A boundary lies after its offset and within the buffer, and before the
/// buffer's end it follows a line terminator.
pub proof fn lemma_boundary(buf: Seq<u8>, offset: int, stride: int)
    requires
        0 <= offset < buf.len(),
        stride >= 1,
    ensures
        offset < boundary(buf, offset, stride) <= buf.len(),
        offset + stride <= boundary(buf, offset, stride) || boundary(buf, offset, stride)
            == buf.len(),
        boundary(buf, offset, stride) < buf.len() ==> buf[boundary(buf, offset, stride) - 1]
            == NEWLINE,
{
    if offset + stride < buf.len() {
        lemma_line_end(buf, offset + stride);
    }
}

/// The stride of a non-empty buffer is at least one, and `count` strides
/// reach the end of the buffer.
pub proof fn lemma_stride(len: int, count: int)
    requires
        len >= 1,
    ensures
        1 <= stride(len, count) <= len,
        count >= 1 ==> count * stride(len, count) >= len,
        count >= 1 ==> stride(len, count) == len / count + if len % count != 0 {
            1int
        } else {
            0
        },
{
    if count >= 1 {
        let s = (len + count - 1) / count;
        let q = len / count;
        let r = len % count;
        assert(1 <= s <= len && count * s >= len && s == q + if r != 0 {
            1int
        } else {
            0
        }) by (nonlinear_arith)
            requires
                len >= 1,
                count >= 1,
                s == (len + count - 1) / count,
                q == len / count,
                r == len % count,
        ;
    }
}

/// The partitions of a non-empty buffer for a stride of at least one cover
/// it and are line aligned, and none of them is empty.
pub proof fn lemma_partitioning_covers(buf: Seq<u8>, stride: int, parts: Seq<Partition>)
    requires
        is_partitioning(buf, stride, parts),
        stride >= 1,
    ensures
        is_cover(buf, parts),
        is_line_aligned(buf, parts),
        forall|i: int| 0 <= i < parts.len() ==> (#[trigger] parts[i]).start < parts[i].end,
{
    assert forall|i: int| 0 <= i < parts.len() implies (#[trigger] parts[i]).start < parts[i].end
        <= buf.len() && (parts[i].end < buf.len() ==> ends_lines(piece(buf, parts[i]))) by {
        lemma_boundary(buf, parts[i].start as int, stride);
        if parts[i].end < buf.len() {
            assert(piece(buf, parts[i]).last() == buf[parts[i].end - 1]);
        }
    }
}

/// Two partitionings of one buffer for one stride agree on their first `n`
/// partitions.
proof fn lemma_partitionings_agree(
    buf: Seq<u8>,
    stride: int,
    a: Seq<Partition>,
    b: Seq<Partition>,
    n: int,
)
    requires
        is_partitioning(buf, stride, a),
        is_partitioning(buf, stride, b),
        stride >= 1,
        0 <= n <= a.len(),
    ensures
        n <= b.len(),
        forall|i: int| 0 <= i < n ==> a[i] == b[i],
    decreases n,
{
    if n > 0 {
        lemma_partitionings_agree(buf, stride, a, b, n - 1);
        let i = n - 1;
        if i == 0 {
            assert(b.len() > 0);
        } else {
            assert(a[i - 1] == b[i - 1]);
            assert(a[i - 1].end == a[i - 1 + 1].start);
            assert(a[i].start < buf.len());
            if b.len() == i {
                assert(b.last() == b[i - 1]);
            }
            assert(b[i - 1].end == b[i - 1 + 1].start);
        }
        assert(a[i].start == b[i].start);
        assert(a[i].end == b[i].end);
    }
}

/// A buffer has at most one partitioning for a stride.
pub proof fn lemma_partitioning_unique(
    buf: Seq<u8>,
    stride: int,
    a: Seq<Partition>,
    b: Seq<Partition>,
)
    requires
        is_partitioning(buf, stride, a),
        is_partitioning(buf, stride, b),
        stride >= 1,
    ensures
        a == b,
{
    lemma_partitionings_agree(buf, stride, a, b, a.len() as int);
    lemma_partitionings_agree(buf, stride, b, a, b.len() as int);
    assert(a =~= b);
}

/// The pieces of the first `k` partitions of a cover, joined, are the
/// buffer up to where the last of them ends.
proof fn lemma_joined_prefix(buf: Seq<u8>, parts: Seq<Partition>, k: int)
    requires
        is_cover(buf, parts),
        1 <= k <= parts.len(),
    ensures
        joined_pieces(buf, parts.take(k)) == buf.subrange(0, parts[k - 1].end as int),
    decreases k,
{
    let first = parts.take(k);
    assert(first.last() == parts[k - 1]);
    assert(first.drop_last() =~= parts.take(k - 1));
    if k == 1 {
        assert(joined_pieces(buf, parts.take(0)) =~= Seq::<u8>::empty());
        assert(Seq::<u8>::empty() + piece(buf, parts[0]) =~= buf.subrange(
            0,
            parts[0].end as int,
        ));
    } else {
        lemma_joined_prefix(buf, parts, k - 1);
        assert(parts[k - 2].end == parts[k - 1].start);
        assert(buf.subrange(0, parts[k - 2].end as int) + piece(buf, parts[k - 1])
            =~= buf.subrange(0, parts[k - 1].end as int));
    }
}

/// The pieces of a cover, joined in order, are the buffer: nothing is left
/// out and nothing occurs twice.
pub proof fn lemma_cover_rebuilds_buffer(buf: Seq<u8>, parts: Seq<Partition>)
    requires
        is_cover(buf, parts),
    ensures
        joined_pieces(buf, parts) == buf,
{
    if parts.len() == 0 {
        assert(joined_pieces(buf, parts) =~= buf);
    } else {
        lemma_joined_prefix(buf, parts, parts.len() as int);
        assert(parts.take(parts.len() as int) =~= parts);
        assert(buf.subrange(0, buf.len() as int) =~= buf);
    }
}

/// Cuts the buffer into line-aligned partitions of about `len / count` bytes
/// each. A partition ends just after the first line terminator found at or
/// after its ideal end, or with the buffer.
pub fn partition(buffer: &[u8], count: usize) -> (parts: Vec<Partition>)
    ensures
        is_partitioning(buffer@, stride(buffer@.len() as int, count as int), parts@),
        is_cover(buffer@, parts@),
        is_line_aligned(buffer@, parts@),
        forall|i: int| 0 <= i < parts.len() ==> (#[trigger] parts[i]).start < parts[i].end,
        count >= 1 ==> parts.len() <= count,
{
    let len: usize = buffer.len();
    let mut parts: Vec<Partition> = Vec::new();
    if len == 0 {
        return parts;
    }
    proof {
        lemma_stride(len as int, count as int);
    }
    let step: usize = if count == 0 {
        len
    } else if len % count != 0 {
        len / count + 1
    } else {
        len / count
    };
    let ghost buf = buffer@;
    let mut offset: usize = 0;
    while offset < len
        invariant
            len == buffer.len(),
            buf == buffer@,
            len >= 1,
            step >= 1,
            step == stride(len as int, count as int),
            offset <= len,
            parts.len() == 0 <==> offset == 0,
            parts.len() > 0 ==> parts[0].start == 0 && parts@.last().end == offset,
            forall|i: int|
                0 <= i < parts.len() ==> (#[trigger] parts[i]).start < len && parts[i].end
                    == boundary(buf, parts[i].start as int, step as int),
            forall|i: int| 0 <= i < parts.len() - 1 ==> (#[trigger] parts[i]).end == parts[i + 1].start,
            offset < len ==> parts.len() * step <= offset,
            offset == len && parts.len() > 0 ==> (parts.len() - 1) * step <= parts@.last().start,
        decreases len - offset,
    {
        let end: usize = if step >= len - offset {
            len
        } else {
            let at: usize = find_byte(buffer, offset + step, NEWLINE);
            if at < len {
                at + 1
            } else {
                len
            }
        };
        proof {
            lemma_boundary(buf, offset as int, step as int);
            assert(end == boundary(buf, offset as int, step as int));
            assert((parts.len() + 1) * step == parts.len() * step + step) by (nonlinear_arith);
        }
        let ghost before = parts@;
        parts.push(Partition { start: offset, end });
        proof {
            assert forall|i: int| 0 <= i < parts.len() - 1 implies (#[trigger] parts[i]).end
                == parts[i + 1].start by {
                if i < before.len() - 1 {
                    assert(parts[i] == before[i]);
                    assert(parts[i + 1] == before[i + 1]);
                }
            }
        }
        offset = end;
    }
    proof {
        lemma_partitioning_covers(buf, step as int, parts@);
        if count >= 1 {
            let n = parts.len() as int;
            let s = step as int;
            let c = count as int;
            let last_start = parts@.last().start as int;
            assert(n <= c) by (nonlinear_arith)
                requires
                    (n - 1) * s <= last_start,
                    last_start < len,
                    c * s >= len,
                    s >= 1,
                    c >= 1,
            ;
        }
    }
    parts
}

} // verus!
