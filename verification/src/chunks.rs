use vstd::prelude::*;

verus! {

use vstd::arithmetic::div_mod::lemma_fundamental_div_mod;
use vstd::arithmetic::div_mod::lemma_mod_bound;
use vstd::arithmetic::mul::lemma_mul_basics;
use vstd::arithmetic::mul::lemma_mul_inequality;
use vstd::arithmetic::mul::lemma_mul_is_distributive_add_other_way;

/// One contiguous byte interval of the resource, to be fetched by exactly one
/// worker; `end` is inclusive, as in an HTTP `Range: bytes=start-end` header.
#[derive(Clone, Copy, PartialEq, Eq, Structural, Debug)]
pub struct ChunkRange {
    pub start: usize,
    pub end: usize,
}

impl ChunkRange {
    /// The number of bytes the range covers.
    pub open spec fn spec_len(self) -> int {
        self.end - self.start + 1
    }

    /// The range contains byte offset `b`.
    pub open spec fn covers(self, b: int) -> bool {
        self.start <= b <= self.end
    }

    /// The number of bytes the range covers: what a worker pre-sizes its
    /// fetch buffer to.
    pub fn len(&self) -> (r: usize)
        requires
            self.start <= self.end,
            self.end - self.start < usize::MAX,
        ensures
            r == self.spec_len(),
    {
        self.end - self.start + 1
    }
}

/// Some range in `ranges` contains byte offset `b`.
pub open spec fn covered_by(ranges: Seq<ChunkRange>, b: int) -> bool {
    exists|i: int| 0 <= i < ranges.len() && (#[trigger] ranges[i]).covers(b)
}

/// The range at index `i` of the partition of `[0, size)` into pieces of
/// `chunk` bytes: it starts at `i * chunk` and ends just before the next
/// piece, or at `size - 1` for the final piece.
pub open spec fn is_partition_range(r: ChunkRange, i: int, size: int, chunk: int) -> bool {
    &&& r.start == i * chunk
    &&& r.start <= r.end
    &&& r.end < size
    &&& r.end + 1 == if i * chunk + chunk <= size {
        i * chunk + chunk
    } else {
        size
    }
}

/// `ranges` is the partition of `[0, size)` into pieces of `chunk` bytes:
/// piece `i` starts at `i * chunk`; the pieces are ascending by start offset,
/// pairwise non-overlapping, and their union is exactly `[0, size)`; a size
/// of zero has no pieces at all.
pub open spec fn is_partition(ranges: Seq<ChunkRange>, size: int, chunk: int) -> bool {
    &&& ranges.len() == 0 <==> size == 0
    &&& ranges.len() * chunk >= size
    &&& forall|i: int| 0 <= i < ranges.len() ==> is_partition_range(#[trigger] ranges[i], i, size, chunk)
    &&& forall|i: int, j: int| 0 <= i < j < ranges.len() ==> ranges[i].end < ranges[j].start
    &&& forall|b: int| 0 <= b < size ==> #[trigger] covered_by(ranges, b)
}

/// Splits `[0, size)` into consecutive ranges of `chunk` bytes each, the last
/// one shorter when `chunk` does not divide `size`. The ranges come back
/// ascending by start offset, pairwise non-overlapping, and their union is
/// exactly `[0, size)`; `size == 0` yields an empty sequence.
pub fn partition(size: usize, chunk: usize) -> (r: Vec<ChunkRange>)
    requires
        chunk > 0,
    ensures
        is_partition(r@, size as int, chunk as int),
{
    let mut r: Vec<ChunkRange> = Vec::new();
    let mut x: usize = 0;
    proof {
        lemma_mul_basics(chunk as int);
    }
    while x < size
        invariant
            chunk > 0,
            x <= size,
            if r@.len() * chunk <= size {
                x == r@.len() * chunk
            } else {
                x == size
            },
            forall|i: int|
                0 <= i < r@.len() ==> is_partition_range(
                    #[trigger] r@[i],
                    i,
                    size as int,
                    chunk as int,
                ),
        decreases size - x,
    {
        let n = r.len();
        proof {
            lemma_mul_is_distributive_add_other_way(chunk as int, n as int, 1);
            assert(x == n * chunk);
        }
        let end: usize = if size - x > chunk {
            x + chunk - 1
        } else {
            size - 1
        };
        r.push(ChunkRange { start: x, end });
        assert(is_partition_range(r@[n as int], n as int, size as int, chunk as int));
        x = if size - x > chunk {
            x + chunk
        } else {
            size
        };
    }
    proof {
        lemma_mul_basics(chunk as int);
        if r@.len() > 0 {
            assert(is_partition_range(r@[0], 0, size as int, chunk as int));
            assert(size > 0);
        }
        assert forall|i: int, j: int| 0 <= i < j < r@.len() implies r@[i].end < r@[j].start by {
            lemma_mul_inequality(i + 1, j, chunk as int);
            lemma_mul_is_distributive_add_other_way(chunk as int, i, 1);
        }
        assert forall|b: int| 0 <= b < size implies #[trigger] covered_by(r@, b) by {
            let q = b / (chunk as int);
            lemma_fundamental_div_mod(b, chunk as int);
            lemma_mod_bound(b, chunk as int);
            assert(q * chunk <= b < q * chunk + chunk);
            if q >= r@.len() {
                lemma_mul_inequality(r@.len() as int, q, chunk as int);
                assert(false);
            }
            assert(0 <= q < r@.len());
            assert(r@[q].covers(b));
        }
    }
    r
}

/// Every range of a partition except the last covers exactly `chunk` bytes,
/// and the last covers `size % chunk` bytes when the division leaves a
/// remainder, a full `chunk` otherwise.
pub proof fn lemma_partition_chunk_lengths(ranges: Seq<ChunkRange>, size: int, chunk: int)
    requires
        chunk > 0,
        is_partition(ranges, size, chunk),
    ensures
        forall|i: int| 0 <= i < ranges.len() - 1 ==> (#[trigger] ranges[i]).spec_len() == chunk,
        ranges.len() > 0 ==> ranges.last().spec_len() == (if size % chunk == 0 {
            chunk
        } else {
            size % chunk
        }),
{
    assert forall|i: int| 0 <= i < ranges.len() - 1 implies (#[trigger] ranges[i]).spec_len()
        == chunk by {
        assert(is_partition_range(ranges[i], i, size, chunk));
        assert(is_partition_range(ranges[i + 1], i + 1, size, chunk));
        lemma_mul_is_distributive_add_other_way(chunk, i, 1);
        assert((i + 1) * chunk < size);
    }
    if ranges.len() > 0 {
        let n = ranges.len() as int;
        let last = ranges.last();
        assert(is_partition_range(last, n - 1, size, chunk));
        lemma_mul_is_distributive_add_other_way(chunk, n - 1, 1);
        assert((n - 1) * chunk + chunk == n * chunk);
        assert(last.end + 1 == size);
        let r = size - (n - 1) * chunk;
        assert(last.spec_len() == r);
        assert(0 < r <= chunk);
        if r == chunk {
            vstd::arithmetic::div_mod::lemma_fundamental_div_mod_converse_mod(size, chunk, n, 0);
        } else {
            vstd::arithmetic::div_mod::lemma_fundamental_div_mod_converse_mod(
                size,
                chunk,
                n - 1,
                r,
            );
        }
    }
}

} // verus!
