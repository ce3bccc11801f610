use vstd::prelude::*;

verus! {

use crate::chunks::ChunkRange;
use crate::chunks::covered_by;
use crate::chunks::is_partition;

/// One fetched chunk: the byte payload that belongs at absolute offset
/// `start` of the output file. Produced by exactly one worker per range and
/// handed to the assembler over the result channel, in whatever order the
/// workers happen to finish.
pub struct ChunkResult {
    pub start: usize,
    pub data: Vec<u8>,
}

impl ChunkResult {
    /// The offset just past the last byte the chunk fills.
    pub open spec fn end_excl(self) -> int {
        self.start + self.data@.len()
    }

    /// The chunk fills byte offset `b`.
    pub open spec fn covers(self, b: int) -> bool {
        self.start <= b < self.end_excl()
    }

    /// The chunk lies inside a file of `len` bytes.
    pub open spec fn fits(self, len: int) -> bool {
        self.end_excl() <= len
    }

    /// The payload is exactly the slice of `content` that the chunk's
    /// offsets name: what a successful ranged fetch of an unchanged remote
    /// resource returns.
    pub open spec fn from_content(self, content: Seq<u8>) -> bool {
        &&& self.fits(content.len() as int)
        &&& self.data@ == content.subrange(self.start as int, self.end_excl())
    }
}

/// The file after writing `data` at offset `start`: bytes inside
/// `[start, start + data.len())` come from `data`, all others are unchanged.
pub open spec fn write_at(file: Seq<u8>, start: int, data: Seq<u8>) -> Seq<u8> {
    Seq::new(
        file.len(),
        |i: int|
            if start <= i < start + data.len() {
                data[i - start]
            } else {
                file[i]
            },
    )
}

/// The file after writing every chunk of `parts`, in delivery order.
pub open spec fn apply_chunks(file: Seq<u8>, parts: Seq<ChunkResult>) -> Seq<u8>
    decreases parts.len(),
{
    if parts.len() == 0 {
        file
    } else {
        write_at(apply_chunks(file, parts.drop_last()), parts.last().start as int, parts.last().data@)
    }
}

/// Every chunk of `parts` lies inside a file of `len` bytes.
pub open spec fn all_fit(parts: Seq<ChunkResult>, len: int) -> bool {
    forall|k: int| 0 <= k < parts.len() ==> (#[trigger] parts[k]).fits(len)
}

/// Every chunk of `parts` carries the true bytes of `content`.
pub open spec fn all_from_content(parts: Seq<ChunkResult>, content: Seq<u8>) -> bool {
    forall|k: int| 0 <= k < parts.len() ==> (#[trigger] parts[k]).from_content(content)
}

/// Some chunk of `parts` fills byte offset `b`.
pub open spec fn chunk_covered(parts: Seq<ChunkResult>, b: int) -> bool {
    exists|k: int| 0 <= k < parts.len() && (#[trigger] parts[k]).covers(b)
}

/// The chunks of `parts` together fill every byte of `[0, size)`.
pub open spec fn chunks_cover(parts: Seq<ChunkResult>, size: int) -> bool {
    forall|b: int| 0 <= b < size ==> #[trigger] chunk_covered(parts, b)
}

/// Writes one chunk's payload into the in-memory file at the chunk's offset,
/// leaving every byte outside the chunk's range unchanged.
pub fn write_chunk(file: &mut Vec<u8>, part: &ChunkResult)
    requires
        part.fits(old(file)@.len() as int),
    ensures
        final(file)@ == write_at(old(file)@, part.start as int, part.data@),
{
    let n = file.len();
    let mut k: usize = 0;
    while k < part.data.len()
        invariant
            part.fits(n as int),
            file@.len() == n,
            file@.len() == old(file)@.len(),
            k <= part.data@.len(),
            forall|i: int|
                0 <= i < file@.len() ==> #[trigger] file@[i] == if part.start <= i
                    < part.start + k {
                    part.data@[i - part.start]
                } else {
                    old(file)@[i]
                },
        decreases part.data@.len() - k,
    {
        let b = part.data[k];
        file.set(part.start + k, b);
        k = k + 1;
    }
    proof {
        assert(file@ =~= write_at(old(file)@, part.start as int, part.data@));
    }
}

/// `apply_chunks` never changes the file's length.
pub proof fn lemma_apply_chunks_len(file: Seq<u8>, parts: Seq<ChunkResult>)
    ensures
        apply_chunks(file, parts).len() == file.len(),
    decreases parts.len(),
{
    if parts.len() > 0 {
        lemma_apply_chunks_len(file, parts.drop_last());
    }
}

/// Writes every chunk of `parts` into the in-memory file, in the order the
/// chunks stand in the vector.
pub fn assemble_into(file: &mut Vec<u8>, parts: &Vec<ChunkResult>)
    requires
        all_fit(parts@, old(file)@.len() as int),
    ensures
        final(file)@ == apply_chunks(old(file)@, parts@),
{
    let ghost file0 = old(file)@;
    let mut j: usize = 0;
    while j < parts.len()
        invariant
            j <= parts@.len(),
            all_fit(parts@, file0.len() as int),
            file@ == apply_chunks(file0, parts@.take(j as int)),
        decreases parts@.len() - j,
    {
        proof {
            lemma_apply_chunks_len(file0, parts@.take(j as int));
            assert(parts@.take(j + 1).drop_last() =~= parts@.take(j as int));
            assert(parts@.take(j + 1).last() == parts@[j as int]);
        }
        write_chunk(file, &parts[j]);
        j = j + 1;
    }
    proof {
        assert(parts@.take(parts@.len() as int) =~= parts@);
    }
}

/// All the fragments of a streamed response body, joined in arrival order.
pub open spec fn concat_fragments(frags: Seq<Seq<u8>>) -> Seq<u8>
    decreases frags.len(),
{
    if frags.len() == 0 {
        Seq::empty()
    } else {
        concat_fragments(frags.drop_last()) + frags.last()
    }
}

/// Appends one fragment of a streamed body to the end of the in-memory file:
/// the fallback path writes from offset zero onward and never seeks.
pub fn append_fragment(file: &mut Vec<u8>, data: &[u8])
    ensures
        final(file)@ == old(file)@ + data@,
{
    let mut k: usize = 0;
    while k < data.len()
        invariant
            k <= data@.len(),
            file@ == old(file)@ + data@.take(k as int),
        decreases data@.len() - k,
    {
        let b = data[k];
        file.push(b);
        proof {
            assert(old(file)@ + data@.take(k + 1) =~= (old(file)@ + data@.take(k as int)).push(
                data@[k as int],
            ));
        }
        k = k + 1;
    }
    proof {
        assert(data@.take(data@.len() as int) =~= data@);
    }
}

/// Streams a body into the in-memory file, fragment by fragment: however the
/// transport cuts the body into reads, the file ends up holding exactly the
/// joined body. This is the fallback path's whole write behaviour.
pub fn stream_fragments(file: &mut Vec<u8>, frags: &Vec<Vec<u8>>)
    ensures
        final(file)@ == old(file)@ + concat_fragments(frags@.map_values(|v: Vec<u8>| v@)),
{
    let ghost views = frags@.map_values(|v: Vec<u8>| v@);
    let mut j: usize = 0;
    while j < frags.len()
        invariant
            j <= frags@.len(),
            views == frags@.map_values(|v: Vec<u8>| v@),
            file@ == old(file)@ + concat_fragments(views.take(j as int)),
        decreases frags@.len() - j,
    {
        proof {
            assert(views.take(j + 1).drop_last() =~= views.take(j as int));
            assert(views.take(j + 1).last() == frags@[j as int]@);
        }
        append_fragment(file, frags[j].as_slice());
        proof {
            assert((old(file)@ + concat_fragments(views.take(j as int))) + frags@[j as int]@
                =~= old(file)@ + concat_fragments(views.take(j + 1)));
        }
        j = j + 1;
    }
    proof {
        assert(views.take(views.len() as int) =~= views);
    }
}

/// Writing chunks cut from `content` moves the file towards `content` and
/// nothing else: a byte some chunk fills ends up equal to the corresponding
/// byte of `content`, and a byte no chunk fills keeps its old value.
pub proof fn lemma_apply_agreeing_chunks(file: Seq<u8>, parts: Seq<ChunkResult>, content: Seq<u8>)
    requires
        file.len() == content.len(),
        all_from_content(parts, content),
    ensures
        forall|b: int|
            0 <= b < file.len() ==> apply_chunks(file, parts)[b] == (if chunk_covered(parts, b) {
                content[b]
            } else {
                file[b]
            }),
    decreases parts.len(),
{
    if parts.len() > 0 {
        let pre = parts.drop_last();
        let last = parts.last();
        assert(all_from_content(pre, content));
        lemma_apply_agreeing_chunks(file, pre, content);
        lemma_apply_chunks_len(file, pre);
        let applied = apply_chunks(file, parts);
        let applied_pre = apply_chunks(file, pre);
        assert forall|b: int| 0 <= b < file.len() implies applied[b] == (if chunk_covered(
            parts,
            b,
        ) {
            content[b]
        } else {
            file[b]
        }) by {
            assert(parts[parts.len() - 1].from_content(content));
            if last.covers(b) {
                assert(applied[b] == last.data@[b - last.start]);
                assert(last.data@[b - last.start] == content[b]);
                assert(chunk_covered(parts, b));
            } else {
                assert(applied[b] == applied_pre[b]);
                if chunk_covered(pre, b) {
                    let k = choose|k: int| 0 <= k < pre.len() && (#[trigger] pre[k]).covers(b);
                    assert(parts[k].covers(b));
                    assert(chunk_covered(parts, b));
                } else if chunk_covered(parts, b) {
                    let k = choose|k: int|
                        0 <= k < parts.len() && (#[trigger] parts[k]).covers(b);
                    assert(k < parts.len() - 1);
                    assert(pre[k].covers(b));
                    assert(chunk_covered(pre, b));
                }
            }
        }
    }
}

/// Reassembly correctness: writing chunks that all carry the true bytes of
/// `content` and together fill every offset turns any file of the right
/// length into exactly `content`.
pub proof fn lemma_reassembly_correct(file: Seq<u8>, parts: Seq<ChunkResult>, content: Seq<u8>)
    requires
        file.len() == content.len(),
        all_from_content(parts, content),
        chunks_cover(parts, content.len() as int),
    ensures
        apply_chunks(file, parts) == content,
{
    lemma_apply_agreeing_chunks(file, parts, content);
    lemma_apply_chunks_len(file, parts);
    assert(apply_chunks(file, parts) =~= content);
}

/// Chunk `i` of `parts` fills exactly the byte interval of range `i`: what
/// holds of a job's chunk results once every ranged fetch succeeded.
pub open spec fn parts_match_ranges(parts: Seq<ChunkResult>, ranges: Seq<ChunkRange>) -> bool {
    &&& parts.len() == ranges.len()
    &&& forall|i: int|
        0 <= i < parts.len() ==> (#[trigger] parts[i]).start == ranges[i].start
            && parts[i].end_excl() == ranges[i].end + 1
}

/// A full set of chunk results over a partition of `[0, size)` fills every
/// byte of the output file.
pub proof fn lemma_partition_parts_cover(
    parts: Seq<ChunkResult>,
    ranges: Seq<ChunkRange>,
    size: int,
    chunk: int,
)
    requires
        is_partition(ranges, size, chunk),
        parts_match_ranges(parts, ranges),
    ensures
        chunks_cover(parts, size),
{
    assert forall|b: int| 0 <= b < size implies #[trigger] chunk_covered(parts, b) by {
        assert(covered_by(ranges, b));
        let i = choose|i: int| 0 <= i < ranges.len() && (#[trigger] ranges[i]).covers(b);
        assert(parts[i].covers(b));
        assert(chunk_covered(parts, b));
    }
}

/// Reassembly is order-independent: delivering a job's chunks in any
/// permutation (same chunks, counted with multiplicity, in any order) writes
/// the same file, namely the resource's own content.
pub proof fn lemma_reassembly_order_independent(
    file: Seq<u8>,
    parts1: Seq<ChunkResult>,
    parts2: Seq<ChunkResult>,
    content: Seq<u8>,
)
    requires
        file.len() == content.len(),
        all_from_content(parts1, content),
        chunks_cover(parts1, content.len() as int),
        parts2.to_multiset() == parts1.to_multiset(),
    ensures
        apply_chunks(file, parts1) == content,
        apply_chunks(file, parts2) == content,
        apply_chunks(file, parts1) == apply_chunks(file, parts2),
{
    broadcast use vstd::seq_lib::group_to_multiset_ensures;

    assert forall|k: int| 0 <= k < parts2.len() implies (#[trigger] parts2[k]).from_content(
        content,
    ) by {
        assert(parts2.contains(parts2[k]));
        assert(parts2.to_multiset().count(parts2[k]) > 0);
        assert(parts1.contains(parts2[k]));
        let j = choose|j: int| 0 <= j < parts1.len() && parts1[j] == parts2[k];
        assert(parts1[j].from_content(content));
    }
    assert forall|b: int| 0 <= b < content.len() implies #[trigger] chunk_covered(parts2, b) by {
        assert(chunk_covered(parts1, b));
        let k = choose|k: int| 0 <= k < parts1.len() && (#[trigger] parts1[k]).covers(b);
        assert(parts1.contains(parts1[k]));
        assert(parts1.to_multiset().count(parts1[k]) > 0);
        assert(parts2.contains(parts1[k]));
        let j = choose|j: int| 0 <= j < parts2.len() && parts2[j] == parts1[k];
        assert(parts2[j].covers(b));
    }
    lemma_reassembly_correct(file, parts1, content);
    lemma_reassembly_correct(file, parts2, content);
}

/// Re-running a job against an unchanged resource is idempotent: two
/// deliveries of true, covering chunks — in different orders and even cut
/// into different ranges — write byte-identical files.
pub proof fn lemma_rerun_identical(
    file: Seq<u8>,
    parts1: Seq<ChunkResult>,
    parts2: Seq<ChunkResult>,
    content: Seq<u8>,
)
    requires
        file.len() == content.len(),
        all_from_content(parts1, content),
        chunks_cover(parts1, content.len() as int),
        all_from_content(parts2, content),
        chunks_cover(parts2, content.len() as int),
    ensures
        apply_chunks(file, parts1) == apply_chunks(file, parts2),
{
    lemma_reassembly_correct(file, parts1, content);
    lemma_reassembly_correct(file, parts2, content);
}

} // verus!
