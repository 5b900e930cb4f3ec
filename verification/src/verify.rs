//! Checking content against a descriptor, extent by extent.
use vstd::prelude::*;
use vstd::slice::slice_subrange;
use crate::descriptor::{
    file_descriptor, file_extent_count, file_start, first_piece, lemma_extent_is_whole_piece,
    lemma_file_starts_rise, Descriptor, DescriptorModel, Extent, ExtentModel,
};
use crate::torrent::TorrentMeta;
use crate::digest::{same_digest, sha1_digest, sha1_of};

verus! {

/// What the check of one file needs next, or its verdict.
#[derive(Clone, Copy, Debug, PartialEq, Eq)]
pub enum Step {
    /// Read up to `size` bytes from `offset` and hand them in for extent `index`.
    Read { index: usize, offset: i64, size: i64 },
    /// Every extent that was to be checked holds.
    Accept,
    /// An extent does not hold.
    Reject,
}

/// The bytes that a reader gets who seeks to `offset` and reads up to `size`
/// bytes: fewer where the content ends before.
pub open spec fn window(data: Seq<u8>, offset: int, size: int) -> Seq<u8> {
    let lo = if offset <= data.len() { offset } else { data.len() as int };
    let hi = if offset + size <= data.len() { offset + size } else { data.len() as int };
    data.subrange(lo, if lo <= hi { hi } else { lo })
}

/// The bytes read for an extent are all of it and have its digest.
pub open spec fn chunk_matches(chunk: Seq<u8>, e: ExtentModel) -> bool {
    chunk.len() == e.size && sha1_digest(chunk) == e.hash
}

/// An extent that a read can be made for.
pub open spec fn readable(e: ExtentModel) -> bool {
    0 <= e.offset && 0 <= e.size
}

/// The content holds the extent: the range is all there and has the digest.
pub open spec fn extent_holds(data: Seq<u8>, e: ExtentModel) -> bool {
    readable(e) && chunk_matches(window(data, e.offset, e.size), e)
}

/// The content passes the check of the first `count` extents.
pub open spec fn verified(d: DescriptorModel, data: Seq<u8>, count: int) -> bool {
    forall|i: int| 0 <= i < count && i < d.extents.len() ==> extent_holds(data, #[trigger] d.extents[i])
}

/// The step that stands before extent `index` when `count` are to be checked.
pub open spec fn step_at(d: DescriptorModel, index: int, count: int) -> Step {
    if index >= count || index >= d.extents.len() {
        Step::Accept
    } else if !readable(d.extents[index]) {
        Step::Reject
    } else {
        Step::Read {
            index: index as usize,
            offset: d.extents[index].offset as i64,
            size: d.extents[index].size as i64,
        }
    }
}

impl Extent {
    /// Whether `chunk`, the bytes read for this extent, is all of it and has
    /// its digest.
    pub fn matches(&self, chunk: &[u8]) -> (ok: bool)
        ensures
            ok == chunk_matches(chunk@, self@),
    {
        if self.size < 0 || chunk.len() as u64 != self.size as u64 {
            return false;
        }
        let digest = sha1_of(chunk);
        same_digest(&digest, &self.hash)
    }
}

/// The part of `data` that a read of up to `size` bytes from `offset` gives.
pub fn read_window(data: &[u8], offset: i64, size: i64) -> (chunk: &[u8])
    requires
        0 <= offset,
        0 <= size,
    ensures
        chunk@ == window(data@, offset as int, size as int),
{
    let len: usize = data.len();
    if offset as u64 >= len as u64 {
        slice_subrange(data, len, len)
    } else {
        let lo: usize = offset as usize;
        let left: usize = len - lo;
        if size as u64 <= left as u64 {
            slice_subrange(data, lo, lo + size as usize)
        } else {
            slice_subrange(data, lo, len)
        }
    }
}

impl Descriptor {
    /// The number of extents.
    pub fn extent_count(&self) -> (count: usize)
        ensures
            count == self@.extents.len(),
    {
        self.extents.len()
    }

    /// The step that stands before extent `index`.
    fn step_before(&self, index: usize, count: usize) -> (step: Step)
        ensures
            step == step_at(self@, index as int, count as int),
    {
        if index >= count || index >= self.extents.len() {
            Step::Accept
        } else {
            let extent = &self.extents[index];
            if extent.offset < 0 || extent.size < 0 {
                Step::Reject
            } else {
                Step::Read { index, offset: extent.offset, size: extent.size }
            }
        }
    }

    /// How the check of the first `count` extents begins.
    pub fn first_step(&self, count: usize) -> (step: Step)
        ensures
            step == step_at(self@, 0, count as int),
    {
        self.step_before(0, count)
    }

    /// How the check goes on once `chunk` was read for extent `index`:
    /// rejected at once where the chunk does not match, else on to the next
    /// extent.
    pub fn next_step(&self, index: usize, count: usize, chunk: &[u8]) -> (step: Step)
        requires
            index < self@.extents.len(),
        ensures
            step == if chunk_matches(chunk@, self@.extents[index as int]) {
                step_at(self@, index + 1, count as int)
            } else {
                Step::Reject
            },
    {
        let total: usize = self.extents.len();
        assert(index < total);
        if self.extents[index].matches(chunk) {
            self.step_before(index + 1, count)
        } else {
            Step::Reject
        }
    }

    /// Checks the first `count` extents, in their stored order, against the
    /// content of a file held in memory. The first extent that does not hold
    /// ends the check; with a `count` of 0 any content passes.
    pub fn verify_file(&self, data: &[u8], count: usize) -> (ok: bool)
        ensures
            ok == verified(self@, data@, count as int),
    {
        let mut step = self.first_step(count);
        let ghost mut at: int = 0;
        loop
            invariant
                0 <= at <= self@.extents.len(),
                forall|i: int| 0 <= i < at ==> extent_holds(data@, #[trigger] self@.extents[i]),
                step == step_at(self@, at, count as int) || (step == Step::Reject && at < count
                    && at < self@.extents.len() && !extent_holds(data@, self@.extents[at])),
            decreases
                    self@.extents.len() - at + (if step is Read {
                        1int
                    } else {
                        0int
                    }),
        {
            match step {
                Step::Accept => {
                    return true;
                },
                Step::Reject => {
                    assert(!extent_holds(data@, self@.extents[at]));
                    return false;
                },
                Step::Read { index, offset, size } => {
                    let chunk = read_window(data, offset, size);
                    step = self.next_step(index, count, chunk);
                    proof {
                        if chunk_matches(chunk@, self@.extents[index as int]) {
                            at = at + 1;
                        }
                    }
                },
            }
        }
    }
}

/// Content that passes the check of `count` extents passes that of any fewer;
/// and where the extent after the first `count` does not hold, it passes no
/// check of more.
pub proof fn lemma_prefix_decides(d: DescriptorModel, data: Seq<u8>, count: int, other: int)
    requires
        0 <= count,
        verified(d, data, count),
    ensures
        other <= count ==> verified(d, data, other),
        count < other && count < d.extents.len() && !extent_holds(data, d.extents[count])
            ==> !verified(d, data, other),
{
}

/// Content that holds every extent of a descriptor passes the check of any
/// number of them, of none and of all.
pub proof fn lemma_matching_content_verifies(d: DescriptorModel, data: Seq<u8>, count: int)
    requires
        forall|i: int| 0 <= i < d.extents.len() ==> extent_holds(data, #[trigger] d.extents[i]),
    ensures
        verified(d, data, count),
        verified(d, data, 0),
        verified(d, data, d.extents.len() as int),
{
}

/// The torrent's pieces are the digests of `stream`, cut into pieces: each
/// piece that `stream` holds whole has the digest of its bytes.
pub open spec fn pieces_of_stream(t: TorrentMeta, stream: Seq<u8>) -> bool {
    forall|k: int|
        0 <= k < t.pieces@.len() && (k + 1) * t.piece_length <= stream.len() ==> (
        #[trigger] t.pieces@[k])@.subrange(0, 20) == sha1_digest(
            stream.subrange(k * t.piece_length, (k + 1) * t.piece_length),
        )
}

/// A genuine file passes: where the pieces are the digests of the files laid
/// end to end, the bytes of file `i` pass the check of any number of the
/// extents of its descriptor, of all of them too.
pub proof fn lemma_genuine_file_verifies(
    t: TorrentMeta,
    root: Seq<char>,
    stream: Seq<u8>,
    i: int,
    count: int,
)
    requires
        t.wf(),
        0 <= i < t.file_list().len(),
        stream.len() == file_start(t, t.file_list().len() as int),
        pieces_of_stream(t, stream),
    ensures
        verified(
            file_descriptor(t, root, i),
            stream.subrange(file_start(t, i), file_start(t, i + 1)),
            count,
        ),
{
    let d = file_descriptor(t, root, i);
    let start = file_start(t, i);
    let l = t.piece_length as int;
    lemma_file_starts_rise(t, i, i + 1);
    lemma_file_starts_rise(t, i + 1, t.file_list().len() as int);
    assert(file_start(t, i + 1) == start + t.file_list()[i].length);
    let content = stream.subrange(start, file_start(t, i + 1));
    assert forall|j: int| 0 <= j < count && j < d.extents.len() implies extent_holds(
        content,
        #[trigger] d.extents[j],
    ) by {
        assert(d.extents.len() == file_extent_count(t, i));
        lemma_extent_is_whole_piece(t, root, i, j);
        let k = first_piece(t, i) + j;
        let e = d.extents[j];
        assert((k + 1) * l == k * l + l) by (nonlinear_arith);
        assert(e.offset == k * l - start && e.size == l);
        assert(window(content, e.offset, e.size) =~= stream.subrange(k * l, (k + 1) * l));
    }
}

} // verus!
