//! The parts of a torrent's metadata that the layout of its files depends on.
use vstd::prelude::*;

verus! {

/// One file of a multi-file torrent.
#[derive(Clone, Debug)]
pub struct FileEntry {
    /// Declared length in bytes.
    pub length: i64,
    /// Path relative to the torrent's root directory.
    pub path: String,
}

/// A torrent's content description.
#[derive(Clone, Debug)]
pub struct TorrentMeta {
    /// File name (single-file) or root directory name (multi-file).
    pub name: String,
    /// Total length in bytes.
    pub length: i64,
    /// The fixed length of every piece.
    pub piece_length: i64,
    /// Piece hashes, in the order of the logical byte stream.
    pub pieces: Vec<Vec<u8>>,
    /// The file list of a multi-file torrent; `None` for a single file.
    pub files: Option<Vec<FileEntry>>,
}

/// Every piece hash holds at least the 20 bytes of a digest.
pub open spec fn pieces_complete(pieces: Seq<Vec<u8>>) -> bool {
    forall|k: int| 0 <= k < pieces.len() ==> (#[trigger] pieces[k])@.len() >= 20
}

/// No file has a negative length.
pub open spec fn lengths_valid(files: Seq<FileEntry>) -> bool {
    forall|i: int| 0 <= i < files.len() ==> (#[trigger] files[i]).length >= 0
}

impl TorrentMeta {
    /// The file list, empty for a single-file torrent.
    pub open spec fn file_list(&self) -> Seq<FileEntry> {
        match self.files {
            Some(files) => files@,
            None => Seq::empty(),
        }
    }

    /// Well-formed metadata: a positive piece length, no negative length,
    /// whole digests, and a piece stream whose extent fits in an `i64`.
    pub open spec fn wf(&self) -> bool {
        &&& self.piece_length > 0
        &&& self.length >= 0
        &&& self.pieces@.len() * self.piece_length <= i64::MAX
        &&& pieces_complete(self.pieces@)
        &&& lengths_valid(self.file_list())
    }

    /// Decides whether the metadata is well-formed.
    pub fn is_valid(&self) -> (valid: bool)
        ensures
            valid == self.wf(),
    {
        if self.piece_length <= 0 || self.length < 0 {
            return false;
        }
        let limit: u64 = (i64::MAX / self.piece_length) as u64;
        let count: usize = self.pieces.len();
        proof {
            lemma_fits(count as int, self.piece_length as int);
        }
        if count as u64 > limit {
            return false;
        }
        let mut k: usize = 0;
        while k < count
            invariant
                k <= count,
                count == self.pieces@.len(),
                forall|j: int| 0 <= j < k ==> (#[trigger] self.pieces@[j])@.len() >= 20,
            decreases count - k,
        {
            if self.pieces[k].len() < 20 {
                return false;
            }
            k += 1;
        }
        match &self.files {
            None => true,
            Some(files) => {
                let mut i: usize = 0;
                while i < files.len()
                    invariant
                        i <= files@.len(),
                        self.file_list() == files@,
                        forall|j: int| 0 <= j < i ==> (#[trigger] files@[j]).length >= 0,
                    decreases files@.len() - i,
                {
                    if files[i].length < 0 {
                        assert(self.file_list()[i as int].length < 0);
                        return false;
                    }
                    i += 1;
                }
                true
            },
        }
    }
}

/// `count` pieces of length `piece` end at or below `i64::MAX` exactly when
/// `count` is at most `i64::MAX / piece`.
proof fn lemma_fits(count: int, piece: int)
    requires
        count >= 0,
        piece > 0,
    ensures
        (count * piece <= i64::MAX) <==> (count <= (i64::MAX as int) / piece),
{
    let limit = i64::MAX as int;
    assert(limit == piece * (limit / piece) + limit % piece && 0 <= limit % piece < piece)
        by (nonlinear_arith)
        requires piece > 0, limit >= 0;
    let q = limit / piece;
    let r = limit % piece;
    assert(count <= q ==> count * piece <= q * piece) by (nonlinear_arith)
        requires piece > 0;
    assert(count >= q + 1 ==> count * piece >= (q + 1) * piece) by (nonlinear_arith)
        requires piece > 0;
    assert((q + 1) * piece == q * piece + piece) by (nonlinear_arith);
    assert(piece * q == q * piece) by (nonlinear_arith);
}

} // verus!
