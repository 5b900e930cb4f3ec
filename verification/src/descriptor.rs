//! Descriptors: what each target file of a torrent must look like, and how
//! they are derived from the torrent's metadata.
use vstd::prelude::*;
use crate::digest::unwrap_piece;
use crate::torrent::{lengths_valid, FileEntry, TorrentMeta};

verus! {

/// A contiguous byte range of one target file and the digest expected of it.
#[derive(Clone, Copy, Debug)]
pub struct Extent {
    pub offset: i64,
    pub size: i64,
    pub hash: [u8; 20],
}

/// The mathematical value of an [`Extent`].
pub struct ExtentModel {
    pub offset: int,
    pub size: int,
    pub hash: Seq<u8>,
}

impl View for Extent {
    type V = ExtentModel;

    open spec fn view(&self) -> ExtentModel {
        ExtentModel { offset: self.offset as int, size: self.size as int, hash: self.hash@ }
    }
}

/// Where a target file belongs: the output root, the torrent's name, and for
/// a file of a multi-file torrent its path below the torrent's directory.
#[derive(Clone, Debug)]
pub struct TargetPath {
    pub root: String,
    pub name: String,
    pub relative: Option<String>,
}

/// The mathematical value of a [`TargetPath`].
pub struct PathModel {
    pub root: Seq<char>,
    pub name: Seq<char>,
    pub relative: Option<Seq<char>>,
}

impl View for TargetPath {
    type V = PathModel;

    open spec fn view(&self) -> PathModel {
        PathModel {
            root: self.root@,
            name: self.name@,
            relative: match self.relative {
                Some(r) => Some(r@),
                None => None,
            },
        }
    }
}

impl TargetPath {
    /// A copy with the same three parts.
    pub fn duplicate(&self) -> (copy: TargetPath)
        ensures
            copy@ == self@,
    {
        let relative = match &self.relative {
            Some(r) => Some(r.clone()),
            None => None,
        };
        TargetPath { root: self.root.clone(), name: self.name.clone(), relative }
    }
}

/// The expected identity of one target file.
#[derive(Clone, Debug)]
pub struct Descriptor {
    pub path: TargetPath,
    pub size: i64,
    pub extents: Vec<Extent>,
}

/// The mathematical value of a [`Descriptor`].
pub struct DescriptorModel {
    pub path: PathModel,
    pub size: int,
    pub extents: Seq<ExtentModel>,
}

/// The values of a sequence of extents.
pub open spec fn extent_models(extents: Seq<Extent>) -> Seq<ExtentModel> {
    Seq::new(extents.len(), |j: int| extents[j]@)
}

/// The values of a sequence of descriptors.
pub open spec fn descriptor_models(descriptors: Seq<Descriptor>) -> Seq<DescriptorModel> {
    Seq::new(descriptors.len(), |i: int| descriptors[i]@)
}

impl View for Descriptor {
    type V = DescriptorModel;

    open spec fn view(&self) -> DescriptorModel {
        DescriptorModel {
            path: self.path@,
            size: self.size as int,
            extents: extent_models(self.extents@),
        }
    }
}

/// The sum of the lengths of the first `n` files.
pub open spec fn total_length(files: Seq<FileEntry>, n: int) -> int
    decreases n,
{
    if n <= 0 {
        0
    } else {
        total_length(files, n - 1) + files[n - 1].length
    }
}

/// Where file `i` begins in the torrent's byte stream, the files laid end to
/// end in their listed order.
pub open spec fn file_start(t: TorrentMeta, i: int) -> int {
    total_length(t.file_list(), i)
}

/// Piece `k` exists and lies wholly inside file `i`: no byte of it belongs to
/// another file.
pub open spec fn piece_inside(t: TorrentMeta, i: int, k: int) -> bool {
    &&& 0 <= k < t.pieces@.len()
    &&& file_start(t, i) <= k * t.piece_length
    &&& (k + 1) * t.piece_length <= file_start(t, i) + t.file_list()[i].length
}

/// The first piece that begins at or behind the start of file `i`.
pub open spec fn first_piece(t: TorrentMeta, i: int) -> int {
    (file_start(t, i) + t.piece_length - 1) / (t.piece_length as int)
}

/// One past the last piece that exists and ends at or before the end of file
/// `i`.
pub open spec fn end_piece(t: TorrentMeta, i: int) -> int {
    let whole = (file_start(t, i) + t.file_list()[i].length) / (t.piece_length as int);
    if whole <= t.pieces@.len() {
        whole
    } else {
        t.pieces@.len() as int
    }
}

/// `count` extents of one piece length each, back to back from `offset`,
/// carrying the digests of the pieces from `next` on.
pub open spec fn piece_extents(t: TorrentMeta, offset: int, next: int, count: int) -> Seq<
    ExtentModel,
> {
    Seq::new(
        if count >= 0 { count as nat } else { 0 },
        |j: int|
            ExtentModel {
                offset: offset + j * t.piece_length,
                size: t.piece_length as int,
                hash: t.pieces@[next + j]@.subrange(0, 20),
            },
    )
}

/// The number of extents of file `i` of a multi-file torrent: the number of
/// pieces that lie wholly inside it.
pub open spec fn file_extent_count(t: TorrentMeta, i: int) -> int {
    if end_piece(t, i) > first_piece(t, i) {
        end_piece(t, i) - first_piece(t, i)
    } else {
        0
    }
}

/// The descriptor of file `i` of a multi-file torrent: one extent for each
/// piece that lies wholly inside the file, at the place of that piece in it.
pub open spec fn file_descriptor(t: TorrentMeta, root: Seq<char>, i: int) -> DescriptorModel {
    let file = t.file_list()[i];
    DescriptorModel {
        path: PathModel { root, name: t.name@, relative: Some(file.path@) },
        size: file.length as int,
        extents: piece_extents(
            t,
            first_piece(t, i) * t.piece_length - file_start(t, i),
            first_piece(t, i),
            file_extent_count(t, i),
        ),
    }
}

/// The descriptors of the first `n` files of a multi-file torrent: one for
/// each file that receives at least one extent, in the files' order.
pub open spec fn multi_file_descriptors(t: TorrentMeta, root: Seq<char>, n: int) -> Seq<
    DescriptorModel,
>
    decreases n,
{
    if n <= 0 {
        Seq::empty()
    } else {
        let before = multi_file_descriptors(t, root, n - 1);
        if file_extent_count(t, n - 1) > 0 {
            before.push(file_descriptor(t, root, n - 1))
        } else {
            before
        }
    }
}

/// The one descriptor of a single-file torrent: every piece, back to back
/// from offset 0.
pub open spec fn single_file_descriptor(t: TorrentMeta, root: Seq<char>) -> DescriptorModel {
    DescriptorModel {
        path: PathModel { root, name: t.name@, relative: None },
        size: t.length as int,
        extents: piece_extents(t, 0, 0, t.pieces@.len() as int),
    }
}

/// The descriptors that a torrent's metadata calls for.
pub open spec fn expected_descriptors(t: TorrentMeta, root: Seq<char>) -> Seq<DescriptorModel> {
    match t.files {
        Some(files) => multi_file_descriptors(t, root, files@.len() as int),
        None => seq![single_file_descriptor(t, root)],
    }
}

/// The sum of the sizes of a sequence of extents.
pub open spec fn extent_bytes(extents: Seq<ExtentModel>) -> int
    decreases extents.len(),
{
    if extents.len() == 0 {
        0
    } else {
        extent_bytes(extents.drop_last()) + extents.last().size
    }
}

/// The sum of the sizes of all extents of a sequence of descriptors.
pub open spec fn total_extent_bytes(descriptors: Seq<DescriptorModel>) -> int
    decreases descriptors.len(),
{
    if descriptors.len() == 0 {
        0
    } else {
        total_extent_bytes(descriptors.drop_last()) + extent_bytes(descriptors.last().extents)
    }
}

/// Every extent of the descriptor lies inside `[0, size)` of its file.
pub open spec fn extents_inside(d: DescriptorModel) -> bool {
    forall|j: int|
        0 <= j < d.extents.len() ==> 0 <= (#[trigger] d.extents[j]).offset && d.extents[j].offset
            + d.extents[j].size <= d.size
}

/// The extents are `l` bytes long each and follow one another without a gap,
/// so their offsets rise strictly and no two overlap.
pub open spec fn back_to_back(extents: Seq<ExtentModel>, l: int) -> bool {
    &&& forall|j: int| 0 <= j < extents.len() ==> (#[trigger] extents[j]).size == l
    &&& forall|j: int|
        0 <= j && j + 1 < extents.len() ==> (#[trigger] extents[j + 1]).offset == extents[j].offset
            + l
}

/// Extents laid out piece by piece are one piece long each and follow one
/// another without a gap.
pub proof fn lemma_piece_extents_back_to_back(t: TorrentMeta, offset: int, next: int, count: int)
    ensures
        back_to_back(piece_extents(t, offset, next, count), t.piece_length as int),
{
    let extents = piece_extents(t, offset, next, count);
    let l = t.piece_length as int;
    assert forall|j: int| 0 <= j && j + 1 < extents.len() implies (#[trigger] extents[j
        + 1]).offset == extents[j].offset + l by {
        assert((j + 1) * l == j * l + l) by (nonlinear_arith);
    }
}

/// The files begin one behind the other.
pub proof fn lemma_file_starts_rise(t: TorrentMeta, i: int, j: int)
    requires
        lengths_valid(t.file_list()),
        0 <= i <= j <= t.file_list().len(),
    ensures
        0 <= file_start(t, i) <= file_start(t, j),
    decreases j,
{
    if i < j {
        lemma_file_starts_rise(t, i, j - 1);
    } else if i > 0 {
        lemma_file_starts_rise(t, i - 1, i - 1);
    }
}

/// The quotient `x / l` is the one `q` with `q * l <= x < q * l + l`.
proof fn lemma_quotient(x: int, l: int)
    requires
        l > 0,
    ensures
        (x / l) * l <= x < (x / l) * l + l,
{
    assert((x / l) * l <= x < (x / l) * l + l) by (nonlinear_arith)
        requires
            l > 0,
    ;
}

/// Multiplying by a positive piece length keeps the order of piece numbers.
proof fn lemma_scale(a: int, b: int, l: int)
    requires
        l > 0,
    ensures
        a <= b ==> a * l <= b * l,
        a < b ==> a * l + l <= b * l,
        (a + 1) * l == a * l + l,
{
    assert(a <= b ==> a * l <= b * l) by (nonlinear_arith)
        requires
            l > 0,
    ;
    assert(a < b ==> (a + 1) * l <= b * l) by (nonlinear_arith)
        requires
            l > 0,
    ;
    assert((a + 1) * l == a * l + l) by (nonlinear_arith);
}

/// The extents of a file stand for exactly the pieces that lie wholly inside
/// it: piece `k` is among the pieces from `first_piece` on that the file
/// receives if and only if it exists and no byte of it lies outside the file.
pub proof fn lemma_pieces_of_file(t: TorrentMeta, i: int, k: int)
    requires
        t.wf(),
        0 <= i < t.file_list().len(),
    ensures
        0 <= first_piece(t, i),
        (first_piece(t, i) <= k < first_piece(t, i) + file_extent_count(t, i)) <==> piece_inside(
            t,
            i,
            k,
        ),
{
    let l = t.piece_length as int;
    let start = file_start(t, i);
    let end = start + t.file_list()[i].length;
    lemma_file_starts_rise(t, i, i);
    let first = first_piece(t, i);
    let whole = end / l;
    lemma_quotient(start + l - 1, l);
    lemma_quotient(end, l);
    lemma_scale(first, k, l);
    lemma_scale(k, first, l);
    lemma_scale(k + 1, whole, l);
    lemma_scale(whole, k + 1, l);
    lemma_scale(first, 0, l);
    assert(start <= k * l <==> first <= k);
    assert((k + 1) * l <= end <==> k + 1 <= whole);
}

/// Each extent of a file's descriptor lies where its piece lies in the byte
/// stream, and that piece lies wholly inside the file: the digest is that of
/// exactly the extent's bytes.
pub proof fn lemma_extent_is_whole_piece(t: TorrentMeta, root: Seq<char>, i: int, j: int)
    requires
        t.wf(),
        0 <= i < t.file_list().len(),
        0 <= j < file_extent_count(t, i),
    ensures
        piece_inside(t, i, first_piece(t, i) + j),
        file_descriptor(t, root, i).extents[j] == (ExtentModel {
            offset: (first_piece(t, i) + j) * t.piece_length - file_start(t, i),
            size: t.piece_length as int,
            hash: t.pieces@[first_piece(t, i) + j]@.subrange(0, 20),
        }),
{
    lemma_pieces_of_file(t, i, first_piece(t, i) + j);
    assert((first_piece(t, i) + j) * t.piece_length == first_piece(t, i) * t.piece_length + j
        * t.piece_length) by (nonlinear_arith);
}

/// A piece that straddles the boundary between two files is attributed to
/// neither: where a file begins strictly inside piece `k`, no file has an
/// extent for that piece.
pub proof fn lemma_straddling_piece_unused(t: TorrentMeta, k: int, m: int, i: int)
    requires
        t.wf(),
        0 <= m <= t.file_list().len(),
        k * t.piece_length < file_start(t, m) < (k + 1) * t.piece_length,
        0 <= i < t.file_list().len(),
    ensures
        !piece_inside(t, i, k),
        !(first_piece(t, i) <= k < first_piece(t, i) + file_extent_count(t, i)),
{
    lemma_pieces_of_file(t, i, k);
    assert(file_start(t, i + 1) == file_start(t, i) + t.file_list()[i].length);
    if m <= i {
        lemma_file_starts_rise(t, m, i);
    } else {
        lemma_file_starts_rise(t, i + 1, m);
    }
}

/// A file shorter than a piece has no extent, and so no descriptor.
pub proof fn lemma_short_file_has_no_extent(t: TorrentMeta, i: int)
    requires
        t.wf(),
        0 <= i < t.file_list().len(),
        t.file_list()[i].length < t.piece_length,
    ensures
        file_extent_count(t, i) == 0,
{
    let first = first_piece(t, i);
    lemma_pieces_of_file(t, i, first);
    lemma_scale(first, first, t.piece_length as int);
}

/// Every descriptor of a multi-file torrent is that of one of its files, of
/// one that has an extent.
pub proof fn lemma_descriptor_of_file(t: TorrentMeta, root: Seq<char>, n: int, x: int) -> (i: int)
    requires
        0 <= n,
        0 <= x < multi_file_descriptors(t, root, n).len(),
    ensures
        0 <= i < n,
        file_extent_count(t, i) > 0,
        multi_file_descriptors(t, root, n)[x] == file_descriptor(t, root, i),
    decreases n,
{
    let before = multi_file_descriptors(t, root, n - 1);
    if x < before.len() {
        lemma_descriptor_of_file(t, root, n - 1, x)
    } else {
        n - 1
    }
}

/// The piece digests differ from one another.
pub open spec fn digests_distinct(t: TorrentMeta) -> bool {
    forall|a: int, b: int|
        0 <= a < t.pieces@.len() && 0 <= b < t.pieces@.len() && a != b ==> (
        #[trigger] t.pieces@[a])@.subrange(0, 20) != (#[trigger] t.pieces@[b])@.subrange(0, 20)
}

/// Where the piece digests differ from one another, the digest of a piece
/// that straddles the boundary between two files occurs in no extent of any
/// descriptor.
pub proof fn lemma_straddling_digest_unused(
    t: TorrentMeta,
    root: Seq<char>,
    k: int,
    m: int,
    x: int,
    j: int,
)
    requires
        t.wf(),
        t.files is Some,
        digests_distinct(t),
        0 <= k < t.pieces@.len(),
        0 <= m <= t.file_list().len(),
        k * t.piece_length < file_start(t, m) < (k + 1) * t.piece_length,
        0 <= x < expected_descriptors(t, root).len(),
        0 <= j < expected_descriptors(t, root)[x].extents.len(),
    ensures
        expected_descriptors(t, root)[x].extents[j].hash != t.pieces@[k]@.subrange(0, 20),
{
    let n = t.file_list().len() as int;
    let i = lemma_descriptor_of_file(t, root, n, x);
    lemma_extent_is_whole_piece(t, root, i, j);
    lemma_straddling_piece_unused(t, k, m, i);
}

/// The walk stands before file `i` with piece `next` unused, which begins
/// `offset` bytes into the file.
spec fn in_step(t: TorrentMeta, i: int, offset: int, next: int) -> bool {
    &&& 0 <= offset < t.piece_length
    &&& 0 <= next <= t.pieces@.len()
    &&& next * t.piece_length == file_start(t, i) + offset
}

/// A file that the walk passes over has no extent.
proof fn lemma_file_passed(t: TorrentMeta, i: int, offset: int, next: int)
    requires
        t.wf(),
        0 <= i < t.file_list().len(),
        in_step(t, i, offset, next),
        offset >= t.file_list()[i].length,
    ensures
        file_extent_count(t, i) == 0,
{
    let l = t.piece_length as int;
    let end = file_start(t, i) + t.file_list()[i].length;
    lemma_quotient(file_start(t, i) + l - 1, l);
    lemma_quotient(end, l);
    lemma_scale(next, first_piece(t, i), l);
    lemma_scale(first_piece(t, i), next, l);
    lemma_scale(next, end / l, l);
    assert(first_piece(t, i) == next);
    assert(end / l <= next);
}

/// A file from which the walk took `taken` pieces, until the rest was
/// shorter than a piece or none was left, has `taken` extents, from the
/// walk's offset and piece on.
proof fn lemma_file_walked(t: TorrentMeta, i: int, offset: int, next: int, taken: int)
    requires
        t.wf(),
        0 <= i < t.file_list().len(),
        in_step(t, i, offset, next),
        0 <= taken,
        next + taken <= t.pieces@.len(),
        offset + taken * t.piece_length <= t.file_list()[i].length,
        next + taken == t.pieces@.len() || t.file_list()[i].length - (offset + taken
            * t.piece_length) < t.piece_length,
    ensures
        first_piece(t, i) == next,
        first_piece(t, i) * t.piece_length - file_start(t, i) == offset,
        file_extent_count(t, i) == taken,
        (next + taken) * t.piece_length == file_start(t, i) + offset + taken * t.piece_length,
{
    let l = t.piece_length as int;
    let end = file_start(t, i) + t.file_list()[i].length;
    let last = next + taken;
    lemma_quotient(file_start(t, i) + l - 1, l);
    lemma_quotient(end, l);
    lemma_scale(next, first_piece(t, i), l);
    lemma_scale(first_piece(t, i), next, l);
    assert(first_piece(t, i) == next);
    assert(last * l == next * l + taken * l) by (nonlinear_arith)
        requires
            last == next + taken,
    ;
    lemma_scale(last, end / l, l);
    lemma_scale(end / l, last, l);
    assert(last <= end / l);
    if last < t.pieces@.len() {
        assert(end / l == last);
    }
    assert(end_piece(t, i) == last);
}

/// Behind the end of the pieces no file has an extent.
proof fn lemma_walk_over(t: TorrentMeta, root: Seq<char>, i: int, n: int)
    requires
        t.wf(),
        0 <= i <= n <= t.file_list().len(),
        file_start(t, i) >= t.pieces@.len() * t.piece_length,
    ensures
        multi_file_descriptors(t, root, n) == multi_file_descriptors(t, root, i),
        total_length(t.file_list(), i) <= total_length(t.file_list(), n),
    decreases n - i,
{
    if i < n {
        lemma_walk_over(t, root, i, n - 1);
        lemma_file_starts_rise(t, i, n - 1);
        let l = t.piece_length as int;
        let count = t.pieces@.len() as int;
        lemma_quotient(file_start(t, n - 1) + l - 1, l);
        lemma_scale(first_piece(t, n - 1), count, l);
        assert(first_piece(t, n - 1) >= count);
        assert(file_extent_count(t, n - 1) == 0);
    }
}

/// What the taking of one file's whole pieces returns.
struct Taken {
    extents: Vec<Extent>,
    offset: i64,
    next: usize,
}

/// Takes the whole pieces of a file of `length`, from `offset` in it and from
/// piece `next` on.
fn take_pieces(torrent: &TorrentMeta, length: i64, offset: i64, next: usize) -> (taken: Taken)
    requires
        torrent.wf(),
        0 <= offset < length,
        next <= torrent.pieces@.len(),
    ensures
        extent_models(taken.extents@) == piece_extents(
            *torrent,
            offset as int,
            next as int,
            taken.extents@.len() as int,
        ),
        taken.offset == offset + taken.extents@.len() * torrent.piece_length,
        taken.next == next + taken.extents@.len(),
        taken.next <= torrent.pieces@.len(),
        taken.offset <= length,
        taken.next == torrent.pieces@.len() || length - taken.offset < torrent.piece_length,
        extent_bytes(extent_models(taken.extents@)) == taken.extents@.len() * torrent.piece_length,
{
    let piece_length: i64 = torrent.piece_length;
    let n: usize = torrent.pieces.len();
    let mut extents: Vec<Extent> = Vec::new();
    let mut at: i64 = offset;
    let mut c: usize = next;
    assert(extent_bytes(extent_models(extents@)) == 0);
    while length - at >= piece_length && c < n
        invariant
            torrent.wf(),
            n == torrent.pieces@.len(),
            piece_length == torrent.piece_length,
            0 <= offset <= at <= length,
            next <= c <= n,
            extents@.len() == c - next,
            at == offset + (c - next) * piece_length,
            extent_models(extents@) =~= piece_extents(
                *torrent,
                offset as int,
                next as int,
                c - next,
            ),
            extent_bytes(extent_models(extents@)) == (c - next) * piece_length,
        decreases n - c,
    {
        let hash = unwrap_piece(torrent.pieces[c].as_slice());
        let extent = Extent { offset: at, size: piece_length, hash };
        proof {
            assert((c + 1 - next) * piece_length == (c - next) * piece_length + piece_length)
                by (nonlinear_arith);
            let grown = extents@.push(extent);
            assert(extent_models(grown).drop_last() =~= extent_models(extents@));
            assert(extent_models(grown).last() == extent@);
        }
        let ghost before = extents@;
        extents.push(extent);
        at = at + piece_length;
        c += 1;
        proof {
            let want = piece_extents(*torrent, offset as int, next as int, c - next);
            assert forall|j: int| 0 <= j < extents@.len() implies extent_models(extents@)[j]
                == want[j] by {
                if j < before.len() {
                    assert(extent_models(before)[j] == want[j]);
                } else {
                    assert(extents@[j] == extent);
                }
            }
        }
    }
    Taken { extents, offset: at, next: c }
}

/// The descriptors of a multi-file torrent.
fn multi_file(torrent: &TorrentMeta, files: &Vec<FileEntry>, want_prefix: &str) -> (descriptors:
    Vec<Descriptor>)
    requires
        torrent.wf(),
        torrent.files == Some(*files),
    ensures
        descriptor_models(descriptors@) == multi_file_descriptors(
            *torrent,
            want_prefix@,
            files@.len() as int,
        ),
        forall|i: int| 0 <= i < descriptors@.len() ==> extents_inside((#[trigger] descriptors@[i])@),
        forall|i: int|
            0 <= i < descriptors@.len() ==> (#[trigger] descriptors@[i])@.extents.len() > 0
                && back_to_back(descriptors@[i]@.extents, torrent.piece_length as int),
        total_extent_bytes(descriptor_models(descriptors@)) <= total_length(
            files@,
            files@.len() as int,
        ),
{
    let piece_length: i64 = torrent.piece_length;
    let n: usize = torrent.pieces.len();
    let mut descriptors: Vec<Descriptor> = Vec::new();
    let mut offset: i64 = 0;
    let mut next: usize = 0;
    let mut done = false;
    let mut i: usize = 0;
    assert(torrent.file_list() == files@);
    assert(total_extent_bytes(descriptor_models(descriptors@)) == 0);
    assert(next * piece_length == 0) by (nonlinear_arith)
        requires
            next == 0,
    ;
    while i < files.len() && !done
        invariant
            torrent.wf(),
            torrent.file_list() == files@,
            n == torrent.pieces@.len(),
            piece_length == torrent.piece_length,
            i <= files@.len(),
            !done ==> in_step(*torrent, i as int, offset as int, next as int),
            done ==> file_start(*torrent, i as int) >= n * piece_length,
            descriptor_models(descriptors@) =~= multi_file_descriptors(
                *torrent,
                want_prefix@,
                i as int,
            ),
            forall|m: int|
                0 <= m < descriptors@.len() ==> extents_inside((#[trigger] descriptors@[m])@),
            forall|m: int|
                0 <= m < descriptors@.len() ==> (#[trigger] descriptors@[m])@.extents.len() > 0
                    && back_to_back(descriptors@[m]@.extents, piece_length as int),
            total_extent_bytes(descriptor_models(descriptors@)) <= total_length(files@, i as int),
        decreases files@.len() - i,
    {
        let file = &files[i];
        let length: i64 = file.length;
        assert(files@[i as int].length >= 0);
        assert(file_start(*torrent, i + 1) == file_start(*torrent, i as int) + length);
        if offset >= length {
            proof {
                lemma_file_passed(*torrent, i as int, offset as int, next as int);
            }
            offset = offset - length;
        } else {
            let taken = take_pieces(torrent, length, offset, next);
            let count: usize = taken.extents.len();
            proof {
                lemma_file_walked(*torrent, i as int, offset as int, next as int, count as int);
            }
            let rest: i64 = length - taken.offset;
            let used: usize = taken.next;
            if count > 0 {
                let descriptor = Descriptor {
                    path: TargetPath {
                        root: want_prefix.to_owned(),
                        name: torrent.name.clone(),
                        relative: Some(file.path.clone()),
                    },
                    size: length,
                    extents: taken.extents,
                };
                proof {
                    assert(descriptor@ == file_descriptor(*torrent, want_prefix@, i as int));
                    assert forall|j: int| 0 <= j < descriptor@.extents.len() implies 0 <= (
                    #[trigger] descriptor@.extents[j]).offset && descriptor@.extents[j].offset
                        + descriptor@.extents[j].size <= descriptor@.size by {
                        lemma_scale(j, count as int, piece_length as int);
                        lemma_scale(0, j, piece_length as int);
                    }
                    lemma_piece_extents_back_to_back(
                        *torrent,
                        offset as int,
                        next as int,
                        count as int,
                    );
                    let grown = descriptors@.push(descriptor);
                    assert(descriptor_models(grown).drop_last() =~= descriptor_models(
                        descriptors@,
                    ));
                    assert(descriptor_models(grown).last() == descriptor@);
                    assert(descriptor_models(grown) =~= descriptor_models(descriptors@).push(
                        descriptor@,
                    ));
                }
                descriptors.push(descriptor);
            }
            proof {
                lemma_scale(used as int, used as int, piece_length as int);
            }
            if rest <= 0 {
                offset = 0;
                next = used;
            } else if used < n {
                offset = piece_length - rest;
                next = used + 1;
            } else {
                done = true;
            }
        }
        i += 1;
    }
    proof {
        if i < files@.len() {
            lemma_walk_over(*torrent, want_prefix@, i as int, files@.len() as int);
        }
    }
    descriptors
}

/// The descriptor of a single-file torrent.
fn single_file(torrent: &TorrentMeta, want_prefix: &str) -> (descriptor: Descriptor)
    requires
        torrent.wf(),
    ensures
        descriptor@ == single_file_descriptor(*torrent, want_prefix@),
        back_to_back(descriptor@.extents, torrent.piece_length as int),
{
    let piece_length: i64 = torrent.piece_length;
    let n: usize = torrent.pieces.len();
    let mut extents: Vec<Extent> = Vec::new();
    let mut at: i64 = 0;
    let mut c: usize = 0;
    while c < n
        invariant
            torrent.wf(),
            n == torrent.pieces@.len(),
            piece_length == torrent.piece_length,
            c <= n,
            extents@.len() == c,
            at == c * piece_length,
            extent_models(extents@) =~= piece_extents(*torrent, 0, 0, c as int),
        decreases n - c,
    {
        let hash = unwrap_piece(torrent.pieces[c].as_slice());
        let extent = Extent { offset: at, size: piece_length, hash };
        proof {
            assert((c + 1) * piece_length == c * piece_length + piece_length && (c + 1)
                * piece_length <= n * piece_length) by (nonlinear_arith)
                requires
                    c < n,
                    piece_length > 0,
            ;
        }
        let ghost before = extents@;
        extents.push(extent);
        at = at + piece_length;
        c += 1;
        proof {
            let want = piece_extents(*torrent, 0, 0, c as int);
            assert forall|j: int| 0 <= j < extents@.len() implies extent_models(extents@)[j]
                == want[j] by {
                if j < before.len() {
                    assert(extent_models(before)[j] == want[j]);
                } else {
                    assert(extents@[j] == extent);
                }
            }
        }
    }
    proof {
        lemma_piece_extents_back_to_back(*torrent, 0, 0, n as int);
    }
    Descriptor {
        path: TargetPath {
            root: want_prefix.to_owned(),
            name: torrent.name.clone(),
            relative: None,
        },
        size: torrent.length,
        extents,
    }
}

/// Derives the descriptors of a torrent's target files below `want_prefix`.
///
/// A single-file torrent gives one descriptor that carries every piece. A
/// multi-file torrent gives one descriptor for each file that a piece of the
/// torrent lies wholly inside, with one extent for each such piece; no extent
/// reaches outside its file, and all extents together are no longer than all
/// files together. The extents of a descriptor are one piece long each and
/// follow one another without a gap.
pub fn make_descriptors(torrent: &TorrentMeta, want_prefix: &str) -> (descriptors: Vec<Descriptor>)
    requires
        torrent.wf(),
    ensures
        descriptor_models(descriptors@) == expected_descriptors(*torrent, want_prefix@),
        forall|i: int|
            0 <= i < descriptors@.len() ==> back_to_back(
                (#[trigger] descriptors@[i])@.extents,
                torrent.piece_length as int,
            ),
        torrent.files is Some ==> forall|i: int|
            0 <= i < descriptors@.len() ==> extents_inside((#[trigger] descriptors@[i])@)
                && descriptors@[i]@.extents.len() > 0,
        torrent.files is Some ==> total_extent_bytes(descriptor_models(descriptors@))
            <= total_length(torrent.file_list(), torrent.file_list().len() as int),
{
    match &torrent.files {
        Some(files) => multi_file(torrent, files, want_prefix),
        None => {
            let descriptor = single_file(torrent, want_prefix);
            let descriptors = vec![descriptor];
            assert(descriptor_models(descriptors@) =~= seq![
                single_file_descriptor(*torrent, want_prefix@),
            ]);
            descriptors
        },
    }
}

/// A single-file torrent with `n` pieces of length `l` has exactly one
/// descriptor; it has `n` extents, the `j`-th at offset `j * l`, of size `l`,
/// with the digest of piece `j`.
pub proof fn lemma_single_file_layout(t: TorrentMeta, root: Seq<char>)
    requires
        t.wf(),
        t.files is None,
    ensures
        expected_descriptors(t, root).len() == 1,
        expected_descriptors(t, root)[0].extents.len() == t.pieces@.len(),
        forall|j: int|
            0 <= j < t.pieces@.len() ==> (#[trigger] expected_descriptors(t, root)[0].extents[j])
                == (ExtentModel {
                offset: j * t.piece_length,
                size: t.piece_length as int,
                hash: t.pieces@[j]@.subrange(0, 20),
            }),
{
}

} // verus!
