use find_torrent_data::descriptor::{make_descriptors, Descriptor};
use find_torrent_data::digest::unwrap_piece;
use find_torrent_data::torrent::{FileEntry, TorrentMeta};

fn piece(tag: u8) -> Vec<u8> {
    vec![tag; 20]
}

fn pieces(count: u8) -> Vec<Vec<u8>> {
    (0..count).map(piece).collect()
}

fn multi(lengths: &[i64], piece_length: i64, piece_count: u8) -> TorrentMeta {
    let files = lengths
        .iter()
        .enumerate()
        .map(|(i, length)| FileEntry { length: *length, path: format!("dir/file{}", i) })
        .collect();
    TorrentMeta {
        name: String::from("album"),
        length: lengths.iter().sum(),
        piece_length,
        pieces: pieces(piece_count),
        files: Some(files),
    }
}

fn layout(d: &Descriptor) -> Vec<(i64, i64, u8)> {
    d.extents.iter().map(|e| (e.offset, e.size, e.hash[0])).collect()
}

#[test]
fn unwrap_piece_keeps_the_first_twenty_bytes() {
    let long: Vec<u8> = (0u8..25).collect();
    let digest = unwrap_piece(&long);
    assert_eq!(digest.to_vec(), (0u8..20).collect::<Vec<u8>>());
}

#[test]
fn single_file_torrent_gets_every_piece_back_to_back() {
    let torrent = TorrentMeta {
        name: String::from("movie.mkv"),
        length: 11,
        piece_length: 4,
        pieces: pieces(3),
        files: None,
    };
    assert!(torrent.is_valid());
    let descriptors = make_descriptors(&torrent, "out");
    assert_eq!(descriptors.len(), 1);
    let d = &descriptors[0];
    assert_eq!(d.size, 11);
    assert_eq!(d.path.root, "out");
    assert_eq!(d.path.name, "movie.mkv");
    assert_eq!(d.path.relative, None);
    assert_eq!(layout(d), vec![(0, 4, 0), (4, 4, 1), (8, 4, 2)]);
    for (j, e) in d.extents.iter().enumerate() {
        assert_eq!(e.hash.to_vec(), torrent.pieces[j]);
    }
}

#[test]
fn single_file_torrent_without_pieces_has_an_empty_descriptor() {
    let torrent = TorrentMeta {
        name: String::from("empty"),
        length: 0,
        piece_length: 16,
        pieces: Vec::new(),
        files: None,
    };
    let descriptors = make_descriptors(&torrent, "out");
    assert_eq!(descriptors.len(), 1);
    assert!(descriptors[0].extents.is_empty());
}

#[test]
fn straddling_piece_belongs_to_neither_file() {
    // One and a half pieces, then half a piece: two pieces in all.
    let torrent = multi(&[6, 2], 4, 2);
    assert!(torrent.is_valid());
    let descriptors = make_descriptors(&torrent, "out");
    assert_eq!(descriptors.len(), 1);
    let d = &descriptors[0];
    assert_eq!(d.size, 6);
    assert_eq!(d.path.relative, Some(String::from("dir/file0")));
    assert_eq!(d.path.name, "album");
    assert_eq!(d.path.root, "out");
    assert_eq!(layout(d), vec![(0, 4, 0)]);
}

#[test]
fn pieces_are_shared_along_the_file_list() {
    let torrent = multi(&[10, 3, 9], 4, 6);
    let descriptors = make_descriptors(&torrent, "out");
    assert_eq!(descriptors.len(), 2);
    assert_eq!(descriptors[0].size, 10);
    assert_eq!(layout(&descriptors[0]), vec![(0, 4, 0), (4, 4, 1)]);
    assert_eq!(descriptors[1].size, 9);
    assert_eq!(descriptors[1].path.relative, Some(String::from("dir/file2")));
    assert_eq!(layout(&descriptors[1]), vec![(3, 4, 4)]);
}

#[test]
fn extents_stay_inside_their_files() {
    let torrent = multi(&[10, 3, 9, 0, 1, 17], 4, 10);
    let descriptors = make_descriptors(&torrent, "out");
    let mut total: i64 = 0;
    for d in &descriptors {
        for e in &d.extents {
            assert_eq!(e.size, 4);
            assert!(0 <= e.offset);
            assert!(e.offset + e.size <= d.size);
            total += e.size;
        }
        for pair in d.extents.windows(2) {
            assert_eq!(pair[0].offset + pair[0].size, pair[1].offset);
        }
    }
    assert!(total <= 40);
    assert_eq!(total, 28);
}

#[test]
fn file_shorter_than_the_running_offset_is_passed_over() {
    // The piece that straddles out of the first file covers the second whole.
    let torrent = multi(&[5, 2, 9], 4, 4);
    let descriptors = make_descriptors(&torrent, "out");
    assert_eq!(descriptors.len(), 2);
    assert_eq!(layout(&descriptors[0]), vec![(0, 4, 0)]);
    assert_eq!(descriptors[1].size, 9);
    assert_eq!(layout(&descriptors[1]), vec![(1, 4, 2), (5, 4, 3)]);
}

#[test]
fn file_behind_a_piece_boundary_starts_at_offset_zero() {
    let torrent = multi(&[8, 4, 12], 4, 6);
    let descriptors = make_descriptors(&torrent, "out");
    assert_eq!(descriptors.len(), 3);
    assert_eq!(layout(&descriptors[0]), vec![(0, 4, 0), (4, 4, 1)]);
    assert_eq!(layout(&descriptors[1]), vec![(0, 4, 2)]);
    assert_eq!(descriptors[2].size, 12);
    assert_eq!(layout(&descriptors[2]), vec![(0, 4, 3), (4, 4, 4), (8, 4, 5)]);
}

#[test]
fn files_of_one_piece_each_get_their_own_piece() {
    let torrent = multi(&[4, 4], 4, 2);
    let descriptors = make_descriptors(&torrent, "out");
    assert_eq!(descriptors.len(), 2);
    assert_eq!(descriptors[0].path.relative, Some(String::from("dir/file0")));
    assert_eq!(layout(&descriptors[0]), vec![(0, 4, 0)]);
    assert_eq!(descriptors[1].path.relative, Some(String::from("dir/file1")));
    assert_eq!(layout(&descriptors[1]), vec![(0, 4, 1)]);

    let torrent = multi(&[4, 8], 4, 3);
    let descriptors = make_descriptors(&torrent, "out");
    assert_eq!(descriptors.len(), 2);
    assert_eq!(layout(&descriptors[0]), vec![(0, 4, 0)]);
    assert_eq!(layout(&descriptors[1]), vec![(0, 4, 1), (4, 4, 2)]);
}

#[test]
fn empty_file_on_a_piece_boundary_gets_no_descriptor() {
    let torrent = multi(&[8, 0, 4], 4, 3);
    let descriptors = make_descriptors(&torrent, "out");
    assert_eq!(descriptors.len(), 2);
    assert_eq!(layout(&descriptors[0]), vec![(0, 4, 0), (4, 4, 1)]);
    assert_eq!(descriptors[1].path.relative, Some(String::from("dir/file2")));
    assert_eq!(layout(&descriptors[1]), vec![(0, 4, 2)]);
}

#[test]
fn straddling_piece_occurs_in_no_extent() {
    // Pieces 2, 3 and 5 straddle a boundary between files.
    let torrent = multi(&[10, 3, 9], 4, 6);
    let descriptors = make_descriptors(&torrent, "out");
    let used: Vec<u8> =
        descriptors.iter().flat_map(|d| d.extents.iter().map(|e| e.hash[0])).collect();
    assert_eq!(used, vec![0, 1, 4]);
}

#[test]
fn running_out_of_pieces_stops_the_walk() {
    let torrent = multi(&[10, 3, 9], 4, 1);
    let descriptors = make_descriptors(&torrent, "out");
    assert_eq!(descriptors.len(), 1);
    assert_eq!(layout(&descriptors[0]), vec![(0, 4, 0)]);

    let torrent = multi(&[10, 3, 9], 4, 2);
    let descriptors = make_descriptors(&torrent, "out");
    assert_eq!(descriptors.len(), 1);
    assert_eq!(layout(&descriptors[0]), vec![(0, 4, 0), (4, 4, 1)]);

    // The straddling piece is there, the next one is not.
    let torrent = multi(&[10, 3, 9], 4, 4);
    let descriptors = make_descriptors(&torrent, "out");
    assert_eq!(descriptors.len(), 1);
}

#[test]
fn no_files_or_no_pieces_give_no_descriptor() {
    assert!(make_descriptors(&multi(&[], 4, 3), "out").is_empty());
    assert!(make_descriptors(&multi(&[10, 3], 4, 0), "out").is_empty());
}

#[test]
fn building_twice_gives_the_same_descriptors() {
    let torrent = multi(&[10, 3, 9], 4, 6);
    let first = make_descriptors(&torrent, "out");
    let second = make_descriptors(&torrent, "out");
    assert_eq!(first.len(), second.len());
    for (a, b) in first.iter().zip(second.iter()) {
        assert_eq!(a.size, b.size);
        assert_eq!(a.path.relative, b.path.relative);
        assert_eq!(layout(a), layout(b));
    }
}

#[test]
fn metadata_validity_is_decided() {
    let good = multi(&[10, 3, 9], 4, 6);
    assert!(good.is_valid());

    let mut zero_piece = multi(&[10], 4, 3);
    zero_piece.piece_length = 0;
    assert!(!zero_piece.is_valid());

    let mut negative_total = multi(&[10], 4, 3);
    negative_total.length = -1;
    assert!(!negative_total.is_valid());

    let negative_file = multi(&[10, -1], 4, 3);
    assert!(!negative_file.is_valid());

    let mut short_piece = multi(&[10], 4, 3);
    short_piece.pieces[1] = vec![0u8; 19];
    assert!(!short_piece.is_valid());

    let mut too_long = multi(&[10], 4, 3);
    too_long.piece_length = i64::MAX / 2;
    assert!(!too_long.is_valid());
    too_long.piece_length = i64::MAX / 3;
    assert!(too_long.is_valid());
}

#[test]
fn target_path_copy_keeps_all_parts() {
    let torrent = multi(&[10], 4, 3);
    let descriptors = make_descriptors(&torrent, "out");
    let copy = descriptors[0].path.duplicate();
    assert_eq!(copy.root, "out");
    assert_eq!(copy.name, "album");
    assert_eq!(copy.relative, Some(String::from("dir/file0")));
}
