use find_torrent_data::descriptor::{Descriptor, Extent, TargetPath};
use find_torrent_data::index::{DescriptorIndex, Trial};
use sha1::{Digest, Sha1};
use std::path::PathBuf;

fn digest(data: &[u8]) -> [u8; 20] {
    let mut out = [0u8; 20];
    out.copy_from_slice(Sha1::digest(data).as_slice());
    out
}

/// A descriptor of `data`, in extents of 4 bytes.
fn describe(name: &str, data: &[u8]) -> Descriptor {
    let extents = (0..data.len() / 4)
        .map(|j| Extent { offset: 4 * j as i64, size: 4, hash: digest(&data[4 * j..4 * j + 4]) })
        .collect();
    Descriptor {
        path: TargetPath {
            root: String::from("out"),
            name: String::from("album"),
            relative: Some(String::from(name)),
        },
        size: data.len() as i64,
        extents,
    }
}

fn index() -> DescriptorIndex {
    DescriptorIndex::new(vec![
        describe("a", b"aaaaaaaa"),
        describe("b", b"bbbbbbbbbbbb"),
        describe("c", b"cccccccc"),
        describe("d", b"dddddddd"),
    ])
}

#[test]
fn descriptors_are_found_by_size() {
    let index = index();
    assert_eq!(index.len(), 4);
    assert_eq!(index.candidates(8), vec![0, 2, 3]);
    assert_eq!(index.candidates(12), vec![1]);
    assert_eq!(index.descriptor(1).size, 12);
    assert_eq!(index.descriptor(2).path.relative, Some(String::from("c")));
}

#[test]
fn unknown_size_has_no_candidate() {
    let index = index();
    assert!(index.candidates(9).is_empty());
    assert!(index.candidates(0).is_empty());
    assert!(index.candidates(-8).is_empty());
    assert_eq!(index.first_trial(9), Trial::NoMatch);
    assert_eq!(index.find_match(b"aaaaaaaaa", &[2, 3, 2, 2]), None);
}

#[test]
fn empty_index_matches_nothing() {
    let index = DescriptorIndex::new(Vec::new());
    assert_eq!(index.len(), 0);
    assert!(index.candidates(8).is_empty());
    assert_eq!(index.first_trial(8), Trial::NoMatch);
    assert_eq!(index.find_match(b"aaaaaaaa", &[]), None);
}

#[test]
fn trials_go_through_the_descriptors_of_a_size() {
    let index = index();
    assert_eq!(index.first_trial(8), Trial::Check { rank: 0, position: 0 });
    assert_eq!(index.next_trial(8, 0, false), Trial::Check { rank: 1, position: 2 });
    assert_eq!(index.next_trial(8, 1, false), Trial::Check { rank: 2, position: 3 });
    assert_eq!(index.next_trial(8, 2, false), Trial::NoMatch);
    assert_eq!(index.next_trial(8, 1, true), Trial::Matched { position: 2 });
    assert_eq!(index.next_trial(8, 3, true), Trial::NoMatch);
    assert_eq!(index.next_trial(12, 0, true), Trial::Matched { position: 1 });
    assert_eq!(index.next_trial(12, 0, false), Trial::NoMatch);
}

#[test]
fn content_is_matched_to_the_descriptor_it_passes() {
    let index = index();
    let all = [2, 3, 2, 2];
    assert_eq!(index.find_match(b"aaaaaaaa", &all), Some(0));
    assert_eq!(index.find_match(b"cccccccc", &all), Some(2));
    assert_eq!(index.find_match(b"dddddddd", &all), Some(3));
    assert_eq!(index.find_match(b"bbbbbbbbbbbb", &all), Some(1));
    assert_eq!(index.find_match(b"eeeeeeee", &all), None);
    assert_eq!(index.find_match(b"bbbbbbbb", &all), None);
}

#[test]
fn first_descriptor_that_accepts_wins() {
    let index = index();
    // With nothing checked every descriptor of the size accepts.
    assert_eq!(index.find_match(b"dddddddd", &[0, 0, 0, 0]), Some(0));
    // Half of "ccccdddd" passes for c, none of it for a.
    assert_eq!(index.find_match(b"ccccdddd", &[1, 1, 1, 1]), Some(2));
    assert_eq!(index.find_match(b"ccccdddd", &[2, 3, 2, 2]), None);
}

#[test]
fn match_names_both_paths() {
    let index = index();
    let found = index.make_match(2, PathBuf::from("/data/old/xyz.bin"));
    assert_eq!(found.is_path, PathBuf::from("/data/old/xyz.bin"));
    assert_eq!(found.want_path.root, "out");
    assert_eq!(found.want_path.name, "album");
    assert_eq!(found.want_path.relative, Some(String::from("c")));
}

#[test]
fn matching_twice_gives_the_same_result() {
    let index = index();
    let all = [2, 3, 2, 2];
    for data in [&b"aaaaaaaa"[..], &b"cccccccc"[..], &b"zzzz"[..]] {
        assert_eq!(index.find_match(data, &all), index.find_match(data, &all));
    }
    assert_eq!(index.candidates(8), index.candidates(8));
}
