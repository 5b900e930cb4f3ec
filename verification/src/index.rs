//! The index of descriptors by size, and the matching of candidate files
//! against it.
use vstd::prelude::*;
use multimap::MultiMap;
use std::path::PathBuf;
use crate::descriptor::{Descriptor, TargetPath};
use crate::verify::verified;

verus! {

/// The type `PathBuf` of std, taken as opaque: a path is carried along and
/// never looked into.
#[verifier::external_type_specification]
#[verifier::external_body]
pub struct ExPathBuf(std::path::PathBuf);

/// The type `MultiMap` of the `multimap` crate, taken as opaque: what one
/// holds is known only through `multimap_entries`.
#[verifier::external_type_specification]
#[verifier::external_body]
#[verifier::reject_recursive_types(K)]
#[verifier::reject_recursive_types(V)]
#[verifier::reject_recursive_types(S)]
pub struct ExMultiMap<K, V, S>(multimap::MultiMap<K, V, S>);

/// What a multimap holds: for each key that is present, its values in the
/// order in which they were inserted.
pub uninterp spec fn multimap_entries(m: MultiMap<i64, usize>) -> Map<i64, Seq<usize>>;

/// The entries of a multimap that holds no key.
pub open spec fn no_entries() -> Map<i64, Seq<usize>> {
    Map::empty()
}

/// Calls `MultiMap::new` of the `multimap` crate.
///
/// Trusted: the new multimap holds no key.
#[verifier::external_body]
fn multimap_new() -> (created: MultiMap<i64, usize>)
    ensures
        multimap_entries(created) == no_entries(),
{
    MultiMap::new()
}

/// Calls `MultiMap::insert` of the `multimap` crate.
///
/// Trusted: the value is appended to the values of a key that is present; a
/// key that is absent gets the value as its only one; no other key changes.
#[verifier::external_body]
fn multimap_insert(m: &mut MultiMap<i64, usize>, key: i64, value: usize)
    ensures
        multimap_entries(*final(m)) == multimap_entries(*old(m)).insert(
            key,
            entries_for(multimap_entries(*old(m)), key).push(value),
        ),
{
    m.insert(key, value)
}

/// Calls `MultiMap::get_vec` of the `multimap` crate.
///
/// Trusted: the result is the values of the key, in insertion order, where the
/// key is present, and `None` where it is not.
#[verifier::external_body]
fn multimap_get_vec(m: &MultiMap<i64, usize>, key: i64) -> (values: Option<&Vec<usize>>)
    ensures
        match values {
            Some(v) => multimap_entries(*m).contains_key(key) && v@ == multimap_entries(*m)[key],
            None => !multimap_entries(*m).contains_key(key),
        },
{
    m.get_vec(&key)
}

/// The values held for `size`; none where the key is absent.
pub open spec fn entries_for(entries: Map<i64, Seq<usize>>, size: i64) -> Seq<usize> {
    if entries.contains_key(size) {
        entries[size]
    } else {
        Seq::empty()
    }
}

/// The positions, among the first `n` descriptors, of those of `size`, in
/// ascending order.
pub open spec fn positions_of_size(ds: Seq<Descriptor>, size: i64, n: int) -> Seq<usize>
    decreases n,
{
    if n <= 0 {
        Seq::empty()
    } else {
        let before = positions_of_size(ds, size, n - 1);
        if ds[n - 1].size == size {
            before.push((n - 1) as usize)
        } else {
            before
        }
    }
}

/// The multimap holds, for every size, the positions of the first `n`
/// descriptors of that size.
pub open spec fn indexed(entries: Map<i64, Seq<usize>>, ds: Seq<Descriptor>, n: int) -> bool {
    forall|size: i64| #[trigger] entries_for(entries, size) == positions_of_size(ds, size, n)
}

/// The positions of a size are exactly the places of the descriptors of that
/// size: each position lies among the first `n` descriptors and has the size,
/// and each such descriptor's place is among them. So a size that no
/// descriptor has gives no position at all.
pub proof fn lemma_positions_of_size(ds: Seq<Descriptor>, size: i64, n: int)
    requires
        0 <= n <= ds.len(),
        n <= usize::MAX,
    ensures
        positions_of_size(ds, size, n).len() <= n,
        forall|k: int|
            0 <= k < positions_of_size(ds, size, n).len() ==> (#[trigger] positions_of_size(
                ds,
                size,
                n,
            )[k]) < n && ds[positions_of_size(ds, size, n)[k] as int].size == size,
        forall|i: int|
            0 <= i < n && (#[trigger] ds[i]).size == size ==> positions_of_size(
                ds,
                size,
                n,
            ).contains(i as usize),
        (positions_of_size(ds, size, n).len() == 0) <==> (forall|i: int|
            0 <= i < n ==> (#[trigger] ds[i]).size != size),
    decreases n,
{
    if n > 0 {
        lemma_positions_of_size(ds, size, n - 1);
        let before = positions_of_size(ds, size, n - 1);
        let all = positions_of_size(ds, size, n);
        if ds[n - 1].size == size {
            assert(all[before.len() as int] == (n - 1) as usize);
            assert forall|i: int| 0 <= i < n && (#[trigger] ds[i]).size == size implies all.contains(
                i as usize,
            ) by {
                if i < n - 1 {
                    let k = choose|k: int| 0 <= k < before.len() && before[k] == i as usize;
                    assert(all[k] == i as usize);
                } else {
                    assert(all[before.len() as int] == i as usize);
                }
            }
        }
    }
}

/// A confirmed correspondence: the file found on disk and the place that the
/// torrent's layout gives it.
#[derive(Debug)]
pub struct Match {
    pub is_path: PathBuf,
    pub want_path: TargetPath,
}

/// What the matching of one candidate file needs next, or its outcome.
#[derive(Clone, Copy, Debug, PartialEq, Eq)]
pub enum Trial {
    /// Check the file against the descriptor at `position`, the `rank`-th of
    /// its size.
    Check { rank: usize, position: usize },
    /// The file is the descriptor at `position`.
    Matched { position: usize },
    /// No descriptor of the file's size is left to try.
    NoMatch,
}

/// The trial that stands before the `rank`-th descriptor of a size.
pub open spec fn trial_at(positions: Seq<usize>, rank: int) -> Trial {
    if 0 <= rank < positions.len() {
        Trial::Check { rank: rank as usize, position: positions[rank] }
    } else {
        Trial::NoMatch
    }
}

/// The first position from rank `from` on whose descriptor the content
/// passes, each descriptor checked on as many extents as `counts` gives it.
pub open spec fn first_verified(
    ds: Seq<Descriptor>,
    positions: Seq<usize>,
    data: Seq<u8>,
    counts: Seq<usize>,
    from: int,
) -> Option<usize>
    decreases positions.len() - from,
{
    if from < 0 || from >= positions.len() {
        None
    } else if verified(
        ds[positions[from] as int]@,
        data,
        counts[positions[from] as int] as int,
    ) {
        Some(positions[from])
    } else {
        first_verified(ds, positions, data, counts, from + 1)
    }
}

/// The descriptors of a torrent, to be looked up by size.
pub struct DescriptorIndex {
    descriptors: Vec<Descriptor>,
    by_size: MultiMap<i64, usize>,
}

impl DescriptorIndex {
    /// The descriptors, in the order in which they were handed in.
    pub closed spec fn descriptors(&self) -> Seq<Descriptor> {
        self.descriptors@
    }

    /// The positions of the descriptors of `size`, ascending.
    pub open spec fn positions(&self, size: i64) -> Seq<usize> {
        positions_of_size(self.descriptors(), size, self.descriptors().len() as int)
    }

    #[verifier::type_invariant]
    spec fn consistent(&self) -> bool {
        indexed(multimap_entries(self.by_size), self.descriptors@, self.descriptors@.len() as int)
    }

    /// Indexes the descriptors by their sizes.
    pub fn new(descriptors: Vec<Descriptor>) -> (index: DescriptorIndex)
        ensures
            index.descriptors() == descriptors@,
    {
        let mut by_size = multimap_new();
        let mut i: usize = 0;
        assert(indexed(multimap_entries(by_size), descriptors@, 0)) by {
            assert forall|size: i64| #[trigger]
                entries_for(multimap_entries(by_size), size) == positions_of_size(
                    descriptors@,
                    size,
                    0,
                ) by {}
        }
        while i < descriptors.len()
            invariant
                i <= descriptors@.len(),
                indexed(multimap_entries(by_size), descriptors@, i as int),
            decreases descriptors@.len() - i,
        {
            let key: i64 = descriptors[i].size;
            let ghost before = multimap_entries(by_size);
            multimap_insert(&mut by_size, key, i);
            proof {
                let after = multimap_entries(by_size);
                assert forall|size: i64| #[trigger]
                    entries_for(after, size) == positions_of_size(
                        descriptors@,
                        size,
                        i + 1,
                    ) by {
                    assert(entries_for(before, size) == positions_of_size(
                        descriptors@,
                        size,
                        i as int,
                    ));
                }
            }
            i += 1;
        }
        DescriptorIndex { descriptors, by_size }
    }

    /// The number of descriptors.
    pub fn len(&self) -> (count: usize)
        ensures
            count == self.descriptors().len(),
    {
        self.descriptors.len()
    }

    /// The descriptor at `position`.
    pub fn descriptor(&self, position: usize) -> (descriptor: &Descriptor)
        requires
            position < self.descriptors().len(),
        ensures
            *descriptor == self.descriptors()[position as int],
    {
        &self.descriptors[position]
    }

    /// The positions of all descriptors of `size`, ascending. A size that no
    /// descriptor has gives none.
    pub fn candidates(&self, size: i64) -> (found: Vec<usize>)
        ensures
            found@ == self.positions(size),
            forall|k: int| 0 <= k < found@.len() ==> (#[trigger] found@[k]) < self.descriptors().len()
                && self.descriptors()[found@[k] as int].size == size,
            (found@.len() == 0) <==> (forall|i: int|
                0 <= i < self.descriptors().len() ==> (#[trigger] self.descriptors()[i]).size
                    != size),
    {
        proof {
            use_type_invariant(self);
            assert(self.descriptors@.len() == self.descriptors.len());
            lemma_positions_of_size(self.descriptors@, size, self.descriptors@.len() as int);
            assert(entries_for(multimap_entries(self.by_size), size) == self.positions(size));
        }
        let mut found: Vec<usize> = Vec::new();
        match multimap_get_vec(&self.by_size, size) {
            None => {},
            Some(values) => {
                let mut k: usize = 0;
                while k < values.len()
                    invariant
                        k <= values@.len(),
                        found@ =~= values@.subrange(0, k as int),
                    decreases values@.len() - k,
                {
                    found.push(values[k]);
                    k += 1;
                }
                assert(found@ =~= values@);
            },
        }
        found
    }

    /// How the matching of a candidate file of `size` begins: with the first
    /// descriptor of that size, or with no match where there is none.
    pub fn first_trial(&self, size: i64) -> (trial: Trial)
        ensures
            trial == trial_at(self.positions(size), 0),
            trial is NoMatch <==> (forall|i: int|
                0 <= i < self.descriptors().len() ==> (#[trigger] self.descriptors()[i]).size
                    != size),
    {
        let found = self.candidates(size);
        if found.len() > 0 {
            Trial::Check { rank: 0, position: found[0] }
        } else {
            Trial::NoMatch
        }
    }

    /// How the matching goes on once the `rank`-th descriptor of `size` was
    /// checked: the first that accepts the file wins, a rejection leads to
    /// the next of that size.
    pub fn next_trial(&self, size: i64, rank: usize, accepted: bool) -> (trial: Trial)
        ensures
            trial == if rank >= self.positions(size).len() {
                Trial::NoMatch
            } else if accepted {
                Trial::Matched { position: self.positions(size)[rank as int] }
            } else {
                trial_at(self.positions(size), rank + 1)
            },
    {
        let found = self.candidates(size);
        if rank >= found.len() {
            Trial::NoMatch
        } else if accepted {
            Trial::Matched { position: found[rank] }
        } else if rank + 1 < found.len() {
            Trial::Check { rank: rank + 1, position: found[rank + 1] }
        } else {
            Trial::NoMatch
        }
    }

    /// The match of the file at `is_path` with the descriptor at `position`.
    pub fn make_match(&self, position: usize, is_path: PathBuf) -> (found: Match)
        requires
            position < self.descriptors().len(),
        ensures
            found.is_path == is_path,
            found.want_path@ == self.descriptors()[position as int]@.path,
    {
        Match { is_path, want_path: self.descriptors[position].path.duplicate() }
    }

    /// Matches content held in memory: the descriptors of the content's size
    /// are tried in ascending position, the one at `p` on its first
    /// `counts[p]` extents, and the first that the content passes wins.
    pub fn find_match(&self, data: &[u8], counts: &[usize]) -> (found: Option<usize>)
        requires
            data@.len() <= i64::MAX,
            counts@.len() == self.descriptors().len(),
        ensures
            found == first_verified(
                self.descriptors(),
                self.positions(data@.len() as i64),
                data@,
                counts@,
                0,
            ),
    {
        let size: i64 = data.len() as i64;
        let mut trial = self.first_trial(size);
        let ghost positions = self.positions(size);
        let ghost mut at: int = 0;
        proof {
            assert(self.descriptors@.len() == self.descriptors.len());
            lemma_positions_of_size(self.descriptors@, size, self.descriptors@.len() as int);
        }
        loop
            invariant
                size == data@.len(),
                positions.len() <= usize::MAX,
                positions == self.positions(size),
                counts@.len() == self.descriptors().len(),
                forall|k: int|
                    0 <= k < positions.len() ==> (#[trigger] positions[k])
                        < self.descriptors().len(),
                0 <= at <= positions.len(),
                first_verified(self.descriptors(), positions, data@, counts@, 0) == first_verified(
                    self.descriptors(),
                    positions,
                    data@,
                    counts@,
                    at,
                ),
                trial == trial_at(positions, at) || (at < positions.len() && trial == (
                Trial::Matched { position: positions[at] }) && verified(
                    self.descriptors()[positions[at] as int]@,
                    data@,
                    counts@[positions[at] as int] as int,
                )),
            decreases
                    positions.len() - at + (if trial is Check {
                        1int
                    } else {
                        0int
                    }),
        {
            match trial {
                Trial::NoMatch => {
                    assert(at >= positions.len());
                    assert(first_verified(self.descriptors(), positions, data@, counts@, at)
                        == None::<usize>);
                    return None;
                },
                Trial::Matched { position } => {
                    assert(first_verified(self.descriptors(), positions, data@, counts@, at)
                        == Some(position));
                    return Some(position);
                },
                Trial::Check { rank, position } => {
                    assert(rank == at && position == positions[at]);
                    let accepted = self.descriptor(position).verify_file(data, counts[position]);
                    trial = self.next_trial(size, rank, accepted);
                    proof {
                        if !accepted {
                            assert(first_verified(self.descriptors(), positions, data@, counts@, at)
                                == first_verified(
                                self.descriptors(),
                                positions,
                                data@,
                                counts@,
                                at + 1,
                            ));
                            at = at + 1;
                        }
                    }
                },
            }
        }
    }
}

} // verus!
