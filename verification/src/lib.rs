//! Locating the files of a torrent among files already on disk.
//!
//! The library derives, from a torrent's metadata, what each target file must
//! look like (its size and the hashes of the pieces that lie wholly inside it),
//! indexes those descriptions by size, and checks candidate content against
//! them piece by piece.
pub mod digest;
pub mod torrent;
pub mod descriptor;
pub mod verify;
pub mod index;
