//! A verified decoder for bencode, the serialization format used by the
//! BitTorrent protocol for integers, byte strings, lists and dictionaries.
//!
//! The decoder turns a byte buffer into a [`value::Bencode`] tree together
//! with the exact number of bytes consumed.  Its behaviour is pinned down by
//! the specification functions in [`decode`], and the metainfo consumer in
//! [`metainfo`] answers the two lookups a torrent reader needs.

pub mod decode;
pub mod metainfo;
pub mod value;
