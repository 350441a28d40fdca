//! Bencode codec and torrent metadata model.
//!
//! The crate decodes and re-encodes the bencode wire format, projects a
//! decoded term into a typed metadata model (torrent, info dictionary,
//! recursive file tree), and checks the declared info hash and piece-root
//! coverage of a metadata document.
//!
//! The codec is specified against a spec-level grammar (`bencode_spec`) and
//! proved to round-trip: decoding an encoded term gives the term back and
//! consumes exactly its bytes, and no strict prefix of an encoding decodes
//! (`bencode_props`). The typed info model is proved to lose nothing: a
//! well-formed `Info` re-encodes to a canonical term that parses back to
//! the identical value (`torrent`), which is what makes its hash a faithful
//! content identifier.

pub mod bencode_decoder;
pub mod bencode_props;
pub mod bencode_spec;
pub mod hashing;
pub mod text;
pub mod torrent;
