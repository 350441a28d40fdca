//! Typed metadata model over decoded bencode terms.
//!
//! `Torrent::parse` projects a decoded top-level dictionary into the typed
//! entities `Torrent`, `Info`, `FileTree`, `File` and the v1 file list;
//! `Info::to_bencode` rebuilds the canonical term for the info dictionary
//! from the typed fields; the info hash is the digest of that term's
//! encoding, and `Torrent::verify_infohash` checks it together with the
//! piece-root coverage of the piece-layers mapping.
//!
//! Text policy: byte-strings that stand for text (announce, names, path
//! segments) are decoded strictly; invalid UTF-8 is a schema error, never
//! replaced, so a parsed document re-encodes to its original bytes.

use vstd::prelude::*;
use vstd::utf8::{decode_utf8, encode_utf8, valid_utf8};

use crate::bencode_decoder::{bytes_eq, pairs_view, Bencode};
use crate::bencode_spec::SpecBencode;

verus! {

/// Why a decoded term does not fit the metadata schema.
#[derive(Clone, Copy, PartialEq, Eq, Debug)]
pub enum SchemaError {
    /// The top-level term is not a dictionary.
    RootNotDictionary,
    /// The `announce` value is not a byte-string.
    AnnounceNotString,
    /// The `announce` bytes are not valid UTF-8.
    AnnounceNotText,
    /// The top-level dictionary has no `info` key.
    MissingInfo,
    /// The `info` value is not a dictionary.
    InfoNotDictionary,
    /// The `name` value is not a byte-string.
    NameNotString,
    /// The `name` bytes are not valid UTF-8.
    NameNotText,
    /// The `piece length` value is not an integer.
    PieceLengthNotInteger,
    /// The `piece length` integer does not fit an unsigned 32-bit word.
    PieceLengthOutOfRange,
    /// The `meta version` value is not an integer.
    MetaVersionNotInteger,
    /// The `meta version` integer does not fit an unsigned 8-bit word.
    MetaVersionOutOfRange,
    /// The `file tree` value is not a dictionary.
    FileTreeNotDictionary,
    /// A file-tree entry name is not valid UTF-8.
    TreeNameNotText,
    /// A file-tree entry value is not a dictionary.
    TreeEntryNotDictionary,
    /// The value under a file leaf's empty key is not a dictionary.
    FileDescriptorNotDictionary,
    /// A file descriptor has no `length` key.
    FileLengthMissing,
    /// A file descriptor's `length` value is not an integer.
    FileLengthNotInteger,
    /// A file descriptor's `length` integer is negative.
    FileLengthNegative,
    /// A file descriptor's `pieces root` value is not a byte-string.
    PiecesRootNotString,
    /// The `length` value, required in a `files` item, is missing there or
    /// is not an integer.
    LengthNotInteger,
    /// The `length` integer is negative.
    LengthNegative,
    /// The `md5sum` value is not a byte-string.
    Md5sumNotString,
    /// The `files` value is not a list.
    FilesNotList,
    /// A `files` item is not a dictionary.
    FilesItemNotDictionary,
    /// A `files` item's `path` value is missing or not a list.
    PathNotList,
    /// A `path` segment is not a byte-string.
    PathSegmentNotString,
    /// A `path` segment's bytes are not valid UTF-8.
    PathSegmentNotText,
    /// A `files` item's `attr` value is not a byte-string of one byte.
    AttrNotFlag,
    /// The `pieces` value is not a byte-string.
    PiecesNotString,
    /// The `pieces` blob is not a whole number of 20-byte hashes.
    PiecesNotChunked,
    /// The `private` value is not an integer.
    PrivateNotInteger,
}

/// Per-file data of a file-tree leaf.
#[derive(PartialEq, Eq, Debug)]
pub struct File {
    /// Size of the file in bytes; never negative.
    pub length: i64,
    /// Root of the file's piece-hash tree, when declared.
    pub pieces_root: Option<Vec<u8>>,
}

/// Recursive file layout: a named file leaf or a named directory of nested
/// nodes, in encounter order.
#[derive(PartialEq, Eq, Debug)]
pub enum FileTree {
    File(String, File),
    Directory(String, Vec<FileTree>),
}

/// One entry of the legacy flat multi-file list.
#[derive(PartialEq, Eq, Debug)]
pub struct FileEntryV1 {
    /// Size of the file in bytes; never negative.
    pub length: i64,
    /// Optional legacy checksum bytes.
    pub md5sum: Option<Vec<u8>>,
    /// Path segments from the torrent root to the file.
    pub path: Vec<String>,
    /// Optional single-character attribute flag.
    pub attr: Option<u8>,
}

/// Legacy v1 layout: one single file, or a flat list of files.
#[derive(PartialEq, Eq, Debug)]
pub enum FileMode {
    SingleFile { length: i64, md5sum: Option<Vec<u8>> },
    MultipleFile { files: Vec<FileEntryV1> },
}

/// Typed projection of an `info` dictionary.
#[derive(PartialEq, Eq, Debug)]
pub struct Info {
    /// Suggested name of the torrent; empty when absent.
    pub name: String,
    /// Piece size in bytes; zero when absent.
    pub piece_length: u32,
    /// Metadata version; zero when absent.
    pub meta_version: u8,
    /// The v2-style file tree, rooted at a synthetic empty-name directory;
    /// the root has no entries when the `file tree` key is absent.
    pub file_tree: FileTree,
    /// The v1-style layout, when its keys are present.
    pub file_mode: Option<FileMode>,
    /// The v1 piece hashes, split into 20-byte chunks, when present.
    pub pieces: Option<Vec<Vec<u8>>>,
    /// The `private` flag integer, when present.
    pub private: Option<i64>,
}

/// Typed projection of a whole metadata document.
#[derive(PartialEq, Eq, Debug)]
pub struct Torrent {
    /// Tracker URL; empty when absent.
    pub announce: String,
    /// The typed info dictionary.
    pub info: Info,
    /// Mapping from declared piece root to its concatenated hash blob, in
    /// encounter order; empty when absent or not of the expected shape.
    pub piece_layers: Vec<(Vec<u8>, Vec<u8>)>,
}

/// First value stored under `k`, scanning the mapping in order.
pub open spec fn dict_get(entries: Seq<(Seq<u8>, SpecBencode)>, k: Seq<u8>) -> Option<SpecBencode>
    decreases entries.len(),
{
    if entries.len() == 0 {
        None
    } else if entries[0].0 == k {
        Some(entries[0].1)
    } else {
        dict_get(entries.drop_first(), k)
    }
}

/// UTF-8 bytes of the `announce` key.
pub open spec fn key_announce() -> Seq<u8> {
    encode_utf8("announce"@)
}

/// UTF-8 bytes of the `info` key.
pub open spec fn key_info() -> Seq<u8> {
    encode_utf8("info"@)
}

/// UTF-8 bytes of the `piece layers` key.
pub open spec fn key_piece_layers() -> Seq<u8> {
    encode_utf8("piece layers"@)
}

/// UTF-8 bytes of the `name` key.
pub open spec fn key_name() -> Seq<u8> {
    encode_utf8("name"@)
}

/// UTF-8 bytes of the `piece length` key.
pub open spec fn key_piece_length() -> Seq<u8> {
    encode_utf8("piece length"@)
}

/// UTF-8 bytes of the `meta version` key.
pub open spec fn key_meta_version() -> Seq<u8> {
    encode_utf8("meta version"@)
}

/// UTF-8 bytes of the `file tree` key.
pub open spec fn key_file_tree() -> Seq<u8> {
    encode_utf8("file tree"@)
}

/// UTF-8 bytes of the `length` key.
pub open spec fn key_length() -> Seq<u8> {
    encode_utf8("length"@)
}

/// UTF-8 bytes of the `md5sum` key.
pub open spec fn key_md5sum() -> Seq<u8> {
    encode_utf8("md5sum"@)
}

/// UTF-8 bytes of the `pieces` key.
pub open spec fn key_pieces() -> Seq<u8> {
    encode_utf8("pieces"@)
}

/// UTF-8 bytes of the `pieces root` key.
pub open spec fn key_pieces_root() -> Seq<u8> {
    encode_utf8("pieces root"@)
}

/// UTF-8 bytes of the `private` key.
pub open spec fn key_private() -> Seq<u8> {
    encode_utf8("private"@)
}

/// UTF-8 bytes of the `files` key.
pub open spec fn key_files() -> Seq<u8> {
    encode_utf8("files"@)
}

/// UTF-8 bytes of the `path` key.
pub open spec fn key_path() -> Seq<u8> {
    encode_utf8("path"@)
}

/// UTF-8 bytes of the `attr` key.
pub open spec fn key_attr() -> Seq<u8> {
    encode_utf8("attr"@)
}

/// The announce text of a top-level mapping: empty when the key is absent,
/// the strictly decoded text when it is a byte-string, an error otherwise.
pub open spec fn announce_check(es: Seq<(Seq<u8>, SpecBencode)>) -> Result<Seq<char>, SchemaError> {
    match dict_get(es, key_announce()) {
        None => Ok(Seq::empty()),
        Some(SpecBencode::String(b)) => if valid_utf8(b) {
            Ok(decode_utf8(b))
        } else {
            Err(SchemaError::AnnounceNotText)
        },
        Some(_) => Err(SchemaError::AnnounceNotString),
    }
}

/// The name text of an info mapping: empty when absent, strictly decoded
/// when a byte-string, an error otherwise.
pub open spec fn name_check(es: Seq<(Seq<u8>, SpecBencode)>) -> Result<Seq<char>, SchemaError> {
    match dict_get(es, key_name()) {
        None => Ok(Seq::empty()),
        Some(SpecBencode::String(b)) => if valid_utf8(b) {
            Ok(decode_utf8(b))
        } else {
            Err(SchemaError::NameNotText)
        },
        Some(_) => Err(SchemaError::NameNotString),
    }
}

/// The piece length of an info mapping: zero when absent, the integer when
/// it fits an unsigned 32-bit word, an error otherwise.
pub open spec fn piece_length_check(es: Seq<(Seq<u8>, SpecBencode)>) -> Result<int, SchemaError> {
    match dict_get(es, key_piece_length()) {
        None => Ok(0),
        Some(SpecBencode::Integer(n)) => if 0 <= n <= u32::MAX {
            Ok(n)
        } else {
            Err(SchemaError::PieceLengthOutOfRange)
        },
        Some(_) => Err(SchemaError::PieceLengthNotInteger),
    }
}

/// The meta version of an info mapping: zero when absent, the integer when
/// it fits an unsigned 8-bit word, an error otherwise.
pub open spec fn meta_version_check(es: Seq<(Seq<u8>, SpecBencode)>) -> Result<int, SchemaError> {
    match dict_get(es, key_meta_version()) {
        None => Ok(0),
        Some(SpecBencode::Integer(n)) => if 0 <= n <= u8::MAX {
            Ok(n)
        } else {
            Err(SchemaError::MetaVersionOutOfRange)
        },
        Some(_) => Err(SchemaError::MetaVersionNotInteger),
    }
}

/// The 20-byte chunks of a pieces blob, in order.
pub open spec fn chunks20(b: Seq<u8>) -> Seq<Seq<u8>> {
    Seq::new(
        b.len() / 20,
        |i: int|
            if 0 <= i && 20 * i + 20 <= b.len() {
                b.subrange(20 * i, 20 * i + 20)
            } else {
                Seq::empty()
            },
    )
}

/// The piece hashes of an info mapping: absent, or a byte-string split into
/// 20-byte chunks; a blob that is not a whole number of chunks, or a
/// non-string value, is an error.
pub open spec fn pieces_check(es: Seq<(Seq<u8>, SpecBencode)>) -> Result<
    Option<Seq<Seq<u8>>>,
    SchemaError,
> {
    match dict_get(es, key_pieces()) {
        None => Ok(None),
        Some(SpecBencode::String(b)) => if b.len() % 20 == 0 {
            Ok(Some(chunks20(b)))
        } else {
            Err(SchemaError::PiecesNotChunked)
        },
        Some(_) => Err(SchemaError::PiecesNotString),
    }
}

/// The private flag of an info mapping: absent, or the stored integer; a
/// non-integer value is an error.
pub open spec fn private_check(es: Seq<(Seq<u8>, SpecBencode)>) -> Result<Option<int>, SchemaError> {
    match dict_get(es, key_private()) {
        None => Ok(None),
        Some(SpecBencode::Integer(n)) => Ok(Some(n)),
        Some(_) => Err(SchemaError::PrivateNotInteger),
    }
}

/// Why a file leaf descriptor is malformed, or nothing when it is a
/// dictionary holding a non-negative integer `length` and, optionally, a
/// byte-string `pieces root`.
pub open spec fn descriptor_error(desc: SpecBencode) -> Option<SchemaError> {
    if !(desc matches SpecBencode::Dictionary(_)) {
        Some(SchemaError::FileDescriptorNotDictionary)
    } else {
        let dd = desc->Dictionary_0;
        match dict_get(dd, key_length()) {
            None => Some(SchemaError::FileLengthMissing),
            Some(SpecBencode::Integer(n)) => if n < 0 {
                Some(SchemaError::FileLengthNegative)
            } else {
                match dict_get(dd, key_pieces_root()) {
                    None => None,
                    Some(SpecBencode::String(_)) => None,
                    Some(_) => Some(SchemaError::PiecesRootNotString),
                }
            },
            Some(_) => Some(SchemaError::FileLengthNotInteger),
        }
    }
}

/// Why one file-tree entry value is malformed, or nothing. An entry whose
/// dictionary holds the empty key is a file leaf and its descriptor must be
/// well-formed; any other dictionary is a directory whose entries are
/// checked in turn.
pub open spec fn tree_node_error(v: SpecBencode) -> Option<SchemaError>
    decreases v, 0int,
{
    if !(v matches SpecBencode::Dictionary(_)) {
        Some(SchemaError::TreeEntryNotDictionary)
    } else {
        let sub = v->Dictionary_0;
        match dict_get(sub, Seq::empty()) {
            Some(desc) => descriptor_error(desc),
            None => tree_entries_error(sub),
        }
    }
}

/// Why a run of directory entries is malformed, or nothing: the first entry
/// with a non-text name or a malformed value decides.
pub open spec fn tree_entries_error(entries: Seq<(Seq<u8>, SpecBencode)>) -> Option<SchemaError>
    decreases entries, 1int,
{
    if entries.len() == 0 {
        None
    } else if !valid_utf8(entries[0].0) {
        Some(SchemaError::TreeNameNotText)
    } else {
        match tree_node_error(entries[0].1) {
            Some(e) => Some(e),
            None => tree_entries_error(entries.drop_first()),
        }
    }
}

/// True when file data `f` is exactly what the descriptor term declares.
pub open spec fn file_desc_matches(f: File, desc: SpecBencode) -> bool {
    &&& desc matches SpecBencode::Dictionary(_)
    &&& dict_get(desc->Dictionary_0, key_length()) == Some(SpecBencode::Integer(f.length as int))
    &&& f.length >= 0
    &&& (match dict_get(desc->Dictionary_0, key_pieces_root()) {
        None => f.pieces_root is None,
        Some(SpecBencode::String(b)) => f.pieces_root matches Some(r) && r@ == b,
        Some(_) => false,
    })
}

/// True when tree node `t`, under the given name, is exactly the parse of
/// the entry value `v`.
pub open spec fn tree_matches(t: FileTree, name: Seq<char>, v: SpecBencode) -> bool
    decreases t,
{
    match t {
        FileTree::File(fname, f) => {
            &&& fname@ == name
            &&& v matches SpecBencode::Dictionary(_)
            &&& (dict_get(v->Dictionary_0, Seq::empty()) matches Some(desc) && file_desc_matches(
                f,
                desc,
            ))
        },
        FileTree::Directory(dname, children) => {
            &&& dname@ == name
            &&& v matches SpecBencode::Dictionary(_)
            &&& dict_get(v->Dictionary_0, Seq::empty()) is None
            &&& children@.len() == v->Dictionary_0.len()
            &&& (forall|i: int|
                0 <= i < children@.len() ==> valid_utf8(#[trigger] v->Dictionary_0[i].0)
                    && tree_matches(
                    children@[i],
                    decode_utf8(v->Dictionary_0[i].0),
                    v->Dictionary_0[i].1,
                ))
        },
    }
}

/// True when `children` are exactly the parses of the entries of a
/// file-tree dictionary, in order.
pub open spec fn tree_children_match(
    children: Seq<FileTree>,
    entries: Seq<(Seq<u8>, SpecBencode)>,
) -> bool {
    &&& children.len() == entries.len()
    &&& (forall|i: int|
        0 <= i < children.len() ==> valid_utf8(#[trigger] entries[i].0) && tree_matches(
            children[i],
            decode_utf8(entries[i].0),
            entries[i].1,
        ))
}

/// Why one legacy `files` item is malformed, or nothing when it is a
/// dictionary holding a non-negative integer `length`, a list of text
/// `path` segments, and optional `md5sum` bytes and one-byte `attr`.
pub open spec fn v1_entry_error(v: SpecBencode) -> Option<SchemaError> {
    if !(v matches SpecBencode::Dictionary(_)) {
        Some(SchemaError::FilesItemNotDictionary)
    } else {
        let es = v->Dictionary_0;
        match dict_get(es, key_length()) {
            None => Some(SchemaError::LengthNotInteger),
            Some(SpecBencode::Integer(n)) => if n < 0 {
                Some(SchemaError::LengthNegative)
            } else {
                match dict_get(es, key_md5sum()) {
                    Some(SpecBencode::String(_)) | None => {
                        match dict_get(es, key_path()) {
                            Some(SpecBencode::List(items)) => {
                                match path_error(items) {
                                    Some(e) => Some(e),
                                    None => {
                                        match dict_get(es, key_attr()) {
                                            None => None,
                                            Some(SpecBencode::String(b)) => if b.len() == 1 {
                                                None
                                            } else {
                                                Some(SchemaError::AttrNotFlag)
                                            },
                                            Some(_) => Some(SchemaError::AttrNotFlag),
                                        }
                                    },
                                }
                            },
                            _ => Some(SchemaError::PathNotList),
                        }
                    },
                    Some(_) => Some(SchemaError::Md5sumNotString),
                }
            },
            Some(_) => Some(SchemaError::LengthNotInteger),
        }
    }
}

/// Why a run of path segments is malformed, or nothing: each must be a
/// byte-string of valid UTF-8.
pub open spec fn path_error(items: Seq<SpecBencode>) -> Option<SchemaError>
    decreases items.len(),
{
    if items.len() == 0 {
        None
    } else {
        match items[0] {
            SpecBencode::String(b) => if valid_utf8(b) {
                path_error(items.drop_first())
            } else {
                Some(SchemaError::PathSegmentNotText)
            },
            _ => Some(SchemaError::PathSegmentNotString),
        }
    }
}

/// Why a run of legacy `files` items is malformed, or nothing.
pub open spec fn v1_entries_error(items: Seq<SpecBencode>) -> Option<SchemaError>
    decreases items.len(),
{
    if items.len() == 0 {
        None
    } else {
        match v1_entry_error(items[0]) {
            Some(e) => Some(e),
            None => v1_entries_error(items.drop_first()),
        }
    }
}

/// True when the path segments are exactly the strictly decoded texts of
/// the segment terms, in order.
pub open spec fn path_matches(path: Seq<String>, items: Seq<SpecBencode>) -> bool {
    &&& path.len() == items.len()
    &&& (forall|i: int|
        0 <= i < path.len() ==> ((#[trigger] items[i]) matches SpecBencode::String(b)
            && valid_utf8(b) && path[i]@ == decode_utf8(b)))
}

/// True when a legacy file entry is exactly the parse of one `files` item.
pub open spec fn v1_entry_matches(e: FileEntryV1, v: SpecBencode) -> bool {
    &&& v matches SpecBencode::Dictionary(_)
    &&& dict_get(v->Dictionary_0, key_length()) == Some(SpecBencode::Integer(e.length as int))
    &&& e.length >= 0
    &&& (match dict_get(v->Dictionary_0, key_md5sum()) {
        None => e.md5sum is None,
        Some(SpecBencode::String(b)) => e.md5sum matches Some(m) && m@ == b,
        Some(_) => false,
    })
    &&& (match dict_get(v->Dictionary_0, key_path()) {
        Some(SpecBencode::List(items)) => path_matches(e.path@, items),
        _ => false,
    })
    &&& (match dict_get(v->Dictionary_0, key_attr()) {
        None => e.attr is None,
        Some(SpecBencode::String(b)) => b.len() == 1 && e.attr == Some(b[0]),
        Some(_) => false,
    })
}

/// True when the legacy entries are exactly the parses of the `files`
/// items, in order.
pub open spec fn v1_entries_match(files: Seq<FileEntryV1>, items: Seq<SpecBencode>) -> bool {
    &&& files.len() == items.len()
    &&& (forall|i: int| 0 <= i < files.len() ==> v1_entry_matches(#[trigger] files[i], items[i]))
}

/// Why the v1 layout keys of an info mapping are malformed, or nothing. A
/// `length` key selects single-file mode; otherwise a `files` key selects
/// multi-file mode; neither key means no v1 layout.
pub open spec fn mode_error(es: Seq<(Seq<u8>, SpecBencode)>) -> Option<SchemaError> {
    match dict_get(es, key_length()) {
        Some(SpecBencode::Integer(n)) => if n < 0 {
            Some(SchemaError::LengthNegative)
        } else {
            match dict_get(es, key_md5sum()) {
                None => None,
                Some(SpecBencode::String(_)) => None,
                Some(_) => Some(SchemaError::Md5sumNotString),
            }
        },
        Some(_) => Some(SchemaError::LengthNotInteger),
        None => match dict_get(es, key_files()) {
            None => None,
            Some(SpecBencode::List(items)) => v1_entries_error(items),
            Some(_) => Some(SchemaError::FilesNotList),
        },
    }
}

/// True when the file mode is exactly what the v1 layout keys declare.
pub open spec fn mode_matches(mode: Option<FileMode>, es: Seq<(Seq<u8>, SpecBencode)>) -> bool {
    match dict_get(es, key_length()) {
        Some(SpecBencode::Integer(n)) => {
            &&& n >= 0
            &&& (mode matches Some(m) && (m matches FileMode::SingleFile { length, md5sum }
                && length as int == n && (match dict_get(es, key_md5sum()) {
                None => md5sum is None,
                Some(SpecBencode::String(b)) => md5sum matches Some(d) && d@ == b,
                Some(_) => false,
            })))
        },
        Some(_) => false,
        None => match dict_get(es, key_files()) {
            None => mode is None,
            Some(SpecBencode::List(items)) => mode matches Some(m) && (m matches
                FileMode::MultipleFile { files } && v1_entries_match(files@, items)),
            Some(_) => false,
        },
    }
}

/// Why the `file tree` key of an info mapping is malformed, or nothing.
pub open spec fn tree_field_error(es: Seq<(Seq<u8>, SpecBencode)>) -> Option<SchemaError> {
    match dict_get(es, key_file_tree()) {
        None => None,
        Some(SpecBencode::Dictionary(fes)) => tree_entries_error(fes),
        Some(_) => Some(SchemaError::FileTreeNotDictionary),
    }
}

/// True when the tree is the parse of the `file tree` key: a synthetic
/// empty-name directory whose children are the parses of its entries, with
/// no children when the key is absent.
pub open spec fn tree_field_matches(t: FileTree, es: Seq<(Seq<u8>, SpecBencode)>) -> bool {
    match dict_get(es, key_file_tree()) {
        None => t matches FileTree::Directory(dname, children) && dname@ == Seq::<char>::empty()
            && children@.len() == 0,
        Some(SpecBencode::Dictionary(fes)) => t matches FileTree::Directory(dname, children)
            && dname@ == Seq::<char>::empty() && tree_children_match(children@, fes),
        Some(_) => false,
    }
}

/// The spec byte sequences of a run of piece-hash chunks.
pub open spec fn chunk_views(ps: Seq<Vec<u8>>) -> Seq<Seq<u8>> {
    Seq::new(
        ps.len(),
        |i: int|
            if 0 <= i < ps.len() {
                ps[i]@
            } else {
                Seq::empty()
            },
    )
}

/// Why an info term is malformed, or nothing: the first failing field
/// decides, fields checked in a fixed order.
pub open spec fn info_error(v: SpecBencode) -> Option<SchemaError> {
    if !(v matches SpecBencode::Dictionary(_)) {
        Some(SchemaError::InfoNotDictionary)
    } else {
        let es = v->Dictionary_0;
        match name_check(es) {
            Err(e) => Some(e),
            Ok(_) => match piece_length_check(es) {
                Err(e) => Some(e),
                Ok(_) => match meta_version_check(es) {
                    Err(e) => Some(e),
                    Ok(_) => match tree_field_error(es) {
                        Some(e) => Some(e),
                        None => match mode_error(es) {
                            Some(e) => Some(e),
                            None => match pieces_check(es) {
                                Err(e) => Some(e),
                                Ok(_) => match private_check(es) {
                                    Err(e) => Some(e),
                                    Ok(_) => None,
                                },
                            },
                        },
                    },
                },
            },
        }
    }
}

/// True when the typed info is exactly the parse of the info term.
pub open spec fn info_matches(info: Info, v: SpecBencode) -> bool {
    &&& v matches SpecBencode::Dictionary(_)
    &&& name_check(v->Dictionary_0) == Ok::<Seq<char>, SchemaError>(info.name@)
    &&& piece_length_check(v->Dictionary_0) == Ok::<int, SchemaError>(info.piece_length as int)
    &&& meta_version_check(v->Dictionary_0) == Ok::<int, SchemaError>(info.meta_version as int)
    &&& tree_field_matches(info.file_tree, v->Dictionary_0)
    &&& mode_matches(info.file_mode, v->Dictionary_0)
    &&& (match pieces_check(v->Dictionary_0) {
        Ok(None) => info.pieces is None,
        Ok(Some(chunks)) => info.pieces matches Some(ps) && chunk_views(ps@) == chunks,
        Err(_) => false,
    })
    &&& (match private_check(v->Dictionary_0) {
        Ok(None) => info.private is None,
        Ok(Some(n)) => info.private matches Some(p) && p as int == n,
        Err(_) => false,
    })
}

/// True when every value of a mapping is a byte-string.
pub open spec fn all_string_values(les: Seq<(Seq<u8>, SpecBencode)>) -> bool {
    forall|i: int| 0 <= i < les.len() ==> (#[trigger] les[i].1) matches SpecBencode::String(_)
}

/// The piece-layers mapping of a top-level mapping: root to blob pairs in
/// encounter order; empty when the key is absent, not a dictionary, or
/// holds any non-string value.
pub open spec fn layers_of(es: Seq<(Seq<u8>, SpecBencode)>) -> Seq<(Seq<u8>, Seq<u8>)> {
    match dict_get(es, key_piece_layers()) {
        Some(SpecBencode::Dictionary(les)) => if all_string_values(les) {
            Seq::new(
                les.len(),
                |i: int|
                    if 0 <= i < les.len() {
                        (les[i].0, les[i].1->String_0)
                    } else {
                        (Seq::empty(), Seq::empty())
                    },
            )
        } else {
            Seq::empty()
        },
        _ => Seq::empty(),
    }
}

/// The spec pairs of an executable piece-layers mapping.
pub open spec fn layers_view(d: Seq<(Vec<u8>, Vec<u8>)>) -> Seq<(Seq<u8>, Seq<u8>)> {
    Seq::new(
        d.len(),
        |i: int|
            if 0 <= i < d.len() {
                (d[i].0@, d[i].1@)
            } else {
                (Seq::empty(), Seq::empty())
            },
    )
}

/// Why a metadata document term is malformed, or nothing.
pub open spec fn torrent_error(v: SpecBencode) -> Option<SchemaError> {
    if !(v matches SpecBencode::Dictionary(_)) {
        Some(SchemaError::RootNotDictionary)
    } else {
        let es = v->Dictionary_0;
        match announce_check(es) {
            Err(e) => Some(e),
            Ok(_) => match dict_get(es, key_info()) {
                None => Some(SchemaError::MissingInfo),
                Some(iv) => info_error(iv),
            },
        }
    }
}

/// True when the typed document is exactly the parse of the term.
pub open spec fn torrent_matches(t: Torrent, v: SpecBencode) -> bool {
    &&& v matches SpecBencode::Dictionary(_)
    &&& announce_check(v->Dictionary_0) == Ok::<Seq<char>, SchemaError>(t.announce@)
    &&& (dict_get(v->Dictionary_0, key_info()) matches Some(iv) && info_matches(t.info, iv))
    &&& layers_view(t.piece_layers@) == layers_of(v->Dictionary_0)
}

/// The first matching entry decides a lookup.
proof fn lemma_dict_get_at(entries: Seq<(Seq<u8>, SpecBencode)>, k: Seq<u8>, i: int)
    requires
        0 <= i < entries.len(),
        forall|j: int| 0 <= j < i ==> entries[j].0 != k,
        entries[i].0 == k,
    ensures
        dict_get(entries, k) == Some(entries[i].1),
    decreases entries.len(),
{
    if i > 0 {
        assert(forall|j: int| 0 <= j < i - 1 ==> entries.drop_first()[j].0 != k);
        lemma_dict_get_at(entries.drop_first(), k, i - 1);
    }
}

/// A key held by no entry has no value.
proof fn lemma_dict_get_absent(entries: Seq<(Seq<u8>, SpecBencode)>, k: Seq<u8>)
    requires
        forall|j: int| 0 <= j < entries.len() ==> entries[j].0 != k,
    ensures
        dict_get(entries, k) is None,
    decreases entries.len(),
{
    if entries.len() > 0 {
        lemma_dict_get_absent(entries.drop_first(), k);
    }
}

/// Look a key up in an executable mapping, scanning in order.
fn dict_get_exec<'a>(entries: &'a Vec<(Vec<u8>, Bencode)>, key: &[u8]) -> (r: Option<
    &'a Bencode,
>)
    ensures
        match r {
            Some(b) => dict_get(pairs_view(entries@), key@) == Some(b@),
            None => dict_get(pairs_view(entries@), key@) is None,
        },
{
    let mut i: usize = 0;
    while i < entries.len()
        invariant
            i <= entries@.len(),
            forall|j: int| 0 <= j < i ==> pairs_view(entries@)[j].0 != key@,
        decreases entries@.len() - i,
    {
        let hit = bytes_eq(entries[i].0.as_slice(), key);
        if hit {
            proof {
                lemma_dict_get_at(pairs_view(entries@), key@, i as int);
            }
            return Some(&entries[i].1);
        }
        i = i + 1;
    }
    proof {
        lemma_dict_get_absent(pairs_view(entries@), key@);
    }
    None
}

/// Read an optional text field: empty when absent, strictly decoded when a
/// byte-string, the given errors otherwise.
fn parse_text(
    entries: &Vec<(Vec<u8>, Bencode)>,
    key: &[u8],
    e_not_string: SchemaError,
    e_not_text: SchemaError,
) -> (r: Result<String, SchemaError>)
    ensures
        match r {
            Ok(s) => (match dict_get(pairs_view(entries@), key@) {
                None => s@ == Seq::<char>::empty(),
                Some(SpecBencode::String(b)) => valid_utf8(b) && s@ == decode_utf8(b),
                Some(_) => false,
            }),
            Err(e) => (match dict_get(pairs_view(entries@), key@) {
                None => false,
                Some(SpecBencode::String(b)) => !valid_utf8(b) && e == e_not_text,
                Some(_) => e == e_not_string,
            }),
        },
{
    match dict_get_exec(entries, key) {
        None => Ok(String::new()),
        Some(b) => match b {
            Bencode::String(bytes) => {
                match crate::text::utf8_to_string(vstd::slice::slice_to_vec(bytes.as_slice())) {
                    Some(s) => Ok(s),
                    None => Err(e_not_text),
                }
            },
            _ => Err(e_not_string),
        },
    }
}

/// Read an optional bounded integer field: zero when absent, the integer
/// when within `0..=max`, the given errors otherwise.
fn parse_ranged_int(
    entries: &Vec<(Vec<u8>, Bencode)>,
    key: &[u8],
    max: i64,
    e_not_integer: SchemaError,
    e_out_of_range: SchemaError,
) -> (r: Result<i64, SchemaError>)
    requires
        max >= 0,
    ensures
        match r {
            Ok(n) => (match dict_get(pairs_view(entries@), key@) {
                None => n == 0,
                Some(SpecBencode::Integer(m)) => 0 <= m <= max && n == m,
                Some(_) => false,
            }),
            Err(e) => (match dict_get(pairs_view(entries@), key@) {
                None => false,
                Some(SpecBencode::Integer(m)) => !(0 <= m <= max) && e == e_out_of_range,
                Some(_) => e == e_not_integer,
            }),
        },
{
    match dict_get_exec(entries, key) {
        None => Ok(0),
        Some(b) => match b {
            Bencode::Integer(n) => {
                let n = *n;
                if 0 <= n && n <= max {
                    Ok(n)
                } else {
                    Err(e_out_of_range)
                }
            },
            _ => Err(e_not_integer),
        },
    }
}

/// A run of well-formed leading entries does not change where a tree
/// entries check fails.
proof fn lemma_tree_entries_error_skip(entries: Seq<(Seq<u8>, SpecBencode)>, i: int)
    requires
        0 <= i <= entries.len(),
        forall|j: int|
            0 <= j < i ==> valid_utf8(#[trigger] entries[j].0) && tree_node_error(entries[j].1)
                is None,
    ensures
        tree_entries_error(entries) == tree_entries_error(entries.skip(i)),
    decreases i,
{
    if i == 0 {
        assert(entries.skip(0) =~= entries);
    } else {
        assert(entries.drop_first() =~= entries.skip(1));
        assert(forall|j: int|
            0 <= j < i - 1 ==> valid_utf8(#[trigger] entries.skip(1)[j].0) && tree_node_error(
                entries.skip(1)[j].1,
            ) is None);
        lemma_tree_entries_error_skip(entries.skip(1), i - 1);
        assert(entries.skip(1).skip(i - 1) =~= entries.skip(i));
    }
}

/// A run of well-formed leading items does not change where a legacy files
/// check fails.
proof fn lemma_v1_entries_error_skip(items: Seq<SpecBencode>, i: int)
    requires
        0 <= i <= items.len(),
        forall|j: int| 0 <= j < i ==> v1_entry_error(#[trigger] items[j]) is None,
    ensures
        v1_entries_error(items) == v1_entries_error(items.skip(i)),
    decreases i,
{
    if i == 0 {
        assert(items.skip(0) =~= items);
    } else {
        assert(items.drop_first() =~= items.skip(1));
        lemma_v1_entries_error_skip(items.skip(1), i - 1);
        assert(items.skip(1).skip(i - 1) =~= items.skip(i));
    }
}

/// A run of well-formed leading segments does not change where a path check
/// fails.
proof fn lemma_path_error_skip(items: Seq<SpecBencode>, i: int)
    requires
        0 <= i <= items.len(),
        forall|j: int|
            0 <= j < i ==> ((#[trigger] items[j]) matches SpecBencode::String(b) && valid_utf8(
                b,
            )),
    ensures
        path_error(items) == path_error(items.skip(i)),
    decreases i,
{
    if i == 0 {
        assert(items.skip(0) =~= items);
    } else {
        assert(items.drop_first() =~= items.skip(1));
        lemma_path_error_skip(items.skip(1), i - 1);
        assert(items.skip(1).skip(i - 1) =~= items.skip(i));
    }
}

/// Parse one file-tree entry value under its decoded name: a file leaf
/// when the dictionary holds the empty key, a directory otherwise.
fn parse_tree_node(name: String, v: &Bencode) -> (r: Result<FileTree, SchemaError>)
    ensures
        match r {
            Ok(t) => tree_node_error(v@) is None && tree_matches(t, name@, v@),
            Err(e) => tree_node_error(v@) == Some(e),
        },
    decreases *v,
{
    match v {
        Bencode::Dictionary(d) => {
            proof {
                assert(*v == Bencode::Dictionary(*d));
                crate::bencode_decoder::lemma_dictionary_view(*d);
                reveal_strlit("");
                assert(""@ =~= Seq::<char>::empty());
                assert(vstd::utf8::encode_utf8(""@) =~= Seq::<u8>::empty());
            }
            match dict_get_exec(d, "".as_bytes()) {
                Some(desc) => {
                    match desc {
                        Bencode::Dictionary(dd) => {
                            proof {
                                assert(*desc == Bencode::Dictionary(*dd));
                                crate::bencode_decoder::lemma_dictionary_view(*dd);
                            }
                            let length: i64 = match dict_get_exec(dd, "length".as_bytes()) {
                                Some(lv) => match lv {
                                    Bencode::Integer(n) => {
                                        let n = *n;
                                        if n < 0 {
                                            return Err(SchemaError::FileLengthNegative);
                                        }
                                        n
                                    },
                                    _ => {
                                        return Err(SchemaError::FileLengthNotInteger);
                                    },
                                },
                                None => {
                                    return Err(SchemaError::FileLengthMissing);
                                },
                            };
                            let pieces_root: Option<Vec<u8>> = match dict_get_exec(
                                dd,
                                "pieces root".as_bytes(),
                            ) {
                                None => None,
                                Some(rv) => match rv {
                                    Bencode::String(b) => Some(
                                        vstd::slice::slice_to_vec(b.as_slice()),
                                    ),
                                    _ => {
                                        return Err(SchemaError::PiecesRootNotString);
                                    },
                                },
                            };
                            Ok(FileTree::File(name, File { length, pieces_root }))
                        },
                        _ => Err(SchemaError::FileDescriptorNotDictionary),
                    }
                },
                None => {
                    proof {
                        assert(decreases_to!(*v => (*v)->Dictionary_0));
                    }
                    match parse_tree_children(d) {
                        Ok(children) => Ok(FileTree::Directory(name, children)),
                        Err(e) => Err(e),
                    }
                },
            }
        },
        _ => Err(SchemaError::TreeEntryNotDictionary),
    }
}

/// Parse the entries of a file-tree dictionary into child nodes, in order.
fn parse_tree_children(d: &Vec<(Vec<u8>, Bencode)>) -> (r: Result<Vec<FileTree>, SchemaError>)
    ensures
        match r {
            Ok(children) => tree_entries_error(pairs_view(d@)) is None && tree_children_match(
                children@,
                pairs_view(d@),
            ),
            Err(e) => tree_entries_error(pairs_view(d@)) == Some(e),
        },
    decreases *d,
{
    let ghost es = pairs_view(d@);
    let mut out: Vec<FileTree> = Vec::new();
    let mut idx: usize = 0;
    while idx < d.len()
        invariant
            idx <= d@.len(),
            es == pairs_view(d@),
            es.len() == d@.len(),
            out@.len() == idx,
            forall|j: int|
                0 <= j < idx ==> valid_utf8(#[trigger] es[j].0) && tree_node_error(es[j].1)
                    is None && tree_matches(out@[j], decode_utf8(es[j].0), es[j].1),
        decreases d@.len() - idx,
    {
        let ghost tail = es.skip(idx as int);
        proof {
            lemma_tree_entries_error_skip(es, idx as int);
            assert(tail[0] == es[idx as int]);
            assert(tail.drop_first() =~= es.skip(idx as int + 1));
            assert(es[idx as int] == (d@[idx as int].0@, d@[idx as int].1@));
        }
        let pair = &d[idx];
        let name = match crate::text::utf8_to_string(
            vstd::slice::slice_to_vec(pair.0.as_slice()),
        ) {
            Some(s) => s,
            None => {
                return Err(SchemaError::TreeNameNotText);
            },
        };
        let ghost gname = name@;
        proof {
            assert(valid_utf8(es[idx as int].0));
            assert(gname == decode_utf8(es[idx as int].0));
            assert(pair.1@ == es[idx as int].1);
            assert(decreases_to!(*d => d@[idx as int]));
            assert(decreases_to!(d@[idx as int] => d@[idx as int].1));
        }
        match parse_tree_node(name, &pair.1) {
            Ok(t) => {
                out.push(t);
                proof {
                    assert(out@[idx as int] == t);
                    assert(tree_matches(out@[idx as int], decode_utf8(es[idx as int].0), es[
                        idx as int].1));
                }
            },
            Err(e) => {
                return Err(e);
            },
        }
        idx = idx + 1;
    }
    proof {
        lemma_tree_entries_error_skip(es, es.len() as int);
        assert(es.skip(es.len() as int).len() == 0);
    }
    Ok(out)
}

/// Parse one legacy `files` item.
fn parse_v1_entry(v: &Bencode) -> (r: Result<FileEntryV1, SchemaError>)
    ensures
        match r {
            Ok(e) => v1_entry_error(v@) is None && v1_entry_matches(e, v@),
            Err(er) => v1_entry_error(v@) == Some(er),
        },
{
    match v {
        Bencode::Dictionary(d) => {
            proof {
                assert(*v == Bencode::Dictionary(*d));
                crate::bencode_decoder::lemma_dictionary_view(*d);
            }
            let length: i64 = match dict_get_exec(d, "length".as_bytes()) {
                Some(lv) => match lv {
                    Bencode::Integer(n) => {
                        let n = *n;
                        if n < 0 {
                            return Err(SchemaError::LengthNegative);
                        }
                        n
                    },
                    _ => {
                        return Err(SchemaError::LengthNotInteger);
                    },
                },
                None => {
                    return Err(SchemaError::LengthNotInteger);
                },
            };
            let md5sum: Option<Vec<u8>> = match dict_get_exec(d, "md5sum".as_bytes()) {
                None => None,
                Some(mv) => match mv {
                    Bencode::String(b) => Some(vstd::slice::slice_to_vec(b.as_slice())),
                    _ => {
                        return Err(SchemaError::Md5sumNotString);
                    },
                },
            };
            let path: Vec<String> = match dict_get_exec(d, "path".as_bytes()) {
                Some(pv) => match pv {
                    Bencode::List(items) => {
                        proof {
                            assert(*pv == Bencode::List(*items));
                            crate::bencode_decoder::lemma_list_view(*items);
                        }
                        match parse_path(items) {
                            Ok(p) => p,
                            Err(e) => {
                                return Err(e);
                            },
                        }
                    },
                    _ => {
                        return Err(SchemaError::PathNotList);
                    },
                },
                None => {
                    return Err(SchemaError::PathNotList);
                },
            };
            let attr: Option<u8> = match dict_get_exec(d, "attr".as_bytes()) {
                None => None,
                Some(av) => match av {
                    Bencode::String(b) => {
                        if b.len() == 1 {
                            Some(b[0])
                        } else {
                            return Err(SchemaError::AttrNotFlag);
                        }
                    },
                    _ => {
                        return Err(SchemaError::AttrNotFlag);
                    },
                },
            };
            Ok(FileEntryV1 { length, md5sum, path, attr })
        },
        _ => Err(SchemaError::FilesItemNotDictionary),
    }
}

/// Parse the segments of a `path` list into strictly decoded texts.
fn parse_path(items: &Vec<Bencode>) -> (r: Result<Vec<String>, SchemaError>)
    ensures
        match r {
            Ok(p) => path_error(crate::bencode_decoder::items_view(items@)) is None
                && path_matches(p@, crate::bencode_decoder::items_view(items@)),
            Err(e) => path_error(crate::bencode_decoder::items_view(items@)) == Some(e),
        },
{
    let ghost iv = crate::bencode_decoder::items_view(items@);
    let mut out: Vec<String> = Vec::new();
    let mut idx: usize = 0;
    while idx < items.len()
        invariant
            idx <= items@.len(),
            iv == crate::bencode_decoder::items_view(items@),
            iv.len() == items@.len(),
            out@.len() == idx,
            forall|j: int|
                0 <= j < idx ==> ((#[trigger] iv[j]) matches SpecBencode::String(b) && valid_utf8(
                    b,
                ) && out@[j]@ == decode_utf8(b)),
        decreases items@.len() - idx,
    {
        let ghost tail = iv.skip(idx as int);
        proof {
            lemma_path_error_skip(iv, idx as int);
            assert(tail[0] == iv[idx as int]);
            assert(tail.drop_first() =~= iv.skip(idx as int + 1));
            assert(iv[idx as int] == items@[idx as int]@);
        }
        match &items[idx] {
            Bencode::String(b) => {
                match crate::text::utf8_to_string(vstd::slice::slice_to_vec(b.as_slice())) {
                    Some(s) => {
                        out.push(s);
                    },
                    None => {
                        return Err(SchemaError::PathSegmentNotText);
                    },
                }
            },
            _ => {
                return Err(SchemaError::PathSegmentNotString);
            },
        }
        idx = idx + 1;
    }
    proof {
        lemma_path_error_skip(iv, iv.len() as int);
        assert(iv.skip(iv.len() as int).len() == 0);
    }
    Ok(out)
}

/// Parse the items of a legacy `files` list, in order.
fn parse_v1_entries(items: &Vec<Bencode>) -> (r: Result<Vec<FileEntryV1>, SchemaError>)
    ensures
        match r {
            Ok(fs) => v1_entries_error(crate::bencode_decoder::items_view(items@)) is None
                && v1_entries_match(fs@, crate::bencode_decoder::items_view(items@)),
            Err(e) => v1_entries_error(crate::bencode_decoder::items_view(items@)) == Some(e),
        },
{
    let ghost iv = crate::bencode_decoder::items_view(items@);
    let mut out: Vec<FileEntryV1> = Vec::new();
    let mut idx: usize = 0;
    while idx < items.len()
        invariant
            idx <= items@.len(),
            iv == crate::bencode_decoder::items_view(items@),
            iv.len() == items@.len(),
            out@.len() == idx,
            forall|j: int|
                0 <= j < idx ==> v1_entry_error(#[trigger] iv[j]) is None && v1_entry_matches(
                    out@[j],
                    iv[j],
                ),
        decreases items@.len() - idx,
    {
        let ghost tail = iv.skip(idx as int);
        proof {
            lemma_v1_entries_error_skip(iv, idx as int);
            assert(tail[0] == iv[idx as int]);
            assert(tail.drop_first() =~= iv.skip(idx as int + 1));
            assert(iv[idx as int] == items@[idx as int]@);
        }
        match parse_v1_entry(&items[idx]) {
            Ok(e) => {
                out.push(e);
            },
            Err(er) => {
                return Err(er);
            },
        }
        idx = idx + 1;
    }
    proof {
        lemma_v1_entries_error_skip(iv, iv.len() as int);
        assert(iv.skip(iv.len() as int).len() == 0);
    }
    Ok(out)
}

/// Split a pieces blob into its 20-byte hashes.
fn chunk_pieces(b: &Vec<u8>) -> (r: Vec<Vec<u8>>)
    requires
        b@.len() % 20 == 0,
    ensures
        chunk_views(r@) == chunks20(b@),
{
    let mut out: Vec<Vec<u8>> = Vec::new();
    let mut i: usize = 0;
    while i < b.len()
        invariant
            i <= b@.len(),
            i % 20 == 0,
            b@.len() % 20 == 0,
            out@.len() == i / 20,
            forall|j: int|
                0 <= j < out@.len() ==> (#[trigger] out@[j])@ == b@.subrange(20 * j, 20 * j + 20),
        decreases b@.len() - i,
    {
        proof {
            assert((b@.len() - i) % 20 == 0) by {
                vstd::arithmetic::div_mod::lemma_sub_mod_noop(b@.len() as int, i as int, 20);
            }
            assert(b@.len() - i >= 20);
        }
        let chunk = vstd::slice::slice_to_vec(vstd::slice::slice_subrange(b.as_slice(), i, i + 20));
        out.push(chunk);
        i = i + 20;
    }
    proof {
        assert(i == b@.len());
        assert(chunk_views(out@) =~= chunks20(b@));
    }
    out
}

/// Collect a piece-layers mapping: root and blob pairs in encounter order,
/// or nothing at all when any value is not a byte-string.
fn collect_layers(les: &Vec<(Vec<u8>, Bencode)>) -> (r: Vec<(Vec<u8>, Vec<u8>)>)
    ensures
        layers_view(r@) == (if all_string_values(pairs_view(les@)) {
            Seq::new(
                pairs_view(les@).len(),
                |i: int|
                    if 0 <= i < pairs_view(les@).len() {
                        (pairs_view(les@)[i].0, pairs_view(les@)[i].1->String_0)
                    } else {
                        (Seq::<u8>::empty(), Seq::<u8>::empty())
                    },
            )
        } else {
            Seq::<(Seq<u8>, Seq<u8>)>::empty()
        }),
{
    let ghost lv = pairs_view(les@);
    let mut out: Vec<(Vec<u8>, Vec<u8>)> = Vec::new();
    let mut idx: usize = 0;
    while idx < les.len()
        invariant
            idx <= les@.len(),
            lv == pairs_view(les@),
            lv.len() == les@.len(),
            out@.len() == idx,
            forall|j: int| 0 <= j < idx ==> (#[trigger] lv[j].1) matches SpecBencode::String(_),
            forall|j: int|
                0 <= j < idx ==> out@[j].0@ == (#[trigger] lv[j]).0 && out@[j].1@
                    == lv[j].1->String_0,
        decreases les@.len() - idx,
    {
        let pair = &les[idx];
        match &pair.1 {
            Bencode::String(b) => {
                proof {
                    assert(pair.0@ == lv[idx as int].0);
                    assert(pair.1@ == lv[idx as int].1);
                    assert(lv[idx as int].1->String_0 == b@);
                }
                let copied_key = vstd::slice::slice_to_vec(pair.0.as_slice());
                let copied_blob = vstd::slice::slice_to_vec(b.as_slice());
                proof {
                    assert(copied_key@ == lv[idx as int].0);
                    assert(copied_blob@ == lv[idx as int].1->String_0);
                }
                out.push((copied_key, copied_blob));
                proof {
                    assert(out@[idx as int].0@ == lv[idx as int].0);
                    assert(out@[idx as int].1@ == lv[idx as int].1->String_0);
                }
            },
            _ => {
                proof {
                    assert(!(lv[idx as int].1 matches SpecBencode::String(_)));
                    assert(!all_string_values(lv));
                }
                return Vec::new();
            },
        }
        idx = idx + 1;
    }
    proof {
        assert(all_string_values(lv));
        assert(layers_view(out@) =~= Seq::new(
            lv.len(),
            |i: int|
                if 0 <= i < lv.len() {
                    (lv[i].0, lv[i].1->String_0)
                } else {
                    (Seq::<u8>::empty(), Seq::<u8>::empty())
                },
        ));
    }
    out
}

impl Info {
    /// Project an `info` term into its typed form: the first malformed
    /// field, in a fixed checking order, decides the error.
    pub fn parse(v: &Bencode) -> (r: Result<Info, SchemaError>)
        ensures
            match r {
                Ok(info) => info_error(v@) is None && info_matches(info, v@),
                Err(e) => info_error(v@) == Some(e),
            },
    {
        match v {
            Bencode::Dictionary(d) => {
                proof {
                    assert(*v == Bencode::Dictionary(*d));
                    crate::bencode_decoder::lemma_dictionary_view(*d);
                }
                let name = match parse_text(
                    d,
                    "name".as_bytes(),
                    SchemaError::NameNotString,
                    SchemaError::NameNotText,
                ) {
                    Ok(s) => s,
                    Err(e) => {
                        return Err(e);
                    },
                };
                let piece_length = match parse_ranged_int(
                    d,
                    "piece length".as_bytes(),
                    4294967295i64,
                    SchemaError::PieceLengthNotInteger,
                    SchemaError::PieceLengthOutOfRange,
                ) {
                    Ok(n) => n as u32,
                    Err(e) => {
                        return Err(e);
                    },
                };
                let meta_version = match parse_ranged_int(
                    d,
                    "meta version".as_bytes(),
                    255i64,
                    SchemaError::MetaVersionNotInteger,
                    SchemaError::MetaVersionOutOfRange,
                ) {
                    Ok(n) => n as u8,
                    Err(e) => {
                        return Err(e);
                    },
                };
                let file_tree: FileTree = match dict_get_exec(d, "file tree".as_bytes()) {
                    None => FileTree::Directory(String::new(), Vec::new()),
                    Some(ftv) => match ftv {
                        Bencode::Dictionary(fes) => {
                            proof {
                                assert(*ftv == Bencode::Dictionary(*fes));
                                crate::bencode_decoder::lemma_dictionary_view(*fes);
                            }
                            match parse_tree_children(fes) {
                                Ok(children) => FileTree::Directory(String::new(), children),
                                Err(e) => {
                                    return Err(e);
                                },
                            }
                        },
                        _ => {
                            return Err(SchemaError::FileTreeNotDictionary);
                        },
                    },
                };
                let file_mode: Option<FileMode> = match dict_get_exec(d, "length".as_bytes()) {
                    Some(lv) => match lv {
                        Bencode::Integer(n) => {
                            let n = *n;
                            if n < 0 {
                                return Err(SchemaError::LengthNegative);
                            }
                            let md5sum: Option<Vec<u8>> = match dict_get_exec(
                                d,
                                "md5sum".as_bytes(),
                            ) {
                                None => None,
                                Some(mv) => match mv {
                                    Bencode::String(b) => Some(
                                        vstd::slice::slice_to_vec(b.as_slice()),
                                    ),
                                    _ => {
                                        return Err(SchemaError::Md5sumNotString);
                                    },
                                },
                            };
                            Some(FileMode::SingleFile { length: n, md5sum })
                        },
                        _ => {
                            return Err(SchemaError::LengthNotInteger);
                        },
                    },
                    None => match dict_get_exec(d, "files".as_bytes()) {
                        None => None,
                        Some(fv) => match fv {
                            Bencode::List(items) => {
                                proof {
                                    assert(*fv == Bencode::List(*items));
                                    crate::bencode_decoder::lemma_list_view(*items);
                                }
                                match parse_v1_entries(items) {
                                    Ok(files) => Some(FileMode::MultipleFile { files }),
                                    Err(e) => {
                                        return Err(e);
                                    },
                                }
                            },
                            _ => {
                                return Err(SchemaError::FilesNotList);
                            },
                        },
                    },
                };
                let pieces: Option<Vec<Vec<u8>>> = match dict_get_exec(d, "pieces".as_bytes()) {
                    None => None,
                    Some(pv) => match pv {
                        Bencode::String(b) => {
                            if b.len() % 20 == 0 {
                                Some(chunk_pieces(b))
                            } else {
                                return Err(SchemaError::PiecesNotChunked);
                            }
                        },
                        _ => {
                            return Err(SchemaError::PiecesNotString);
                        },
                    },
                };
                let private: Option<i64> = match dict_get_exec(d, "private".as_bytes()) {
                    None => None,
                    Some(qv) => match qv {
                        Bencode::Integer(n) => Some(*n),
                        _ => {
                            return Err(SchemaError::PrivateNotInteger);
                        },
                    },
                };
                Ok(Info { name, piece_length, meta_version, file_tree, file_mode, pieces, private })
            },
            _ => Err(SchemaError::InfoNotDictionary),
        }
    }
}

impl Torrent {
    /// Project a decoded metadata document into its typed form. The root
    /// must be a dictionary holding an `info` dictionary; a missing or
    /// ill-shaped `piece layers` value degrades to an empty mapping.
    pub fn parse(v: &Bencode) -> (r: Result<Torrent, SchemaError>)
        ensures
            match r {
                Ok(t) => torrent_error(v@) is None && torrent_matches(t, v@),
                Err(e) => torrent_error(v@) == Some(e),
            },
    {
        match v {
            Bencode::Dictionary(d) => {
                proof {
                    assert(*v == Bencode::Dictionary(*d));
                    crate::bencode_decoder::lemma_dictionary_view(*d);
                }
                let announce = match parse_text(
                    d,
                    "announce".as_bytes(),
                    SchemaError::AnnounceNotString,
                    SchemaError::AnnounceNotText,
                ) {
                    Ok(s) => s,
                    Err(e) => {
                        return Err(e);
                    },
                };
                let info = match dict_get_exec(d, "info".as_bytes()) {
                    None => {
                        return Err(SchemaError::MissingInfo);
                    },
                    Some(iv) => match Info::parse(iv) {
                        Ok(info) => info,
                        Err(e) => {
                            return Err(e);
                        },
                    },
                };
                let piece_layers: Vec<(Vec<u8>, Vec<u8>)> = match dict_get_exec(
                    d,
                    "piece layers".as_bytes(),
                ) {
                    Some(plv) => match plv {
                        Bencode::Dictionary(les) => {
                            proof {
                                assert(*plv == Bencode::Dictionary(*les));
                                crate::bencode_decoder::lemma_dictionary_view(*les);
                            }
                            collect_layers(les)
                        },
                        _ => Vec::new(),
                    },
                    None => Vec::new(),
                };
                proof {
                    assert(layers_view(Seq::<(Vec<u8>, Vec<u8>)>::empty()) =~= Seq::<
                        (Seq<u8>, Seq<u8>),
                    >::empty());
                }
                Ok(Torrent { announce, info, piece_layers })
            },
            _ => Err(SchemaError::RootNotDictionary),
        }
    }
}

/// The name of a tree node.
pub open spec fn tree_node_name(t: FileTree) -> Seq<char> {
    match t {
        FileTree::File(n, _) => n@,
        FileTree::Directory(n, _) => n@,
    }
}

/// The canonical term of one tree node's entry value: a file leaf becomes
/// the empty-key descriptor dictionary, a directory the dictionary of its
/// children in stored order.
pub open spec fn spec_tree_node_bencode(t: FileTree) -> SpecBencode
    decreases t,
{
    match t {
        FileTree::File(_, f) => SpecBencode::Dictionary(
            seq![
                (
                    Seq::<u8>::empty(),
                    SpecBencode::Dictionary(
                        seq![(key_length(), SpecBencode::Integer(f.length as int))] + (
                        match f.pieces_root {
                            Some(b) => seq![(key_pieces_root(), SpecBencode::String(b@))],
                            None => Seq::empty(),
                        }),
                    ),
                ),
            ],
        ),
        FileTree::Directory(_, children) => SpecBencode::Dictionary(spec_tree_entries(children)),
    }
}

/// The canonical entries of a directory: each child under its UTF-8 name.
pub open spec fn spec_tree_entries(children: Vec<FileTree>) -> Seq<(Seq<u8>, SpecBencode)>
    decreases children,
{
    Seq::new(
        children@.len(),
        |i: int|
            if 0 <= i < children@.len() {
                (encode_utf8(tree_node_name(children@[i])), spec_tree_node_bencode(children@[i]))
            } else {
                (Seq::empty(), SpecBencode::Integer(0))
            },
    )
}

/// The canonical term of one legacy files item.
pub open spec fn spec_v1_entry_bencode(e: FileEntryV1) -> SpecBencode {
    SpecBencode::Dictionary(
        (match e.attr {
            Some(b) => seq![(key_attr(), SpecBencode::String(seq![b]))],
            None => Seq::empty(),
        }) + seq![(key_length(), SpecBencode::Integer(e.length as int))] + (match e.md5sum {
            Some(m) => seq![(key_md5sum(), SpecBencode::String(m@))],
            None => Seq::empty(),
        }) + seq![(key_path(), SpecBencode::List(spec_path_items(e.path)))],
    )
}

/// The canonical segment terms of a path.
pub open spec fn spec_path_items(path: Vec<String>) -> Seq<SpecBencode> {
    Seq::new(
        path@.len(),
        |i: int|
            if 0 <= i < path@.len() {
                SpecBencode::String(encode_utf8(path@[i]@))
            } else {
                SpecBencode::Integer(0)
            },
    )
}

/// The canonical item terms of a legacy files list.
pub open spec fn spec_v1_items(files: Vec<FileEntryV1>) -> Seq<SpecBencode> {
    Seq::new(
        files@.len(),
        |i: int|
            if 0 <= i < files@.len() {
                spec_v1_entry_bencode(files@[i])
            } else {
                SpecBencode::Integer(0)
            },
    )
}

/// The concatenation of piece-hash chunks back into one blob, from `i` on.
pub open spec fn concat_chunks_from(ps: Seq<Vec<u8>>, i: int) -> Seq<u8>
    decreases ps.len() - i,
{
    if 0 <= i < ps.len() {
        ps[i]@ + concat_chunks_from(ps, i + 1)
    } else {
        Seq::empty()
    }
}

/// The `file tree` entry of the canonical info term: present when the tree
/// root is a directory with at least one child.
pub open spec fn part_tree(info: Info) -> Seq<(Seq<u8>, SpecBencode)> {
    match info.file_tree {
        FileTree::Directory(_, children) => if children@.len() > 0 {
            seq![(key_file_tree(), SpecBencode::Dictionary(spec_tree_entries(children)))]
        } else {
            Seq::empty()
        },
        FileTree::File(_, _) => Seq::empty(),
    }
}

/// The `files` entry of the canonical info term: present in multi-file mode.
pub open spec fn part_files(info: Info) -> Seq<(Seq<u8>, SpecBencode)> {
    match info.file_mode {
        Some(FileMode::MultipleFile { files }) => seq![
            (key_files(), SpecBencode::List(spec_v1_items(files))),
        ],
        _ => Seq::empty(),
    }
}

/// The `length` entry of the canonical info term: present in single-file
/// mode.
pub open spec fn part_length(info: Info) -> Seq<(Seq<u8>, SpecBencode)> {
    match info.file_mode {
        Some(FileMode::SingleFile { length, .. }) => seq![
            (key_length(), SpecBencode::Integer(length as int)),
        ],
        _ => Seq::empty(),
    }
}

/// The `md5sum` entry of the canonical info term: present in single-file
/// mode when a checksum is held.
pub open spec fn part_md5(info: Info) -> Seq<(Seq<u8>, SpecBencode)> {
    match info.file_mode {
        Some(FileMode::SingleFile { md5sum: Some(m), .. }) => seq![
            (key_md5sum(), SpecBencode::String(m@)),
        ],
        _ => Seq::empty(),
    }
}

/// The `meta version` entry of the canonical info term: present when not
/// zero.
pub open spec fn part_meta_version(info: Info) -> Seq<(Seq<u8>, SpecBencode)> {
    if info.meta_version != 0 {
        seq![(key_meta_version(), SpecBencode::Integer(info.meta_version as int))]
    } else {
        Seq::empty()
    }
}

/// The `name` entry of the canonical info term: present when not empty.
pub open spec fn part_name(info: Info) -> Seq<(Seq<u8>, SpecBencode)> {
    if info.name@.len() != 0 {
        seq![(key_name(), SpecBencode::String(encode_utf8(info.name@)))]
    } else {
        Seq::empty()
    }
}

/// The `piece length` entry of the canonical info term: present when not
/// zero.
pub open spec fn part_piece_length(info: Info) -> Seq<(Seq<u8>, SpecBencode)> {
    if info.piece_length != 0 {
        seq![(key_piece_length(), SpecBencode::Integer(info.piece_length as int))]
    } else {
        Seq::empty()
    }
}

/// The `pieces` entry of the canonical info term: the chunks joined back
/// into one blob, present when held.
pub open spec fn part_pieces(info: Info) -> Seq<(Seq<u8>, SpecBencode)> {
    match info.pieces {
        Some(ps) => seq![(key_pieces(), SpecBencode::String(concat_chunks_from(ps@, 0)))],
        None => Seq::empty(),
    }
}

/// The `private` entry of the canonical info term: present when held.
pub open spec fn part_private(info: Info) -> Seq<(Seq<u8>, SpecBencode)> {
    match info.private {
        Some(n) => seq![(key_private(), SpecBencode::Integer(n as int))],
        None => Seq::empty(),
    }
}

/// The canonical term of an info dictionary, rebuilt from the typed fields
/// alone. Fields equal to their absent-key defaults (empty name, zero piece
/// length, zero meta version, an empty file tree) are left out, and the
/// keys are emitted in a fixed sorted order.
pub open spec fn spec_info_bencode(info: Info) -> SpecBencode {
    SpecBencode::Dictionary(
        part_tree(info) + part_files(info) + part_length(info) + part_md5(info)
            + part_meta_version(info) + part_name(info) + part_piece_length(info) + part_pieces(
            info,
        ) + part_private(info),
    )
}

/// The lowercase hex SHA-256 info hash of the canonical info term.
pub open spec fn infohash_of(info: Info) -> Seq<char> {
    crate::hashing::hex_chars(
        crate::hashing::sha256_of(
            crate::bencode_spec::spec_encode(spec_info_bencode(info)),
        ),
    )
}

/// The lowercase hex SHA-1 info hash of the canonical info term.
pub open spec fn infohash_v1_of(info: Info) -> Seq<char> {
    crate::hashing::hex_chars(
        crate::hashing::sha1_of(crate::bencode_spec::spec_encode(spec_info_bencode(info))),
    )
}

/// The piece roots declared by the file leaves of a tree, in traversal
/// order.
pub open spec fn roots_of(t: FileTree) -> Seq<Seq<u8>>
    decreases t, 0int,
{
    match t {
        FileTree::File(_, f) => match f.pieces_root {
            Some(b) => seq![b@],
            None => Seq::empty(),
        },
        FileTree::Directory(_, children) => roots_from(children, 0),
    }
}

/// The piece roots declared by children `i` and after, in order.
pub open spec fn roots_from(children: Vec<FileTree>, i: int) -> Seq<Seq<u8>>
    decreases children, children@.len() - i, 1int,
{
    if 0 <= i < children@.len() {
        roots_of(children@[i]) + roots_from(children, i + 1)
    } else {
        Seq::empty()
    }
}

/// The spec byte sequences of a run of root buffers.
pub open spec fn root_views(v: Seq<Vec<u8>>) -> Seq<Seq<u8>> {
    Seq::new(
        v.len(),
        |i: int|
            if 0 <= i < v.len() {
                v[i]@
            } else {
                Seq::empty()
            },
    )
}


/// Serialize the children of a directory as dictionary entries, in order.
fn tree_entries_bencode(children: &Vec<FileTree>) -> (r: Vec<(Vec<u8>, Bencode)>)
    ensures
        pairs_view(r@) == spec_tree_entries(*children),
    decreases *children, 0int,
{
    let mut out: Vec<(Vec<u8>, Bencode)> = Vec::new();
    let mut idx: usize = 0;
    while idx < children.len()
        invariant
            idx <= children@.len(),
            out@.len() == idx,
            forall|j: int| 0 <= j < idx ==> pairs_view(out@)[j] == spec_tree_entries(*children)[j],
        decreases children@.len() - idx,
    {
        let child = &children[idx];
        let name: &String = match child {
            FileTree::File(n, _) => n,
            FileTree::Directory(n, _) => n,
        };
        proof {
            assert(name@ == tree_node_name(children@[idx as int]));
            assert(decreases_to!(*children => children@[idx as int]));
        }
        let key = vstd::slice::slice_to_vec(name.as_str().as_bytes());
        let value = tree_node_bencode(child);
        out.push((key, value));
        proof {
            assert(pairs_view(out@)[idx as int] == spec_tree_entries(*children)[idx as int]);
        }
        idx = idx + 1;
    }
    proof {
        assert(pairs_view(out@) =~= spec_tree_entries(*children));
    }
    out
}

/// Serialize one tree node's entry value.
fn tree_node_bencode(t: &FileTree) -> (r: Bencode)
    ensures
        r@ == spec_tree_node_bencode(*t),
    decreases *t, 1int,
{
    match t {
        FileTree::File(_, f) => {
            let mut desc: Vec<(Vec<u8>, Bencode)> = Vec::new();
            desc.push(
                (
                    vstd::slice::slice_to_vec("length".as_bytes()),
                    Bencode::Integer(f.length),
                ),
            );
            match &f.pieces_root {
                Some(b) => {
                    desc.push(
                        (
                            vstd::slice::slice_to_vec("pieces root".as_bytes()),
                            Bencode::String(vstd::slice::slice_to_vec(b.as_slice())),
                        ),
                    );
                },
                None => {},
            }
            let mut top: Vec<(Vec<u8>, Bencode)> = Vec::new();
            let inner = Bencode::Dictionary(desc);
            let ghost spec_desc = seq![(key_length(), SpecBencode::Integer(f.length as int))] + (
            match &f.pieces_root {
                Some(b) => seq![(key_pieces_root(), SpecBencode::String(b@))],
                None => Seq::empty(),
            });
            proof {
                crate::bencode_decoder::lemma_dictionary_view(inner->Dictionary_0);
                assert(inner@->Dictionary_0 =~= spec_desc);
                assert(inner@ == SpecBencode::Dictionary(spec_desc));
            }
            top.push((Vec::new(), inner));
            let r = Bencode::Dictionary(top);
            proof {
                crate::bencode_decoder::lemma_dictionary_view(r->Dictionary_0);
                assert(r@->Dictionary_0 =~= seq![(Seq::<u8>::empty(), inner@)]);
                assert(spec_tree_node_bencode(*t)->Dictionary_0 == seq![
                    (Seq::<u8>::empty(), SpecBencode::Dictionary(spec_desc)),
                ]);
                assert(r@->Dictionary_0 =~= spec_tree_node_bencode(*t)->Dictionary_0);
                assert(r@ == spec_tree_node_bencode(*t));
            }
            r
        },
        FileTree::Directory(_, children) => {
            proof {
                assert(decreases_to!(*t => (*t)->Directory_1));
            }
            let out = tree_entries_bencode(children);
            let r = Bencode::Dictionary(out);
            proof {
                crate::bencode_decoder::lemma_dictionary_view(r->Dictionary_0);
                assert(r@->Dictionary_0 =~= spec_tree_entries(*children));
                assert(r@ == spec_tree_node_bencode(*t));
            }
            r
        },
    }
}

/// Join piece-hash chunks back into one blob.
fn concat_pieces(ps: &Vec<Vec<u8>>) -> (r: Vec<u8>)
    ensures
        r@ == concat_chunks_from(ps@, 0),
{
    let mut out: Vec<u8> = Vec::new();
    let mut i: usize = 0;
    proof {
        assert(Seq::<u8>::empty() + concat_chunks_from(ps@, 0) =~= concat_chunks_from(ps@, 0));
    }
    while i < ps.len()
        invariant
            i <= ps@.len(),
            out@ + concat_chunks_from(ps@, i as int) == concat_chunks_from(ps@, 0),
        decreases ps@.len() - i,
    {
        let ghost before = out@;
        crate::bencode_decoder::push_bytes(&mut out, ps[i].as_slice());
        proof {
            assert(concat_chunks_from(ps@, i as int) == ps@[i as int]@ + concat_chunks_from(
                ps@,
                i as int + 1,
            ));
            assert(out@ + concat_chunks_from(ps@, i as int + 1) =~= before + concat_chunks_from(
                ps@,
                i as int,
            ));
        }
        i = i + 1;
    }
    proof {
        assert(concat_chunks_from(ps@, ps@.len() as int) =~= Seq::<u8>::empty());
        assert(out@ =~= out@ + concat_chunks_from(ps@, ps@.len() as int));
    }
    out
}

impl Info {
    /// Rebuild the canonical info term from the typed fields alone, with
    /// keys in a fixed sorted order and absent-default fields left out.
    /// Append the file-layout entries of the canonical info term: the file
    /// tree, then the multi-file list or the single-file length and
    /// checksum.
    fn push_layout_entries(&self, out: &mut Vec<(Vec<u8>, Bencode)>)
        requires
            old(out)@.len() == 0,
        ensures
            pairs_view(final(out)@) == part_tree(*self) + part_files(*self) + part_length(*self)
                + part_md5(*self),
    {
        let ghost mut acc: Seq<(Seq<u8>, SpecBencode)> = Seq::empty();
        match &self.file_tree {
            FileTree::Directory(_, children) => {
                if children.len() > 0 {
                    let entries = tree_entries_bencode(children);
                    let tree_value = Bencode::Dictionary(entries);
                    proof {
                        crate::bencode_decoder::lemma_dictionary_view(tree_value->Dictionary_0);
                        assert(tree_value@->Dictionary_0 =~= spec_tree_entries(*children));
                        assert(tree_value@ == SpecBencode::Dictionary(spec_tree_entries(
                            *children,
                        )));
                    }
                    out.push(
                        (vstd::slice::slice_to_vec("file tree".as_bytes()), tree_value),
                    );
                }
            },
            FileTree::File(_, _) => {},
        }
        proof {
            assert(pairs_view(out@) =~= acc + part_tree(*self));
            acc = acc + part_tree(*self);
        }
        match &self.file_mode {
            Some(FileMode::MultipleFile { files }) => {
                let mut items: Vec<Bencode> = Vec::new();
                let mut idx: usize = 0;
                while idx < files.len()
                    invariant
                        idx <= files@.len(),
                        self.file_mode matches Some(FileMode::MultipleFile { files: fs }) && fs
                            == *files,
                        items@.len() == idx,
                        forall|j: int|
                            0 <= j < idx ==> crate::bencode_decoder::items_view(items@)[j]
                                == spec_v1_items(*files)[j],
                    decreases files@.len() - idx,
                {
                    let value = v1_entry_bencode(&files[idx]);
                    items.push(value);
                    proof {
                        assert(crate::bencode_decoder::items_view(items@)[idx as int]
                            == spec_v1_items(*files)[idx as int]);
                    }
                    idx = idx + 1;
                }
                let files_value = Bencode::List(items);
                proof {
                    crate::bencode_decoder::lemma_list_view(files_value->List_0);
                    assert(files_value@->List_0 =~= spec_v1_items(*files));
                    assert(files_value@ == SpecBencode::List(spec_v1_items(*files)));
                }
                out.push((vstd::slice::slice_to_vec("files".as_bytes()), files_value));
            },
            _ => {},
        }
        proof {
            assert(pairs_view(out@) =~= acc + part_files(*self));
            acc = acc + part_files(*self);
        }
        match &self.file_mode {
            Some(FileMode::SingleFile { length, md5sum }) => {
                out.push(
                    (
                        vstd::slice::slice_to_vec("length".as_bytes()),
                        Bencode::Integer(*length),
                    ),
                );
                match md5sum {
                    Some(m) => {
                        out.push(
                            (
                                vstd::slice::slice_to_vec("md5sum".as_bytes()),
                                Bencode::String(vstd::slice::slice_to_vec(m.as_slice())),
                            ),
                        );
                    },
                    None => {},
                }
            },
            _ => {},
        }
        proof {
            assert(pairs_view(out@) =~= acc + part_length(*self) + part_md5(*self));
        }
    }

    /// Rebuild the canonical info term from the typed fields alone, with
    /// keys in a fixed sorted order and absent-default fields left out.
    pub fn to_bencode(&self) -> (r: Bencode)
        ensures
            r@ == spec_info_bencode(*self),
    {
        let mut out: Vec<(Vec<u8>, Bencode)> = Vec::new();
        self.push_layout_entries(&mut out);
        let ghost mut acc: Seq<(Seq<u8>, SpecBencode)> = part_tree(*self) + part_files(*self)
            + part_length(*self) + part_md5(*self);
        if self.meta_version != 0 {
            out.push(
                (
                    vstd::slice::slice_to_vec("meta version".as_bytes()),
                    Bencode::Integer(self.meta_version as i64),
                ),
            );
        }
        proof {
            assert(pairs_view(out@) =~= acc + part_meta_version(*self));
            acc = acc + part_meta_version(*self);
        }
        if self.name.as_str().unicode_len() != 0 {
            out.push(
                (
                    vstd::slice::slice_to_vec("name".as_bytes()),
                    Bencode::String(vstd::slice::slice_to_vec(self.name.as_str().as_bytes())),
                ),
            );
        }
        proof {
            assert(pairs_view(out@) =~= acc + part_name(*self));
            acc = acc + part_name(*self);
        }
        if self.piece_length != 0 {
            out.push(
                (
                    vstd::slice::slice_to_vec("piece length".as_bytes()),
                    Bencode::Integer(self.piece_length as i64),
                ),
            );
        }
        proof {
            assert(pairs_view(out@) =~= acc + part_piece_length(*self));
            acc = acc + part_piece_length(*self);
        }
        match &self.pieces {
            Some(ps) => {
                out.push(
                    (
                        vstd::slice::slice_to_vec("pieces".as_bytes()),
                        Bencode::String(concat_pieces(ps)),
                    ),
                );
            },
            None => {},
        }
        proof {
            assert(pairs_view(out@) =~= acc + part_pieces(*self));
            acc = acc + part_pieces(*self);
        }
        match &self.private {
            Some(n) => {
                out.push(
                    (
                        vstd::slice::slice_to_vec("private".as_bytes()),
                        Bencode::Integer(*n),
                    ),
                );
            },
            None => {},
        }
        let r = Bencode::Dictionary(out);
        proof {
            crate::bencode_decoder::lemma_dictionary_view(r->Dictionary_0);
            assert(pairs_view(out@) =~= acc + part_private(*self));
            assert(r@ == spec_info_bencode(*self));
        }
        r
    }

    /// The lowercase hex SHA-256 digest of the canonical info term's
    /// encoding: the v2-style info hash.
    pub fn get_infohash(&self) -> (r: String)
        ensures
            r@ == infohash_of(*self),
    {
        let term = self.to_bencode();
        let encoded = term.encode_value();
        let digest = crate::hashing::sha256(encoded.as_slice());
        let hex = crate::hashing::to_hex_bytes(&digest);
        crate::text::ascii_to_string(hex)
    }

    /// The lowercase hex SHA-1 digest of the canonical info term's
    /// encoding: the v1-compatible info hash.
    pub fn get_infohash_v1(&self) -> (r: String)
        ensures
            r@ == infohash_v1_of(*self),
    {
        let term = self.to_bencode();
        let encoded = term.encode_value();
        let digest = crate::hashing::sha1(encoded.as_slice());
        let hex = crate::hashing::to_hex_bytes(&digest);
        crate::text::ascii_to_string(hex)
    }
}

/// Serialize one legacy files item.
fn v1_entry_bencode(e: &FileEntryV1) -> (r: Bencode)
    ensures
        r@ == spec_v1_entry_bencode(*e),
{
    let mut out: Vec<(Vec<u8>, Bencode)> = Vec::new();
    match &e.attr {
        Some(b) => {
            let mut flag: Vec<u8> = Vec::new();
            flag.push(*b);
            out.push((vstd::slice::slice_to_vec("attr".as_bytes()), Bencode::String(flag)));
        },
        None => {},
    }
    out.push(
        (vstd::slice::slice_to_vec("length".as_bytes()), Bencode::Integer(e.length)),
    );
    match &e.md5sum {
        Some(m) => {
            out.push(
                (
                    vstd::slice::slice_to_vec("md5sum".as_bytes()),
                    Bencode::String(vstd::slice::slice_to_vec(m.as_slice())),
                ),
            );
        },
        None => {},
    }
    let mut segs: Vec<Bencode> = Vec::new();
    let mut idx: usize = 0;
    while idx < e.path.len()
        invariant
            idx <= e.path@.len(),
            segs@.len() == idx,
            forall|j: int|
                0 <= j < idx ==> crate::bencode_decoder::items_view(segs@)[j] == spec_path_items(
                    e.path,
                )[j],
        decreases e.path@.len() - idx,
    {
        let seg = Bencode::String(
            vstd::slice::slice_to_vec(e.path[idx].as_str().as_bytes()),
        );
        segs.push(seg);
        proof {
            assert(crate::bencode_decoder::items_view(segs@)[idx as int] == spec_path_items(
                e.path,
            )[idx as int]);
        }
        idx = idx + 1;
    }
    let path_value = Bencode::List(segs);
    proof {
        crate::bencode_decoder::lemma_list_view(path_value->List_0);
        assert(path_value@->List_0 =~= spec_path_items(e.path));
    }
    out.push((vstd::slice::slice_to_vec("path".as_bytes()), path_value));
    let r = Bencode::Dictionary(out);
    proof {
        crate::bencode_decoder::lemma_dictionary_view(r->Dictionary_0);
        assert(r@->Dictionary_0 =~= spec_v1_entry_bencode(*e)->Dictionary_0);
        assert(r@ == spec_v1_entry_bencode(*e));
    }
    r
}

/// Gather the piece roots declared by the leaves of a tree, in traversal
/// order.
fn collect_roots(t: &FileTree, out: &mut Vec<Vec<u8>>)
    ensures
        root_views(final(out)@) == root_views(old(out)@) + roots_of(*t),
    decreases *t,
{
    match t {
        FileTree::File(_, f) => {
            match &f.pieces_root {
                Some(b) => {
                    out.push(vstd::slice::slice_to_vec(b.as_slice()));
                    proof {
                        assert(root_views(out@) =~= root_views(old(out)@) + roots_of(*t));
                    }
                },
                None => {
                    proof {
                        assert(root_views(out@) =~= root_views(old(out)@) + roots_of(*t));
                    }
                },
            }
        },
        FileTree::Directory(_, children) => {
            let mut idx: usize = 0;
            proof {
                assert(root_views(out@) + roots_from(*children, 0) =~= root_views(old(out)@)
                    + roots_from(*children, 0));
            }
            while idx < children.len()
                invariant
                    idx <= children@.len(),
                    *t matches FileTree::Directory(_, c) && c == *children,
                    root_views(out@) + roots_from(*children, idx as int) == root_views(
                        old(out)@,
                    ) + roots_from(*children, 0),
                decreases children@.len() - idx,
            {
                let ghost before = out@;
                proof {
                    assert(decreases_to!(*t => (*t)->Directory_1));
                    assert(decreases_to!(*children => children@[idx as int]));
                }
                collect_roots(&children[idx], out);
                proof {
                    assert(roots_from(*children, idx as int) == roots_of(children@[idx as int])
                        + roots_from(*children, idx as int + 1));
                    assert(root_views(out@) =~= root_views(before) + roots_of(
                        children@[idx as int],
                    ));
                    assert(root_views(out@) + roots_from(*children, idx as int + 1)
                        =~= root_views(before) + roots_from(*children, idx as int));
                }
                idx = idx + 1;
            }
            proof {
                assert(roots_from(*children, children@.len() as int) =~= Seq::<Seq<u8>>::empty());
                assert(root_views(out@) =~= root_views(out@) + roots_from(
                    *children,
                    children@.len() as int,
                ));
                assert(roots_of(*t) == roots_from(*children, 0));
            }
        },
    }
}

/// True when some gathered root holds exactly these bytes.
fn contains_bytes(roots: &Vec<Vec<u8>>, key: &[u8]) -> (r: bool)
    ensures
        r == root_views(roots@).contains(key@),
{
    let mut i: usize = 0;
    while i < roots.len()
        invariant
            i <= roots@.len(),
            forall|j: int| 0 <= j < i ==> root_views(roots@)[j] != key@,
        decreases roots@.len() - i,
    {
        let hit = bytes_eq(roots[i].as_slice(), key);
        if hit {
            proof {
                assert(root_views(roots@)[i as int] == key@);
            }
            return true;
        }
        i = i + 1;
    }
    proof {
        assert(!root_views(roots@).contains(key@));
    }
    false
}

impl Torrent {
    /// True exactly when the computed info hash equals `expected` and every
    /// key of the piece-layers mapping is a piece root declared by some
    /// file-tree leaf. This is a presence check over declared roots, not a
    /// cryptographic proof of the layer contents.
    pub fn verify_infohash(&self, expected: &str) -> (r: bool)
        ensures
            r == (expected@ == infohash_of(self.info) && forall|i: int|
                0 <= i < self.piece_layers@.len() ==> roots_of(self.info.file_tree).contains(
                    #[trigger] self.piece_layers@[i].0@,
                )),
    {
        let computed = self.info.get_infohash();
        let expected_string: String = expected.to_owned();
        let hash_ok: bool = computed == expected_string;
        if !hash_ok {
            return false;
        }
        let mut roots: Vec<Vec<u8>> = Vec::new();
        collect_roots(&self.info.file_tree, &mut roots);
        proof {
            assert(root_views(Seq::<Vec<u8>>::empty()) =~= Seq::<Seq<u8>>::empty());
            assert(root_views(roots@) =~= roots_of(self.info.file_tree));
        }
        let mut i: usize = 0;
        while i < self.piece_layers.len()
            invariant
                i <= self.piece_layers@.len(),
                root_views(roots@) == roots_of(self.info.file_tree),
                forall|j: int|
                    0 <= j < i ==> roots_of(self.info.file_tree).contains(
                        #[trigger] self.piece_layers@[j].0@,
                    ),
            decreases self.piece_layers@.len() - i,
        {
            let present = contains_bytes(&roots, self.piece_layers[i].0.as_slice());
            if !present {
                return false;
            }
            i = i + 1;
        }
        true
    }
}

/// A tree the parser itself could have produced: file lengths are
/// non-negative and a directory's entries never bear an empty name.
pub open spec fn tree_wf(t: FileTree) -> bool
    decreases t,
{
    match t {
        FileTree::File(_, f) => f.length >= 0,
        FileTree::Directory(_, children) => forall|i: int|
            0 <= i < children@.len() ==> tree_node_name(#[trigger] children@[i]).len() > 0
                && tree_wf(children@[i]),
    }
}

/// The UTF-8 encoding of a non-empty text is non-empty.
proof fn lemma_encode_utf8_nonempty(s: Seq<char>)
    requires
        s.len() > 0,
    ensures
        encode_utf8(s).len() > 0,
{
    assert(encode_utf8(s) == vstd::utf8::encode_scalar(s[0] as u32) + encode_utf8(
        s.drop_first(),
    ));
    assert(vstd::utf8::encode_scalar(s[0] as u32).len() >= 1);
}

/// The `length` and `pieces root` keys differ.
proof fn lemma_key_length_ne_pieces_root()
    ensures
        key_length() != key_pieces_root(),
{
    reveal_strlit("length");
    reveal_strlit("pieces root");
    assert(vstd::utf8::is_ascii_chars("length"@));
    assert(vstd::utf8::is_ascii_chars("pieces root"@));
    vstd::utf8::is_ascii_chars_encode_utf8("length"@);
    vstd::utf8::is_ascii_chars_encode_utf8("pieces root"@);
    assert(key_length().len() == 6);
    assert(key_pieces_root().len() == 11);
}

/// Law: one tree node round-trips — a well-formed node re-encodes to an
/// entry value that is well-formed for the parser and parses back, under
/// the node's own name, to the identical node.
pub proof fn lemma_tree_node_round_trip(t: FileTree)
    requires
        tree_wf(t),
    ensures
        tree_node_error(spec_tree_node_bencode(t)) is None,
        tree_matches(t, tree_node_name(t), spec_tree_node_bencode(t)),
    decreases t, 1int,
{
    broadcast use vstd::utf8::encode_utf8_valid_utf8;
    broadcast use vstd::utf8::encode_utf8_decode_utf8;

    match t {
        FileTree::File(_, f) => {
            let v = spec_tree_node_bencode(t);
            let entries = v->Dictionary_0;
            assert(entries[0].0 == Seq::<u8>::empty());
            assert(dict_get(entries, Seq::empty()) == Some(entries[0].1));
            let desc = entries[0].1;
            let dd = desc->Dictionary_0;
            lemma_key_length_ne_pieces_root();
            assert(dd[0] == (key_length(), SpecBencode::Integer(f.length as int)));
            assert(dict_get(dd, key_length()) == Some(dd[0].1));
            match f.pieces_root {
                Some(b) => {
                    assert(dd =~= seq![
                        (key_length(), SpecBencode::Integer(f.length as int)),
                        (key_pieces_root(), SpecBencode::String(b@)),
                    ]);
                    assert(dd.drop_first() =~= seq![
                        (key_pieces_root(), SpecBencode::String(b@)),
                    ]);
                    assert(dict_get(dd.drop_first(), key_pieces_root()) == Some(
                        SpecBencode::String(b@),
                    ));
                    assert(dict_get(dd, key_pieces_root()) == Some(SpecBencode::String(b@)));
                },
                None => {
                    assert(dd =~= seq![(key_length(), SpecBencode::Integer(f.length as int))]);
                    assert(dd.drop_first() =~= Seq::<(Seq<u8>, SpecBencode)>::empty());
                    assert(dict_get(dd.drop_first(), key_pieces_root()) is None);
                    assert(dict_get(dd, key_pieces_root()) is None);
                },
            }
        },
        FileTree::Directory(_, children) => {
            let entries = spec_tree_entries(children);
            assert forall|i: int| 0 <= i < entries.len() implies valid_utf8(
                #[trigger] entries[i].0,
            ) && tree_node_error(entries[i].1) is None && tree_matches(
                children@[i],
                decode_utf8(entries[i].0),
                entries[i].1,
            ) && entries[i].0.len() > 0 by {
                assert(decreases_to!(t => t->Directory_1));
                assert(decreases_to!(children => children@[i]));
                lemma_tree_node_round_trip(children@[i]);
                assert(entries[i] == (
                    encode_utf8(tree_node_name(children@[i])),
                    spec_tree_node_bencode(children@[i]),
                ));
                lemma_encode_utf8_nonempty(tree_node_name(children@[i]));
            }
            assert(forall|j: int| 0 <= j < entries.len() ==> entries[j].0 != Seq::<u8>::empty());
            lemma_dict_get_absent(entries, Seq::empty());
            lemma_tree_entries_error_skip(entries, entries.len() as int);
            assert(entries.skip(entries.len() as int).len() == 0);
            assert(tree_node_error(spec_tree_node_bencode(t)) is None);
        },
    }
}

/// Law: the file tree round-trips — re-encoding the children of a file tree
/// that the parser could have produced yields a term whose entries are
/// well-formed and parse back to the identical children.
pub proof fn lemma_file_tree_round_trip(children: Vec<FileTree>)
    requires
        forall|i: int| 0 <= i < children@.len() ==> tree_wf(#[trigger] children@[i]),
    ensures
        tree_entries_error(spec_tree_entries(children)) is None,
        tree_children_match(children@, spec_tree_entries(children)),
    decreases children, 2int,
{
    broadcast use vstd::utf8::encode_utf8_valid_utf8;
    broadcast use vstd::utf8::encode_utf8_decode_utf8;

    let entries = spec_tree_entries(children);
    assert forall|i: int| 0 <= i < entries.len() implies valid_utf8(
        #[trigger] entries[i].0,
    ) && tree_node_error(entries[i].1) is None && tree_matches(
        children@[i],
        decode_utf8(entries[i].0),
        entries[i].1,
    ) by {
        assert(decreases_to!(children => children@[i]));
        lemma_tree_node_round_trip(children@[i]);
        assert(entries[i] == (
            encode_utf8(tree_node_name(children@[i])),
            spec_tree_node_bencode(children@[i]),
        ));
    }
    lemma_tree_entries_error_skip(entries, entries.len() as int);
    assert(entries.skip(entries.len() as int).len() == 0);
}

/// A lookup scans concatenated runs left to right.
proof fn lemma_dict_get_concat(
    a: Seq<(Seq<u8>, SpecBencode)>,
    b: Seq<(Seq<u8>, SpecBencode)>,
    k: Seq<u8>,
)
    ensures
        dict_get(a + b, k) == (match dict_get(a, k) {
            Some(x) => Some(x),
            None => dict_get(b, k),
        }),
    decreases a.len(),
{
    if a.len() == 0 {
        assert(a + b =~= b);
    } else {
        assert((a + b).drop_first() =~= a.drop_first() + b);
        lemma_dict_get_concat(a.drop_first(), b, k);
    }
}

/// A lookup skips a leading run that does not hold the key.
proof fn lemma_dict_get_skip(
    a: Seq<(Seq<u8>, SpecBencode)>,
    b: Seq<(Seq<u8>, SpecBencode)>,
    k: Seq<u8>,
)
    requires
        forall|j: int| 0 <= j < a.len() ==> (#[trigger] a[j]).0 != k,
    ensures
        dict_get(a + b, k) == dict_get(b, k),
{
    lemma_dict_get_absent(a, k);
    lemma_dict_get_concat(a, b, k);
}

/// The schema's key texts are pairwise distinct byte sequences.
proof fn lemma_keys_distinct()
    ensures
        key_file_tree() != key_files(),
        key_file_tree() != key_length(),
        key_file_tree() != key_md5sum(),
        key_file_tree() != key_meta_version(),
        key_file_tree() != key_name(),
        key_file_tree() != key_piece_length(),
        key_file_tree() != key_pieces(),
        key_file_tree() != key_private(),
        key_files() != key_length(),
        key_files() != key_md5sum(),
        key_files() != key_meta_version(),
        key_files() != key_name(),
        key_files() != key_piece_length(),
        key_files() != key_pieces(),
        key_files() != key_private(),
        key_length() != key_md5sum(),
        key_length() != key_meta_version(),
        key_length() != key_name(),
        key_length() != key_piece_length(),
        key_length() != key_pieces(),
        key_length() != key_private(),
        key_md5sum() != key_meta_version(),
        key_md5sum() != key_name(),
        key_md5sum() != key_piece_length(),
        key_md5sum() != key_pieces(),
        key_md5sum() != key_private(),
        key_meta_version() != key_name(),
        key_meta_version() != key_piece_length(),
        key_meta_version() != key_pieces(),
        key_meta_version() != key_private(),
        key_name() != key_piece_length(),
        key_name() != key_pieces(),
        key_name() != key_private(),
        key_piece_length() != key_pieces(),
        key_piece_length() != key_private(),
        key_pieces() != key_private(),
        key_attr() != key_length(),
        key_attr() != key_md5sum(),
        key_attr() != key_path(),
        key_length() != key_path(),
        key_md5sum() != key_path(),
{
    reveal_strlit("file tree");
    reveal_strlit("files");
    reveal_strlit("length");
    reveal_strlit("md5sum");
    reveal_strlit("meta version");
    reveal_strlit("name");
    reveal_strlit("piece length");
    reveal_strlit("pieces");
    reveal_strlit("private");
    reveal_strlit("attr");
    reveal_strlit("path");
    assert(vstd::utf8::is_ascii_chars("file tree"@));
    assert(vstd::utf8::is_ascii_chars("files"@));
    assert(vstd::utf8::is_ascii_chars("length"@));
    assert(vstd::utf8::is_ascii_chars("md5sum"@));
    assert(vstd::utf8::is_ascii_chars("meta version"@));
    assert(vstd::utf8::is_ascii_chars("name"@));
    assert(vstd::utf8::is_ascii_chars("piece length"@));
    assert(vstd::utf8::is_ascii_chars("pieces"@));
    assert(vstd::utf8::is_ascii_chars("private"@));
    assert(vstd::utf8::is_ascii_chars("attr"@));
    assert(vstd::utf8::is_ascii_chars("path"@));
    vstd::utf8::is_ascii_chars_encode_utf8("file tree"@);
    vstd::utf8::is_ascii_chars_encode_utf8("files"@);
    vstd::utf8::is_ascii_chars_encode_utf8("length"@);
    vstd::utf8::is_ascii_chars_encode_utf8("md5sum"@);
    vstd::utf8::is_ascii_chars_encode_utf8("meta version"@);
    vstd::utf8::is_ascii_chars_encode_utf8("name"@);
    vstd::utf8::is_ascii_chars_encode_utf8("piece length"@);
    vstd::utf8::is_ascii_chars_encode_utf8("pieces"@);
    vstd::utf8::is_ascii_chars_encode_utf8("private"@);
    vstd::utf8::is_ascii_chars_encode_utf8("attr"@);
    vstd::utf8::is_ascii_chars_encode_utf8("path"@);
    assert(key_file_tree().len() == 9);
    assert(key_files().len() == 5);
    assert(key_length().len() == 6);
    assert(key_md5sum().len() == 6);
    assert(key_meta_version().len() == 12);
    assert(key_name().len() == 4);
    assert(key_piece_length().len() == 12);
    assert(key_pieces().len() == 6);
    assert(key_private().len() == 7);
    assert(key_attr().len() == 4);
    assert(key_path().len() == 4);
    assert(key_length()[0] == 108);
    assert(key_md5sum()[0] == 109);
    assert(key_pieces()[0] == 112);
    assert(key_meta_version()[0] == 109);
    assert(key_piece_length()[0] == 112);
    assert(key_name()[0] == 110);
    assert(key_attr()[0] == 97);
    assert(key_path()[0] == 112);
}

/// Joining 20-byte chunks yields a blob that splits back into them.
proof fn lemma_concat_chunks_shape(ps: Seq<Vec<u8>>, i: int)
    requires
        0 <= i <= ps.len(),
        forall|j: int| 0 <= j < ps.len() ==> (#[trigger] ps[j])@.len() == 20,
    ensures
        concat_chunks_from(ps, i).len() == 20 * (ps.len() - i),
        forall|j: int|
            i <= j < ps.len() ==> concat_chunks_from(ps, i).subrange(
                20 * (j - i),
                20 * (j - i) + 20,
            ) == (#[trigger] ps[j])@,
    decreases ps.len() - i,
{
    if i < ps.len() {
        lemma_concat_chunks_shape(ps, i + 1);
        let whole = concat_chunks_from(ps, i);
        let rest = concat_chunks_from(ps, i + 1);
        assert(whole == ps[i]@ + rest);
        assert forall|j: int|
            i <= j < ps.len() implies whole.subrange(20 * (j - i), 20 * (j - i) + 20) == (
        #[trigger] ps[j])@ by {
            if j == i {
                assert(whole.subrange(0, 20) =~= ps[i]@);
            } else {
                assert(whole.subrange(20 * (j - i), 20 * (j - i) + 20) =~= rest.subrange(
                    20 * (j - i - 1),
                    20 * (j - i - 1) + 20,
                ));
            }
        }
    }
}

/// Law: one legacy files item round-trips — a well-formed entry re-encodes
/// to a term that is well-formed for the parser and parses back to the
/// identical entry.
pub proof fn lemma_v1_entry_round_trip(e: FileEntryV1)
    requires
        e.length >= 0,
    ensures
        v1_entry_error(spec_v1_entry_bencode(e)) is None,
        v1_entry_matches(e, spec_v1_entry_bencode(e)),
{
    broadcast use vstd::utf8::encode_utf8_valid_utf8;
    broadcast use vstd::utf8::encode_utf8_decode_utf8;

    lemma_keys_distinct();
    let v = spec_v1_entry_bencode(e);
    let es = v->Dictionary_0;
    let attr_part = (match e.attr {
        Some(b) => seq![(key_attr(), SpecBencode::String(seq![b]))],
        None => Seq::<(Seq<u8>, SpecBencode)>::empty(),
    });
    let length_part = seq![(key_length(), SpecBencode::Integer(e.length as int))];
    let md5_part = (match e.md5sum {
        Some(m) => seq![(key_md5sum(), SpecBencode::String(m@))],
        None => Seq::<(Seq<u8>, SpecBencode)>::empty(),
    });
    let path_part = seq![(key_path(), SpecBencode::List(spec_path_items(e.path)))];
    assert(es == attr_part + length_part + md5_part + path_part);

    // length
    assert(es =~= attr_part + (length_part + md5_part + path_part));
    lemma_dict_get_skip(attr_part, length_part + md5_part + path_part, key_length());
    assert((length_part + md5_part + path_part)[0] == length_part[0]);
    assert(dict_get(es, key_length()) == Some(SpecBencode::Integer(e.length as int)));

    // md5sum
    lemma_dict_get_skip(attr_part + length_part, md5_part + path_part, key_md5sum());
    assert(es =~= (attr_part + length_part) + (md5_part + path_part));
    match e.md5sum {
        Some(m) => {
            assert((md5_part + path_part)[0] == md5_part[0]);
            assert(dict_get(es, key_md5sum()) == Some(SpecBencode::String(m@)));
        },
        None => {
            assert(md5_part + path_part =~= path_part);
            lemma_dict_get_skip(path_part, Seq::empty(), key_md5sum());
            assert(path_part + Seq::<(Seq<u8>, SpecBencode)>::empty() =~= path_part);
            assert(dict_get(es, key_md5sum()) is None);
        },
    }

    // path
    lemma_dict_get_skip(attr_part + length_part + md5_part, path_part, key_path());
    assert(es =~= (attr_part + length_part + md5_part) + path_part);
    assert(dict_get(es, key_path()) == Some(SpecBencode::List(spec_path_items(e.path))));

    // attr
    match e.attr {
        Some(b) => {
            assert(es[0] == (key_attr(), SpecBencode::String(seq![b])));
            assert(dict_get(es, key_attr()) == Some(SpecBencode::String(seq![b])));
        },
        None => {
            assert(attr_part =~= Seq::<(Seq<u8>, SpecBencode)>::empty());
            lemma_dict_get_skip(
                attr_part + length_part + md5_part + path_part,
                Seq::empty(),
                key_attr(),
            );
            assert((attr_part + length_part + md5_part + path_part) + Seq::<
                (Seq<u8>, SpecBencode),
            >::empty() =~= es);
            assert(dict_get(es, key_attr()) is None);
        },
    }

    // path items parse back
    let items = spec_path_items(e.path);
    assert forall|i: int| 0 <= i < items.len() implies (#[trigger] items[i]) matches
        SpecBencode::String(b) && valid_utf8(b) && e.path@[i]@ == decode_utf8(b) by {
        assert(items[i] == SpecBencode::String(encode_utf8(e.path@[i]@)));
    }
    lemma_path_error_skip(items, items.len() as int);
    assert(items.skip(items.len() as int).len() == 0);
    assert(path_matches(e.path@, items));
}

/// An info value the parser itself could have produced: the tree is rooted
/// at an empty-name directory of well-formed children, lengths are
/// non-negative, and piece hashes are 20 bytes each.
pub open spec fn info_wf(info: Info) -> bool {
    &&& (info.file_tree matches FileTree::Directory(rn, children) && rn@ == Seq::<char>::empty()
        && (forall|i: int| 0 <= i < children@.len() ==> tree_wf(#[trigger] children@[i])))
    &&& (match info.file_mode {
        None => true,
        Some(FileMode::SingleFile { length, .. }) => length >= 0,
        Some(FileMode::MultipleFile { files }) => forall|i: int|
            0 <= i < files@.len() ==> (#[trigger] files@[i]).length >= 0,
    })
    &&& (match info.pieces {
        Some(ps) => forall|i: int| 0 <= i < ps@.len() ==> (#[trigger] ps@[i])@.len() == 20,
        None => true,
    })
}

/// Each entry of a canonical part bears that part's key.
proof fn lemma_part_keys(info: Info)
    ensures
        forall|j: int|
            0 <= j < part_tree(info).len() ==> (#[trigger] part_tree(info)[j]).0
                == key_file_tree(),
        forall|j: int|
            0 <= j < part_files(info).len() ==> (#[trigger] part_files(info)[j]).0 == key_files(),
        forall|j: int|
            0 <= j < part_length(info).len() ==> (#[trigger] part_length(info)[j]).0
                == key_length(),
        forall|j: int|
            0 <= j < part_md5(info).len() ==> (#[trigger] part_md5(info)[j]).0 == key_md5sum(),
        forall|j: int|
            0 <= j < part_meta_version(info).len() ==> (#[trigger] part_meta_version(info)[j]).0
                == key_meta_version(),
        forall|j: int|
            0 <= j < part_name(info).len() ==> (#[trigger] part_name(info)[j]).0 == key_name(),
        forall|j: int|
            0 <= j < part_piece_length(info).len() ==> (#[trigger] part_piece_length(info)[j]).0
                == key_piece_length(),
        forall|j: int|
            0 <= j < part_pieces(info).len() ==> (#[trigger] part_pieces(info)[j]).0
                == key_pieces(),
        forall|j: int|
            0 <= j < part_private(info).len() ==> (#[trigger] part_private(info)[j]).0
                == key_private(),
{
}

/// The file-tree field of the canonical term parses back to the tree.
proof fn lemma_info_rt_tree(info: Info)
    requires
        info_wf(info),
    ensures
        tree_field_error(spec_info_bencode(info)->Dictionary_0) is None,
        tree_field_matches(info.file_tree, spec_info_bencode(info)->Dictionary_0),
{
    lemma_keys_distinct();
    lemma_part_keys(info);
    let es = spec_info_bencode(info)->Dictionary_0;
    match info.file_tree {
        FileTree::Directory(_, children) => {
            lemma_file_tree_round_trip(children);
            if children@.len() > 0 {
                assert(es[0] == (key_file_tree(), SpecBencode::Dictionary(
                    spec_tree_entries(children),
                )));
                assert(dict_get(es, key_file_tree()) == Some(SpecBencode::Dictionary(
                    spec_tree_entries(children),
                )));
            } else {
                assert(forall|j: int|
                    0 <= j < es.len() ==> (#[trigger] es[j]).0 != key_file_tree());
                lemma_dict_get_absent(es, key_file_tree());
            }
        },
        FileTree::File(_, _) => {
            assert(false);
        },
    }
}

/// The name field of the canonical term parses back to the name.
proof fn lemma_info_rt_name(info: Info)
    ensures
        name_check(spec_info_bencode(info)->Dictionary_0) == Ok::<Seq<char>, SchemaError>(
            info.name@,
        ),
{
    broadcast use vstd::utf8::encode_utf8_valid_utf8;
    broadcast use vstd::utf8::encode_utf8_decode_utf8;

    lemma_keys_distinct();
    lemma_part_keys(info);
    let es = spec_info_bencode(info)->Dictionary_0;
    let pre = part_tree(info) + part_files(info) + part_length(info) + part_md5(info)
        + part_meta_version(info);
    let suf = part_name(info) + part_piece_length(info) + part_pieces(info) + part_private(info);
    assert(es =~= pre + suf);
    assert(forall|j: int| 0 <= j < pre.len() ==> (#[trigger] pre[j]).0 != key_name());
    lemma_dict_get_skip(pre, suf, key_name());
    if info.name@.len() != 0 {
        assert(suf[0] == (key_name(), SpecBencode::String(encode_utf8(info.name@))));
        assert(dict_get(suf, key_name()) == Some(SpecBencode::String(encode_utf8(info.name@))));
    } else {
        assert(forall|j: int| 0 <= j < suf.len() ==> (#[trigger] suf[j]).0 != key_name());
        lemma_dict_get_absent(suf, key_name());
        assert(info.name@ =~= Seq::<char>::empty());
    }
}

/// The piece-length field of the canonical term parses back to the value.
proof fn lemma_info_rt_piece_length(info: Info)
    ensures
        piece_length_check(spec_info_bencode(info)->Dictionary_0) == Ok::<int, SchemaError>(
            info.piece_length as int,
        ),
{
    lemma_keys_distinct();
    lemma_part_keys(info);
    let es = spec_info_bencode(info)->Dictionary_0;
    let pre = part_tree(info) + part_files(info) + part_length(info) + part_md5(info)
        + part_meta_version(info) + part_name(info);
    let suf = part_piece_length(info) + part_pieces(info) + part_private(info);
    assert(es =~= pre + suf);
    assert(forall|j: int| 0 <= j < pre.len() ==> (#[trigger] pre[j]).0 != key_piece_length());
    lemma_dict_get_skip(pre, suf, key_piece_length());
    if info.piece_length != 0 {
        assert(suf[0] == (key_piece_length(), SpecBencode::Integer(info.piece_length as int)));
        assert(dict_get(suf, key_piece_length()) == Some(SpecBencode::Integer(
            info.piece_length as int,
        )));
    } else {
        assert(forall|j: int| 0 <= j < suf.len() ==> (#[trigger] suf[j]).0 != key_piece_length());
        lemma_dict_get_absent(suf, key_piece_length());
    }
}

/// The meta-version field of the canonical term parses back to the value.
#[verifier::rlimit(100)]
proof fn lemma_info_rt_meta_version(info: Info)
    ensures
        meta_version_check(spec_info_bencode(info)->Dictionary_0) == Ok::<int, SchemaError>(
            info.meta_version as int,
        ),
{
    lemma_keys_distinct();
    lemma_part_keys(info);
    let es = spec_info_bencode(info)->Dictionary_0;
    let pre = part_tree(info) + part_files(info) + part_length(info) + part_md5(info);
    let suf = part_meta_version(info) + part_name(info) + part_piece_length(info) + part_pieces(
        info,
    ) + part_private(info);
    assert(es =~= pre + suf);
    assert(forall|j: int| 0 <= j < pre.len() ==> (#[trigger] pre[j]).0 != key_meta_version());
    lemma_dict_get_skip(pre, suf, key_meta_version());
    if info.meta_version != 0 {
        assert(suf[0] == (key_meta_version(), SpecBencode::Integer(info.meta_version as int)));
        assert(dict_get(suf, key_meta_version()) == Some(SpecBencode::Integer(
            info.meta_version as int,
        )));
    } else {
        assert(forall|j: int| 0 <= j < suf.len() ==> (#[trigger] suf[j]).0 != key_meta_version());
        lemma_dict_get_absent(suf, key_meta_version());
    }
}

/// The length lookup in the canonical term, by file mode.
#[verifier::rlimit(100)]
proof fn lemma_info_rt_length_lookup(info: Info)
    ensures
        dict_get(spec_info_bencode(info)->Dictionary_0, key_length()) == (
        match info.file_mode {
            Some(FileMode::SingleFile { length, .. }) => Some(SpecBencode::Integer(
                length as int,
            )),
            _ => None,
        }),
{
    lemma_keys_distinct();
    lemma_part_keys(info);
    let es = spec_info_bencode(info)->Dictionary_0;
    let pre = part_tree(info) + part_files(info);
    let suf = part_length(info) + part_md5(info) + part_meta_version(info) + part_name(info)
        + part_piece_length(info) + part_pieces(info) + part_private(info);
    assert(es =~= pre + suf);
    assert(forall|j: int| 0 <= j < pre.len() ==> (#[trigger] pre[j]).0 != key_length());
    lemma_dict_get_skip(pre, suf, key_length());
    match info.file_mode {
        Some(FileMode::SingleFile { length, .. }) => {
            assert(suf[0] == (key_length(), SpecBencode::Integer(length as int)));
            assert(dict_get(suf, key_length()) == Some(SpecBencode::Integer(length as int)));
        },
        _ => {
            assert(forall|j: int| 0 <= j < suf.len() ==> (#[trigger] suf[j]).0 != key_length());
            lemma_dict_get_absent(suf, key_length());
        },
    }
}

/// The md5sum key is present in the canonical term exactly for single-file
/// mode with a held checksum.
#[verifier::rlimit(100)]
proof fn lemma_info_rt_md5_some(info: Info, m: Vec<u8>)
    requires
        info.file_mode matches Some(FileMode::SingleFile { md5sum: Some(mm), .. }) && mm == m,
    ensures
        dict_get(spec_info_bencode(info)->Dictionary_0, key_md5sum()) == Some(
            SpecBencode::String(m@),
        ),
{
    lemma_keys_distinct();
    lemma_part_keys(info);
    let es = spec_info_bencode(info)->Dictionary_0;
    let pre = part_tree(info) + part_files(info) + part_length(info);
    let suf = part_md5(info) + part_meta_version(info) + part_name(info) + part_piece_length(
        info,
    ) + part_pieces(info) + part_private(info);
    assert(es =~= pre + suf);
    assert(forall|j: int| 0 <= j < pre.len() ==> (#[trigger] pre[j]).0 != key_md5sum());
    lemma_dict_get_skip(pre, suf, key_md5sum());
    assert(suf[0] == (key_md5sum(), SpecBencode::String(m@)));
    assert(dict_get(suf, key_md5sum()) == Some(SpecBencode::String(m@)));
}

/// The md5sum key is absent from the canonical term outside single-file
/// mode with a held checksum.
#[verifier::rlimit(100)]
proof fn lemma_info_rt_md5_none(info: Info)
    requires
        !(info.file_mode matches Some(FileMode::SingleFile { md5sum: Some(_), .. })),
    ensures
        dict_get(spec_info_bencode(info)->Dictionary_0, key_md5sum()) is None,
{
    lemma_keys_distinct();
    lemma_part_keys(info);
    let es = spec_info_bencode(info)->Dictionary_0;
    assert(part_md5(info).len() == 0);
    assert(forall|j: int| 0 <= j < es.len() ==> (#[trigger] es[j]).0 != key_md5sum());
    lemma_dict_get_absent(es, key_md5sum());
}

/// The files lookup in the canonical term, by file mode.
#[verifier::rlimit(100)]
proof fn lemma_info_rt_files_lookup(info: Info)
    ensures
        dict_get(spec_info_bencode(info)->Dictionary_0, key_files()) == (
        match info.file_mode {
            Some(FileMode::MultipleFile { files }) => Some(SpecBencode::List(spec_v1_items(
                files,
            ))),
            _ => None,
        }),
{
    lemma_keys_distinct();
    lemma_part_keys(info);
    let es = spec_info_bencode(info)->Dictionary_0;
    let p1 = part_tree(info);
    let suf = part_files(info) + part_length(info) + part_md5(info) + part_meta_version(info)
        + part_name(info) + part_piece_length(info) + part_pieces(info) + part_private(info);
    assert(es =~= p1 + suf);
    assert(forall|j: int| 0 <= j < p1.len() ==> (#[trigger] p1[j]).0 != key_files());
    lemma_dict_get_skip(p1, suf, key_files());
    match info.file_mode {
        Some(FileMode::MultipleFile { files }) => {
            assert(suf[0] == (key_files(), SpecBencode::List(spec_v1_items(files))));
            assert(dict_get(suf, key_files()) == Some(SpecBencode::List(spec_v1_items(files))));
        },
        _ => {
            assert(forall|j: int| 0 <= j < suf.len() ==> (#[trigger] suf[j]).0 != key_files());
            lemma_dict_get_absent(suf, key_files());
        },
    }
}

/// A run of well-formed legacy entries re-encodes to items that parse back
/// to the identical entries.
proof fn lemma_v1_items_round_trip(files: Vec<FileEntryV1>)
    requires
        forall|i: int| 0 <= i < files@.len() ==> (#[trigger] files@[i]).length >= 0,
    ensures
        v1_entries_error(spec_v1_items(files)) is None,
        v1_entries_match(files@, spec_v1_items(files)),
{
    let items = spec_v1_items(files);
    assert forall|i: int|
        0 <= i < items.len() implies v1_entry_error(#[trigger] items[i]) is None
        && v1_entry_matches(files@[i], items[i]) by {
        lemma_v1_entry_round_trip(files@[i]);
        assert(items[i] == spec_v1_entry_bencode(files@[i]));
    }
    lemma_v1_entries_error_skip(items, items.len() as int);
    assert(items.skip(items.len() as int).len() == 0);
    assert(v1_entries_match(files@, items));
}

/// The v1 layout fields of the canonical term parse back to the file mode.
proof fn lemma_info_rt_mode(info: Info)
    requires
        info_wf(info),
    ensures
        mode_error(spec_info_bencode(info)->Dictionary_0) is None,
        mode_matches(info.file_mode, spec_info_bencode(info)->Dictionary_0),
{
    lemma_info_rt_length_lookup(info);
    lemma_info_rt_files_lookup(info);
    match info.file_mode {
        Some(FileMode::MultipleFile { files }) => {
            lemma_info_rt_md5_none(info);
            lemma_v1_items_round_trip(files);
        },
        Some(FileMode::SingleFile { md5sum, .. }) => {
            match md5sum {
                Some(m) => {
                    lemma_info_rt_md5_some(info, m);
                },
                None => {
                    lemma_info_rt_md5_none(info);
                },
            }
        },
        None => {
            lemma_info_rt_md5_none(info);
        },
    }
}

/// The pieces field of the canonical term parses back to the chunks.
proof fn lemma_info_rt_pieces(info: Info)
    requires
        info_wf(info),
    ensures
        match pieces_check(spec_info_bencode(info)->Dictionary_0) {
            Ok(None) => info.pieces is None,
            Ok(Some(chunks)) => info.pieces matches Some(ps) && chunk_views(ps@) == chunks,
            Err(_) => false,
        },
{
    lemma_keys_distinct();
    lemma_part_keys(info);
    let es = spec_info_bencode(info)->Dictionary_0;
    let pre = part_tree(info) + part_files(info) + part_length(info) + part_md5(info)
        + part_meta_version(info) + part_name(info) + part_piece_length(info);
    let suf = part_pieces(info) + part_private(info);
    assert(es =~= pre + suf);
    assert(forall|j: int| 0 <= j < pre.len() ==> (#[trigger] pre[j]).0 != key_pieces());
    lemma_dict_get_skip(pre, suf, key_pieces());
    match info.pieces {
        Some(ps) => {
            let blob = concat_chunks_from(ps@, 0);
            assert(suf[0] == (key_pieces(), SpecBencode::String(blob)));
            assert(dict_get(suf, key_pieces()) == Some(SpecBencode::String(blob)));
            lemma_concat_chunks_shape(ps@, 0);
            assert(blob.len() == 20 * ps@.len());
            vstd::arithmetic::div_mod::lemma_mod_multiples_basic(ps@.len() as int, 20);
            assert(blob.len() % 20 == 0);
            vstd::arithmetic::div_mod::lemma_div_multiples_vanish(ps@.len() as int, 20);
            assert(blob.len() / 20 == ps@.len());
            assert(chunks20(blob) =~= chunk_views(ps@));
        },
        None => {
            assert(forall|j: int| 0 <= j < suf.len() ==> (#[trigger] suf[j]).0 != key_pieces());
            lemma_dict_get_absent(suf, key_pieces());
        },
    }
}

/// The private field of the canonical term parses back to the flag.
proof fn lemma_info_rt_private(info: Info)
    ensures
        match private_check(spec_info_bencode(info)->Dictionary_0) {
            Ok(None) => info.private is None,
            Ok(Some(n)) => info.private matches Some(p) && p as int == n,
            Err(_) => false,
        },
{
    lemma_keys_distinct();
    lemma_part_keys(info);
    let es = spec_info_bencode(info)->Dictionary_0;
    let p9 = part_private(info);
    let pre = part_tree(info) + part_files(info) + part_length(info) + part_md5(info)
        + part_meta_version(info) + part_name(info) + part_piece_length(info) + part_pieces(info);
    assert(es =~= pre + p9);
    assert(forall|j: int| 0 <= j < pre.len() ==> (#[trigger] pre[j]).0 != key_private());
    lemma_dict_get_skip(pre, p9, key_private());
    match info.private {
        Some(n) => {
            assert(p9[0] == (key_private(), SpecBencode::Integer(n as int)));
            assert(dict_get(p9, key_private()) == Some(SpecBencode::Integer(n as int)));
        },
        None => {
            lemma_dict_get_absent(p9, key_private());
        },
    }
}

/// Law: a well-formed info value round-trips — its canonical term is
/// well-formed for the parser and parses back to the identical value, so
/// the typed model loses no hash-relevant field.
pub proof fn lemma_info_round_trip(info: Info)
    requires
        info_wf(info),
    ensures
        info_error(spec_info_bencode(info)) is None,
        info_matches(info, spec_info_bencode(info)),
{
    lemma_info_rt_tree(info);
    lemma_info_rt_name(info);
    lemma_info_rt_piece_length(info);
    lemma_info_rt_meta_version(info);
    lemma_info_rt_mode(info);
    lemma_info_rt_pieces(info);
    lemma_info_rt_private(info);
}

} // verus!
