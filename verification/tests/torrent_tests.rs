use metainfo::bencode_decoder::Bencode;
use metainfo::torrent::{File, FileEntryV1, FileMode, FileTree, Info, SchemaError, Torrent};

const SAMPLE_DOC: &[u8] = b"d8:announce31:http://tracker.example/announce4:infod9:file treed6:READMEd0:d6:lengthi20e11:pieces root32:ROOTROOTROOTROOTROOTROOTROOTROOTee6:imagesd8:left.pngd0:d6:lengthi1111e11:pieces root32:LEFTLEFTLEFTLEFTLEFTLEFTLEFTLEFTee9:right.pngd0:d6:lengthi2222e11:pieces root32:RGHTRGHTRGHTRGHTRGHTRGHTRGHTRGHTeeee12:meta versioni2e4:name7:example12:piece lengthi65536ee12:piece layersd32:ROOTROOTROOTROOTROOTROOTROOTROOT64:LLLLLLLLLLLLLLLLLLLLLLLLLLLLLLLLLLLLLLLLLLLLLLLLLLLLLLLLLLLLLLLLee";

const SAMPLE_DOC_STRAY_LAYER: &[u8] = b"d8:announce31:http://tracker.example/announce4:infod9:file treed6:READMEd0:d6:lengthi20e11:pieces root32:ROOTROOTROOTROOTROOTROOTROOTROOTee6:imagesd8:left.pngd0:d6:lengthi1111e11:pieces root32:LEFTLEFTLEFTLEFTLEFTLEFTLEFTLEFTee9:right.pngd0:d6:lengthi2222e11:pieces root32:RGHTRGHTRGHTRGHTRGHTRGHTRGHTRGHTeeee12:meta versioni2e4:name7:example12:piece lengthi65536ee12:piece layersd32:JUNKJUNKJUNKJUNKJUNKJUNKJUNKJUNK64:LLLLLLLLLLLLLLLLLLLLLLLLLLLLLLLLLLLLLLLLLLLLLLLLLLLLLLLLLLLLLLLLee";

const SAMPLE_INFO: &[u8] = b"d9:file treed6:READMEd0:d6:lengthi20e11:pieces root32:ROOTROOTROOTROOTROOTROOTROOTROOTee6:imagesd8:left.pngd0:d6:lengthi1111e11:pieces root32:LEFTLEFTLEFTLEFTLEFTLEFTLEFTLEFTee9:right.pngd0:d6:lengthi2222e11:pieces root32:RGHTRGHTRGHTRGHTRGHTRGHTRGHTRGHTeeee12:meta versioni2e4:name7:example12:piece lengthi65536ee";

const SAMPLE_INFOHASH: &str = "119b028af068c7c63f5540912326afb53556cf560912bbe7d13fb8bd8e90781e";
const SAMPLE_INFOHASH_V1: &str = "bcb8c7286ea9887669d1f10b30d5f6f9b378fc49";

const V1_DOC: &[u8] = b"d4:infod5:filesld4:attr1:x6:lengthi100e6:md5sum32:0123456789abcdef0123456789abcdef4:pathl3:dir5:a.txteed6:lengthi200e4:pathl5:b.txteee4:name6:legacy12:piece lengthi16384e6:pieces40:PPPPPPPPPPPPPPPPPPPPPPPPPPPPPPPPPPPPPPPP7:privatei1eee";

const V1_INFO: &[u8] = b"d5:filesld4:attr1:x6:lengthi100e6:md5sum32:0123456789abcdef0123456789abcdef4:pathl3:dir5:a.txteed6:lengthi200e4:pathl5:b.txteee4:name6:legacy12:piece lengthi16384e6:pieces40:PPPPPPPPPPPPPPPPPPPPPPPPPPPPPPPPPPPPPPPP7:privatei1ee";

const V1_INFOHASH: &str = "d3b08c164dd6137e98616df9c79a29384af8461a350598a96deed9e8ad67f938";

fn parse_doc(doc: &[u8]) -> Torrent {
    let (value, rest) = Bencode::decode_value(doc.to_vec()).unwrap();
    assert_eq!(rest, Vec::<u8>::new());
    Torrent::parse(&value).unwrap()
}

fn expected_sample_tree() -> FileTree {
    FileTree::Directory(
        String::new(),
        vec![
            FileTree::File(
                "README".to_string(),
                File { length: 20, pieces_root: Some(b"ROOT".repeat(8)) },
            ),
            FileTree::Directory(
                "images".to_string(),
                vec![
                    FileTree::File(
                        "left.png".to_string(),
                        File { length: 1111, pieces_root: Some(b"LEFT".repeat(8)) },
                    ),
                    FileTree::File(
                        "right.png".to_string(),
                        File { length: 2222, pieces_root: Some(b"RGHT".repeat(8)) },
                    ),
                ],
            ),
        ],
    )
}

#[test]
fn sample_document_parses() {
    let torrent = parse_doc(SAMPLE_DOC);
    assert_eq!(torrent.announce, "http://tracker.example/announce");
    assert_eq!(torrent.info.name, "example");
    assert_eq!(torrent.info.piece_length, 65536);
    assert_eq!(torrent.info.meta_version, 2);
    assert_eq!(torrent.info.file_mode, None);
    assert_eq!(torrent.info.pieces, None);
    assert_eq!(torrent.info.private, None);
    assert_eq!(torrent.piece_layers.len(), 1);
    assert_eq!(torrent.piece_layers[0].0, b"ROOT".repeat(8));
    assert_eq!(torrent.piece_layers[0].1, b"L".repeat(64));
}

#[test]
fn sample_file_tree_structure() {
    let torrent = parse_doc(SAMPLE_DOC);
    assert_eq!(torrent.info.file_tree, expected_sample_tree());
}

#[test]
fn sample_info_reencodes_to_original_bytes() {
    let torrent = parse_doc(SAMPLE_DOC);
    assert_eq!(torrent.info.to_bencode().encode_value(), SAMPLE_INFO.to_vec());
}

#[test]
fn sample_infohash_matches_pinned_digest() {
    let torrent = parse_doc(SAMPLE_DOC);
    assert_eq!(torrent.info.get_infohash(), SAMPLE_INFOHASH);
    assert_eq!(torrent.info.get_infohash_v1(), SAMPLE_INFOHASH_V1);
}

#[test]
fn sample_verifies_against_pinned_digest_only() {
    let torrent = parse_doc(SAMPLE_DOC);
    assert!(torrent.verify_infohash(SAMPLE_INFOHASH));
    assert!(!torrent.verify_infohash(SAMPLE_INFOHASH_V1));
    assert!(!torrent.verify_infohash(""));
    assert!(!torrent.verify_infohash("119b028af068c7c63f5540912326afb53556cf560912bbe7d13fb8bd8e90781f"));
}

#[test]
fn verify_fails_on_stray_piece_layer_key() {
    let torrent = parse_doc(SAMPLE_DOC_STRAY_LAYER);
    // The info dictionary is unchanged, so the hash still matches...
    assert_eq!(torrent.info.get_infohash(), SAMPLE_INFOHASH);
    // ...but the piece-layers key is no declared piece root.
    assert!(!torrent.verify_infohash(SAMPLE_INFOHASH));
}

#[test]
fn v1_document_parses_and_reencodes() {
    let torrent = parse_doc(V1_DOC);
    assert_eq!(torrent.announce, "");
    assert_eq!(torrent.info.name, "legacy");
    assert_eq!(torrent.info.piece_length, 16384);
    assert_eq!(torrent.info.meta_version, 0);
    assert_eq!(torrent.info.file_tree, FileTree::Directory(String::new(), vec![]));
    let expected_files = vec![
        FileEntryV1 {
            length: 100,
            md5sum: Some(b"0123456789abcdef0123456789abcdef".to_vec()),
            path: vec!["dir".to_string(), "a.txt".to_string()],
            attr: Some(b'x'),
        },
        FileEntryV1 { length: 200, md5sum: None, path: vec!["b.txt".to_string()], attr: None },
    ];
    assert_eq!(torrent.info.file_mode, Some(FileMode::MultipleFile { files: expected_files }));
    let pieces = torrent.info.pieces.as_ref().unwrap();
    assert_eq!(pieces.len(), 2);
    assert_eq!(pieces[0], b"P".repeat(20));
    assert_eq!(pieces[1], b"P".repeat(20));
    assert_eq!(torrent.info.private, Some(1));
    assert_eq!(torrent.info.to_bencode().encode_value(), V1_INFO.to_vec());
    assert_eq!(torrent.info.get_infohash(), V1_INFOHASH);
}

#[test]
fn single_file_mode_parses_and_reencodes() {
    let doc = b"d4:infod6:lengthi55e6:md5sum8:mmmmmmmm4:name3:oneee".to_vec();
    let (value, _) = Bencode::decode_value(doc).unwrap();
    let torrent = Torrent::parse(&value).unwrap();
    assert_eq!(
        torrent.info.file_mode,
        Some(FileMode::SingleFile { length: 55, md5sum: Some(b"mmmmmmmm".to_vec()) })
    );
    assert_eq!(
        torrent.info.to_bencode().encode_value(),
        b"d6:lengthi55e6:md5sum8:mmmmmmmm4:name3:onee".to_vec()
    );
}

#[test]
fn identical_infos_hash_identically() {
    let a = parse_doc(SAMPLE_DOC);
    let b = parse_doc(SAMPLE_DOC_STRAY_LAYER);
    // The two documents differ only outside the info dictionary.
    assert_eq!(a.info, b.info);
    assert_eq!(a.info.get_infohash(), b.info.get_infohash());
}

fn parse_err(doc: &[u8]) -> SchemaError {
    let (value, _) = Bencode::decode_value(doc.to_vec()).unwrap();
    Torrent::parse(&value).unwrap_err()
}

#[test]
fn schema_errors_top_level() {
    let (value, _) = Bencode::decode_value(b"i5e".to_vec()).unwrap();
    assert_eq!(Torrent::parse(&value), Err(SchemaError::RootNotDictionary));
    assert_eq!(parse_err(b"d8:announce3:abce"), SchemaError::MissingInfo);
    assert_eq!(parse_err(b"d8:announcei1e4:infodee"), SchemaError::AnnounceNotString);
    let mut bad_text = b"d8:announce2:".to_vec();
    bad_text.extend_from_slice(&[0xff, 0xfe]);
    bad_text.extend_from_slice(b"4:infodee");
    assert_eq!(parse_err(&bad_text), SchemaError::AnnounceNotText);
    assert_eq!(parse_err(b"d4:infoi3ee"), SchemaError::InfoNotDictionary);
}

#[test]
fn schema_errors_info_fields() {
    assert_eq!(parse_err(b"d4:infod4:namei1eee"), SchemaError::NameNotString);
    let mut bad_name = b"d4:infod4:name2:".to_vec();
    bad_name.extend_from_slice(&[0xff, 0xfe]);
    bad_name.extend_from_slice(b"ee");
    assert_eq!(parse_err(&bad_name), SchemaError::NameNotText);
    assert_eq!(
        parse_err(b"d4:infod12:piece length3:abcee"),
        SchemaError::PieceLengthNotInteger
    );
    assert_eq!(
        parse_err(b"d4:infod12:piece lengthi4294967296eee"),
        SchemaError::PieceLengthOutOfRange
    );
    assert_eq!(
        parse_err(b"d4:infod12:piece lengthi-1eee"),
        SchemaError::PieceLengthOutOfRange
    );
    assert_eq!(
        parse_err(b"d4:infod12:meta version3:abcee"),
        SchemaError::MetaVersionNotInteger
    );
    assert_eq!(
        parse_err(b"d4:infod12:meta versioni256eee"),
        SchemaError::MetaVersionOutOfRange
    );
    assert_eq!(parse_err(b"d4:infod6:pieces3:abcee"), SchemaError::PiecesNotChunked);
    assert_eq!(parse_err(b"d4:infod6:piecesi1eee"), SchemaError::PiecesNotString);
    assert_eq!(parse_err(b"d4:infod7:private3:abcee"), SchemaError::PrivateNotInteger);
}

#[test]
fn schema_errors_file_tree() {
    assert_eq!(parse_err(b"d4:infod9:file treei1eee"), SchemaError::FileTreeNotDictionary);
    let mut bad = b"d4:infod9:file treed2:".to_vec();
    bad.extend_from_slice(&[0xff, 0xfe]);
    bad.extend_from_slice(b"deeee");
    assert_eq!(parse_err(&bad), SchemaError::TreeNameNotText);
    assert_eq!(
        parse_err(b"d4:infod9:file treed3:fooi1eeee"),
        SchemaError::TreeEntryNotDictionary
    );
    assert_eq!(
        parse_err(b"d4:infod9:file treed3:food0:i5eeeee"),
        SchemaError::FileDescriptorNotDictionary
    );
    assert_eq!(
        parse_err(b"d4:infod9:file treed3:food0:deeeee"),
        SchemaError::FileLengthMissing
    );
    assert_eq!(
        parse_err(b"d4:infod9:file treed3:food0:d6:length3:abceeeee"),
        SchemaError::FileLengthNotInteger
    );
    assert_eq!(
        parse_err(b"d4:infod9:file treed3:food0:d6:lengthi-5eeeeee"),
        SchemaError::FileLengthNegative
    );
    assert_eq!(
        parse_err(b"d4:infod9:file treed3:food0:d6:lengthi5e11:pieces rooti1eeeeee"),
        SchemaError::PiecesRootNotString
    );
}

#[test]
fn schema_errors_v1_layout() {
    assert_eq!(parse_err(b"d4:infod6:length3:abcee"), SchemaError::LengthNotInteger);
    assert_eq!(parse_err(b"d4:infod6:lengthi-1eee"), SchemaError::LengthNegative);
    assert_eq!(
        parse_err(b"d4:infod6:lengthi5e6:md5sumi1eee"),
        SchemaError::Md5sumNotString
    );
    assert_eq!(parse_err(b"d4:infod5:filesi1eee"), SchemaError::FilesNotList);
    assert_eq!(parse_err(b"d4:infod5:filesli1eeee"), SchemaError::FilesItemNotDictionary);
    assert_eq!(
        parse_err(b"d4:infod5:filesld6:lengthi5eeeee"),
        SchemaError::PathNotList
    );
    assert_eq!(
        parse_err(b"d4:infod5:filesld6:lengthi5e4:pathi1eeeee"),
        SchemaError::PathNotList
    );
    assert_eq!(
        parse_err(b"d4:infod5:filesld6:lengthi5e4:pathli1eeeeee"),
        SchemaError::PathSegmentNotString
    );
    let mut bad_seg = b"d4:infod5:filesld6:lengthi5e4:pathl2:".to_vec();
    bad_seg.extend_from_slice(&[0xff, 0xfe]);
    bad_seg.extend_from_slice(b"eeeee");
    assert_eq!(parse_err(&bad_seg), SchemaError::PathSegmentNotText);
    assert_eq!(
        parse_err(b"d4:infod5:filesld6:lengthi5e4:pathl1:ae4:attr2:xyeeee"),
        SchemaError::AttrNotFlag
    );
    assert_eq!(
        parse_err(b"d4:infod5:filesld6:lengthi5e4:pathl1:ae4:attri1eeeee"),
        SchemaError::AttrNotFlag
    );
}

#[test]
fn piece_layers_degrade_to_empty() {
    // Not a dictionary: ignored, never fatal.
    let t = parse_doc(b"d4:infode12:piece layersi1ee");
    assert_eq!(t.piece_layers.len(), 0);
    // A non-string value inside: the whole mapping degrades to empty.
    let t = parse_doc(b"d4:infode12:piece layersd1:ki1eee");
    assert_eq!(t.piece_layers.len(), 0);
}

#[test]
fn unknown_keys_are_ignored() {
    let t = parse_doc(b"d5:extrai1e4:infod7:unknown3:abcee");
    assert_eq!(t.announce, "");
    assert_eq!(t.info.name, "");
    assert_eq!(t.info.piece_length, 0);
}

#[test]
fn empty_info_defaults() {
    let t = parse_doc(b"d4:infodee");
    assert_eq!(t.info.name, "");
    assert_eq!(t.info.piece_length, 0);
    assert_eq!(t.info.meta_version, 0);
    assert_eq!(t.info.file_tree, FileTree::Directory(String::new(), vec![]));
    assert_eq!(t.info.file_mode, None);
    assert_eq!(t.info.pieces, None);
    assert_eq!(t.info.private, None);
    // All fields at their absent-key defaults: the canonical term is the
    // empty dictionary.
    assert_eq!(t.info.to_bencode().encode_value(), b"de".to_vec());
}

#[test]
fn reparse_of_reencoded_info_is_identical() {
    let torrent = parse_doc(SAMPLE_DOC);
    let bytes = torrent.info.to_bencode().encode_value();
    let (value, rest) = Bencode::decode_value(bytes).unwrap();
    assert_eq!(rest, Vec::<u8>::new());
    assert_eq!(Info::parse(&value), Ok(torrent.info));
}

#[test]
fn infohash_is_pure_function_of_fields() {
    let info = Info {
        name: "example".to_string(),
        piece_length: 65536,
        meta_version: 2,
        file_tree: expected_sample_tree(),
        file_mode: None,
        pieces: None,
        private: None,
    };
    // An Info built by hand hashes the same as the parsed one.
    assert_eq!(info.get_infohash(), SAMPLE_INFOHASH);
}
