//! Metainfo binder tests: single-file and multi-file torrents, the info
//! fingerprint, and rejection of malformed dictionaries.

use torrent_core::bencode::{from_slice, BencodeError, Value};
use torrent_core::file::{File, Info, TorrentError, TorrentFile};

fn decoded_dict(bytes: &[u8]) -> Vec<(Vec<u8>, Value)> {
    match from_slice(bytes).unwrap() {
        Value::Dict(d) => d,
        v => panic!("expected a dictionary, got {v:?}"),
    }
}

#[test]
fn single_file_metainfo() {
    // Single-file mode: one File whose path is the torrent's name, and
    // the top-level name becomes empty.
    let info_bytes =
        b"d6:lengthi1024e4:name8:test.txt12:piece lengthi16384e6:pieces20:ABCDEFGHIJKLMNOPQRSTe";
    let info = Info::from_bencode(&decoded_dict(info_bytes)).unwrap();
    assert_eq!(info.name, Vec::<u8>::new());
    assert_eq!(info.piece_length, 16384);
    assert_eq!(info.pieces.len(), 1);
    assert_eq!(info.pieces[0].as_slice(), b"ABCDEFGHIJKLMNOPQRST");
    assert_eq!(
        info.files,
        vec![File { length: 1024, path: vec![b"test.txt".to_vec()] }]
    );
}

#[test]
fn multi_file_metainfo() {
    // Multi-file mode: the torrent name is the root directory and each
    // entry of `files` keeps its relative path segments.
    let info_bytes = b"d5:filesld6:lengthi10e4:pathl3:sub5:a.txteed6:lengthi20e4:pathl5:b.\
        txteee4:name4:root12:piece lengthi32768e6:pieces20:ABCDEFGHIJKLMNOPQRSTe";
    let info = Info::from_bencode(&decoded_dict(info_bytes)).unwrap();
    assert_eq!(info.name, b"root".to_vec());
    assert_eq!(
        info.files,
        vec![
            File { length: 10, path: vec![b"sub".to_vec(), b"a.txt".to_vec()] },
            File { length: 20, path: vec![b"b.txt".to_vec()] },
        ]
    );
}

#[test]
fn info_fingerprint_matches_known_hash() {
    // The fingerprint is SHA-1 over the re-encoded info dictionary; for
    // this metainfo the canonical bytes are the input itself, and their
    // SHA-1 is known.
    let meta = b"d8:announce35:http://tracker.example.com/announce4:infod6:lengthi1024e4:name8:\
        test.txt12:piece lengthi16384e6:pieces20:ABCDEFGHIJKLMNOPQRSTee";
    let torrent = TorrentFile::from_bencode(&decoded_dict(meta)).unwrap();
    assert_eq!(
        torrent.announce,
        b"http://tracker.example.com/announce".to_vec()
    );
    let expected: [u8; 20] = [
        199, 75, 186, 161, 128, 245, 75, 199, 107, 223, 191, 133, 242, 223, 183, 98, 216, 142,
        197, 141,
    ];
    assert_eq!(torrent.info.info_hash, expected);
}

#[test]
fn fingerprint_ignores_input_layout() {
    // Parsing the same metainfo twice gives the same fingerprint.
    let meta = b"d8:announce35:http://tracker.example.com/announce4:infod6:lengthi1024e4:name8:\
        test.txt12:piece lengthi16384e6:pieces20:ABCDEFGHIJKLMNOPQRSTee";
    let a = TorrentFile::from_bencode(&decoded_dict(meta)).unwrap();
    let b = TorrentFile::from_bencode(&decoded_dict(meta)).unwrap();
    assert_eq!(a.info.info_hash, b.info.info_hash);
}

#[test]
fn announce_must_be_a_url() {
    let meta = b"d8:announce12:not a url :(4:infod6:lengthi1e4:name1:a12:piece lengthi1e6:pieces\
        20:ABCDEFGHIJKLMNOPQRSTee";
    assert_eq!(
        TorrentFile::from_bencode(&decoded_dict(meta)),
        Err(TorrentError::Url)
    );
}

#[test]
fn missing_fields_are_reported() {
    let no_announce = b"d4:infod6:lengthi1e4:name1:a12:piece lengthi1e6:pieces20:\
        ABCDEFGHIJKLMNOPQRSTee";
    assert_eq!(
        TorrentFile::from_bencode(&decoded_dict(no_announce)),
        Err(TorrentError::MissingField("announce"))
    );
    let no_name = b"d6:lengthi1e12:piece lengthi1e6:pieces20:ABCDEFGHIJKLMNOPQRSTe";
    assert_eq!(
        Info::from_bencode(&decoded_dict(no_name)),
        Err(TorrentError::MissingField("name"))
    );
}

#[test]
fn pieces_must_be_whole_fingerprints() {
    let bad = b"d6:lengthi1e4:name1:a12:piece lengthi1e6:pieces3:abce";
    assert_eq!(
        Info::from_bencode(&decoded_dict(bad)),
        Err(TorrentError::InvalidPiecesLength)
    );
}

#[test]
fn negative_length_is_out_of_bounds() {
    let bad = b"d6:lengthi-5e4:name1:a12:piece lengthi1e6:pieces20:ABCDEFGHIJKLMNOPQRSTe";
    assert_eq!(
        Info::from_bencode(&decoded_dict(bad)),
        Err(TorrentError::IntegerOutOfBound("length"))
    );
}

#[test]
fn empty_path_is_invalid() {
    let bad = b"d5:filesld6:lengthi10e4:pathleee4:name4:root12:piece lengthi1e6:pieces20:\
        ABCDEFGHIJKLMNOPQRSTe";
    assert_eq!(
        Info::from_bencode(&decoded_dict(bad)),
        Err(TorrentError::InvalidFileList)
    );
}

#[test]
fn name_with_wrong_type_is_rejected() {
    let bad = b"d6:lengthi1e4:namei7e12:piece lengthi1e6:pieces20:ABCDEFGHIJKLMNOPQRSTe";
    assert_eq!(
        Info::from_bencode(&decoded_dict(bad)),
        Err(TorrentError::Bencode(BencodeError::InvalidType(
            "Integer", "String"
        )))
    );
}

#[test]
fn missing_info_fields_are_named() {
    let no_piece_length = b"d6:lengthi1e4:name1:a6:pieces20:ABCDEFGHIJKLMNOPQRSTe";
    assert_eq!(
        Info::from_bencode(&decoded_dict(no_piece_length)),
        Err(TorrentError::MissingField("piece length"))
    );
    let no_pieces = b"d6:lengthi1e4:name1:a12:piece lengthi1ee";
    assert_eq!(
        Info::from_bencode(&decoded_dict(no_pieces)),
        Err(TorrentError::MissingField("pieces"))
    );
    let no_files = b"d4:name1:a12:piece lengthi1e6:pieces20:ABCDEFGHIJKLMNOPQRSTe";
    assert_eq!(
        Info::from_bencode(&decoded_dict(no_files)),
        Err(TorrentError::MissingField("files"))
    );
}
