//! The metainfo binder: turns a decoded bencode dictionary into a typed
//! torrent descriptor whose identity is the SHA-1 fingerprint of the
//! re-encoded `info` sub-dictionary.

use crate::bencode::{
    enc, model_pairs, push_slice, BencodeDict, BencodeEncoder, BencodeError, SpecValue, Value,
};
use crate::util::Sha1;
use vstd::prelude::*;

verus! {

/// What SHA-1 returns for a byte sequence.  The digest is a function of
/// the bytes alone, the same in every process and on every machine.
pub uninterp spec fn sha1_of(bytes: Seq<u8>) -> Seq<u8>;

/// Relies on sha1::Sha1::digest: the 20-byte SHA-1 digest of the input,
/// a function of the input bytes alone.
#[verifier::external_body]
fn sha1_digest(bytes: &[u8]) -> (r: [u8; 20])
    ensures
        r@ == sha1_of(bytes@),
{
    <sha1::Sha1 as sha1::Digest>::digest(bytes).into()
}

/// Whether a byte sequence spells an absolute URL that the URL parser
/// accepts.  The outcome is a function of the bytes alone.
pub uninterp spec fn url_ok(bytes: Seq<u8>) -> bool;

/// Relies on url::Url::parse (with str::from_utf8 viewing the bytes as
/// text): whether the bytes spell an absolute URL.
#[verifier::external_body]
fn url_parse_ok(bytes: &[u8]) -> (r: bool)
    ensures
        r == url_ok(bytes@),
{
    match core::str::from_utf8(bytes) {
        Ok(s) => url::Url::parse(s).is_ok(),
        Err(_) => false,
    }
}

/// A failure while binding a metainfo dictionary.
#[derive(Debug, Clone, PartialEq, Eq)]
pub enum TorrentError {
    /// A bencode value had the wrong type for its field.
    Bencode(BencodeError),
    /// The announce field does not spell an absolute URL.
    Url,
    /// A required field is absent.
    MissingField(&'static str),
    /// The pieces string is not a whole number of 20-byte fingerprints.
    InvalidPiecesLength,
    InvalidInfoHash,
    /// A file entry is malformed.
    InvalidFileList,
    /// An integer field does not fit the platform's size type or its
    /// sign.
    IntegerOutOfBound(&'static str),
}

/// The first value stored under `key`, scanning the pairs in order.
pub open spec fn spec_lookup(d: Seq<(Vec<u8>, Value)>, key: Seq<u8>) -> Option<Value>
    decreases d.len(),
{
    if d.len() == 0 {
        None
    } else if d[0].0@ == key {
        Some(d[0].1)
    } else {
        spec_lookup(d.drop_first(), key)
    }
}

/// Skipping pairs whose keys do not match leaves the lookup unchanged.
proof fn lemma_spec_lookup_from(d: Seq<(Vec<u8>, Value)>, key: Seq<u8>, i: int)
    requires
        0 <= i <= d.len(),
        forall|k: int| 0 <= k < i ==> (#[trigger] d[k].0)@ != key,
    ensures
        spec_lookup(d, key) == spec_lookup(d.skip(i), key),
    decreases i,
{
    if i > 0 {
        assert(d.drop_first() =~= d.skip(1));
        lemma_spec_lookup_from(d.skip(1), key, i - 1);
        assert(d.skip(1).skip(i - 1) =~= d.skip(i));
    } else {
        assert(d.skip(0) =~= d);
    }
}

/// Whether two byte slices hold the same bytes.
pub fn bytes_eq(a: &[u8], b: &[u8]) -> (r: bool)
    ensures
        r == (a@ == b@),
{
    if a.len() != b.len() {
        return false;
    }
    let mut i: usize = 0;
    while i < a.len()
        invariant
            0 <= i <= a@.len(),
            a@.len() == b@.len(),
            forall|k: int| 0 <= k < i ==> a@[k] == b@[k],
        decreases a@.len() - i,
    {
        if *vstd::slice::slice_index_get(a, i) != *vstd::slice::slice_index_get(b, i) {
            return false;
        }
        i = i + 1;
    }
    proof {
        assert(a@ =~= b@);
    }
    true
}

/// The first value stored under `key` in a bencode dictionary.
pub fn dict_get<'a>(d: &'a BencodeDict, key: &[u8]) -> (r: Option<&'a Value>)
    ensures
        match r {
            Some(v) => spec_lookup(d@, key@) == Some(*v),
            None => spec_lookup(d@, key@) is None,
        },
{
    let mut i: usize = 0;
    while i < d.len()
        invariant
            0 <= i <= d@.len(),
            forall|k: int| 0 <= k < i ==> (#[trigger] d@[k].0)@ != key@,
        decreases d@.len() - i,
    {
        if bytes_eq(d[i].0.as_slice(), key) {
            proof {
                lemma_spec_lookup_from(d@, key@, i as int);
                assert(d@.skip(i as int)[0] == d@[i as int]);
            }
            return Some(&d[i].1);
        }
        i = i + 1;
    }
    proof {
        lemma_spec_lookup_from(d@, key@, d@.len() as int);
        assert(d@.skip(d@.len() as int) =~= Seq::<(Vec<u8>, Value)>::empty());
    }
    None
}

/// The bytes of the key `length`.
pub open spec fn key_length() -> Seq<u8> {
    seq![108u8, 101u8, 110u8, 103u8, 116u8, 104u8]
}

/// The bytes of the key `path`.
pub open spec fn key_path() -> Seq<u8> {
    seq![112u8, 97u8, 116u8, 104u8]
}

/// The bytes of the key `name`.
pub open spec fn key_name() -> Seq<u8> {
    seq![110u8, 97u8, 109u8, 101u8]
}

/// The bytes of the key `piece length`.
pub open spec fn key_piece_length() -> Seq<u8> {
    seq![112u8, 105u8, 101u8, 99u8, 101u8, 32u8, 108u8, 101u8, 110u8, 103u8, 116u8, 104u8]
}

/// The bytes of the key `pieces`.
pub open spec fn key_pieces() -> Seq<u8> {
    seq![112u8, 105u8, 101u8, 99u8, 101u8, 115u8]
}

/// The bytes of the key `files`.
pub open spec fn key_files() -> Seq<u8> {
    seq![102u8, 105u8, 108u8, 101u8, 115u8]
}

/// The bytes of the key `announce`.
pub open spec fn key_announce() -> Seq<u8> {
    seq![97u8, 110u8, 110u8, 111u8, 117u8, 110u8, 99u8, 101u8]
}

/// The bytes of the key `info`.
pub open spec fn key_info() -> Seq<u8> {
    seq![105u8, 110u8, 102u8, 111u8]
}

/// One file of a torrent: its byte length and its path, a sequence of
/// path segments relative to the torrent's root.
#[derive(Debug, Clone, PartialEq, Eq)]
pub struct File {
    /// The file's length in bytes.
    pub length: usize,
    /// The file's path segments.
    pub path: Vec<Vec<u8>>,
}

/// Whether a file dictionary is well formed: a non-negative `length`
/// that fits the platform's size type, and a non-empty `path` list of
/// byte-string segments.
pub open spec fn file_ok(d: Seq<(Vec<u8>, Value)>) -> bool {
    &&& spec_lookup(d, key_length()) matches Some(lv) && lv matches Value::Int(l) && 0 <= l
        <= usize::MAX
    &&& spec_lookup(d, key_path()) matches Some(pv) && pv matches Value::List(segs) && segs@.len()
        > 0 && (forall|i: int| 0 <= i < segs@.len() ==> (#[trigger] segs@[i]) is String)
}

/// Whether `f` holds exactly what the file dictionary `d` describes.
pub open spec fn file_matches(d: Seq<(Vec<u8>, Value)>, f: File) -> bool {
    &&& spec_lookup(d, key_length()) matches Some(lv) && lv matches Value::Int(l) && f.length == l
    &&& spec_lookup(d, key_path()) matches Some(pv) && pv matches Value::List(segs) && f.path@.len()
        == segs@.len() && (forall|i: int|
        0 <= i < segs@.len() ==> ((#[trigger] segs@[i]) matches Value::String(s) && f.path@[i]@
            == s@))
}

/// The error that binding a file dictionary yields, field by field in
/// the order the binder checks them: `length` first, then `path`.
pub open spec fn file_err_matches(d: Seq<(Vec<u8>, Value)>, e: TorrentError) -> bool {
    match spec_lookup(d, key_length()) {
        None => e matches TorrentError::MissingField(s) && s@ == "length"@,
        Some(lv) => if !(lv is Int) {
            e matches TorrentError::Bencode(be) && be matches BencodeError::InvalidType(g, w) && w@
                == "Integer"@
        } else if !(0 <= lv->Int_0 <= usize::MAX) {
            e matches TorrentError::IntegerOutOfBound(s) && s@ == "length"@
        } else {
            match spec_lookup(d, key_path()) {
                None => e matches TorrentError::MissingField(s) && s@ == "path"@,
                Some(pv) => if !(pv is List) {
                    e matches TorrentError::Bencode(be) && be matches BencodeError::InvalidType(
                        g,
                        w,
                    ) && w@ == "List"@
                } else if (exists|i: int|
                    0 <= i < pv->List_0@.len() && !((#[trigger] pv->List_0@[i]) is String)) {
                    e matches TorrentError::Bencode(be) && be matches BencodeError::InvalidType(
                        g,
                        w,
                    ) && w@ == "String"@
                } else {
                    // Every segment is a byte string, so the list is empty.
                    e == TorrentError::InvalidFileList
                },
            }
        },
    }
}

impl File {
    /// Bind one entry of a multi-file `files` list: its `length` and its
    /// `path` list of segments.  Succeeds exactly on well-formed file
    /// dictionaries and then returns exactly their contents; fails with
    /// exactly the error [`file_err_matches`] names.
    #[verifier::loop_isolation(false)]
    pub fn from_bencode(dict: &BencodeDict) -> (r: Result<File, TorrentError>)
        ensures
            r is Ok <==> file_ok(dict@),
            r matches Ok(f) ==> file_matches(dict@, f),
            r matches Err(e) ==> file_err_matches(dict@, e),
    {
        let key_len: [u8; 6] = [108u8, 101u8, 110u8, 103u8, 116u8, 104u8];
        proof {
            assert(key_len@ =~= key_length());
        }
        let length: usize = match dict_get(dict, key_len.as_slice()) {
            None => {
                return Err(TorrentError::MissingField("length"));
            },
            Some(v) => match v {
                Value::Int(l) => {
                    if *l < 0 {
                        return Err(TorrentError::IntegerOutOfBound("length"));
                    }
                    if (*l as u64) > (usize::MAX as u64) {
                        return Err(TorrentError::IntegerOutOfBound("length"));
                    }
                    *l as usize
                },
                _ => {
                    return Err(
                        TorrentError::Bencode(BencodeError::InvalidType(v.name(), "Integer")),
                    );
                },
            },
        };
        let key_p: [u8; 4] = [112u8, 97u8, 116u8, 104u8];
        proof {
            assert(key_p@ =~= key_path());
        }
        let segs: &Vec<Value> = match dict_get(dict, key_p.as_slice()) {
            None => {
                return Err(TorrentError::MissingField("path"));
            },
            Some(v) => match v {
                Value::List(segs) => segs,
                _ => {
                    return Err(TorrentError::Bencode(BencodeError::InvalidType(v.name(), "List")));
                },
            },
        };
        let mut path: Vec<Vec<u8>> = Vec::new();
        let mut i: usize = 0;
        while i < segs.len()
            invariant
                0 <= i <= segs@.len(),
                path@.len() == i,
                forall|k: int|
                    0 <= k < i ==> ((#[trigger] segs@[k]) matches Value::String(s) && path@[k]@
                        == s@),
            decreases segs@.len() - i,
        {
            match &segs[i] {
                Value::String(s) => {
                    path.push(s.clone());
                    proof {
                        assert(path@[i as int]@ == segs@[i as int]->String_0@);
                    }
                },
                v => {
                    return Err(
                        TorrentError::Bencode(BencodeError::InvalidType(v.name(), "String")),
                    );
                },
            }
            i = i + 1;
        }
        if path.len() == 0 {
            return Err(TorrentError::InvalidFileList);
        }
        Ok(File { length, path })
    }
}

/// A torrent's info section: its files, its name, the length of each
/// piece, the per-piece fingerprints, and the 20-byte fingerprint of the
/// re-encoded info dictionary itself.
#[derive(Debug, Clone, PartialEq, Eq)]
pub struct Info {
    /// The torrent's files, one for a single-file torrent.
    pub files: Vec<File>,
    /// The torrent's name: the root directory of a multi-file torrent,
    /// empty for a single-file torrent.
    pub name: Vec<u8>,
    /// The SHA-1 fingerprint of the canonically re-encoded info
    /// dictionary: the torrent's identity on the wire.
    pub info_hash: Sha1,
    /// The length in bytes of each piece but the last.
    pub piece_length: usize,
    /// The SHA-1 fingerprint of each piece, in piece order.
    pub pieces: Vec<Sha1>,
}

/// Whether an info dictionary is well formed: a byte-string `name`, a
/// positive `piece length` that fits the platform's size type, a
/// `pieces` string of whole 20-byte fingerprints, and either an integer
/// `length` in range (single-file) or a `files` list of well-formed file
/// dictionaries (multi-file).
pub open spec fn info_ok(d: Seq<(Vec<u8>, Value)>) -> bool {
    &&& spec_lookup(d, key_name()) matches Some(nv) && nv is String
    &&& spec_lookup(d, key_piece_length()) matches Some(plv) && plv matches Value::Int(pl) && 0
        < pl <= usize::MAX
    &&& spec_lookup(d, key_pieces()) matches Some(ps) && ps matches Value::String(pb) && pb@.len()
        % 20 == 0
    &&& match spec_lookup(d, key_length()) {
        Some(Value::Int(l)) => 0 <= l <= usize::MAX,
        _ => spec_lookup(d, key_files()) matches Some(fv) && fv matches Value::List(fl) && (forall|
            i: int,
        |
            0 <= i < fl@.len() ==> ((#[trigger] fl@[i]) matches Value::Dict(fd) && file_ok(fd@))),
    }
}

/// Whether `info` holds exactly what the info dictionary `d` describes:
/// the fingerprint of the re-encoded dictionary, the piece fingerprints
/// in order, and the single-file or multi-file file records.
pub open spec fn info_matches(d: Seq<(Vec<u8>, Value)>, info: Info) -> bool {
    &&& info.info_hash@ == sha1_of(enc(SpecValue::Dict(model_pairs(d))))
    &&& spec_lookup(d, key_name()) matches Some(nv) && nv matches Value::String(nb) && (match
    spec_lookup(d, key_length()) {
        Some(Value::Int(l)) => {
            // Single-file mode: one file whose path is the torrent's
            // name, and an empty top-level name.
            &&& info.files@.len() == 1
            &&& info.files@[0].length == l
            &&& info.files@[0].path@.len() == 1
            &&& info.files@[0].path@[0]@ == nb@
            &&& info.name@ == Seq::<u8>::empty()
        },
        _ => {
            // Multi-file mode: the name is the root directory and each
            // entry of `files` binds one file dictionary.
            &&& info.name@ == nb@
            &&& spec_lookup(d, key_files()) matches Some(fv) && fv matches Value::List(fl)
                && info.files@.len() == fl@.len() && (forall|i: int|
                0 <= i < fl@.len() ==> ((#[trigger] fl@[i]) matches Value::Dict(fd)
                    && file_matches(fd@, info.files@[i])))
        },
    })
    &&& spec_lookup(d, key_piece_length()) matches Some(plv) && plv matches Value::Int(pl)
        && info.piece_length == pl
    &&& spec_lookup(d, key_pieces()) matches Some(ps) && ps matches Value::String(pb)
        && info.pieces@.len() * 20 == pb@.len() && (forall|i: int|
        0 <= i < info.pieces@.len() ==> (#[trigger] info.pieces@[i])@ == pb@.subrange(
            20 * i,
            20 * i + 20,
        ))
}

/// Twenty bytes of a slice, starting at `at`.
#[verifier::loop_isolation(false)]
pub(crate) fn copy_20(s: &[u8], at: usize) -> (r: [u8; 20])
    requires
        at + 20 <= s@.len(),
    ensures
        r@ == s@.subrange(at as int, at + 20),
{
    let _slen = s.len();
    let mut r = [0u8; 20];
    let mut i: usize = 0;
    while i < 20
        invariant
            0 <= i <= 20,
            at + 20 <= s@.len(),
            forall|k: int| 0 <= k < i ==> r@[k] == s@[at + k],
        decreases 20 - i,
    {
        r[i] = *vstd::slice::slice_index_get(s, at + i);
        i = i + 1;
    }
    proof {
        assert(r@ =~= s@.subrange(at as int, at + 20));
    }
    r
}

/// The error that binding the entries of a `files` list yields: the
/// first entry that is no well-formed file dictionary decides, every
/// entry before it being sound.
pub open spec fn files_elem_err_matches(fl: Seq<Value>, e: TorrentError) -> bool {
    exists|i: int|
        0 <= i < fl.len() && (forall|j: int|
            0 <= j < i ==> ((#[trigger] fl[j]) matches Value::Dict(fd) && file_ok(fd@))) && (match #[trigger] fl[i] {
            Value::Dict(fd) => file_err_matches(fd@, e),
            _ => e matches TorrentError::Bencode(be) && be matches BencodeError::InvalidType(
                g,
                w,
            ) && w@ == "Dictionary"@,
        })
}

/// The error that binding an info dictionary yields, field by field in
/// the order the binder checks them: `name`, `piece length`, `pieces`,
/// then the single-file `length` or the multi-file `files` list.
pub open spec fn info_err_matches(d: Seq<(Vec<u8>, Value)>, e: TorrentError) -> bool {
    match spec_lookup(d, key_name()) {
        None => e matches TorrentError::MissingField(s) && s@ == "name"@,
        Some(nv) => if !(nv is String) {
            e matches TorrentError::Bencode(be) && be matches BencodeError::InvalidType(g, w) && w@
                == "String"@
        } else {
            match spec_lookup(d, key_piece_length()) {
                None => e matches TorrentError::MissingField(s) && s@ == "piece length"@,
                Some(plv) => if !(plv is Int) {
                    e matches TorrentError::Bencode(be) && be matches BencodeError::InvalidType(
                        g,
                        w,
                    ) && w@ == "Integer"@
                } else if !(0 < plv->Int_0 <= usize::MAX) {
                    e matches TorrentError::IntegerOutOfBound(s) && s@ == "piece_length"@
                } else {
                    match spec_lookup(d, key_pieces()) {
                        None => e matches TorrentError::MissingField(s) && s@ == "pieces"@,
                        Some(ps) => if !(ps is String) {
                            e matches TorrentError::Bencode(be) && be
                                matches BencodeError::InvalidType(g, w) && w@ == "String"@
                        } else if ps->String_0@.len() % 20 != 0 {
                            e == TorrentError::InvalidPiecesLength
                        } else {
                            match spec_lookup(d, key_length()) {
                                Some(Value::Int(l)) => !(0 <= l <= usize::MAX) && (e
                                    matches TorrentError::IntegerOutOfBound(s) && s@
                                    == "length"@),
                                _ => match spec_lookup(d, key_files()) {
                                    None => e matches TorrentError::MissingField(s) && s@
                                        == "files"@,
                                    Some(fv) => if !(fv is List) {
                                        e matches TorrentError::Bencode(be) && be
                                            matches BencodeError::InvalidType(g, w) && w@
                                            == "List"@
                                    } else {
                                        files_elem_err_matches(fv->List_0@, e)
                                    },
                                },
                            }
                        },
                    }
                },
            }
        },
    }
}

impl Info {
    /// Bind a torrent's info dictionary.  The fingerprint is SHA-1 over
    /// the canonical re-encoding of the dictionary, never over the raw
    /// input bytes, so it depends only on the dictionary's mathematical
    /// content.  Succeeds exactly on well-formed info dictionaries and
    /// then returns exactly their contents; fails with exactly the error
    /// [`info_err_matches`] names.
    #[verifier::loop_isolation(false)]
    pub fn from_bencode(dict: &BencodeDict) -> (r: Result<Info, TorrentError>)
        ensures
            r is Ok <==> info_ok(dict@),
            r matches Ok(info) ==> info_matches(dict@, info),
            r matches Err(e) ==> info_err_matches(dict@, e),
    {
        let mut encoder = BencodeEncoder::new();
        encoder.encode_dict(dict);
        let raw_info = encoder.into_bytes();
        let info_hash = sha1_digest(raw_info.as_slice());
        let key_n: [u8; 4] = [110u8, 97u8, 109u8, 101u8];
        proof {
            assert(key_n@ =~= key_name());
        }
        let name: Vec<u8> = match dict_get(dict, key_n.as_slice()) {
            None => {
                return Err(TorrentError::MissingField("name"));
            },
            Some(v) => match v {
                Value::String(s) => s.clone(),
                _ => {
                    return Err(
                        TorrentError::Bencode(BencodeError::InvalidType(v.name(), "String")),
                    );
                },
            },
        };
        let key_pl: [u8; 12] = [
            112u8, 105u8, 101u8, 99u8, 101u8, 32u8, 108u8, 101u8, 110u8, 103u8, 116u8, 104u8,
        ];
        proof {
            assert(key_pl@ =~= key_piece_length());
        }
        let piece_length: usize = match dict_get(dict, key_pl.as_slice()) {
            None => {
                return Err(TorrentError::MissingField("piece length"));
            },
            Some(v) => match v {
                Value::Int(l) => {
                    if *l <= 0 || (*l as u64) > (usize::MAX as u64) {
                        return Err(TorrentError::IntegerOutOfBound("piece_length"));
                    }
                    *l as usize
                },
                _ => {
                    return Err(
                        TorrentError::Bencode(BencodeError::InvalidType(v.name(), "Integer")),
                    );
                },
            },
        };
        let key_ps: [u8; 6] = [112u8, 105u8, 101u8, 99u8, 101u8, 115u8];
        proof {
            assert(key_ps@ =~= key_pieces());
        }
        let pieces_bytes: &Vec<u8> = match dict_get(dict, key_ps.as_slice()) {
            None => {
                return Err(TorrentError::MissingField("pieces"));
            },
            Some(v) => match v {
                Value::String(s) => s,
                _ => {
                    return Err(
                        TorrentError::Bencode(BencodeError::InvalidType(v.name(), "String")),
                    );
                },
            },
        };
        if pieces_bytes.len() % 20 != 0 {
            return Err(TorrentError::InvalidPiecesLength);
        }
        let count: usize = pieces_bytes.len() / 20;
        let mut pieces: Vec<Sha1> = Vec::new();
        let mut i: usize = 0;
        while i < count
            invariant
                0 <= i <= count,
                count * 20 == pieces_bytes@.len(),
                pieces@.len() == i,
                forall|k: int|
                    0 <= k < i ==> (#[trigger] pieces@[k])@ == pieces_bytes@.subrange(
                        20 * k,
                        20 * k + 20,
                    ),
            decreases count - i,
        {
            proof {
                assert(i < count);
                assert((i + 1) * 20 <= count * 20) by (nonlinear_arith)
                    requires
                        i + 1 <= count,
                ;
                assert(20 * (i as int) + 20 == (i + 1) * 20);
            }
            pieces.push(copy_20(pieces_bytes.as_slice(), i * 20));
            i = i + 1;
        }
        let key_len: [u8; 6] = [108u8, 101u8, 110u8, 103u8, 116u8, 104u8];
        proof {
            assert(key_len@ =~= key_length());
        }
        let single: Option<i64> = match dict_get(dict, key_len.as_slice()) {
            Some(v) => match v {
                Value::Int(l) => Some(*l),
                _ => None,
            },
            None => None,
        };
        match single {
            Some(l) => {
                // Single-file mode: one file named after the torrent.
                if l < 0 || (l as u64) > (usize::MAX as u64) {
                    return Err(TorrentError::IntegerOutOfBound("length"));
                }
                let mut path: Vec<Vec<u8>> = Vec::new();
                path.push(name);
                let mut files: Vec<File> = Vec::new();
                files.push(File { length: l as usize, path });
                Ok(
                    Info {
                        files,
                        name: Vec::new(),
                        info_hash,
                        piece_length,
                        pieces,
                    },
                )
            },
            None => {
                // Multi-file mode: bind each entry of the files list.
                let key_f: [u8; 5] = [102u8, 105u8, 108u8, 101u8, 115u8];
                proof {
                    assert(key_f@ =~= key_files());
                }
                let files_list: &Vec<Value> = match dict_get(dict, key_f.as_slice()) {
                    None => {
                        return Err(TorrentError::MissingField("files"));
                    },
                    Some(v) => match v {
                        Value::List(fl) => fl,
                        _ => {
                            return Err(
                                TorrentError::Bencode(BencodeError::InvalidType(v.name(), "List")),
                            );
                        },
                    },
                };
                let mut files: Vec<File> = Vec::new();
                let mut j: usize = 0;
                while j < files_list.len()
                    invariant
                        0 <= j <= files_list@.len(),
                        files@.len() == j,
                        forall|k: int|
                            0 <= k < j ==> ((#[trigger] files_list@[k]) matches Value::Dict(fd)
                                && file_ok(fd@) && file_matches(fd@, files@[k])),
                    decreases files_list@.len() - j,
                {
                    match &files_list[j] {
                        Value::Dict(fd) => {
                            match File::from_bencode(fd) {
                                Ok(f) => files.push(f),
                                Err(e) => {
                                    proof {
                                        let i = j as int;
                                        assert(files_list@[i] matches Value::Dict(fd2)
                                            && file_err_matches(fd2@, e));
                                        assert(files_elem_err_matches(files_list@, e));
                                    }
                                    return Err(e);
                                },
                            }
                        },
                        v => {
                            let e = TorrentError::Bencode(
                                BencodeError::InvalidType(v.name(), "Dictionary"),
                            );
                            proof {
                                let i = j as int;
                                assert(!(files_list@[i] is Dict));
                                assert(files_elem_err_matches(files_list@, e));
                            }
                            return Err(e);
                        },
                    }
                    j = j + 1;
                }
                Ok(Info { files, name, info_hash, piece_length, pieces })
            },
        }
    }
}

/// A parsed torrent descriptor: the announce URL bytes and the info
/// section.
#[derive(Debug, Clone, PartialEq, Eq)]
pub struct TorrentFile {
    /// The announce URL, kept as the bytes the metainfo carried; they
    /// are checked to spell an absolute URL.
    pub announce: Vec<u8>,
    /// The torrent's info section.
    pub info: Info,
}

impl TorrentFile {
    /// Bind a whole metainfo dictionary: the `announce` URL and the
    /// `info` sub-dictionary.  Succeeds exactly when the announce bytes
    /// spell an absolute URL and the info dictionary is well formed.
    pub fn from_bencode(dict: &BencodeDict) -> (r: Result<TorrentFile, TorrentError>)
        ensures
            r is Ok <==> (spec_lookup(dict@, key_announce()) matches Some(av)
                && av matches Value::String(ab) && url_ok(ab@) && (spec_lookup(dict@, key_info())
                matches Some(iv) && iv matches Value::Dict(id) && info_ok(id@))),
            r matches Ok(t) ==> (spec_lookup(dict@, key_announce()) matches Some(av)
                && av matches Value::String(ab) && t.announce@ == ab@ && url_ok(ab@) && (
            spec_lookup(dict@, key_info()) matches Some(iv) && iv matches Value::Dict(id)
                && info_matches(id@, t.info))),
            r matches Err(e) ==> match spec_lookup(dict@, key_announce()) {
                None => e matches TorrentError::MissingField(s) && s@ == "announce"@,
                Some(av) => if !(av is String) {
                    e matches TorrentError::Bencode(be) && be is InvalidType
                } else if !url_ok(av->String_0@) {
                    e == TorrentError::Url
                } else {
                    match spec_lookup(dict@, key_info()) {
                        None => e matches TorrentError::MissingField(s) && s@ == "info"@,
                        Some(iv) => if !(iv is Dict) {
                            e matches TorrentError::Bencode(be) && be
                                matches BencodeError::InvalidType(g, w) && w@ == "Dictionary"@
                        } else {
                            info_err_matches(iv->Dict_0@, e)
                        },
                    }
                },
            },
    {
        let key_a: [u8; 8] = [97u8, 110u8, 110u8, 111u8, 117u8, 110u8, 99u8, 101u8];
        proof {
            assert(key_a@ =~= key_announce());
        }
        let announce: Vec<u8> = match dict_get(dict, key_a.as_slice()) {
            None => {
                return Err(TorrentError::MissingField("announce"));
            },
            Some(v) => match v {
                Value::String(s) => s.clone(),
                _ => {
                    return Err(
                        TorrentError::Bencode(BencodeError::InvalidType(v.name(), "String")),
                    );
                },
            },
        };
        if !url_parse_ok(announce.as_slice()) {
            return Err(TorrentError::Url);
        }
        let key_i: [u8; 4] = [105u8, 110u8, 102u8, 111u8];
        proof {
            assert(key_i@ =~= key_info());
        }
        let info_dict: &BencodeDict = match dict_get(dict, key_i.as_slice()) {
            None => {
                return Err(TorrentError::MissingField("info"));
            },
            Some(v) => match v {
                Value::Dict(d) => d,
                _ => {
                    return Err(
                        TorrentError::Bencode(BencodeError::InvalidType(v.name(), "Dictionary")),
                    );
                },
            },
        };
        match Info::from_bencode(info_dict) {
            Ok(info) => Ok(TorrentFile { announce, info }),
            Err(e) => Err(e),
        }
    }
}

/// Fingerprint determinism: the info fingerprint is SHA-1 over the
/// canonical re-encoding of the info dictionary, so two dictionaries
/// with the same mathematical content have the same fingerprint, on
/// every platform and however their input was laid out.
pub proof fn theorem_fingerprint_deterministic(
    d1: Seq<(Vec<u8>, Value)>,
    d2: Seq<(Vec<u8>, Value)>,
)
    requires
        model_pairs(d1) == model_pairs(d2),
    ensures
        sha1_of(enc(SpecValue::Dict(model_pairs(d1)))) == sha1_of(
            enc(SpecValue::Dict(model_pairs(d2))),
        ),
{
}

} // verus!
