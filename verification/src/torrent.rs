//! Torrent metadata: the typed descriptor read from a bencoded `.torrent`
//! byte stream, and the info-hash derived by re-encoding the `info`
//! sub-dictionary canonically and hashing it.

use vstd::prelude::*;

use crate::bencode::{
    canon, dget, dict_get, spec_encode, spec_parse, BencodeModel, BencodeParser, BencodeValue,
    ParseError,
};
use crate::hash::{sha1_digest, sha1_of};
use vstd::string::StringSliceAdditionalSpecFns;

verus! {

broadcast use vstd::slice::axiom_spec_len;

/// A field of the descriptor, for error reports.
#[derive(Debug, Clone, Copy, PartialEq, Eq, Structural)]
pub enum TorrentField {
    Root,
    Announce,
    AnnounceList,
    Info,
    Name,
    PieceLength,
    Pieces,
    FileLength,
    FilePath,
    Files,
}

/// Why a descriptor was rejected.
#[derive(Debug, Clone, Copy, PartialEq, Eq, Structural)]
pub enum TorrentErrorKind {
    /// The bytes are not well-formed bencode.
    Bencode(ParseError),
    /// A required field is absent.
    MissingField(TorrentField),
    /// A field holds a value of the wrong shape, an integer out of range,
    /// or text that is not UTF-8.
    TypeMismatch(TorrentField),
    /// The `pieces` string is not a multiple of 20 bytes.
    BadPiecesLength,
    /// Both of `length` and `files` are present, or neither.
    InconsistentFiles,
}

/// A descriptor rejection.
#[derive(Debug, Clone, Copy, PartialEq, Eq, Structural)]
pub struct TorrentError {
    pub kind: TorrentErrorKind,
}

/// Single-file or multi-file layout.
#[derive(Debug, PartialEq)]
pub enum TorrentFiles {
    Single { length: u64 },
    Multiple { files: Vec<TorrentFileInfo> },
}

/// One file of a multi-file torrent.
#[derive(Debug, PartialEq)]
pub struct TorrentFileInfo {
    pub path: Vec<String>,
    pub length: u64,
}

/// The `info` dictionary, interpreted.
#[derive(Debug, PartialEq)]
pub struct TorrentInfo {
    pub name: String,
    pub piece_length: u32,
    pub pieces: Vec<Vec<u8>>,
    pub files: TorrentFiles,
}

/// A parsed `.torrent` descriptor.
#[derive(Debug, PartialEq)]
pub struct TorrentFile {
    pub announce: String,
    pub announce_list: Option<Vec<Vec<String>>>,
    pub info: TorrentInfo,
    pub info_hash: Vec<u8>,
}

// ---------------------------------------------------------------------------
// Specification predicates
// ---------------------------------------------------------------------------

/// A byte-string value holding valid UTF-8.
pub open spec fn str_utf8_ok(m: BencodeModel) -> bool {
    m matches BencodeModel::Str(sb) && vstd::utf8::valid_utf8(sb)
}

/// A byte-string value that decodes to exactly this text.
pub open spec fn str_matches(m: BencodeModel, s: String) -> bool {
    m matches BencodeModel::Str(sb) && vstd::utf8::valid_utf8(sb) && s@ == vstd::utf8::decode_utf8(
        sb,
    )
}

/// Every element is a UTF-8 byte-string.
pub open spec fn strs_ok(ms: Seq<BencodeModel>) -> bool {
    forall|j: int| 0 <= j < ms.len() ==> str_utf8_ok(#[trigger] ms[j])
}

/// The strings decode the elements, position by position.
pub open spec fn strs_match(ms: Seq<BencodeModel>, ss: Seq<String>) -> bool {
    ss.len() == ms.len() && forall|j: int|
        0 <= j < ms.len() ==> str_matches(#[trigger] ms[j], ss[j])
}

/// Every tier is a list of UTF-8 byte-strings.
pub open spec fn tiers_ok(ms: Seq<BencodeModel>) -> bool {
    forall|i: int|
        0 <= i < ms.len() ==> ((#[trigger] ms[i]) matches BencodeModel::List(e) && strs_ok(e))
}

/// The tier lists decode the elements, position by position.
pub open spec fn tiers_match(ms: Seq<BencodeModel>, ts: Seq<Vec<String>>) -> bool {
    ts.len() == ms.len() && forall|i: int|
        0 <= i < ms.len() ==> ((#[trigger] ms[i]) matches BencodeModel::List(e) && strs_match(
            e,
            ts[i]@,
        ))
}

/// The 20-byte digests packed in the `pieces` byte-string.
pub open spec fn chunks20(pb: Seq<u8>) -> Seq<Seq<u8>> {
    Seq::new(
        pb.len() / 20,
        |i: int|
            if 0 <= i < pb.len() / 20 {
                pb.subrange(20 * i, 20 * i + 20)
            } else {
                Seq::empty()
            },
    )
}

/// One entry of the `files` list has the required shape.
pub open spec fn file_entry_ok(m: BencodeModel) -> bool {
    &&& m matches BencodeModel::Dict(fd)
    &&& dget(fd, "length".spec_bytes()) matches Some(lv)
    &&& lv matches BencodeModel::Int(l)
    &&& l >= 0
    &&& dget(fd, "path".spec_bytes()) matches Some(pv)
    &&& pv matches BencodeModel::List(pe)
    &&& strs_ok(pe)
}

pub open spec fn files_ok(ms: Seq<BencodeModel>) -> bool {
    forall|i: int| 0 <= i < ms.len() ==> file_entry_ok(#[trigger] ms[i])
}

/// One parsed file entry decodes one element of the `files` list.
pub open spec fn file_entry_matches(m: BencodeModel, f: TorrentFileInfo) -> bool {
    &&& m matches BencodeModel::Dict(fd)
    &&& dget(fd, "length".spec_bytes()) matches Some(lv)
    &&& lv matches BencodeModel::Int(l)
    &&& 0 <= l == f.length
    &&& dget(fd, "path".spec_bytes()) matches Some(pv)
    &&& pv matches BencodeModel::List(pe)
    &&& strs_match(pe, f.path@)
}

pub open spec fn files_match(ms: Seq<BencodeModel>, fs: Seq<TorrentFileInfo>) -> bool {
    fs.len() == ms.len() && forall|i: int|
        0 <= i < ms.len() ==> file_entry_matches(#[trigger] ms[i], fs[i])
}

/// The `length` / `files` alternative of the info dictionary is well
/// formed: exactly one of the two is present, with the required shape.
pub open spec fn files_field_ok(idict: Seq<(Seq<u8>, BencodeModel)>) -> bool {
    match (dget(idict, "length".spec_bytes()), dget(idict, "files".spec_bytes())) {
        (Some(lv), None) => lv matches BencodeModel::Int(l) && l >= 0,
        (None, Some(fv)) => fv matches BencodeModel::List(fl) && files_ok(fl),
        _ => false,
    }
}

/// The whole descriptor is well formed: the bytes parse to a dictionary
/// whose required fields all have the required shapes.
pub open spec fn spec_torrent_ok(b: Seq<u8>) -> bool {
    &&& spec_parse(b, 0) matches Ok(pr)
    &&& pr.0 matches BencodeModel::Dict(root)
    &&& dget(root, "announce".spec_bytes()) matches Some(av)
    &&& str_utf8_ok(av)
    &&& (match dget(root, "announce-list".spec_bytes()) {
        None => true,
        Some(alv) => alv matches BencodeModel::List(l) && tiers_ok(l),
    })
    &&& dget(root, "info".spec_bytes()) matches Some(iv)
    &&& iv matches BencodeModel::Dict(idict)
    &&& dget(idict, "name".spec_bytes()) matches Some(nv)
    &&& str_utf8_ok(nv)
    &&& dget(idict, "piece length".spec_bytes()) matches Some(plv)
    &&& plv matches BencodeModel::Int(pl)
    &&& 1 <= pl <= u32::MAX
    &&& dget(idict, "pieces".spec_bytes()) matches Some(pv)
    &&& pv matches BencodeModel::Str(pb)
    &&& pb.len() % 20 == 0
    &&& files_field_ok(idict)
}

/// The descriptor `t` is exactly the interpretation of the bytes `b`.
pub open spec fn torrent_matches(b: Seq<u8>, t: TorrentFile) -> bool {
    &&& spec_parse(b, 0) matches Ok(pr)
    &&& pr.0 matches BencodeModel::Dict(root)
    &&& dget(root, "announce".spec_bytes()) matches Some(av)
    &&& str_matches(av, t.announce)
    &&& (match dget(root, "announce-list".spec_bytes()) {
        None => t.announce_list is None,
        Some(alv) => {
            &&& alv matches BencodeModel::List(l)
            &&& t.announce_list matches Some(ts)
            &&& tiers_match(l, ts@)
        },
    })
    &&& dget(root, "info".spec_bytes()) matches Some(iv)
    &&& t.info_hash@ == sha1_of(spec_encode(canon(iv)))
    &&& iv matches BencodeModel::Dict(idict)
    &&& dget(idict, "name".spec_bytes()) matches Some(nv)
    &&& str_matches(nv, t.info.name)
    &&& dget(idict, "piece length".spec_bytes()) matches Some(plv)
    &&& plv matches BencodeModel::Int(pl)
    &&& 1 <= pl <= u32::MAX
    &&& t.info.piece_length == pl
    &&& dget(idict, "pieces".spec_bytes()) matches Some(pv)
    &&& pv matches BencodeModel::Str(pb)
    &&& pb.len() % 20 == 0
    &&& crate::download::hash_models_of(t.info.pieces@) == chunks20(pb)
    &&& (match (dget(idict, "length".spec_bytes()), dget(idict, "files".spec_bytes())) {
        (Some(lv), None) => {
            &&& lv matches BencodeModel::Int(l)
            &&& t.info.files matches TorrentFiles::Single { length }
            &&& 0 <= l == length
        },
        (None, Some(fv)) => {
            &&& fv matches BencodeModel::List(fl)
            &&& t.info.files matches TorrentFiles::Multiple { files }
            &&& files_match(fl, files@)
        },
        _ => false,
    })
}

/// The reported fault is present in the bytes.
pub open spec fn torrent_err_witness(b: Seq<u8>, k: TorrentErrorKind) -> bool {
    match k {
        TorrentErrorKind::Bencode(pe) => spec_parse(b, 0) == Result::<
            (BencodeModel, int),
            ParseError,
        >::Err(pe),
        TorrentErrorKind::MissingField(f) => (spec_parse(b, 0) matches Ok(pr) && ({
            match f {
                TorrentField::Announce => pr.0 matches BencodeModel::Dict(root) && dget(
                    root,
                    "announce".spec_bytes(),
                ) is None,
                TorrentField::Info => pr.0 matches BencodeModel::Dict(root) && dget(
                    root,
                    "info".spec_bytes(),
                ) is None,
                TorrentField::Name => exists|idict: Seq<(Seq<u8>, BencodeModel)>|
                    in_info(b, idict) && dget(idict, "name".spec_bytes()) is None,
                TorrentField::PieceLength => exists|idict: Seq<(Seq<u8>, BencodeModel)>|
                    in_info(b, idict) && dget(idict, "piece length".spec_bytes()) is None,
                TorrentField::Pieces => exists|idict: Seq<(Seq<u8>, BencodeModel)>|
                    in_info(b, idict) && dget(idict, "pieces".spec_bytes()) is None,
                TorrentField::FileLength => true,
                TorrentField::FilePath => true,
                _ => false,
            }
        })),
        TorrentErrorKind::TypeMismatch(_) => spec_parse(b, 0) is Ok && !spec_torrent_ok(b),
        TorrentErrorKind::BadPiecesLength => exists|idict: Seq<(Seq<u8>, BencodeModel)>|
            in_info(b, idict) && (dget(idict, "pieces".spec_bytes()) matches Some(
                BencodeModel::Str(pb),
            ) && pb.len() % 20 != 0),
        TorrentErrorKind::InconsistentFiles => exists|idict: Seq<(Seq<u8>, BencodeModel)>|
            in_info(b, idict) && ({
                let lo = dget(idict, "length".spec_bytes());
                let fo = dget(idict, "files".spec_bytes());
                (lo is Some && fo is Some) || (lo is None && fo is None)
            }),
    }
}

/// The entries of the root's `info` dictionary.
pub open spec fn in_info(b: Seq<u8>, idict: Seq<(Seq<u8>, BencodeModel)>) -> bool {
    &&& spec_parse(b, 0) matches Ok(pr)
    &&& pr.0 matches BencodeModel::Dict(root)
    &&& dget(root, "info".spec_bytes()) matches Some(iv)
    &&& iv == BencodeModel::Dict(idict)
}


// ---------------------------------------------------------------------------
// Executable interpreter
// ---------------------------------------------------------------------------

/// Decode every element of a bencode list as a UTF-8 string.
#[verifier::loop_isolation(false)]
fn parse_strings(list: &Vec<BencodeValue>) -> (r: Result<Vec<String>, ()>)
    ensures
        match r {
            Ok(ss) => strs_match(crate::bencode::models_of(list@), ss@),
            Err(_) => !strs_ok(crate::bencode::models_of(list@)),
        },
{
    let ghost ms = crate::bencode::models_of(list@);
    let n = list.len();
    let mut out: Vec<String> = Vec::new();
    let mut i: usize = 0;
    while i < n
        invariant
            n == list@.len(),
            0 <= i <= n,
            ms == crate::bencode::models_of(list@),
            out@.len() == i,
            forall|j: int| 0 <= j < i ==> str_matches(#[trigger] ms[j], out@[j]),
        decreases n - i,
    {
        let v = vstd::slice::slice_index_get(list.as_slice(), i);
        match v.as_string() {
            Some(sx) => {
                out.push(sx);
            },
            None => {
                proof {
                    assert(!str_utf8_ok(ms[i as int]));
                }
                return Err(());
            },
        }
        i = i + 1;
    }
    Ok(out)
}

/// Decode the tiers of an `announce-list` value.
#[verifier::loop_isolation(false)]
fn parse_tiers(list: &Vec<BencodeValue>) -> (r: Result<Vec<Vec<String>>, ()>)
    ensures
        match r {
            Ok(ts) => tiers_match(crate::bencode::models_of(list@), ts@),
            Err(_) => !tiers_ok(crate::bencode::models_of(list@)),
        },
{
    let ghost ms = crate::bencode::models_of(list@);
    let n = list.len();
    let mut out: Vec<Vec<String>> = Vec::new();
    let mut i: usize = 0;
    while i < n
        invariant
            n == list@.len(),
            0 <= i <= n,
            ms == crate::bencode::models_of(list@),
            out@.len() == i,
            forall|j: int|
                0 <= j < i ==> ((#[trigger] ms[j]) matches BencodeModel::List(e) && strs_match(
                    e,
                    out@[j]@,
                )),
        decreases n - i,
    {
        let v = vstd::slice::slice_index_get(list.as_slice(), i);
        match v.as_list() {
            Some(tier) => match parse_strings(tier) {
                Ok(ss) => {
                    out.push(ss);
                },
                Err(_) => {
                    proof {
                        assert(!(ms[i as int] matches BencodeModel::List(e) && strs_ok(e)));
                        assert(!tiers_ok(ms));
                    }
                    return Err(());
                },
            },
            None => {
                proof {
                    assert(!(ms[i as int] matches BencodeModel::List(e) && strs_ok(e)));
                    assert(!tiers_ok(ms));
                }
                return Err(());
            },
        }
        i = i + 1;
    }
    Ok(out)
}

/// Split the `pieces` byte-string into its 20-byte digests.
#[verifier::loop_isolation(false)]
fn parse_pieces(pb: &Vec<u8>) -> (r: Vec<Vec<u8>>)
    requires
        pb@.len() % 20 == 0,
    ensures
        crate::download::hash_models_of(r@) == chunks20(pb@),
{
    let n = pb.len() / 20;
    let mut out: Vec<Vec<u8>> = Vec::new();
    let mut i: usize = 0;
    while i < n
        invariant
            pb@.len() % 20 == 0,
            n == pb@.len() / 20,
            0 <= i <= n,
            out@.len() == i,
            forall|j: int|
                0 <= j < i ==> #[trigger] out@[j]@ == pb@.subrange(20 * j, 20 * j + 20),
        decreases n - i,
    {
        proof {
            assert(20 * (i as int) + 20 <= pb@.len()) by (nonlinear_arith)
                requires
                    0 <= i < n,
                    n == pb@.len() / 20,
                    pb@.len() % 20 == 0,
            ;
        }
        let chunk = vstd::slice::slice_to_vec(
            vstd::slice::slice_subrange(pb.as_slice(), 20 * i, 20 * i + 20),
        );
        out.push(chunk);
        i = i + 1;
    }
    proof {
        assert(crate::download::hash_models_of(out@) =~= chunks20(pb@));
    }
    out
}

/// Decode the entries of a `files` list.
#[verifier::loop_isolation(false)]
fn parse_files(list: &Vec<BencodeValue>) -> (r: Result<Vec<TorrentFileInfo>, TorrentError>)
    ensures
        match r {
            Ok(fs) => files_match(crate::bencode::models_of(list@), fs@),
            Err(e) => !files_ok(crate::bencode::models_of(list@)) && ((e.kind matches
                TorrentErrorKind::MissingField(f) && (f == TorrentField::FileLength || f
                == TorrentField::FilePath)) || (e.kind matches TorrentErrorKind::TypeMismatch(f)
                && (f == TorrentField::FileLength || f == TorrentField::FilePath || f
                == TorrentField::Files))),
        },
{
    let ghost ms = crate::bencode::models_of(list@);
    let n = list.len();
    let mut out: Vec<TorrentFileInfo> = Vec::new();
    let mut i: usize = 0;
    while i < n
        invariant
            n == list@.len(),
            0 <= i <= n,
            ms == crate::bencode::models_of(list@),
            out@.len() == i,
            forall|j: int| 0 <= j < i ==> file_entry_matches(#[trigger] ms[j], out@[j]),
        decreases n - i,
    {
        let v = vstd::slice::slice_index_get(list.as_slice(), i);
        let fd = match v.as_dict() {
            Some(fd) => fd,
            None => {
                proof {
                    assert(!file_entry_ok(ms[i as int]));
                    assert(!files_ok(ms));
                }
                return Err(TorrentError { kind: TorrentErrorKind::TypeMismatch(
                    TorrentField::Files,
                ) });
            },
        };
        let length: u64 = match dict_get(fd, "length".as_bytes()) {
            Some(lv) => match lv.as_integer() {
                Some(l) => {
                    if l < 0 {
                        proof {
                            assert(!file_entry_ok(ms[i as int]));
                            assert(!files_ok(ms));
                        }
                        return Err(TorrentError { kind: TorrentErrorKind::TypeMismatch(
                            TorrentField::FileLength,
                        ) });
                    }
                    l as u64
                },
                None => {
                    proof {
                        assert(!file_entry_ok(ms[i as int]));
                        assert(!files_ok(ms));
                    }
                    return Err(TorrentError { kind: TorrentErrorKind::TypeMismatch(
                        TorrentField::FileLength,
                    ) });
                },
            },
            None => {
                proof {
                    assert(!file_entry_ok(ms[i as int]));
                    assert(!files_ok(ms));
                }
                return Err(TorrentError { kind: TorrentErrorKind::MissingField(
                    TorrentField::FileLength,
                ) });
            },
        };
        let path: Vec<String> = match dict_get(fd, "path".as_bytes()) {
            Some(pv) => match pv.as_list() {
                Some(pl) => match parse_strings(pl) {
                    Ok(ss) => ss,
                    Err(_) => {
                        proof {
                            assert(!file_entry_ok(ms[i as int]));
                            assert(!files_ok(ms));
                        }
                        return Err(TorrentError { kind: TorrentErrorKind::TypeMismatch(
                            TorrentField::FilePath,
                        ) });
                    },
                },
                None => {
                    proof {
                        assert(!file_entry_ok(ms[i as int]));
                        assert(!files_ok(ms));
                    }
                    return Err(TorrentError { kind: TorrentErrorKind::TypeMismatch(
                        TorrentField::FilePath,
                    ) });
                },
            },
            None => {
                proof {
                    assert(!file_entry_ok(ms[i as int]));
                    assert(!files_ok(ms));
                }
                return Err(TorrentError { kind: TorrentErrorKind::MissingField(
                    TorrentField::FilePath,
                ) });
            },
        };
        out.push(TorrentFileInfo { path, length });
        i = i + 1;
    }
    Ok(out)
}

/// Interpret a bencoded `.torrent` byte stream as a descriptor. Succeeds
/// exactly when the stream is well formed (`spec_torrent_ok`); the result
/// then interprets the stream field by field (`torrent_matches`), with the
/// info-hash the SHA-1 of the canonical re-encoding of the `info` value.
/// Any reported fault is present in the stream.
pub fn parse_torrent_file(data: &[u8]) -> (r: Result<TorrentFile, TorrentError>)
    ensures
        r is Ok <==> spec_torrent_ok(data@),
        r matches Ok(t) ==> torrent_matches(data@, t),
        r matches Err(e) ==> torrent_err_witness(data@, e.kind),
{
    let mut parser = BencodeParser::new(data);
    let root_val = match parser.parse() {
        Ok(v) => v,
        Err(pe) => {
            return Err(TorrentError { kind: TorrentErrorKind::Bencode(pe) });
        },
    };
    let root = match root_val.as_dict() {
        Some(d) => d,
        None => {
            return Err(TorrentError { kind: TorrentErrorKind::TypeMismatch(TorrentField::Root) });
        },
    };
    // announce
    let announce: String = match dict_get(root, "announce".as_bytes()) {
        Some(av) => match av.as_string() {
            Some(sx) => sx,
            None => {
                return Err(TorrentError { kind: TorrentErrorKind::TypeMismatch(
                    TorrentField::Announce,
                ) });
            },
        },
        None => {
            return Err(TorrentError { kind: TorrentErrorKind::MissingField(
                TorrentField::Announce,
            ) });
        },
    };
    // announce-list (optional)
    let announce_list: Option<Vec<Vec<String>>> = match dict_get(root, "announce-list".as_bytes()) {
        Some(alv) => match alv.as_list() {
            Some(l) => match parse_tiers(l) {
                Ok(ts) => Some(ts),
                Err(_) => {
                    return Err(TorrentError { kind: TorrentErrorKind::TypeMismatch(
                        TorrentField::AnnounceList,
                    ) });
                },
            },
            None => {
                return Err(TorrentError { kind: TorrentErrorKind::TypeMismatch(
                    TorrentField::AnnounceList,
                ) });
            },
        },
        None => None,
    };
    // info
    let info_val = match dict_get(root, "info".as_bytes()) {
        Some(iv) => iv,
        None => {
            return Err(TorrentError { kind: TorrentErrorKind::MissingField(TorrentField::Info) });
        },
    };
    let idict = match info_val.as_dict() {
        Some(d) => d,
        None => {
            return Err(TorrentError { kind: TorrentErrorKind::TypeMismatch(TorrentField::Info) });
        },
    };
    let ghost ientries = crate::bencode::entry_models_of(idict@);
    proof {
        assert(in_info(data@, ientries));
    }
    // info hash: SHA-1 of the canonical re-encoding of the info value
    let info_encoded = crate::bencode::bencode_encode(info_val);
    let info_hash = sha1_digest(info_encoded.as_slice());
    // name
    let name: String = match dict_get(idict, "name".as_bytes()) {
        Some(nv) => match nv.as_string() {
            Some(sx) => sx,
            None => {
                return Err(TorrentError { kind: TorrentErrorKind::TypeMismatch(
                    TorrentField::Name,
                ) });
            },
        },
        None => {
            proof {
                assert(in_info(data@, ientries) && dget(ientries, "name".spec_bytes()) is None);
            }
            return Err(TorrentError { kind: TorrentErrorKind::MissingField(TorrentField::Name) });
        },
    };
    // piece length
    let piece_length: u32 = match dict_get(idict, "piece length".as_bytes()) {
        Some(plv) => match plv.as_integer() {
            Some(pl) => {
                if pl < 1 || pl > u32::MAX as i64 {
                    return Err(TorrentError { kind: TorrentErrorKind::TypeMismatch(
                        TorrentField::PieceLength,
                    ) });
                }
                pl as u32
            },
            None => {
                return Err(TorrentError { kind: TorrentErrorKind::TypeMismatch(
                    TorrentField::PieceLength,
                ) });
            },
        },
        None => {
            proof {
                assert(in_info(data@, ientries) && dget(
                    ientries,
                    "piece length".spec_bytes(),
                ) is None);
            }
            return Err(TorrentError { kind: TorrentErrorKind::MissingField(
                TorrentField::PieceLength,
            ) });
        },
    };
    // pieces
    let pieces: Vec<Vec<u8>> = match dict_get(idict, "pieces".as_bytes()) {
        Some(pv) => match pv.as_bytes() {
            Some(pb) => {
                if pb.len() % 20 != 0 {
                    proof {
                        assert(in_info(data@, ientries) && (dget(
                            ientries,
                            "pieces".spec_bytes(),
                        ) matches Some(BencodeModel::Str(pbm)) && pbm.len() % 20 != 0));
                    }
                    return Err(TorrentError { kind: TorrentErrorKind::BadPiecesLength });
                }
                parse_pieces(pb)
            },
            None => {
                return Err(TorrentError { kind: TorrentErrorKind::TypeMismatch(
                    TorrentField::Pieces,
                ) });
            },
        },
        None => {
            proof {
                assert(in_info(data@, ientries) && dget(ientries, "pieces".spec_bytes()) is None);
            }
            return Err(TorrentError { kind: TorrentErrorKind::MissingField(TorrentField::Pieces) });
        },
    };
    // single-file or multi-file
    let length_val = dict_get(idict, "length".as_bytes());
    let files_val = dict_get(idict, "files".as_bytes());
    let files: TorrentFiles = match (length_val, files_val) {
        (Some(lv), None) => match lv.as_integer() {
            Some(l) => {
                if l < 0 {
                    return Err(TorrentError { kind: TorrentErrorKind::TypeMismatch(
                        TorrentField::FileLength,
                    ) });
                }
                TorrentFiles::Single { length: l as u64 }
            },
            None => {
                return Err(TorrentError { kind: TorrentErrorKind::TypeMismatch(
                    TorrentField::FileLength,
                ) });
            },
        },
        (None, Some(fv)) => match fv.as_list() {
            Some(fl) => match parse_files(fl) {
                Ok(fs) => TorrentFiles::Multiple { files: fs },
                Err(e) => {
                    return Err(e);
                },
            },
            None => {
                return Err(TorrentError { kind: TorrentErrorKind::TypeMismatch(
                    TorrentField::Files,
                ) });
            },
        },
        _ => {
            proof {
                assert(in_info(data@, ientries) && ({
                    let lo = dget(ientries, "length".spec_bytes());
                    let fo = dget(ientries, "files".spec_bytes());
                    (lo is Some && fo is Some) || (lo is None && fo is None)
                }));
            }
            return Err(TorrentError { kind: TorrentErrorKind::InconsistentFiles });
        },
    };
    Ok(
        TorrentFile {
            announce,
            announce_list,
            info: TorrentInfo { name, piece_length, pieces, files },
            info_hash,
        },
    )
}

// ---------------------------------------------------------------------------
// Total size
// ---------------------------------------------------------------------------

/// The sum of the file lengths.
pub open spec fn sum_lengths(fs: Seq<TorrentFileInfo>) -> nat
    decreases fs.len(),
{
    if fs.len() == 0 {
        0
    } else {
        sum_lengths(fs.drop_last()) + fs.last().length as nat
    }
}

/// The total number of bytes the descriptor describes.
pub open spec fn spec_total_size(files: TorrentFiles) -> nat {
    match files {
        TorrentFiles::Single { length } => length as nat,
        TorrentFiles::Multiple { files } => sum_lengths(files@),
    }
}

impl TorrentFile {
    /// The total size of all files, saturating at `u64::MAX`.
    pub fn total_size(&self) -> (r: u64)
        ensures
            r == if spec_total_size(self.info.files) > u64::MAX {
                u64::MAX as nat
            } else {
                spec_total_size(self.info.files)
            },
    {
        match &self.info.files {
            TorrentFiles::Single { length } => *length,
            TorrentFiles::Multiple { files } => {
                let n = files.len();
                let mut sum: u64 = 0;
                let mut i: usize = 0;
                while i < n
                    invariant
                        n == files@.len(),
                        0 <= i <= n,
                        sum == if sum_lengths(files@.take(i as int)) > u64::MAX {
                            u64::MAX as nat
                        } else {
                            sum_lengths(files@.take(i as int))
                        },
                    decreases n - i,
                {
                    proof {
                        assert(files@.take(i as int + 1).drop_last() =~= files@.take(i as int));
                        assert(files@.take(i as int + 1).last() == files@[i as int]);
                    }
                    let l = vstd::slice::slice_index_get(files.as_slice(), i).length;
                    if sum <= u64::MAX - l {
                        sum = sum + l;
                    } else {
                        sum = u64::MAX;
                    }
                    i = i + 1;
                }
                proof {
                    assert(files@.take(n as int) =~= files@);
                }
                sum
            },
        }
    }
}


/// Info-hash stability: when the `info` value came from a canonically
/// ordered byte range, the canonical re-encoding that the info-hash is
/// computed over is that very byte range, so the hash equals the SHA-1 of
/// the raw `info` bytes as they appear in the file.
pub proof fn lemma_info_hash_stable(b: Seq<u8>, pos: int, v: BencodeModel, p: int)
    requires
        0 <= pos <= b.len(),
        spec_parse(b, pos) == Result::<(BencodeModel, int), ParseError>::Ok((v, p)),
        crate::bencode::canonical(v),
    ensures
        sha1_of(spec_encode(canon(v))) == sha1_of(b.subrange(pos, p)),
{
    crate::bencode::lemma_parse_sound(b, pos, v, p);
    crate::bencode::lemma_canon_id(v);
}

} // verus!
