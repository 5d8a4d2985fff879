//! Tracker announce protocol: byte-literal percent-encoding of the binary
//! query fields, announce URL construction, and bencoded response decoding.

use vstd::prelude::*;

use crate::bencode::{
    dec_digits, dget, dict_get, spec_parse, BencodeModel, BencodeParser, ParseError,
};
use crate::torrent::TorrentFile;
use crate::wire::be16_val;
use vstd::string::StringSliceAdditionalSpecFns;

verus! {

broadcast use vstd::slice::axiom_spec_len;

// ---------------------------------------------------------------------------
// Errors and data
// ---------------------------------------------------------------------------

/// A field of the tracker response, for error reports.
#[derive(Debug, Clone, Copy, PartialEq, Eq, Structural)]
pub enum TrackerResponseField {
    FailureReason,
    Interval,
    Peers,
}

/// Why an announce failed, as far as the library decides it; transport
/// faults stay with the caller that performs the HTTP request.
#[derive(Debug, PartialEq)]
pub enum TrackerErrorKind {
    /// The announce URL did not parse.
    BadUrl,
    /// The response body starts with `<`: HTML, not bencode.
    HtmlBody,
    /// The response body is not well-formed bencode.
    Bencode(ParseError),
    /// The response is not a dictionary.
    NotDictionary,
    /// The tracker reported a failure; the raw reason bytes are carried.
    Failure(Vec<u8>),
    /// The mandatory `interval` field is absent.
    MissingInterval,
    /// A response field has the wrong shape or range.
    BadField(TrackerResponseField),
}

/// An announce failure.
#[derive(Debug, PartialEq)]
pub struct TrackerError {
    pub kind: TrackerErrorKind,
}

/// A peer's address: the four octets of a compact IPv4 entry, or the
/// textual host from a dictionary entry.
#[derive(Debug, PartialEq)]
pub enum PeerIp {
    V4(u8, u8, u8, u8),
    Name(String),
}

/// One peer from a tracker response.
#[derive(Debug, PartialEq)]
pub struct Peer {
    pub ip: PeerIp,
    pub port: u16,
    pub peer_id: Option<Vec<u8>>,
}

/// The reason an announce is sent.
#[derive(Debug, Clone, Copy, PartialEq, Eq, Structural)]
pub enum TrackerEvent {
    Started,
    Stopped,
    Completed,
}

impl TrackerEvent {
    /// The event's name on the wire.
    pub fn as_str(&self) -> (r: &'static str)
        ensures
            match self {
                TrackerEvent::Started => r@ == "started"@,
                TrackerEvent::Stopped => r@ == "stopped"@,
                TrackerEvent::Completed => r@ == "completed"@,
            },
    {
        match self {
            TrackerEvent::Started => "started",
            TrackerEvent::Stopped => "stopped",
            TrackerEvent::Completed => "completed",
        }
    }
}

/// The parameters of one announce.
#[derive(Debug, PartialEq)]
pub struct TrackerRequest {
    pub info_hash: Vec<u8>,
    pub peer_id: Vec<u8>,
    pub port: u16,
    pub uploaded: u64,
    pub downloaded: u64,
    pub left: u64,
    pub compact: bool,
    pub no_peer_id: bool,
    pub event: Option<TrackerEvent>,
    pub ip: Option<PeerIp>,
    pub numwant: Option<u32>,
    pub key: Option<u32>,
    pub trackerid: Option<String>,
}

/// A decoded announce response.
#[derive(Debug, PartialEq)]
pub struct TrackerResponse {
    pub failure_reason: Option<String>,
    pub warning_message: Option<String>,
    pub interval: u32,
    pub min_interval: Option<u32>,
    pub tracker_id: Option<String>,
    pub complete: u32,
    pub incomplete: u32,
    pub downloaded: Option<u32>,
    pub peers: Vec<Peer>,
}

// ---------------------------------------------------------------------------
// Percent-encoding
// ---------------------------------------------------------------------------

/// The RFC 3986 unreserved set: letters, digits, `-`, `_`, `.`, `~`.
pub open spec fn is_unreserved(b: u8) -> bool {
    (65 <= b <= 90) || (97 <= b <= 122) || (48 <= b <= 57) || b == 45 || b == 95 || b == 46 || b
        == 126
}

/// The uppercase hex digit of a value below 16.
pub open spec fn hex_digit(n: u8) -> u8 {
    if n < 10 {
        (48 + n) as u8
    } else {
        (55 + n) as u8
    }
}

/// One byte, percent-encoded: itself when unreserved, else `%HH`.
pub open spec fn pct_one(b: u8) -> Seq<u8> {
    if is_unreserved(b) {
        seq![b]
    } else {
        seq![37u8, hex_digit(b / 16), hex_digit((b % 16) as u8)]
    }
}

/// A byte string percent-encoded byte-literally.
pub open spec fn pct_encode(bs: Seq<u8>) -> Seq<u8>
    decreases bs.len(),
{
    if bs.len() == 0 {
        Seq::empty()
    } else {
        pct_one(bs[0]) + pct_encode(bs.drop_first())
    }
}

/// Every byte is below 0x80, so the string is ASCII and valid UTF-8.
pub open spec fn ascii_bytes(s: Seq<u8>) -> bool {
    forall|i: int| 0 <= i < s.len() ==> #[trigger] s[i] < 0x80
}

proof fn lemma_ascii_concat(a: Seq<u8>, b: Seq<u8>)
    requires
        ascii_bytes(a),
        ascii_bytes(b),
    ensures
        ascii_bytes(a + b),
{
    assert forall|i: int| 0 <= i < (a + b).len() implies (a + b)[i] < 0x80 by {
        if i < a.len() {
            assert((a + b)[i] == a[i]);
        } else {
            assert((a + b)[i] == b[i - a.len()]);
        }
    }
}

proof fn lemma_pct_ascii(bs: Seq<u8>)
    ensures
        ascii_bytes(pct_encode(bs)),
    decreases bs.len(),
{
    if bs.len() > 0 {
        lemma_pct_ascii(bs.drop_first());
        assert(ascii_bytes(pct_one(bs[0])));
        lemma_ascii_concat(pct_one(bs[0]), pct_encode(bs.drop_first()));
    }
}

proof fn lemma_dec_ascii(n: nat)
    ensures
        ascii_bytes(dec_digits(n)),
    decreases n,
{
    if n >= 10 {
        lemma_dec_ascii(n / 10);
        lemma_ascii_concat(dec_digits(n / 10), seq![(48 + n % 10) as u8]);
    }
}

proof fn lemma_strlit_ascii(s: &str)
    requires
        vstd::string::is_ascii(s),
    ensures
        ascii_bytes(s.spec_bytes()),
{
    broadcast use vstd::string::is_ascii_spec_bytes;
    broadcast use vstd::utf8::is_ascii_chars_nat_bound;

    assert(s.spec_bytes() =~= Seq::new(s@.len(), |i| s@.index(i) as u8));
    assert forall|i: int| 0 <= i < s.spec_bytes().len() implies s.spec_bytes()[i] < 0x80 by {
        assert((s@[i] as nat) < 128);
    }
}

/// Percent-encode bytes: unreserved bytes pass through, every other byte
/// becomes `%HH` with uppercase hex.
pub fn percent_encode_bytes(bytes: &[u8]) -> (r: Vec<u8>)
    ensures
        r@ == pct_encode(bytes@),
{
    let ghost bs = bytes@;
    let n = bytes.len();
    let mut out: Vec<u8> = Vec::new();
    let mut i: usize = 0;
    proof {
        assert(bs.skip(0) =~= bs);
    }
    while i < n
        invariant
            n == bs.len(),
            bs == bytes@,
            0 <= i <= n,
            out@ + pct_encode(bs.skip(i as int)) == pct_encode(bs),
        decreases n - i,
    {
        let ghost out0 = out@;
        let b = bytes[i];
        if (65 <= b && b <= 90) || (97 <= b && b <= 122) || (48 <= b && b <= 57) || b == 45 || b
            == 95 || b == 46 || b == 126 {
            out.push(b);
        } else {
            out.push(37);
            let hi = b / 16;
            let lo = b % 16;
            out.push(if hi < 10 {
                48 + hi
            } else {
                55 + hi
            });
            out.push(if lo < 10 {
                48 + lo
            } else {
                55 + lo
            });
        }
        proof {
            let rest = bs.skip(i as int);
            assert(rest[0] == bs[i as int]);
            assert(rest.drop_first() =~= bs.skip(i as int + 1));
            assert(pct_encode(rest) == pct_one(bs[i as int]) + pct_encode(bs.skip(i as int + 1)));
            assert(out@ =~= out0 + pct_one(bs[i as int]));
            assert(out@ + pct_encode(bs.skip(i as int + 1)) =~= out0 + pct_encode(rest));
        }
        i = i + 1;
    }
    proof {
        assert(bs.skip(n as int) =~= Seq::<u8>::empty());
        assert(out@ + Seq::<u8>::empty() =~= out@);
    }
    out
}

/// Percent-encode bytes into text, as `percent_encode_bytes`.
pub fn url_encode_bytes(bytes: &[u8]) -> (r: String)
    ensures
        r@ == vstd::utf8::decode_utf8(pct_encode(bytes@)),
{
    let encoded = percent_encode_bytes(bytes);
    proof {
        lemma_pct_ascii(bytes@);
        crate::text::lemma_ascii_valid_utf8(encoded@);
    }
    match crate::text::bytes_to_string(encoded) {
        Some(s) => s,
        None => {
            proof {
                assert(false);
            }
            String::new()
        },
    }
}


// ---------------------------------------------------------------------------
// Announce query and URL
// ---------------------------------------------------------------------------

/// The announce query string, byte for byte: the two 20-byte identifiers
/// percent-encoded byte-literally, the counters in decimal, `compact` as
/// `1` or `0`, and the optional `no_peer_id` and `numwant` parameters.
pub open spec fn spec_query(req: TrackerRequest) -> Seq<u8> {
    "info_hash=".spec_bytes() + pct_encode(req.info_hash@) + "&peer_id=".spec_bytes()
        + pct_encode(req.peer_id@) + "&port=".spec_bytes() + dec_digits(req.port as nat)
        + "&uploaded=".spec_bytes() + dec_digits(req.uploaded as nat) + "&downloaded=".spec_bytes()
        + dec_digits(req.downloaded as nat) + "&left=".spec_bytes() + dec_digits(req.left as nat)
        + "&compact=".spec_bytes() + (if req.compact {
        seq![49u8]
    } else {
        seq![48u8]
    }) + (if req.no_peer_id {
        "&no_peer_id=1".spec_bytes()
    } else {
        Seq::<u8>::empty()
    }) + (match req.numwant {
        Some(n) => "&numwant=".spec_bytes() + dec_digits(n as nat),
        None => Seq::<u8>::empty(),
    })
}

/// Build the announce query string for a request.
pub fn build_announce_query(req: &TrackerRequest) -> (r: String)
    ensures
        r@ == vstd::utf8::decode_utf8(spec_query(*req)),
{
    let mut out: Vec<u8> = Vec::new();
    crate::bencode::push_bytes(&mut out, "info_hash=".as_bytes());
    let ihe = percent_encode_bytes(req.info_hash.as_slice());
    crate::bencode::push_bytes(&mut out, ihe.as_slice());
    crate::bencode::push_bytes(&mut out, "&peer_id=".as_bytes());
    let pide = percent_encode_bytes(req.peer_id.as_slice());
    crate::bencode::push_bytes(&mut out, pide.as_slice());
    crate::bencode::push_bytes(&mut out, "&port=".as_bytes());
    let portd = crate::bencode::dec_bytes(req.port as u64);
    crate::bencode::push_bytes(&mut out, portd.as_slice());
    crate::bencode::push_bytes(&mut out, "&uploaded=".as_bytes());
    let upd = crate::bencode::dec_bytes(req.uploaded);
    crate::bencode::push_bytes(&mut out, upd.as_slice());
    crate::bencode::push_bytes(&mut out, "&downloaded=".as_bytes());
    let dld = crate::bencode::dec_bytes(req.downloaded);
    crate::bencode::push_bytes(&mut out, dld.as_slice());
    crate::bencode::push_bytes(&mut out, "&left=".as_bytes());
    let leftd = crate::bencode::dec_bytes(req.left);
    crate::bencode::push_bytes(&mut out, leftd.as_slice());
    crate::bencode::push_bytes(&mut out, "&compact=".as_bytes());
    if req.compact {
        out.push(49);
    } else {
        out.push(48);
    }
    if req.no_peer_id {
        crate::bencode::push_bytes(&mut out, "&no_peer_id=1".as_bytes());
    }
    match &req.numwant {
        Some(n) => {
            crate::bencode::push_bytes(&mut out, "&numwant=".as_bytes());
            let nd = crate::bencode::dec_bytes(*n as u64);
            crate::bencode::push_bytes(&mut out, nd.as_slice());
        },
        None => {},
    }
    proof {
        assert(out@ =~= spec_query(*req));
        lemma_query_ascii(*req);
        crate::text::lemma_ascii_valid_utf8(out@);
    }
    match crate::text::bytes_to_string(out) {
        Some(s) => s,
        None => {
            proof {
                assert(false);
            }
            String::new()
        },
    }
}

proof fn lemma_query_ascii(req: TrackerRequest)
    ensures
        ascii_bytes(spec_query(req)),
{
    reveal_strlit("info_hash=");
    reveal_strlit("&peer_id=");
    reveal_strlit("&port=");
    reveal_strlit("&uploaded=");
    reveal_strlit("&downloaded=");
    reveal_strlit("&left=");
    reveal_strlit("&compact=");
    reveal_strlit("&no_peer_id=1");
    reveal_strlit("&numwant=");
    assert(vstd::string::is_ascii("info_hash="));
    assert(vstd::string::is_ascii("&peer_id="));
    assert(vstd::string::is_ascii("&port="));
    assert(vstd::string::is_ascii("&uploaded="));
    assert(vstd::string::is_ascii("&downloaded="));
    assert(vstd::string::is_ascii("&left="));
    assert(vstd::string::is_ascii("&compact="));
    assert(vstd::string::is_ascii("&no_peer_id=1"));
    assert(vstd::string::is_ascii("&numwant="));
    lemma_strlit_ascii("info_hash=");
    lemma_strlit_ascii("&peer_id=");
    lemma_strlit_ascii("&port=");
    lemma_strlit_ascii("&uploaded=");
    lemma_strlit_ascii("&downloaded=");
    lemma_strlit_ascii("&left=");
    lemma_strlit_ascii("&compact=");
    lemma_strlit_ascii("&no_peer_id=1");
    lemma_strlit_ascii("&numwant=");
    lemma_pct_ascii(req.info_hash@);
    lemma_pct_ascii(req.peer_id@);
    lemma_dec_ascii(req.port as nat);
    lemma_dec_ascii(req.uploaded as nat);
    lemma_dec_ascii(req.downloaded as nat);
    lemma_dec_ascii(req.left as nat);
    let q = spec_query(req);
    let p1 = "info_hash=".spec_bytes() + pct_encode(req.info_hash@);
    lemma_ascii_concat("info_hash=".spec_bytes(), pct_encode(req.info_hash@));
    let p2 = p1 + "&peer_id=".spec_bytes();
    lemma_ascii_concat(p1, "&peer_id=".spec_bytes());
    let p3 = p2 + pct_encode(req.peer_id@);
    lemma_ascii_concat(p2, pct_encode(req.peer_id@));
    let p4 = p3 + "&port=".spec_bytes();
    lemma_ascii_concat(p3, "&port=".spec_bytes());
    let p5 = p4 + dec_digits(req.port as nat);
    lemma_ascii_concat(p4, dec_digits(req.port as nat));
    let p6 = p5 + "&uploaded=".spec_bytes();
    lemma_ascii_concat(p5, "&uploaded=".spec_bytes());
    let p7 = p6 + dec_digits(req.uploaded as nat);
    lemma_ascii_concat(p6, dec_digits(req.uploaded as nat));
    let p8 = p7 + "&downloaded=".spec_bytes();
    lemma_ascii_concat(p7, "&downloaded=".spec_bytes());
    let p9 = p8 + dec_digits(req.downloaded as nat);
    lemma_ascii_concat(p8, dec_digits(req.downloaded as nat));
    let p10 = p9 + "&left=".spec_bytes();
    lemma_ascii_concat(p9, "&left=".spec_bytes());
    let p11 = p10 + dec_digits(req.left as nat);
    lemma_ascii_concat(p10, dec_digits(req.left as nat));
    let p12 = p11 + "&compact=".spec_bytes();
    lemma_ascii_concat(p11, "&compact=".spec_bytes());
    let cbit: Seq<u8> = if req.compact {
        seq![49u8]
    } else {
        seq![48u8]
    };
    let p13 = p12 + cbit;
    lemma_ascii_concat(p12, cbit);
    let npi: Seq<u8> = if req.no_peer_id {
        "&no_peer_id=1".spec_bytes()
    } else {
        Seq::<u8>::empty()
    };
    let p14 = p13 + npi;
    lemma_ascii_concat(p13, npi);
    let nw: Seq<u8> = match req.numwant {
        Some(n) => "&numwant=".spec_bytes() + dec_digits(n as nat),
        None => Seq::<u8>::empty(),
    };
    match req.numwant {
        Some(n) => {
            lemma_dec_ascii(n as nat);
            lemma_ascii_concat("&numwant=".spec_bytes(), dec_digits(n as nat));
        },
        None => {},
    }
    lemma_ascii_concat(p14, nw);
    assert(q == p14 + nw);
}

/// The announce URL that the `url` crate produces for a base URL and a
/// query string: `None` when the base does not parse as a URL.
pub uninterp spec fn url_with_query(base: Seq<char>, query: Seq<char>) -> Option<Seq<char>>;

/// Relies on `url::Url::parse` and `url::Url::set_query`: parsing fails on
/// a malformed base URL, and the result is a function of the base and the
/// query text alone.
#[verifier::external_body]
fn attach_query(base: &str, query: &str) -> (r: Option<String>)
    ensures
        r is Some <==> url_with_query(base@, query@) is Some,
        r matches Some(u) ==> u@ == url_with_query(base@, query@)->0,
{
    match url::Url::parse(base) {
        Ok(mut u) => {
            u.set_query(Some(query));
            Some(u.into_string())
        },
        Err(_) => None,
    }
}

/// The full announce URL for a request: the tracker URL with the announce
/// query attached. Fails exactly when the tracker URL does not parse.
pub fn build_announce_url(tracker_url: &str, req: &TrackerRequest) -> (r: Result<
    String,
    TrackerError,
>)
    ensures
        ({
            let q = vstd::utf8::decode_utf8(spec_query(*req));
            match r {
                Ok(u) => url_with_query(tracker_url@, q) == Some(u@),
                Err(e) => url_with_query(tracker_url@, q) is None && e.kind
                    == TrackerErrorKind::BadUrl,
            }
        }),
{
    let query = build_announce_query(req);
    match attach_query(tracker_url, query.as_str()) {
        Some(u) => Ok(u),
        None => Err(TrackerError { kind: TrackerErrorKind::BadUrl }),
    }
}


// ---------------------------------------------------------------------------
// Response decoding
// ---------------------------------------------------------------------------

/// An optional counter field: its integer value when present and in
/// 32-bit range, and zero otherwise.
pub open spec fn u32_or_zero(o: Option<BencodeModel>) -> u32 {
    match o {
        Some(m) => match m {
            BencodeModel::Int(i) => if 0 <= i <= u32::MAX {
                i as u32
            } else {
                0
            },
            _ => 0,
        },
        None => 0,
    }
}

/// An optional text field: the decoded string when present as UTF-8
/// text, and absent otherwise.
pub open spec fn opt_text_matches(o: Option<BencodeModel>, s: Option<String>) -> bool {
    match o {
        Some(m) => match m {
            BencodeModel::Str(sb) => if vstd::utf8::valid_utf8(sb) {
                s matches Some(sx) && sx@ == vstd::utf8::decode_utf8(sb)
            } else {
                s is None
            },
            _ => s is None,
        },
        None => s is None,
    }
}

/// The compact peer encoding: 6 bytes per peer, 4 address octets and a
/// big-endian port.
pub open spec fn compact_peers_match(pb: Seq<u8>, ps: Seq<Peer>) -> bool {
    &&& ps.len() == pb.len() / 6
    &&& forall|i: int|
        0 <= i < ps.len() ==> (#[trigger] ps[i]) == (Peer {
            ip: PeerIp::V4(pb[6 * i], pb[6 * i + 1], pb[6 * i + 2], pb[6 * i + 3]),
            port: be16_val(pb[6 * i + 4], pb[6 * i + 5]),
            peer_id: None,
        })
}

/// One dictionary peer entry has the required shape: a UTF-8 `ip` text
/// and a `port` integer within 16 bits.
pub open spec fn dict_peer_ok(m: BencodeModel) -> bool {
    &&& m matches BencodeModel::Dict(pd)
    &&& dget(pd, "ip".spec_bytes()) matches Some(ipv)
    &&& ipv matches BencodeModel::Str(ipb)
    &&& vstd::utf8::valid_utf8(ipb)
    &&& dget(pd, "port".spec_bytes()) matches Some(ptv)
    &&& ptv matches BencodeModel::Int(pt)
    &&& 0 <= pt <= u16::MAX
}

/// One parsed peer decodes one dictionary entry: the host text, the port,
/// and the optional peer id (kept when it is a byte-string).
pub open spec fn dict_peer_matches(m: BencodeModel, p: Peer) -> bool {
    &&& m matches BencodeModel::Dict(pd)
    &&& dget(pd, "ip".spec_bytes()) matches Some(ipv)
    &&& ipv matches BencodeModel::Str(ipb)
    &&& vstd::utf8::valid_utf8(ipb)
    &&& p.ip matches PeerIp::Name(nm)
    &&& nm@ == vstd::utf8::decode_utf8(ipb)
    &&& dget(pd, "port".spec_bytes()) matches Some(ptv)
    &&& ptv matches BencodeModel::Int(pt)
    &&& 0 <= pt <= u16::MAX
    &&& p.port == pt
    &&& (match dget(pd, "peer id".spec_bytes()) {
        Some(pidv) => match pidv {
            BencodeModel::Str(pidb) => p.peer_id matches Some(pid) && pid@ == pidb,
            _ => p.peer_id is None,
        },
        None => p.peer_id is None,
    })
}

pub open spec fn dict_peers_ok(ms: Seq<BencodeModel>) -> bool {
    forall|i: int| 0 <= i < ms.len() ==> dict_peer_ok(#[trigger] ms[i])
}

pub open spec fn dict_peers_match(ms: Seq<BencodeModel>, ps: Seq<Peer>) -> bool {
    ps.len() == ms.len() && forall|i: int|
        0 <= i < ms.len() ==> dict_peer_matches(#[trigger] ms[i], ps[i])
}

/// The `peers` field decodes under the chosen encoding.
pub open spec fn peers_field_matches(o: Option<BencodeModel>, compact: bool, ps: Seq<Peer>) -> bool {
    match o {
        None => ps.len() == 0,
        Some(pv) => if compact {
            pv matches BencodeModel::Str(pb) && pb.len() % 6 == 0 && compact_peers_match(pb, ps)
        } else {
            pv matches BencodeModel::List(l) && dict_peers_match(l, ps)
        },
    }
}

/// The body is decodable: bencode (not HTML), a dictionary without a
/// `failure reason`, a 32-bit `interval`, and a well-shaped `peers` field
/// under the chosen encoding.
pub open spec fn spec_tracker_ok(b: Seq<u8>, compact: bool) -> bool {
    &&& !(b.len() > 0 && b[0] == 60)
    &&& spec_parse(b, 0) matches Ok(pr)
    &&& pr.0 matches BencodeModel::Dict(root)
    &&& !(dget(root, "failure reason".spec_bytes()) matches Some(BencodeModel::Str(_)))
    &&& dget(root, "interval".spec_bytes()) matches Some(iv)
    &&& iv matches BencodeModel::Int(n)
    &&& 0 <= n <= u32::MAX
    &&& (match dget(root, "peers".spec_bytes()) {
        None => true,
        Some(pv) => if compact {
            pv matches BencodeModel::Str(pb) && pb.len() % 6 == 0
        } else {
            pv matches BencodeModel::List(l) && dict_peers_ok(l)
        },
    })
}

/// The response `resp` is exactly the decoding of the body `b` under the
/// chosen peer encoding.
pub open spec fn response_matches(b: Seq<u8>, compact: bool, resp: TrackerResponse) -> bool {
    &&& !(b.len() > 0 && b[0] == 60)
    &&& spec_parse(b, 0) matches Ok(pr)
    &&& pr.0 matches BencodeModel::Dict(root)
    &&& !(dget(root, "failure reason".spec_bytes()) matches Some(BencodeModel::Str(_)))
    &&& resp.failure_reason is None
    &&& opt_text_matches(dget(root, "warning message".spec_bytes()), resp.warning_message)
    &&& dget(root, "interval".spec_bytes()) matches Some(iv)
    &&& iv matches BencodeModel::Int(n)
    &&& 0 <= n <= u32::MAX
    &&& resp.interval == n
    &&& (match dget(root, "min interval".spec_bytes()) {
        Some(m) => resp.min_interval == Some(u32_or_zero(Some(m))),
        None => resp.min_interval is None,
    })
    &&& opt_text_matches(dget(root, "tracker id".spec_bytes()), resp.tracker_id)
    &&& resp.complete == u32_or_zero(dget(root, "complete".spec_bytes()))
    &&& resp.incomplete == u32_or_zero(dget(root, "incomplete".spec_bytes()))
    &&& (match dget(root, "downloaded".spec_bytes()) {
        Some(m) => resp.downloaded == Some(u32_or_zero(Some(m))),
        None => resp.downloaded is None,
    })
    &&& peers_field_matches(dget(root, "peers".spec_bytes()), compact, resp.peers@)
}

/// The reported fault is present in the body.
pub open spec fn tracker_err_witness(b: Seq<u8>, compact: bool, k: TrackerErrorKind) -> bool {
    match k {
        TrackerErrorKind::HtmlBody => b.len() > 0 && b[0] == 60,
        TrackerErrorKind::Bencode(pe) => spec_parse(b, 0) == Result::<
            (BencodeModel, int),
            ParseError,
        >::Err(pe),
        TrackerErrorKind::NotDictionary => spec_parse(b, 0) matches Ok(pr) && !(pr.0 is Dict),
        TrackerErrorKind::Failure(reason) => (spec_parse(b, 0) matches Ok(pr) && (pr.0 matches
            BencodeModel::Dict(root) && dget(root, "failure reason".spec_bytes()) matches Some(
            BencodeModel::Str(rb),
        ) && reason@ == rb)),
        TrackerErrorKind::MissingInterval => (spec_parse(b, 0) matches Ok(pr) && (pr.0 matches
            BencodeModel::Dict(root) && dget(root, "interval".spec_bytes()) is None)),
        TrackerErrorKind::BadField(f) => (spec_parse(b, 0) matches Ok(pr) && (pr.0 matches
            BencodeModel::Dict(root) && (match f {
            TrackerResponseField::Interval => dget(root, "interval".spec_bytes()) matches Some(iv)
                && !(iv matches BencodeModel::Int(n) && 0 <= n <= u32::MAX),
            TrackerResponseField::Peers => dget(root, "peers".spec_bytes()) matches Some(pv) && (
            if compact {
                !(pv matches BencodeModel::Str(pb) && pb.len() % 6 == 0)
            } else {
                !(pv matches BencodeModel::List(l) && dict_peers_ok(l))
            }),
            _ => false,
        }))),
        TrackerErrorKind::BadUrl => false,
    }
}

/// Decode the compact peers byte-string: 6 bytes per peer.
#[verifier::loop_isolation(false)]
pub fn parse_compact_peers(pb: &Vec<u8>) -> (r: Result<Vec<Peer>, TrackerError>)
    ensures
        match r {
            Ok(ps) => pb@.len() % 6 == 0 && compact_peers_match(pb@, ps@),
            Err(e) => pb@.len() % 6 != 0 && e.kind == TrackerErrorKind::BadField(
                TrackerResponseField::Peers,
            ),
        },
{
    if pb.len() % 6 != 0 {
        return Err(TrackerError { kind: TrackerErrorKind::BadField(TrackerResponseField::Peers) });
    }
    let n = pb.len() / 6;
    let mut out: Vec<Peer> = Vec::new();
    let mut i: usize = 0;
    while i < n
        invariant
            0 <= i <= n,
            out@.len() == i,
            forall|j: int|
                0 <= j < i ==> (#[trigger] out@[j]) == (Peer {
                    ip: PeerIp::V4(pb@[6 * j], pb@[6 * j + 1], pb@[6 * j + 2], pb@[6 * j + 3]),
                    port: be16_val(pb@[6 * j + 4], pb@[6 * j + 5]),
                    peer_id: None,
                }),
        decreases n - i,
    {
        proof {
            assert(6 * (i as int) + 6 <= pb@.len()) by (nonlinear_arith)
                requires
                    0 <= i < n,
                    n == pb@.len() / 6,
                    pb@.len() % 6 == 0,
            ;
        }
        let base = 6 * i;
        let port = crate::wire::u16_from_be(pb[base + 4], pb[base + 5]);
        out.push(
            Peer {
                ip: PeerIp::V4(pb[base], pb[base + 1], pb[base + 2], pb[base + 3]),
                port,
                peer_id: None,
            },
        );
        i = i + 1;
    }
    Ok(out)
}

/// Decode the dictionary peer list.
#[verifier::loop_isolation(false)]
pub fn parse_dict_peers(list: &Vec<crate::bencode::BencodeValue>) -> (r: Result<
    Vec<Peer>,
    TrackerError,
>)
    ensures
        match r {
            Ok(ps) => dict_peers_match(crate::bencode::models_of(list@), ps@),
            Err(e) => !dict_peers_ok(crate::bencode::models_of(list@)) && e.kind
                == TrackerErrorKind::BadField(TrackerResponseField::Peers),
        },
{
    let ghost ms = crate::bencode::models_of(list@);
    let n = list.len();
    let mut out: Vec<Peer> = Vec::new();
    let mut i: usize = 0;
    while i < n
        invariant
            n == list@.len(),
            0 <= i <= n,
            ms == crate::bencode::models_of(list@),
            out@.len() == i,
            forall|j: int| 0 <= j < i ==> dict_peer_matches(#[trigger] ms[j], out@[j]),
        decreases n - i,
    {
        let v = vstd::slice::slice_index_get(list.as_slice(), i);
        let pd = match v.as_dict() {
            Some(pd) => pd,
            None => {
                proof {
                    assert(!dict_peer_ok(ms[i as int]));
                }
                return Err(
                    TrackerError { kind: TrackerErrorKind::BadField(TrackerResponseField::Peers) },
                );
            },
        };
        let host: String = match dict_get(pd, "ip".as_bytes()) {
            Some(ipv) => match ipv.as_string() {
                Some(sx) => sx,
                None => {
                    proof {
                        assert(!dict_peer_ok(ms[i as int]));
                    }
                    return Err(
                        TrackerError {
                            kind: TrackerErrorKind::BadField(TrackerResponseField::Peers),
                        },
                    );
                },
            },
            None => {
                proof {
                    assert(!dict_peer_ok(ms[i as int]));
                }
                return Err(
                    TrackerError { kind: TrackerErrorKind::BadField(TrackerResponseField::Peers) },
                );
            },
        };
        let port: u16 = match dict_get(pd, "port".as_bytes()) {
            Some(ptv) => match ptv.as_integer() {
                Some(pt) => {
                    if pt < 0 || pt > u16::MAX as i64 {
                        proof {
                            assert(!dict_peer_ok(ms[i as int]));
                        }
                        return Err(
                            TrackerError {
                                kind: TrackerErrorKind::BadField(TrackerResponseField::Peers),
                            },
                        );
                    }
                    pt as u16
                },
                None => {
                    proof {
                        assert(!dict_peer_ok(ms[i as int]));
                    }
                    return Err(
                        TrackerError {
                            kind: TrackerErrorKind::BadField(TrackerResponseField::Peers),
                        },
                    );
                },
            },
            None => {
                proof {
                    assert(!dict_peer_ok(ms[i as int]));
                }
                return Err(
                    TrackerError { kind: TrackerErrorKind::BadField(TrackerResponseField::Peers) },
                );
            },
        };
        let peer_id: Option<Vec<u8>> = match dict_get(pd, "peer id".as_bytes()) {
            Some(pidv) => match pidv.as_bytes() {
                Some(pidb) => {
                    let mut copy: Vec<u8> = Vec::new();
                    crate::bencode::push_bytes(&mut copy, pidb.as_slice());
                    proof {
                        assert(copy@ =~= pidb@);
                    }
                    Some(copy)
                },
                None => None,
            },
            None => None,
        };
        out.push(Peer { ip: PeerIp::Name(host), port, peer_id });
        i = i + 1;
    }
    Ok(out)
}

/// Decode a tracker response body. The body must be bencode (not HTML), a
/// dictionary without a `failure reason`, with a 32-bit `interval`; peers
/// decode under the compact or the dictionary encoding as requested.
/// Success and every field are pinned by `response_matches`; any reported
/// fault is present in the body.
pub fn decode_tracker_response(body: &[u8], compact: bool) -> (r: Result<
    TrackerResponse,
    TrackerError,
>)
    ensures
        r is Ok <==> spec_tracker_ok(body@, compact),
        r matches Ok(resp) ==> response_matches(body@, compact, resp),
        r matches Err(e) ==> tracker_err_witness(body@, compact, e.kind),
{
    if body.len() > 0 && body[0] == 60 {
        return Err(TrackerError { kind: TrackerErrorKind::HtmlBody });
    }
    let mut parser = BencodeParser::new(body);
    let root_val = match parser.parse() {
        Ok(v) => v,
        Err(pe) => {
            return Err(TrackerError { kind: TrackerErrorKind::Bencode(pe) });
        },
    };
    let root = match root_val.as_dict() {
        Some(d) => d,
        None => {
            return Err(TrackerError { kind: TrackerErrorKind::NotDictionary });
        },
    };
    // failure reason
    match dict_get(root, "failure reason".as_bytes()) {
        Some(frv) => match frv.as_bytes() {
            Some(rb) => {
                let mut copy: Vec<u8> = Vec::new();
                crate::bencode::push_bytes(&mut copy, rb.as_slice());
                proof {
                    assert(copy@ =~= rb@);
                }
                return Err(TrackerError { kind: TrackerErrorKind::Failure(copy) });
            },
            None => {},
        },
        None => {},
    }
    // warning message
    let warning_message: Option<String> = match dict_get(root, "warning message".as_bytes()) {
        Some(wv) => wv.as_string(),
        None => None,
    };
    // interval
    let interval: u32 = match dict_get(root, "interval".as_bytes()) {
        Some(iv) => match iv.as_integer() {
            Some(n) => {
                if n < 0 || n > u32::MAX as i64 {
                    return Err(
                        TrackerError {
                            kind: TrackerErrorKind::BadField(TrackerResponseField::Interval),
                        },
                    );
                }
                n as u32
            },
            None => {
                return Err(
                    TrackerError {
                        kind: TrackerErrorKind::BadField(TrackerResponseField::Interval),
                    },
                );
            },
        },
        None => {
            return Err(TrackerError { kind: TrackerErrorKind::MissingInterval });
        },
    };
    // min interval
    let min_interval: Option<u32> = match dict_get(root, "min interval".as_bytes()) {
        Some(mv) => match mv.as_integer() {
            Some(m) => {
                if 0 <= m && m <= u32::MAX as i64 {
                    Some(m as u32)
                } else {
                    Some(0)
                }
            },
            None => Some(0),
        },
        None => None,
    };
    // tracker id
    let tracker_id: Option<String> = match dict_get(root, "tracker id".as_bytes()) {
        Some(tv) => tv.as_string(),
        None => None,
    };
    let complete: u32 = match dict_get(root, "complete".as_bytes()) {
        Some(cv) => match cv.as_integer() {
            Some(c) => {
                if 0 <= c && c <= u32::MAX as i64 {
                    c as u32
                } else {
                    0
                }
            },
            None => 0,
        },
        None => 0,
    };
    let incomplete: u32 = match dict_get(root, "incomplete".as_bytes()) {
        Some(cv) => match cv.as_integer() {
            Some(c) => {
                if 0 <= c && c <= u32::MAX as i64 {
                    c as u32
                } else {
                    0
                }
            },
            None => 0,
        },
        None => 0,
    };
    let downloaded: Option<u32> = match dict_get(root, "downloaded".as_bytes()) {
        Some(dv) => match dv.as_integer() {
            Some(d) => {
                if 0 <= d && d <= u32::MAX as i64 {
                    Some(d as u32)
                } else {
                    Some(0)
                }
            },
            None => Some(0),
        },
        None => None,
    };
    // peers
    let peers: Vec<Peer> = match dict_get(root, "peers".as_bytes()) {
        Some(pv) => {
            if compact {
                match pv.as_bytes() {
                    Some(pb) => match parse_compact_peers(pb) {
                        Ok(ps) => ps,
                        Err(e) => {
                            return Err(e);
                        },
                    },
                    None => {
                        return Err(
                            TrackerError {
                                kind: TrackerErrorKind::BadField(TrackerResponseField::Peers),
                            },
                        );
                    },
                }
            } else {
                match pv.as_list() {
                    Some(l) => match parse_dict_peers(l) {
                        Ok(ps) => ps,
                        Err(e) => {
                            return Err(e);
                        },
                    },
                    None => {
                        return Err(
                            TrackerError {
                                kind: TrackerErrorKind::BadField(TrackerResponseField::Peers),
                            },
                        );
                    },
                }
            }
        },
        None => Vec::new(),
    };
    Ok(
        TrackerResponse {
            failure_reason: None,
            warning_message,
            interval,
            min_interval,
            tracker_id,
            complete,
            incomplete,
            downloaded,
            peers,
        },
    )
}


// ---------------------------------------------------------------------------
// Client identity and request construction
// ---------------------------------------------------------------------------

/// Relies on `rand::random` drawing a value from the standard uniform
/// distribution; nothing is assumed about the value drawn.
pub assume_specification<T>[ rand::random::<T> ]() -> (r: T)
    where
        rand::distr::StandardUniform: rand::distr::Distribution<T>,
;

/// Copy a byte string.
fn copy_bytes(src: &Vec<u8>) -> (r: Vec<u8>)
    ensures
        r@ == src@,
{
    let mut r: Vec<u8> = Vec::new();
    crate::bencode::push_bytes(&mut r, src.as_slice());
    proof {
        assert(r@ =~= src@);
    }
    r
}

/// The client's stable identity for announces.
pub struct TrackerClient {
    peer_id: Vec<u8>,
}

impl TrackerClient {
    /// The 20 bytes this client announces as its peer id.
    pub closed spec fn id(self) -> Seq<u8> {
        self.peer_id@
    }

    pub open spec fn wf(self) -> bool {
        self.id().len() == 20
    }

    /// A fresh 20-byte peer id: the printable prefix of a mainstream
    /// client followed by 12 random bytes.
    fn generate_peer_id() -> (r: Vec<u8>)
        ensures
            r@.len() == 20,
            r@.subrange(0, 8) == "-qB4500-".spec_bytes(),
    {
        proof {
            reveal_strlit("-qB4500-");
            assert(vstd::string::is_ascii("-qB4500-"));
            broadcast use vstd::string::is_ascii_spec_bytes;

            assert("-qB4500-".spec_bytes().len() == 8);
        }
        let mut id: Vec<u8> = Vec::new();
        crate::bencode::push_bytes(&mut id, "-qB4500-".as_bytes());
        let mut i: usize = 0;
        while i < 12
            invariant
                0 <= i <= 12,
                id@.len() == 8 + i,
                id@.subrange(0, 8) == "-qB4500-".spec_bytes(),
            decreases 12 - i,
        {
            let b: u8 = rand::random::<u8>();
            id.push(b);
            proof {
                assert(id@.subrange(0, 8) =~= id@.drop_last().subrange(0, 8));
            }
            i = i + 1;
        }
        id
    }

    /// A client with a freshly generated peer id.
    pub fn new() -> (c: Self)
        ensures
            c.wf(),
            c.id().subrange(0, 8) == "-qB4500-".spec_bytes(),
    {
        TrackerClient { peer_id: Self::generate_peer_id() }
    }

    /// A client that announces the given peer id.
    pub fn new_with_peer_id(peer_id: Vec<u8>) -> (c: Self)
        requires
            peer_id@.len() == 20,
        ensures
            c.wf(),
            c.id() == peer_id@,
    {
        TrackerClient { peer_id }
    }

    /// The peer id this client announces.
    pub fn get_peer_id(&self) -> (r: &Vec<u8>)
        ensures
            r@ == self.id(),
    {
        &self.peer_id
    }

    /// The request that starts a download: nothing uploaded yet, compact
    /// peers requested, a `started` event, up to 50 peers, and a random
    /// key.
    pub fn create_start_request(
        &self,
        torrent: &TorrentFile,
        port: u16,
        downloaded: u64,
        left: u64,
    ) -> (r: TrackerRequest)
        ensures
            r.info_hash@ == torrent.info_hash@,
            r.peer_id@ == self.id(),
            r.port == port,
            r.uploaded == 0,
            r.downloaded == downloaded,
            r.left == left,
            r.compact,
            !r.no_peer_id,
            r.event == Some(TrackerEvent::Started),
            r.ip is None,
            r.numwant == Some(50u32),
            r.key is Some,
            r.trackerid is None,
    {
        TrackerRequest {
            info_hash: copy_bytes(&torrent.info_hash),
            peer_id: copy_bytes(&self.peer_id),
            port,
            uploaded: 0,
            downloaded,
            left,
            compact: true,
            no_peer_id: false,
            event: Some(TrackerEvent::Started),
            ip: None,
            numwant: Some(50),
            key: Some(rand::random::<u32>()),
            trackerid: None,
        }
    }

    /// The request for a periodic update: counters as given, no event,
    /// and the tracker id echoed when one was assigned.
    pub fn create_update_request(
        &self,
        torrent: &TorrentFile,
        port: u16,
        uploaded: u64,
        downloaded: u64,
        left: u64,
        tracker_id: Option<String>,
    ) -> (r: TrackerRequest)
        ensures
            r.info_hash@ == torrent.info_hash@,
            r.peer_id@ == self.id(),
            r.port == port,
            r.uploaded == uploaded,
            r.downloaded == downloaded,
            r.left == left,
            r.compact,
            !r.no_peer_id,
            r.event is None,
            r.ip is None,
            r.numwant == Some(50u32),
            r.key is Some,
            r.trackerid == tracker_id,
    {
        TrackerRequest {
            info_hash: copy_bytes(&torrent.info_hash),
            peer_id: copy_bytes(&self.peer_id),
            port,
            uploaded,
            downloaded,
            left,
            compact: true,
            no_peer_id: false,
            event: None,
            ip: None,
            numwant: Some(50),
            key: Some(rand::random::<u32>()),
            trackerid: tracker_id,
        }
    }

    /// The smallest meaningful request: all counters from the descriptor,
    /// no event, no peer cap, no key.
    pub fn create_minimal_request(&self, torrent: &TorrentFile, port: u16) -> (r: TrackerRequest)
        ensures
            r.info_hash@ == torrent.info_hash@,
            r.peer_id@ == self.id(),
            r.port == port,
            r.uploaded == 0,
            r.downloaded == 0,
            r.left == if crate::torrent::spec_total_size(torrent.info.files) > u64::MAX {
                u64::MAX as nat
            } else {
                crate::torrent::spec_total_size(torrent.info.files)
            },
            r.compact,
            !r.no_peer_id,
            r.event is None,
            r.ip is None,
            r.numwant is None,
            r.key is None,
            r.trackerid is None,
    {
        TrackerRequest {
            info_hash: copy_bytes(&torrent.info_hash),
            peer_id: copy_bytes(&self.peer_id),
            port,
            uploaded: 0,
            downloaded: 0,
            left: torrent.total_size(),
            compact: true,
            no_peer_id: false,
            event: None,
            ip: None,
            numwant: None,
            key: None,
            trackerid: None,
        }
    }
}

} // verus!
