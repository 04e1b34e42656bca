//! The tracker announce protocol: building the announce request URL and
//! decoding the bencoded announce response into a peer list.
//!
//! The network round trip itself is outside this library; callers hand
//! the announce URL bytes in and the response body bytes back.

use crate::bencode::{
    dec_digits, digits_val, is_digit, push_dec_digits, push_slice, span_digits, BencodeDict,
    BencodeError, Value,
};
use crate::connection::{be16, read_be16};
use crate::file::{copy_20, dict_get, spec_lookup};
use crate::peer::{IpAddress, Peer, PeerEndpoint, PeerId};
use crate::util::Sha1;
use vstd::prelude::*;

verus! {

/// A failure while announcing to a tracker.
#[derive(Debug, Clone, PartialEq, Eq)]
pub enum TrackerError {
    /// The response body was not valid bencode.
    Bencode(BencodeError),
    InternalError(&'static str),
    /// The announce URL's scheme is neither `http` nor `https`.
    UnsupportedProtocol,
    /// The HTTP round trip to the tracker failed.
    AnnounceRequestError(&'static str),
    /// The tracker answered with a `failure reason` string, carried here.
    TrackerResponse(Vec<u8>),
    /// A field of the response is missing or malformed.
    ResponseFormat(&'static str),
    /// A field of the response has the wrong bencode type.
    TypeMismatch(&'static str),
}

/// The lifecycle event an announce may report.
#[derive(Debug, Clone, Copy, PartialEq, Eq)]
pub enum TrackerEvent {
    Started,
    Stopped,
    Completed,
}

/// The query value of each event: `started`, `stopped` or `completed`.
pub open spec fn event_bytes(e: TrackerEvent) -> Seq<u8> {
    match e {
        TrackerEvent::Started => seq![115u8, 116u8, 97u8, 114u8, 116u8, 101u8, 100u8],
        TrackerEvent::Stopped => seq![115u8, 116u8, 111u8, 112u8, 112u8, 101u8, 100u8],
        TrackerEvent::Completed => seq![
            99u8, 111u8, 109u8, 112u8, 108u8, 101u8, 116u8, 101u8, 100u8,
        ],
    }
}

impl TrackerEvent {
    /// The event's name as it goes into the announce query.
    pub fn as_str(&self) -> (r: &'static str)
        ensures
            r@ == match self {
                TrackerEvent::Started => "started"@,
                TrackerEvent::Stopped => "stopped"@,
                TrackerEvent::Completed => "completed"@,
            },
    {
        match self {
            TrackerEvent::Started => "started",
            TrackerEvent::Stopped => "stopped",
            TrackerEvent::Completed => "completed",
        }
    }
}

/// How much peer detail the announce asks the tracker for.
#[derive(Debug, Clone, Copy, PartialEq, Eq)]
pub enum RequestMode {
    /// Full peer dictionaries.
    Verbose,
    /// Peer dictionaries without peer ids.
    NoPeerId,
    /// Packed 6-byte address records.
    Compact,
}

/// The parameters of one announce request.
#[derive(Debug)]
pub struct AnnounceParameters<'a> {
    /// The torrent's info fingerprint.
    pub info_hash: &'a Sha1,
    /// The port this client listens on.
    pub port: u16,
    /// Bytes uploaded so far.
    pub uploaded: usize,
    /// Bytes downloaded so far.
    pub downloaded: usize,
    /// Bytes still missing.
    pub left: usize,
    /// How much peer detail to ask for.
    pub request_mode: RequestMode,
    /// The lifecycle event to report, if any.
    pub event: Option<TrackerEvent>,
    /// How many peers to ask for, if a preference is stated.
    pub num_want: Option<usize>,
    /// The address to advertise, if any, as four IPv4 octets.
    pub ip: Option<[u8; 4]>,
}

impl<'a> AnnounceParameters<'a> {
    /// Fresh parameters for the given fingerprint: everything zero, a
    /// verbose request, no event, no peer-count preference, no address.
    pub fn new(info_hash: &'a Sha1) -> (r: Self)
        ensures
            r.info_hash == info_hash,
            r.port == 0,
            r.uploaded == 0,
            r.downloaded == 0,
            r.left == 0,
            r.request_mode == RequestMode::Verbose,
            r.event is None,
            r.num_want is None,
            r.ip is None,
    {
        AnnounceParameters {
            info_hash,
            port: 0,
            uploaded: 0,
            downloaded: 0,
            left: 0,
            request_mode: RequestMode::Verbose,
            event: None,
            num_want: None,
            ip: None,
        }
    }

    /// Set the listening port.
    pub fn set_port(&mut self, port: u16)
        ensures
            *final(self) == (AnnounceParameters { port, ..*old(self) }),
    {
        self.port = port;
    }

    /// Set the uploaded byte count.
    pub fn set_uploaded(&mut self, uploaded: usize)
        ensures
            *final(self) == (AnnounceParameters { uploaded, ..*old(self) }),
    {
        self.uploaded = uploaded;
    }

    /// Set the downloaded byte count.
    pub fn set_downloaded(&mut self, downloaded: usize)
        ensures
            *final(self) == (AnnounceParameters { downloaded, ..*old(self) }),
    {
        self.downloaded = downloaded;
    }

    /// Set the missing byte count.
    pub fn set_left(&mut self, left: usize)
        ensures
            *final(self) == (AnnounceParameters { left, ..*old(self) }),
    {
        self.left = left;
    }

    /// Set how much peer detail to ask for.
    pub fn set_request_mode(&mut self, request_mode: RequestMode)
        ensures
            *final(self) == (AnnounceParameters { request_mode, ..*old(self) }),
    {
        self.request_mode = request_mode;
    }

    /// Set or clear the lifecycle event.
    pub fn set_event(&mut self, event: Option<TrackerEvent>)
        ensures
            *final(self) == (AnnounceParameters { event, ..*old(self) }),
    {
        self.event = event;
    }

    /// Set or clear the peer-count preference.
    pub fn set_num_want(&mut self, num_want: Option<usize>)
        ensures
            *final(self) == (AnnounceParameters { num_want, ..*old(self) }),
    {
        self.num_want = num_want;
    }

    /// Set or clear the advertised address.
    pub fn set_ip(&mut self, ip: Option<[u8; 4]>)
        ensures
            *final(self) == (AnnounceParameters { ip, ..*old(self) }),
    {
        self.ip = ip;
    }
}

/// Whether a byte needs no percent escape: an ASCII letter or digit.
pub open spec fn is_alnum(b: u8) -> bool {
    (48 <= b <= 57) || (65 <= b <= 90) || (97 <= b <= 122)
}

/// The upper-case hexadecimal digit for a value below sixteen.
pub open spec fn hex_digit(n: u8) -> u8 {
    if n < 10 {
        (48 + n) as u8
    } else {
        (55 + n) as u8
    }
}

/// Percent-encode a byte sequence: every byte that is not an ASCII
/// letter or digit becomes `%` and two upper-case hex digits.
pub open spec fn pct(s: Seq<u8>) -> Seq<u8>
    decreases s.len(),
{
    if s.len() == 0 {
        Seq::empty()
    } else {
        pct(s.drop_last()) + pct_byte(s.last())
    }
}

/// The percent encoding of one byte.
pub open spec fn pct_byte(b: u8) -> Seq<u8> {
    if is_alnum(b) {
        seq![b]
    } else {
        seq![37u8, hex_digit(b / 16), hex_digit(b % 16)]
    }
}

/// Append the percent encoding of a byte sequence.
pub fn push_pct(out: &mut Vec<u8>, s: &[u8])
    ensures
        final(out)@ == old(out)@ + pct(s@),
{
    let mut i: usize = 0;
    while i < s.len()
        invariant
            0 <= i <= s@.len(),
            out@ == old(out)@ + pct(s@.take(i as int)),
        decreases s@.len() - i,
    {
        let b = *vstd::slice::slice_index_get(s, i);
        if (48 <= b && b <= 57) || (65 <= b && b <= 90) || (97 <= b && b <= 122) {
            out.push(b);
        } else {
            out.push(37);
            let hi = b / 16;
            let lo = b % 16;
            out.push(
                if hi < 10 {
                    48 + hi
                } else {
                    55 + hi
                },
            );
            out.push(
                if lo < 10 {
                    48 + lo
                } else {
                    55 + lo
                },
            );
        }
        proof {
            assert(s@.take(i + 1).drop_last() =~= s@.take(i as int));
            assert(s@.take(i + 1).last() == s@[i as int]);
            assert(out@ =~= old(out)@ + pct(s@.take(i + 1)));
        }
        i = i + 1;
    }
    proof {
        assert(s@.take(s@.len() as int) =~= s@);
    }
}

/// The ASCII lower-case form of a byte.
pub open spec fn ascii_lower(b: u8) -> u8 {
    if 65 <= b <= 90 {
        (b + 32) as u8
    } else {
        b
    }
}

/// Whether the announce URL's scheme is `http` or `https`, compared
/// without regard to letter case.
pub open spec fn scheme_supported(s: Seq<u8>) -> bool {
    let http = seq![104u8, 116u8, 116u8, 112u8, 58u8, 47u8, 47u8];
    let https = seq![104u8, 116u8, 116u8, 112u8, 115u8, 58u8, 47u8, 47u8];
    (s.len() >= 7 && Seq::new(7, |i: int| ascii_lower(s[i])) == http) || (s.len() >= 8 && Seq::new(
        8,
        |i: int| ascii_lower(s[i]),
    ) == https)
}

/// Whether the announce URL starts with `http://` or `https://`,
/// compared without regard to letter case.
pub fn scheme_is_supported(announce: &[u8]) -> (r: bool)
    ensures
        r == scheme_supported(announce@),
{
    let http: [u8; 7] = [104u8, 116u8, 116u8, 112u8, 58u8, 47u8, 47u8];
    let https: [u8; 8] = [104u8, 116u8, 116u8, 112u8, 115u8, 58u8, 47u8, 47u8];
    let lower7 = lower_prefix(announce, 7);
    let lower8 = lower_prefix(announce, 8);
    let r7 = match &lower7 {
        Some(p) => crate::file::bytes_eq(p.as_slice(), http.as_slice()),
        None => false,
    };
    let r8 = match &lower8 {
        Some(p) => crate::file::bytes_eq(p.as_slice(), https.as_slice()),
        None => false,
    };
    proof {
        if announce@.len() >= 7 {
            assert(Seq::new(7, |i: int| ascii_lower(announce@[i])) =~= seq![
                104u8, 116u8, 116u8, 112u8, 58u8, 47u8, 47u8,
            ] <==> (lower7 matches Some(p) && p@ =~= seq![
                104u8, 116u8, 116u8, 112u8, 58u8, 47u8, 47u8,
            ]));
        }
        if announce@.len() >= 8 {
            assert(Seq::new(8, |i: int| ascii_lower(announce@[i])) =~= seq![
                104u8, 116u8, 116u8, 112u8, 115u8, 58u8, 47u8, 47u8,
            ] <==> (lower8 matches Some(p) && p@ =~= seq![
                104u8, 116u8, 116u8, 112u8, 115u8, 58u8, 47u8, 47u8,
            ]));
        }
    }
    r7 || r8
}

/// The first `n` bytes, lower-cased, when the input is that long.
fn lower_prefix(s: &[u8], n: usize) -> (r: Option<Vec<u8>>)
    ensures
        match r {
            Some(p) => s@.len() >= n && p@ == Seq::new(n as nat, |i: int| ascii_lower(s@[i])),
            None => s@.len() < n,
        },
{
    if s.len() < n {
        return None;
    }
    let mut p: Vec<u8> = Vec::new();
    let mut i: usize = 0;
    while i < n
        invariant
            0 <= i <= n <= s@.len(),
            p@.len() == i,
            forall|k: int| 0 <= k < i ==> p@[k] == ascii_lower(s@[k]),
        decreases n - i,
    {
        let b = *vstd::slice::slice_index_get(s, i);
        if 65 <= b && b <= 90 {
            p.push(b + 32);
        } else {
            p.push(b);
        }
        i = i + 1;
    }
    proof {
        assert(p@ =~= Seq::new(n as nat, |i: int| ascii_lower(s@[i])));
    }
    Some(p)
}

/// The query text `info_hash=` as bytes.
pub open spec fn lit_info_hash() -> Seq<u8> {
    seq![105u8, 110u8, 102u8, 111u8, 95u8, 104u8, 97u8, 115u8, 104u8, 61u8]
}

/// The query text `&peer_id=` as bytes.
pub open spec fn lit_peer_id() -> Seq<u8> {
    seq![38u8, 112u8, 101u8, 101u8, 114u8, 95u8, 105u8, 100u8, 61u8]
}

/// The query text `&port=` as bytes.
pub open spec fn lit_port() -> Seq<u8> {
    seq![38u8, 112u8, 111u8, 114u8, 116u8, 61u8]
}

/// The query text `&uploaded=` as bytes.
pub open spec fn lit_uploaded() -> Seq<u8> {
    seq![38u8, 117u8, 112u8, 108u8, 111u8, 97u8, 100u8, 101u8, 100u8, 61u8]
}

/// The query text `&downloaded=` as bytes.
pub open spec fn lit_downloaded() -> Seq<u8> {
    seq![38u8, 100u8, 111u8, 119u8, 110u8, 108u8, 111u8, 97u8, 100u8, 101u8, 100u8, 61u8]
}

/// The query text `&left=` as bytes.
pub open spec fn lit_left() -> Seq<u8> {
    seq![38u8, 108u8, 101u8, 102u8, 116u8, 61u8]
}

/// The query text `&no_peer_id` as bytes.
pub open spec fn lit_no_peer_id() -> Seq<u8> {
    seq![38u8, 110u8, 111u8, 95u8, 112u8, 101u8, 101u8, 114u8, 95u8, 105u8, 100u8]
}

/// The query text `&compact=1` as bytes.
pub open spec fn lit_compact() -> Seq<u8> {
    seq![38u8, 99u8, 111u8, 109u8, 112u8, 97u8, 99u8, 116u8, 61u8, 49u8]
}

/// The query text `&event=` as bytes.
pub open spec fn lit_event() -> Seq<u8> {
    seq![38u8, 101u8, 118u8, 101u8, 110u8, 116u8, 61u8]
}

/// The query text `&numwant=` as bytes.
pub open spec fn lit_numwant() -> Seq<u8> {
    seq![38u8, 110u8, 117u8, 109u8, 119u8, 97u8, 110u8, 116u8, 61u8]
}

/// The query text `&ip=` as bytes.
pub open spec fn lit_ip() -> Seq<u8> {
    seq![38u8, 105u8, 112u8, 61u8]
}

/// The dotted-quad text of four IPv4 octets.
pub open spec fn dotted_quad(ip: Seq<u8>) -> Seq<u8> {
    dec_digits(ip[0] as nat) + seq![46u8] + dec_digits(ip[1] as nat) + seq![46u8] + dec_digits(
        ip[2] as nat,
    ) + seq![46u8] + dec_digits(ip[3] as nat)
}

/// The query parameters of an announce: the percent-encoded fingerprint
/// and identity, the numeric counters, the request-mode flag, and the
/// optional event, peer count and address.
pub open spec fn query_params_bytes(
    info_hash: Seq<u8>,
    peer_id: Seq<u8>,
    p: AnnounceParameters,
) -> Seq<u8> {
    lit_info_hash() + pct(info_hash) + lit_peer_id() + pct(peer_id) + lit_port() + dec_digits(
        p.port as nat,
    ) + lit_uploaded() + dec_digits(p.uploaded as nat) + lit_downloaded() + dec_digits(
        p.downloaded as nat,
    ) + lit_left() + dec_digits(p.left as nat) + mode_bytes(p.request_mode) + (match p.event {
        None => Seq::<u8>::empty(),
        Some(e) => lit_event() + event_bytes(e),
    }) + (match p.num_want {
        None => Seq::<u8>::empty(),
        Some(n) => lit_numwant() + dec_digits(n as nat),
    }) + (match p.ip {
        None => Seq::<u8>::empty(),
        Some(ip) => lit_ip() + dotted_quad(ip@),
    })
}

/// The query text of a request mode: nothing for a verbose request.
pub open spec fn mode_bytes(m: RequestMode) -> Seq<u8> {
    match m {
        RequestMode::Verbose => Seq::<u8>::empty(),
        RequestMode::NoPeerId => lit_no_peer_id(),
        RequestMode::Compact => lit_compact(),
    }
}

/// The full announce request URL: the announce URL itself, then `&` when
/// it already carries a query and `?` when it does not, then the query
/// parameters.
pub open spec fn announce_url_bytes(
    announce: Seq<u8>,
    info_hash: Seq<u8>,
    peer_id: Seq<u8>,
    p: AnnounceParameters,
) -> Seq<u8> {
    let sep: u8 = if (exists|i: int| 0 <= i < announce.len() && announce[i] == 63) {
        38
    } else {
        63
    };
    announce + seq![sep] + query_params_bytes(info_hash, peer_id, p)
}

/// Build the announce request URL for the given identity and parameters,
/// byte for byte as [`announce_url_bytes`] lays it out.
#[verifier::loop_isolation(false)]
#[verifier::rlimit(50)]
pub fn build_announce_url(announce: &[u8], peer_id: &PeerId, request: &AnnounceParameters) -> (r:
    Vec<u8>)
    ensures
        r@ == announce_url_bytes(
            announce@,
            request.info_hash@,
            peer_id.spec_bytes()@,
            *request,
        ),
{
    let ghost ih = request.info_hash@;
    let ghost pid = peer_id.spec_bytes()@;
    let mut q: Vec<u8> = Vec::new();
    let lit_ih: [u8; 10] = [105u8, 110u8, 102u8, 111u8, 95u8, 104u8, 97u8, 115u8, 104u8, 61u8];
    push_slice(&mut q, lit_ih.as_slice());
    proof {
        assert(q@ =~= lit_info_hash());
    }
    push_pct(&mut q, request.info_hash.as_slice());
    let lit_pi: [u8; 9] = [38u8, 112u8, 101u8, 101u8, 114u8, 95u8, 105u8, 100u8, 61u8];
    proof {
        assert(lit_pi@ =~= lit_peer_id());
    }
    push_slice(&mut q, lit_pi.as_slice());
    push_pct(&mut q, peer_id.as_bytes().as_slice());
    let lit_po: [u8; 6] = [38u8, 112u8, 111u8, 114u8, 116u8, 61u8];
    proof {
        assert(lit_po@ =~= lit_port());
    }
    push_slice(&mut q, lit_po.as_slice());
    push_dec_digits(&mut q, request.port as u64);
    let lit_up: [u8; 10] = [38u8, 117u8, 112u8, 108u8, 111u8, 97u8, 100u8, 101u8, 100u8, 61u8];
    proof {
        assert(lit_up@ =~= lit_uploaded());
    }
    push_slice(&mut q, lit_up.as_slice());
    push_dec_digits(&mut q, request.uploaded as u64);
    let lit_dl: [u8; 12] = [38u8, 100u8, 111u8, 119u8, 110u8, 108u8, 111u8, 97u8, 100u8, 101u8, 100u8, 61u8];
    proof {
        assert(lit_dl@ =~= lit_downloaded());
    }
    push_slice(&mut q, lit_dl.as_slice());
    push_dec_digits(&mut q, request.downloaded as u64);
    let lit_lf: [u8; 6] = [38u8, 108u8, 101u8, 102u8, 116u8, 61u8];
    proof {
        assert(lit_lf@ =~= lit_left());
    }
    push_slice(&mut q, lit_lf.as_slice());
    push_dec_digits(&mut q, request.left as u64);
    let ghost c6 = lit_info_hash() + pct(ih) + lit_peer_id() + pct(pid) + lit_port() + dec_digits(
        request.port as nat,
    ) + lit_uploaded() + dec_digits(request.uploaded as nat) + lit_downloaded() + dec_digits(
        request.downloaded as nat,
    ) + lit_left() + dec_digits(request.left as nat);
    proof {
        assert(q@ == c6);
    }
    match &request.request_mode {
        RequestMode::Verbose => {
            proof {
                Seq::<u8>::add_empty_right(c6, mode_bytes(request.request_mode));
            }
        },
        RequestMode::NoPeerId => {
            let lit: [u8; 11] = [38u8, 110u8, 111u8, 95u8, 112u8, 101u8, 101u8, 114u8, 95u8, 105u8, 100u8];
            proof {
                assert(lit@ =~= lit_no_peer_id());
            }
            push_slice(&mut q, lit.as_slice());
        },
        RequestMode::Compact => {
            let lit: [u8; 10] = [38u8, 99u8, 111u8, 109u8, 112u8, 97u8, 99u8, 116u8, 61u8, 49u8];
            proof {
                assert(lit@ =~= lit_compact());
            }
            push_slice(&mut q, lit.as_slice());
        },
    }
    let ghost c7 = c6 + mode_bytes(request.request_mode);
    proof {
        assert(q@ == c7);
    }
    match &request.event {
        None => {
            proof {
                Seq::<u8>::add_empty_right(c7, Seq::<u8>::empty());
            }
        },
        Some(e) => {
            let mut eb: Vec<u8> = Vec::new();
            let lit: [u8; 7] = [38u8, 101u8, 118u8, 101u8, 110u8, 116u8, 61u8];
            push_slice(&mut eb, lit.as_slice());
            match e {
                TrackerEvent::Started => {
                    let w: [u8; 7] = [115u8, 116u8, 97u8, 114u8, 116u8, 101u8, 100u8];
                    push_slice(&mut eb, w.as_slice());
                },
                TrackerEvent::Stopped => {
                    let w: [u8; 7] = [115u8, 116u8, 111u8, 112u8, 112u8, 101u8, 100u8];
                    push_slice(&mut eb, w.as_slice());
                },
                TrackerEvent::Completed => {
                    let w: [u8; 9] = [99u8, 111u8, 109u8, 112u8, 108u8, 101u8, 116u8, 101u8, 100u8];
                    push_slice(&mut eb, w.as_slice());
                },
            }
            proof {
                assert(eb@ =~= lit_event() + event_bytes(*e));
            }
            push_slice(&mut q, eb.as_slice());
        },
    }
    let ghost c8 = c7 + (match request.event {
        None => Seq::<u8>::empty(),
        Some(e) => lit_event() + event_bytes(e),
    });
    proof {
        assert(q@ == c8);
    }
    match &request.num_want {
        None => {
            proof {
                Seq::<u8>::add_empty_right(c8, Seq::<u8>::empty());
            }
        },
        Some(n) => {
            let mut nb: Vec<u8> = Vec::new();
            let lit: [u8; 9] = [38u8, 110u8, 117u8, 109u8, 119u8, 97u8, 110u8, 116u8, 61u8];
            push_slice(&mut nb, lit.as_slice());
            push_dec_digits(&mut nb, *n as u64);
            proof {
                assert(nb@ =~= lit_numwant() + dec_digits(*n as nat));
            }
            push_slice(&mut q, nb.as_slice());
        },
    }
    let ghost c9 = c8 + (match request.num_want {
        None => Seq::<u8>::empty(),
        Some(n) => lit_numwant() + dec_digits(n as nat),
    });
    proof {
        assert(q@ == c9);
    }
    match &request.ip {
        None => {
            proof {
                Seq::<u8>::add_empty_right(c9, Seq::<u8>::empty());
            }
        },
        Some(ip) => {
            let mut ipb: Vec<u8> = Vec::new();
            let lit: [u8; 4] = [38u8, 105u8, 112u8, 61u8];
            push_slice(&mut ipb, lit.as_slice());
            push_dec_digits(&mut ipb, ip[0] as u64);
            ipb.push(46);
            push_dec_digits(&mut ipb, ip[1] as u64);
            ipb.push(46);
            push_dec_digits(&mut ipb, ip[2] as u64);
            ipb.push(46);
            push_dec_digits(&mut ipb, ip[3] as u64);
            proof {
                assert(ipb@ =~= lit_ip() + dotted_quad(ip@));
            }
            push_slice(&mut q, ipb.as_slice());
        },
    }
    proof {
        assert(q@ == query_params_bytes(ih, pid, *request));
    }
    let mut out: Vec<u8> = Vec::new();
    push_slice(&mut out, announce);
    proof {
        assert(out@ =~= announce@);
    }
    let mut has_query = false;
    let mut i: usize = 0;
    while i < announce.len()
        invariant
            0 <= i <= announce@.len(),
            has_query == (exists|k: int| 0 <= k < i && announce@[k] == 63),
            out@ == announce@,
        decreases announce@.len() - i,
    {
        if *vstd::slice::slice_index_get(announce, i) == 63 {
            has_query = true;
        }
        i = i + 1;
    }
    if has_query {
        out.push(38);
    } else {
        out.push(63);
    }
    let ghost sep: u8 = if (exists|k: int| 0 <= k < announce@.len() && announce@[k] == 63) {
        38
    } else {
        63
    };
    proof {
        assert(out@ =~= announce@ + seq![sep]);
    }
    push_slice(&mut out, q.as_slice());
    out
}

/// The bytes of the key `interval`.
pub open spec fn key_interval() -> Seq<u8> {
    seq![105u8, 110u8, 116u8, 101u8, 114u8, 118u8, 97u8, 108u8]
}

/// The bytes of the key `peers`.
pub open spec fn key_peers() -> Seq<u8> {
    seq![112u8, 101u8, 101u8, 114u8, 115u8]
}

/// The bytes of the key `min interval`.
pub open spec fn key_min_interval() -> Seq<u8> {
    seq![109u8, 105u8, 110u8, 32u8, 105u8, 110u8, 116u8, 101u8, 114u8, 118u8, 97u8, 108u8]
}

/// The bytes of the key `complete`.
pub open spec fn key_complete() -> Seq<u8> {
    seq![99u8, 111u8, 109u8, 112u8, 108u8, 101u8, 116u8, 101u8]
}

/// The bytes of the key `incomplete`.
pub open spec fn key_incomplete() -> Seq<u8> {
    seq![105u8, 110u8, 99u8, 111u8, 109u8, 112u8, 108u8, 101u8, 116u8, 101u8]
}

/// The bytes of the key `failure reason`.
pub open spec fn key_failure_reason() -> Seq<u8> {
    seq![102u8, 97u8, 105u8, 108u8, 117u8, 114u8, 101u8, 32u8, 114u8, 101u8, 97u8, 115u8, 111u8, 110u8]
}

/// The bytes of the key `peer id`.
pub open spec fn key_peer_id() -> Seq<u8> {
    seq![112u8, 101u8, 101u8, 114u8, 32u8, 105u8, 100u8]
}

/// The bytes of the key `ip`.
pub open spec fn key_ip() -> Seq<u8> {
    seq![105u8, 112u8]
}

/// The bytes of the key `port`.
pub open spec fn key_port() -> Seq<u8> {
    seq![112u8, 111u8, 114u8, 116u8]
}

/// Whether the digits between `from` and `to` spell one canonical IPv4
/// octet: one to three digits, no redundant leading zero, at most 255.
pub open spec fn octet_ok(s: Seq<u8>, from: int, to: int) -> bool {
    &&& 1 <= to - from <= 3
    &&& (to - from > 1 ==> s[from] != 48)
    &&& digits_val(s.subrange(from, to)) <= 255
}

/// Parse a dotted-quad IPv4 literal: four canonical decimal octets
/// separated by dots, spanning the whole input.
pub open spec fn spec_ipv4(s: Seq<u8>) -> Option<Seq<u8>> {
    let e1 = span_digits(s, 0);
    let e2 = span_digits(s, e1 + 1);
    let e3 = span_digits(s, e2 + 1);
    let e4 = span_digits(s, e3 + 1);
    if e1 < s.len() && s[e1] == 46 && octet_ok(s, 0, e1) && e2 < s.len() && s[e2] == 46
        && octet_ok(s, e1 + 1, e2) && e3 < s.len() && s[e3] == 46 && octet_ok(s, e2 + 1, e3) && e4
        == s.len() && octet_ok(s, e3 + 1, e4) {
        Some(
            seq![
                digits_val(s.subrange(0, e1)) as u8,
                digits_val(s.subrange(e1 + 1, e2)) as u8,
                digits_val(s.subrange(e2 + 1, e3)) as u8,
                digits_val(s.subrange(e3 + 1, e4)) as u8,
            ],
        )
    } else {
        None
    }
}

/// A short digit run denotes a small number.
proof fn lemma_digits_val_three(s: Seq<u8>)
    requires
        forall|k: int| 0 <= k < s.len() ==> is_digit(#[trigger] s[k]),
    ensures
        s.len() == 0 ==> digits_val(s) == 0,
        s.len() <= 1 ==> digits_val(s) < 10,
        s.len() <= 2 ==> digits_val(s) < 100,
        s.len() <= 3 ==> digits_val(s) < 1000,
    decreases s.len(),
{
    if s.len() > 0 {
        lemma_digits_val_three(s.drop_last());
    }
}

/// One canonical IPv4 octet read from between `from` and `to`, or
/// nothing when the digits there are no canonical octet.
#[verifier::loop_isolation(false)]
fn read_octet(s: &[u8], from: usize, to: usize) -> (r: Option<u8>)
    requires
        from <= to <= s@.len(),
        forall|k: int| from <= k < to ==> is_digit(#[trigger] s@[k]),
    ensures
        match r {
            Some(b) => octet_ok(s@, from as int, to as int) && b == digits_val(
                s@.subrange(from as int, to as int),
            ),
            None => !octet_ok(s@, from as int, to as int),
        },
{
    if to - from < 1 || to - from > 3 {
        return None;
    }
    if to - from > 1 && *vstd::slice::slice_index_get(s, from) == 48 {
        return None;
    }
    proof {
        lemma_digits_val_three(s@.subrange(from as int, to as int));
    }
    match crate::bencode::read_digits(s, from, to) {
        None => None,
        Some(v) => {
            if v > 255 {
                None
            } else {
                Some(v as u8)
            }
        },
    }
}

/// Parse a dotted-quad IPv4 literal, exactly as [`spec_ipv4`] describes.
#[verifier::loop_isolation(false)]
pub fn parse_ipv4(s: &[u8]) -> (r: Option<[u8; 4]>)
    ensures
        match r {
            Some(ip) => spec_ipv4(s@) == Some(ip@),
            None => spec_ipv4(s@) is None,
        },
{
    let e1 = crate::bencode::find_digits_end(s, 0);
    if e1 >= s.len() || *vstd::slice::slice_index_get(s, e1) != 46 {
        return None;
    }
    let o1 = match read_octet(s, 0, e1) {
        None => {
            return None;
        },
        Some(o) => o,
    };
    let e2 = crate::bencode::find_digits_end(s, e1 + 1);
    if e2 >= s.len() || *vstd::slice::slice_index_get(s, e2) != 46 {
        return None;
    }
    let o2 = match read_octet(s, e1 + 1, e2) {
        None => {
            return None;
        },
        Some(o) => o,
    };
    let e3 = crate::bencode::find_digits_end(s, e2 + 1);
    if e3 >= s.len() || *vstd::slice::slice_index_get(s, e3) != 46 {
        return None;
    }
    let o3 = match read_octet(s, e2 + 1, e3) {
        None => {
            return None;
        },
        Some(o) => o,
    };
    let e4 = crate::bencode::find_digits_end(s, e3 + 1);
    if e4 != s.len() {
        return None;
    }
    let o4 = match read_octet(s, e3 + 1, e4) {
        None => {
            return None;
        },
        Some(o) => o,
    };
    let ip: [u8; 4] = [o1, o2, o3, o4];
    proof {
        assert(spec_ipv4(s@) == Some(ip@)) by {
            assert(ip@ =~= spec_ipv4(s@)->Some_0);
        }
    }
    Some(ip)
}

/// What the URL host parser reads from an IPv6 literal: its sixteen
/// octets, or nothing when the bytes spell no IPv6 address.  The outcome
/// is a function of the bytes alone.
pub uninterp spec fn ipv6_of(bytes: Seq<u8>) -> Option<Seq<u8>>;

/// Relies on url::Host::parse (with str::from_utf8 viewing the bytes as
/// text): the literal is wrapped in brackets, as host syntax writes an
/// IPv6 address, and read by the url crate's own IPv6 parser.
#[verifier::external_body]
fn parse_ipv6_literal(s: &[u8]) -> (r: Option<[u8; 16]>)
    ensures
        match r {
            Some(o) => ipv6_of(s@) == Some(o@),
            None => ipv6_of(s@) is None,
        },
{
    let text = match core::str::from_utf8(s) {
        Ok(t) => t,
        Err(_) => return None,
    };
    match url::Host::parse(&format!("[{}]", text)) {
        Ok(url::Host::Ipv6(a)) => Some(a.octets()),
        _ => None,
    }
}

/// Whether a compact `peers` payload and a peer list agree: one peer per
/// six bytes, four address octets then a big-endian port, no identities.
pub open spec fn compact_peers_match(pb: Seq<u8>, ps: Seq<Peer>) -> bool {
    &&& ps.len() * 6 == pb.len()
    &&& forall|i: int|
        0 <= i < ps.len() ==> (#[trigger] ps[i]).peer_id is None && (ps[i].addr.ip matches
        IpAddress::V4(o) && o@ == pb.subrange(6 * i, 6 * i + 4)) && be16(ps[i].addr.port)
            == pb.subrange(6 * i + 4, 6 * i + 6)
}

/// Four bytes of a slice, starting at `at`.
#[verifier::loop_isolation(false)]
fn copy_4(s: &[u8], at: usize) -> (r: [u8; 4])
    requires
        at + 4 <= s@.len(),
    ensures
        r@ == s@.subrange(at as int, at + 4),
{
    let _slen = s.len();
    let r: [u8; 4] = [
        *vstd::slice::slice_index_get(s, at),
        *vstd::slice::slice_index_get(s, at + 1),
        *vstd::slice::slice_index_get(s, at + 2),
        *vstd::slice::slice_index_get(s, at + 3),
    ];
    proof {
        assert(r@ =~= s@.subrange(at as int, at + 4));
    }
    r
}

/// Decode a compact `peers` byte string: a list of 6-byte records, four
/// IPv4 octets then a big-endian port.  A payload of length `6·k` yields
/// exactly `k` peers, none carrying an identity; any other length is
/// malformed.
#[verifier::loop_isolation(false)]
pub fn parse_compact_peers(bytes: &[u8]) -> (r: Result<Vec<Peer>, TrackerError>)
    ensures
        r is Ok <==> bytes@.len() % 6 == 0,
        r matches Ok(ps) ==> compact_peers_match(bytes@, ps@),
        r matches Err(e) ==> e matches TrackerError::ResponseFormat(s) && s@
            == "peers binary string length is not a multiple of 6"@,
{
    let n = bytes.len();
    if n % 6 != 0 {
        return Err(
            TrackerError::ResponseFormat("peers binary string length is not a multiple of 6"),
        );
    }
    let count = n / 6;
    let mut peers: Vec<Peer> = Vec::new();
    let mut i: usize = 0;
    while i < count
        invariant
            0 <= i <= count,
            count * 6 == bytes@.len(),
            peers@.len() == i,
            forall|k: int|
                0 <= k < i ==> (#[trigger] peers@[k]).peer_id is None && (peers@[k].addr.ip matches
                IpAddress::V4(o) && o@ == bytes@.subrange(6 * k, 6 * k + 4)) && be16(
                    peers@[k].addr.port,
                ) == bytes@.subrange(6 * k + 4, 6 * k + 6),
        decreases count - i,
    {
        proof {
            assert((i + 1) * 6 <= count * 6) by (nonlinear_arith)
                requires
                    i + 1 <= count,
            ;
            assert(6 * (i as int) + 6 == (i + 1) * 6);
        }
        let ip = IpAddress::V4(copy_4(bytes, i * 6));
        let port = read_be16(bytes, i * 6 + 4);
        peers.push(Peer { peer_id: None, addr: PeerEndpoint { ip, port } });
        i = i + 1;
    }
    Ok(peers)
}

/// Whether one entry of a verbose peer list is well formed: a dictionary
/// with an `ip` string that spells an IPv4 or IPv6 literal and a `port`
/// integer that fits sixteen bits.
pub open spec fn verbose_peer_ok(v: Value) -> bool {
    &&& v matches Value::Dict(pd) && (spec_lookup(pd@, key_ip()) matches Some(ipv)
        && ipv matches Value::String(ib) && (spec_ipv4(ib@) is Some || ipv6_of(ib@) is Some)) && (
    spec_lookup(pd@, key_port()) matches Some(pv) && pv matches Value::Int(pt) && 0 <= pt <= 65535)
}

/// Whether `p` holds exactly what one verbose peer dictionary describes:
/// the parsed address and port, and the identity exactly when a 20-byte
/// `peer id` string is present.
pub open spec fn verbose_peer_matches(v: Value, p: Peer) -> bool {
    &&& v matches Value::Dict(pd) && (spec_lookup(pd@, key_ip()) matches Some(ipv)
        && ipv matches Value::String(ib) && (match spec_ipv4(ib@) {
        Some(o4) => p.addr.ip matches IpAddress::V4(o) && o@ == o4,
        None => ipv6_of(ib@) matches Some(o6) && p.addr.ip matches IpAddress::V6(o) && o@ == o6,
    })) && (spec_lookup(
        pd@,
        key_port(),
    ) matches Some(pv) && pv matches Value::Int(pt) && p.addr.port == pt) && (match spec_lookup(
        pd@,
        key_peer_id(),
    ) {
        Some(Value::String(idb)) => if idb@.len() == 20 {
            p.peer_id matches Some(pid) && pid.spec_bytes()@ == idb@
        } else {
            p.peer_id is None
        },
        _ => p.peer_id is None,
    })
}

/// The error that binding one verbose peer entry yields, field by
/// field in the order the decoder checks them: the entry must be a
/// dictionary with an `ip` literal and a 16-bit `port`.
pub open spec fn verbose_peer_err_matches(v: Value, e: TrackerError) -> bool {
    match v {
        Value::Dict(pd) => match spec_lookup(pd@, key_ip()) {
            None => e matches TrackerError::ResponseFormat(s) && s@
                == "No 'ip' field found in dictionary form"@,
            Some(ipv) => if !(ipv is String) {
                e matches TrackerError::TypeMismatch(s) && s@ == "ip"@
            } else if !(spec_ipv4(ipv->String_0@) is Some || ipv6_of(ipv->String_0@) is Some) {
                e matches TrackerError::ResponseFormat(s) && s@ == "'ip' is not an IP literal"@
            } else {
                match spec_lookup(pd@, key_port()) {
                    None => e matches TrackerError::ResponseFormat(s) && s@
                        == "No 'port' field found in dictionary form"@,
                    Some(pv) => if !(pv is Int) {
                        e matches TrackerError::TypeMismatch(s) && s@ == "port"@
                    } else {
                        !(0 <= pv->Int_0 <= 65535) && (e matches TrackerError::ResponseFormat(s)
                            && s@ == "'port' out of range"@)
                    },
                }
            },
        },
        _ => e matches TrackerError::ResponseFormat(s) && s@
            == "peers list holds a non-dictionary"@,
    }
}

/// The error that binding a verbose peer list yields: the first entry
/// that is no well-formed peer dictionary decides, every entry before
/// it being sound.
pub open spec fn verbose_elem_err_matches(pl: Seq<Value>, e: TrackerError) -> bool {
    exists|i: int|
        0 <= i < pl.len() && (forall|j: int| 0 <= j < i ==> verbose_peer_ok(#[trigger] pl[j]))
            && verbose_peer_err_matches(#[trigger] pl[i], e)
}

/// The error that binding an announce response yields, field by field
/// in the order the decoder checks them: the `failure reason` string
/// first, then `interval`, the optional fields, then `peers`.
pub open spec fn response_err_matches(d: Seq<(Vec<u8>, Value)>, e: TrackerError) -> bool {
    match spec_lookup(d, key_failure_reason()) {
        Some(Value::String(fr)) => e matches TrackerError::TrackerResponse(v) && v@ == fr@,
        _ => match spec_lookup(d, key_interval()) {
            None => e matches TrackerError::ResponseFormat(s) && s@ == "No 'interval' field"@,
            Some(iv) => if !(iv is Int) {
                e matches TrackerError::TypeMismatch(s) && s@ == "interval"@
            } else if iv->Int_0 < 0 {
                e matches TrackerError::ResponseFormat(s) && s@ == "negative 'interval'"@
            } else {
                response_err_after_interval(d, e)
            },
        },
    }
}

/// The error of an announce response whose `interval` is sound.
pub open spec fn response_err_after_interval(d: Seq<(Vec<u8>, Value)>, e: TrackerError) -> bool {
    match spec_lookup(d, key_min_interval()) {
        Some(mv) => if !(mv is Int) {
            e matches TrackerError::TypeMismatch(s) && s@ == "min interval"@
        } else if mv->Int_0 < 0 {
            e matches TrackerError::ResponseFormat(s) && s@ == "negative 'min interval'"@
        } else {
            response_err_after_min(d, e)
        },
        None => response_err_after_min(d, e),
    }
}

/// The error of an announce response whose intervals are sound: the
/// optional swarm counts are checked next, then the `peers` field.
pub open spec fn response_err_after_min(d: Seq<(Vec<u8>, Value)>, e: TrackerError) -> bool {
    match spec_lookup(d, key_complete()) {
        Some(cv) => if !(cv is Int) {
            e matches TrackerError::TypeMismatch(s) && s@ == "complete"@
        } else {
            response_err_after_complete(d, e)
        },
        None => response_err_after_complete(d, e),
    }
}

/// The error of an announce response whose `complete` count is sound.
pub open spec fn response_err_after_complete(d: Seq<(Vec<u8>, Value)>, e: TrackerError) -> bool {
    match spec_lookup(d, key_incomplete()) {
        Some(cv) => if !(cv is Int) {
            e matches TrackerError::TypeMismatch(s) && s@ == "incomplete"@
        } else {
            response_err_peers_field(d, e)
        },
        None => response_err_peers_field(d, e),
    }
}

/// The error the `peers` field itself yields.
pub open spec fn response_err_peers_field(d: Seq<(Vec<u8>, Value)>, e: TrackerError) -> bool {
    match spec_lookup(d, key_peers()) {
        None => e matches TrackerError::ResponseFormat(s) && s@ == "No 'peers' field"@,
        Some(Value::String(pb)) => pb@.len() % 6 != 0 && (e matches TrackerError::ResponseFormat(
            s,
        ) && s@ == "peers binary string length is not a multiple of 6"@),
        Some(Value::List(pl)) => verbose_elem_err_matches(pl@, e),
        _ => e matches TrackerError::ResponseFormat(s) && s@ == "unknown peers format"@,
    }
}

/// Whether an announce response dictionary is well formed: no failure
/// reason, a non-negative `interval`, optional numeric fields of the
/// right type, and a compact or verbose `peers` field.
pub open spec fn response_ok(d: Seq<(Vec<u8>, Value)>) -> bool {
    &&& !(spec_lookup(d, key_failure_reason()) matches Some(fv) && fv is String)
    &&& spec_lookup(d, key_interval()) matches Some(iv) && iv matches Value::Int(n) && n >= 0
    &&& match spec_lookup(d, key_min_interval()) {
        None => true,
        Some(Value::Int(n)) => n >= 0,
        _ => false,
    }
    &&& match spec_lookup(d, key_complete()) {
        None => true,
        Some(v) => v is Int,
    }
    &&& match spec_lookup(d, key_incomplete()) {
        None => true,
        Some(v) => v is Int,
    }
    &&& match spec_lookup(d, key_peers()) {
        Some(Value::String(pb)) => pb@.len() % 6 == 0,
        Some(Value::List(pl)) => forall|i: int|
            0 <= i < pl@.len() ==> verbose_peer_ok(#[trigger] pl@[i]),
        _ => false,
    }
}

/// Whether `resp` holds exactly what the response dictionary describes.
pub open spec fn response_matches(d: Seq<(Vec<u8>, Value)>, resp: AnnounceResponse) -> bool {
    &&& spec_lookup(d, key_interval()) matches Some(iv) && iv matches Value::Int(n)
        && resp.interval == n
    &&& match spec_lookup(d, key_min_interval()) {
        Some(Value::Int(n)) => resp.min_interval == Some(n as u64),
        _ => resp.min_interval is None,
    }
    &&& match spec_lookup(d, key_complete()) {
        Some(Value::Int(n)) => resp.complete == Some(n),
        _ => resp.complete is None,
    }
    &&& match spec_lookup(d, key_incomplete()) {
        Some(Value::Int(n)) => resp.incomplete == Some(n),
        _ => resp.incomplete is None,
    }
    &&& match spec_lookup(d, key_peers()) {
        Some(Value::String(pb)) => compact_peers_match(pb@, resp.peers@),
        Some(Value::List(pl)) => resp.peers@.len() == pl@.len() && (forall|i: int|
            0 <= i < pl@.len() ==> verbose_peer_matches(#[trigger] pl@[i], resp.peers@[i])),
        _ => false,
    }
}

/// A tracker's answer to an announce: the refresh interval in seconds,
/// the optional minimum interval and swarm counts, and the peer list.
#[derive(Debug, Clone, PartialEq, Eq)]
pub struct AnnounceResponse {
    /// Seconds to wait before announcing again.
    pub interval: u64,
    /// The shortest allowed wait, when the tracker states one.
    pub min_interval: Option<u64>,
    /// How many seeders the tracker counts, when stated.
    pub complete: Option<i64>,
    /// How many leechers the tracker counts, when stated.
    pub incomplete: Option<i64>,
    /// The peers to try.
    pub peers: Vec<Peer>,
}

impl AnnounceResponse {
    /// Decode a bencoded announce response.  A `failure reason` string
    /// is surfaced as the `TrackerResponse` error, its bytes carried
    /// whole; otherwise the mandatory `interval` and the compact or
    /// verbose `peers` field are read, exactly as [`response_matches`]
    /// describes.
    #[verifier::loop_isolation(false)]
    pub fn from_bencode(dict: &BencodeDict) -> (r: Result<AnnounceResponse, TrackerError>)
        ensures
            r is Ok <==> response_ok(dict@),
            r matches Ok(resp) ==> response_matches(dict@, resp),
            r matches Err(e) ==> response_err_matches(dict@, e),
    {
        let key_fr: [u8; 14] = [102u8, 97u8, 105u8, 108u8, 117u8, 114u8, 101u8, 32u8, 114u8, 101u8, 97u8, 115u8, 111u8, 110u8];
        proof {
            assert(key_fr@ =~= key_failure_reason());
        }
        match dict_get(dict, key_fr.as_slice()) {
            Some(Value::String(fr)) => {
                return Err(TrackerError::TrackerResponse(fr.clone()));
            },
            _ => {},
        }
        let key_iv: [u8; 8] = [105u8, 110u8, 116u8, 101u8, 114u8, 118u8, 97u8, 108u8];
        proof {
            assert(key_iv@ =~= key_interval());
        }
        let interval: u64 = match dict_get(dict, key_iv.as_slice()) {
            None => {
                return Err(TrackerError::ResponseFormat("No 'interval' field"));
            },
            Some(v) => match v {
                Value::Int(n) => {
                    if *n < 0 {
                        return Err(TrackerError::ResponseFormat("negative 'interval'"));
                    }
                    *n as u64
                },
                _ => {
                    return Err(TrackerError::TypeMismatch("interval"));
                },
            },
        };
        let key_mi: [u8; 12] = [109u8, 105u8, 110u8, 32u8, 105u8, 110u8, 116u8, 101u8, 114u8, 118u8, 97u8, 108u8];
        proof {
            assert(key_mi@ =~= key_min_interval());
        }
        let min_interval: Option<u64> = match dict_get(dict, key_mi.as_slice()) {
            None => None,
            Some(v) => match v {
                Value::Int(n) => {
                    if *n < 0 {
                        return Err(TrackerError::ResponseFormat("negative 'min interval'"));
                    }
                    Some(*n as u64)
                },
                _ => {
                    return Err(TrackerError::TypeMismatch("min interval"));
                },
            },
        };
        let key_co: [u8; 8] = [99u8, 111u8, 109u8, 112u8, 108u8, 101u8, 116u8, 101u8];
        proof {
            assert(key_co@ =~= key_complete());
        }
        let complete: Option<i64> = match dict_get(dict, key_co.as_slice()) {
            None => None,
            Some(v) => match v {
                Value::Int(n) => Some(*n),
                _ => {
                    return Err(TrackerError::TypeMismatch("complete"));
                },
            },
        };
        let key_ic: [u8; 10] = [105u8, 110u8, 99u8, 111u8, 109u8, 112u8, 108u8, 101u8, 116u8, 101u8];
        proof {
            assert(key_ic@ =~= key_incomplete());
        }
        let incomplete: Option<i64> = match dict_get(dict, key_ic.as_slice()) {
            None => None,
            Some(v) => match v {
                Value::Int(n) => Some(*n),
                _ => {
                    return Err(TrackerError::TypeMismatch("incomplete"));
                },
            },
        };
        let key_pe: [u8; 5] = [112u8, 101u8, 101u8, 114u8, 115u8];
        proof {
            assert(key_pe@ =~= key_peers());
        }
        let peers: Vec<Peer> = match dict_get(dict, key_pe.as_slice()) {
            None => {
                return Err(TrackerError::ResponseFormat("No 'peers' field"));
            },
            Some(v) => match v {
                Value::String(pb) => {
                    match parse_compact_peers(pb.as_slice()) {
                        Ok(ps) => ps,
                        Err(e) => {
                            return Err(e);
                        },
                    }
                },
                Value::List(pl) => {
                    match parse_verbose_peers(pl) {
                        Ok(ps) => ps,
                        Err(e) => {
                            return Err(e);
                        },
                    }
                },
                _ => {
                    return Err(TrackerError::ResponseFormat("unknown peers format"));
                },
            },
        };
        Ok(AnnounceResponse { interval, min_interval, complete, incomplete, peers })
    }
}

/// Decode a verbose peer list: one dictionary per peer with an `ip`
/// literal, a `port`, and an optional 20-byte `peer id`.
#[verifier::loop_isolation(false)]
pub fn parse_verbose_peers(pl: &Vec<Value>) -> (r: Result<Vec<Peer>, TrackerError>)
    ensures
        r is Ok <==> (forall|i: int| 0 <= i < pl@.len() ==> verbose_peer_ok(#[trigger] pl@[i])),
        r matches Ok(ps) ==> ps@.len() == pl@.len() && (forall|i: int|
            0 <= i < pl@.len() ==> verbose_peer_matches(#[trigger] pl@[i], ps@[i])),
        r matches Err(e) ==> verbose_elem_err_matches(pl@, e),
{
    let mut peers: Vec<Peer> = Vec::new();
    let mut i: usize = 0;
    while i < pl.len()
        invariant
            0 <= i <= pl@.len(),
            peers@.len() == i,
            forall|k: int| 0 <= k < i ==> verbose_peer_ok(#[trigger] pl@[k]),
            forall|k: int| 0 <= k < i ==> verbose_peer_matches(#[trigger] pl@[k], peers@[k]),
        decreases pl@.len() - i,
    {
        let pd: &BencodeDict = match &pl[i] {
            Value::Dict(pd) => pd,
            _ => {
                let e = TrackerError::ResponseFormat("peers list holds a non-dictionary");
                proof {
                    assert(verbose_peer_err_matches(pl@[i as int], e));
                    assert(verbose_elem_err_matches(pl@, e));
                }
                return Err(e);
            },
        };
        let key_i: [u8; 2] = [105u8, 112u8];
        proof {
            assert(key_i@ =~= key_ip());
        }
        let ip: IpAddress = match dict_get(pd, key_i.as_slice()) {
            None => {
                let e = TrackerError::ResponseFormat("No 'ip' field found in dictionary form");
                proof {
                    assert(verbose_peer_err_matches(pl@[i as int], e));
                    assert(verbose_elem_err_matches(pl@, e));
                }
                return Err(e);
            },
            Some(v) => match v {
                Value::String(ib) => {
                    match parse_ipv4(ib.as_slice()) {
                        Some(o) => IpAddress::V4(o),
                        None => match parse_ipv6_literal(ib.as_slice()) {
                            Some(o) => IpAddress::V6(o),
                            None => {
                                let e = TrackerError::ResponseFormat("'ip' is not an IP literal");
                                proof {
                                    assert(verbose_peer_err_matches(pl@[i as int], e));
                                    assert(verbose_elem_err_matches(pl@, e));
                                }
                                return Err(e);
                            },
                        },
                    }
                },
                _ => {
                    let e = TrackerError::TypeMismatch("ip");
                    proof {
                        assert(verbose_peer_err_matches(pl@[i as int], e));
                        assert(verbose_elem_err_matches(pl@, e));
                    }
                    return Err(e);
                },
            },
        };
        let key_po: [u8; 4] = [112u8, 111u8, 114u8, 116u8];
        proof {
            assert(key_po@ =~= key_port());
        }
        let port: u16 = match dict_get(pd, key_po.as_slice()) {
            None => {
                let e = TrackerError::ResponseFormat("No 'port' field found in dictionary form");
                proof {
                    assert(verbose_peer_err_matches(pl@[i as int], e));
                    assert(verbose_elem_err_matches(pl@, e));
                }
                return Err(e);
            },
            Some(v) => match v {
                Value::Int(n) => {
                    if *n < 0 || *n > 65535 {
                        let e = TrackerError::ResponseFormat("'port' out of range");
                        proof {
                            assert(verbose_peer_err_matches(pl@[i as int], e));
                            assert(verbose_elem_err_matches(pl@, e));
                        }
                        return Err(e);
                    }
                    *n as u16
                },
                _ => {
                    let e = TrackerError::TypeMismatch("port");
                    proof {
                        assert(verbose_peer_err_matches(pl@[i as int], e));
                        assert(verbose_elem_err_matches(pl@, e));
                    }
                    return Err(e);
                },
            },
        };
        let key_pid: [u8; 7] = [112u8, 101u8, 101u8, 114u8, 32u8, 105u8, 100u8];
        proof {
            assert(key_pid@ =~= key_peer_id());
        }
        let peer_id: Option<PeerId> = match dict_get(pd, key_pid.as_slice()) {
            Some(v) => match v {
                Value::String(idb) => {
                    if idb.len() == 20 {
                        proof {
                            assert(idb@.subrange(0, 20) =~= idb@);
                        }
                        Some(PeerId::new(copy_20(idb.as_slice(), 0)))
                    } else {
                        None
                    }
                },
                _ => None,
            },
            None => None,
        };
        peers.push(Peer { peer_id, addr: PeerEndpoint { ip, port } });
        i = i + 1;
    }
    Ok(peers)
}

/// What a scrape would return; scraping is not part of this client.
#[derive(Debug)]
pub struct ScrapeResponse;

} // verus!
