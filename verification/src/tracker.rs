//! The tracker exchange: the GET query that announces a transfer (the
//! identifier percent-encoded byte by byte), and the bencoded response
//! holding the re-announce interval and a compact peer list of six bytes
//! per peer — four address octets and a big-endian port.

use vstd::prelude::*;

use crate::bencode::{
    dict_get, spec_decode, spec_lookup, DecodeError, SpecValue, Value,
};
use crate::{hex_encode, spec_hex};

verus! {

/// The query parameters announced to the tracker. The identifier is not a
/// field: it is appended separately, percent-encoded byte by byte.
pub struct TrackerRequest {
    pub peer_id: String,
    pub port: u16,
    pub uploaded: usize,
    pub downloaded: usize,
    pub left: usize,
    pub compact: u8,
}

impl TrackerRequest {
    /// The fixed announce parameters of this client: its peer id, port
    /// 6881, nothing moved yet, `left` bytes to go, compact replies.
    pub fn new(left: usize) -> (r: TrackerRequest)
        ensures
            r.peer_id@ =~= "00112233445566778899"@,
            r.port == 6881,
            r.uploaded == 0,
            r.downloaded == 0,
            r.left == left,
            r.compact == 1,
    {
        TrackerRequest {
            peer_id: "00112233445566778899".to_owned(),
            port: 6881,
            uploaded: 0,
            downloaded: 0,
            left,
            compact: 1,
        }
    }
}

/// The urlencoded form of the six announce parameters, keyed by their
/// field names, as serde_urlencoded writes it. The text is a function of
/// the field values alone.
pub uninterp spec fn urlencoded_query(
    peer_id: Seq<char>,
    port: u16,
    uploaded: usize,
    downloaded: usize,
    left: usize,
    compact: u8,
) -> Seq<char>;

/// Relies on serde_urlencoded::to_string over the pairs
/// `peer_id`, `port`, `uploaded`, `downloaded`, `left`, `compact`,
/// in that order, each value rendered in decimal where numeric.
#[verifier::external_body]
fn encode_query(req: &TrackerRequest) -> (r: String)
    ensures
        r@ == urlencoded_query(
            req.peer_id@,
            req.port,
            req.uploaded,
            req.downloaded,
            req.left,
            req.compact,
        ),
{
    serde_urlencoded::to_string([
        ("peer_id", req.peer_id.clone()),
        ("port", req.port.to_string()),
        ("uploaded", req.uploaded.to_string()),
        ("downloaded", req.downloaded.to_string()),
        ("left", req.left.to_string()),
        ("compact", req.compact.to_string()),
    ]).unwrap_or_default()
}

/// The identifier percent-encoded for the query string: `%` and two hex
/// digits for every byte.
pub open spec fn spec_urlencoded_hash(h: Seq<u8>) -> Seq<char>
    decreases h,
{
    if h.len() == 0 {
        Seq::empty()
    } else {
        seq!['%'] + spec_hex(seq![h.first()]) + spec_urlencoded_hash(h.drop_first())
    }
}

proof fn lemma_urlencoded_hash_push(h: Seq<u8>, x: u8)
    ensures
        spec_urlencoded_hash(h.push(x)) == spec_urlencoded_hash(h) + seq!['%'] + spec_hex(
            seq![x],
        ),
    decreases h,
{
    if h.len() == 0 {
        reveal_with_fuel(spec_urlencoded_hash, 2);
        assert(h.push(x).drop_first() =~= Seq::<u8>::empty());
        assert(spec_urlencoded_hash(h.push(x)) =~= spec_urlencoded_hash(h) + seq!['%']
            + spec_hex(seq![x]));
    } else {
        assert(h.push(x).drop_first() =~= h.drop_first().push(x));
        lemma_urlencoded_hash_push(h.drop_first(), x);
        assert(spec_urlencoded_hash(h.push(x)) =~= spec_urlencoded_hash(h) + seq!['%']
            + spec_hex(seq![x]));
    }
}

/// Percent-encode the 20 identifier bytes, `%XX` per byte, lowercase hex.
#[verifier::loop_isolation(false)]
pub fn urlencode(t: &Vec<u8>) -> (r: String)
    ensures
        r@ == spec_urlencoded_hash(t@),
{
    let mut encoded = String::new();
    let mut i: usize = 0;
    while i < t.len()
        invariant
            i <= t@.len(),
            encoded@ == spec_urlencoded_hash(t@.take(i as int)),
        decreases t@.len() - i,
    {
        encoded.append("%");
        let one: Vec<u8> = vec![t[i]];
        let hx = hex_encode(&one);
        encoded.append(hx.as_str());
        proof {
            assert(one@ =~= seq![t@[i as int]]);
            assert(t@.take(i + 1 as int) =~= t@.take(i as int).push(t@[i as int]));
            lemma_urlencoded_hash_push(t@.take(i as int), t@[i as int]);
            reveal_strlit("%");
            assert("%"@ =~= seq!['%']);
        }
        i += 1;
    }
    proof {
        assert(t@.take(t@.len() as int) =~= t@);
    }
    encoded
}

/// The full announce URL: the announce address, the urlencoded
/// parameters, and the percent-encoded identifier.
pub open spec fn spec_tracker_url(
    announce: Seq<char>,
    req: TrackerRequest,
    info_hash: Seq<u8>,
) -> Seq<char> {
    announce + "?"@ + urlencoded_query(
        req.peer_id@,
        req.port,
        req.uploaded,
        req.downloaded,
        req.left,
        req.compact,
    ) + "&info_hash="@ + spec_urlencoded_hash(info_hash)
}

/// Build the announce URL for a transfer.
pub fn tracker_url(announce: &String, req: &TrackerRequest, info_hash: &Vec<u8>) -> (r:
    String)
    ensures
        r@ == spec_tracker_url(announce@, *req, info_hash@),
{
    let mut url = String::new();
    url.append(announce.as_str());
    url.append("?");
    let params = encode_query(req);
    url.append(params.as_str());
    url.append("&info_hash=");
    let hash = urlencode(info_hash);
    url.append(hash.as_str());
    url
}

/// One peer's address from the compact list: four address octets and a
/// port.
#[derive(Debug, PartialEq, Eq, Clone, Copy)]
pub struct PeerAddr {
    pub ip: (u8, u8, u8, u8),
    pub port: u16,
}

/// Why a tracker response could not be interpreted.
#[derive(Debug, PartialEq, Eq, Structural, Clone, Copy)]
pub enum TrackerError {
    /// The bencode layer rejected the response.
    Encoding(DecodeError),
    /// A required field is missing or has the wrong type.
    Shape,
    /// The interval is negative or too large for this machine.
    BadNumber,
    /// The compact peer list is not a whole number of six-byte entries.
    BadPeers,
}

/// The peer addresses offered by the tracker.
#[derive(Debug)]
pub struct Peers {
    addrs: Vec<PeerAddr>,
}

impl View for Peers {
    type V = Seq<PeerAddr>;

    closed spec fn view(&self) -> Seq<PeerAddr> {
        self.addrs@
    }
}

/// The peer address encoded at entry `i` of a compact peer blob.
pub open spec fn spec_compact_entry(b: Seq<u8>, i: int) -> PeerAddr {
    PeerAddr {
        ip: (b[6 * i], b[6 * i + 1], b[6 * i + 2], b[6 * i + 3]),
        port: (b[6 * i + 4] * 0x100 + b[6 * i + 5]) as u16,
    }
}

impl Peers {
    /// Parse a compact peer list: six bytes per peer, four address octets
    /// then a big-endian port. Fails exactly when the length is not a
    /// multiple of six.
    #[verifier::loop_isolation(false)]
    pub fn from_compact(bytes: &Vec<u8>) -> (r: Result<Peers, TrackerError>)
        ensures
            match r {
                Ok(p) => bytes@.len() % 6 == 0 && p@.len() == bytes@.len() / 6 && forall|i: int|
                    0 <= i < p@.len() ==> #[trigger] p@[i] == spec_compact_entry(bytes@, i),
                Err(e) => e == TrackerError::BadPeers && bytes@.len() % 6 != 0,
            },
    {
        if bytes.len() % 6 != 0 {
            return Err(TrackerError::BadPeers);
        }
        let count = bytes.len() / 6;
        let mut addrs: Vec<PeerAddr> = Vec::new();
        let mut i: usize = 0;
        proof {
            vstd::arithmetic::div_mod::lemma_fundamental_div_mod(bytes@.len() as int, 6);
        }
        while i < count
            invariant
                i <= count,
                bytes@.len() == 6 * count,
                addrs@.len() == i,
                forall|k: int|
                    0 <= k < i ==> #[trigger] addrs@[k] == spec_compact_entry(bytes@, k),
            decreases count - i,
        {
            proof {
                assert(6 * (i + 1) <= bytes@.len()) by (nonlinear_arith)
                    requires
                        i < count,
                        bytes@.len() == 6 * count,
                ;
            }
            let base = 6 * i;
            let port = (bytes[base + 4] as u16) * 0x100 + (bytes[base + 5] as u16);
            let addr = PeerAddr {
                ip: (bytes[base], bytes[base + 1], bytes[base + 2], bytes[base + 3]),
                port,
            };
            addrs.push(addr);
            i += 1;
        }
        Ok(Peers { addrs })
    }

    /// The compact form of these peers: six bytes per peer.
    #[verifier::loop_isolation(false)]
    pub fn to_compact(&self) -> (r: Vec<u8>)
        ensures
            r@.len() == 6 * self@.len(),
            forall|i: int|
                0 <= i < self@.len() ==> spec_compact_entry(r@, i) == self@[i],
    {
        let mut out: Vec<u8> = Vec::new();
        let mut i: usize = 0;
        while i < self.addrs.len()
            invariant
                i <= self.addrs@.len(),
                self@ == self.addrs@,
                out@.len() == 6 * i,
                forall|k: int| 0 <= k < i ==> spec_compact_entry(out@, k) == self@[k],
            decreases self.addrs@.len() - i,
        {
            let a = self.addrs[i];
            out.push(a.ip.0);
            out.push(a.ip.1);
            out.push(a.ip.2);
            out.push(a.ip.3);
            out.push((a.port / 0x100) as u8);
            out.push((a.port % 0x100) as u8);
            proof {
                assert((a.port / 0x100) * 0x100 + a.port % 0x100 == a.port) by {
                    vstd::arithmetic::div_mod::lemma_fundamental_div_mod(a.port as int, 0x100);
                }
                assert forall|k: int| 0 <= k < i + 1 implies spec_compact_entry(out@, k)
                    == self@[k] by {
                    if k < i {
                        assert(spec_compact_entry(out@, k) == spec_compact_entry(
                            out@.take(6 * i as int),
                            k,
                        ));
                    }
                }
            }
            i += 1;
        }
        out
    }

    /// How many peers the tracker offered.
    pub fn len(&self) -> (r: usize)
        ensures
            r == self@.len(),
    {
        self.addrs.len()
    }

    /// Whether the tracker offered no peers.
    pub fn is_empty(&self) -> (r: bool)
        ensures
            r == (self@.len() == 0),
    {
        self.addrs.len() == 0
    }

    /// The peer address at `index`.
    pub fn get(&self, index: usize) -> (r: PeerAddr)
        requires
            index < self@.len(),
        ensures
            r == self@[index as int],
    {
        self.addrs[index]
    }
}

/// A tracker's answer: when to re-announce, and whom to ask for pieces.
#[derive(Debug)]
pub struct TrackerResponse {
    pub interval: usize,
    pub peers: Peers,
}

pub open spec fn key_interval() -> Seq<u8> {
    seq![105u8, 110u8, 116u8, 101u8, 114u8, 118u8, 97u8, 108u8]
}

pub open spec fn key_peers() -> Seq<u8> {
    seq![112u8, 101u8, 101u8, 114u8, 115u8]
}

fn key_bytes_interval() -> (k: Vec<u8>)
    ensures
        k@ == key_interval(),
{
    let k: Vec<u8> = vec![105u8, 110u8, 116u8, 101u8, 114u8, 118u8, 97u8, 108u8];
    proof {
        assert(k@ =~= key_interval());
    }
    k
}

fn key_bytes_peers() -> (k: Vec<u8>)
    ensures
        k@ == key_peers(),
{
    let k: Vec<u8> = vec![112u8, 101u8, 101u8, 114u8, 115u8];
    proof {
        assert(k@ =~= key_peers());
    }
    k
}

/// A ghost record of a tracker response's fields.
pub struct SpecTracker {
    pub interval: int,
    pub peers_blob: Seq<u8>,
}

/// Interpreting a decoded tracker response: a dictionary with an integer
/// `interval` and a byte-string `peers` whose length is a multiple of six.
pub open spec fn spec_parse_tracker(b: Seq<u8>) -> Result<SpecTracker, TrackerError> {
    match spec_decode(b) {
        Err(e) => Err(TrackerError::Encoding(e)),
        Ok(p) => match p.0 {
            SpecValue::Dictionary(ps) => match spec_lookup(ps, key_interval()) {
                Some(SpecValue::Integer(iv)) => match spec_lookup(ps, key_peers()) {
                    Some(SpecValue::ByteString(blob)) => if !(0 <= iv && iv as int
                        <= usize::MAX as int) {
                        Err(TrackerError::BadNumber)
                    } else if blob.len() % 6 != 0 {
                        Err(TrackerError::BadPeers)
                    } else {
                        Ok(SpecTracker { interval: iv as int, peers_blob: blob })
                    },
                    _ => Err(TrackerError::Shape),
                },
                _ => Err(TrackerError::Shape),
            },
            _ => Err(TrackerError::Shape),
        },
    }
}

impl TrackerResponse {
    /// Parse the tracker's bencoded answer. The outcome, success or each
    /// error, follows `spec_parse_tracker` exactly.
    pub fn from_bytes(data: &Vec<u8>) -> (r: Result<TrackerResponse, TrackerError>)
        ensures
            ({
                let s = spec_parse_tracker(data@);
                match r {
                    Ok(t) => s matches Ok(m) && t.interval as int == m.interval && t.peers@.len()
                        == m.peers_blob.len() / 6 && forall|i: int|
                        0 <= i < t.peers@.len() ==> #[trigger] t.peers@[i]
                            == spec_compact_entry(m.peers_blob, i),
                    Err(e) => s matches Err(e2) && e2 == e,
                }
            }),
    {
        let v = match crate::bencode::decode_prefix(data) {
            Ok(p) => p.0,
            Err(e) => {
                return Err(TrackerError::Encoding(e));
            },
        };
        let ps = match v {
            Value::Dictionary(ps) => ps,
            _ => {
                return Err(TrackerError::Shape);
            },
        };
        let ikey = key_bytes_interval();
        let iv: i64 = match dict_get(&ps, &ikey) {
            Some(Value::Integer(iv)) => *iv,
            Some(_) => {
                return Err(TrackerError::Shape);
            },
            None => {
                return Err(TrackerError::Shape);
            },
        };
        let pkey = key_bytes_peers();
        let blob = match dict_get(&ps, &pkey) {
            Some(Value::ByteString(pb)) => pb,
            Some(_) => {
                return Err(TrackerError::Shape);
            },
            None => {
                return Err(TrackerError::Shape);
            },
        };
        if iv < 0 || iv as u64 > usize::MAX as u64 {
            return Err(TrackerError::BadNumber);
        }
        let peers = match Peers::from_compact(blob) {
            Ok(p) => p,
            Err(e) => {
                return Err(e);
            },
        };
        Ok(TrackerResponse { interval: iv as usize, peers })
    }
}

} // verus!
