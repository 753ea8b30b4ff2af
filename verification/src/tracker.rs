//! The tracker client logic: building the announce request and its
//! URL-encoded query string, and decoding the bencoded tracker response,
//! including the compact peer-list binary encoding.
use vstd::prelude::*;

use crate::bencode::Bvalue;
use crate::bencode::DecodeError;
use crate::bencode::Field;
use crate::bencode::dict_get;
use crate::bencode::lookup;
use crate::bencode::copy_bytes;
use crate::bencode::push_bytes;
use crate::bencode::dec_digits;
use crate::bencode::push_u64_digits;
use crate::torrent::TorrentFile;
use crate::torrent::info_enc;
use crate::torrent::wf_info;
use crate::torrent::total_length_of;
use crate::torrent::sha1_of;

verus! {

pub open spec fn kw_failure_reason() -> Seq<u8> {
    seq![102u8, 97u8, 105u8, 108u8, 117u8, 114u8, 101u8, 32u8, 114u8, 101u8, 97u8, 115u8, 111u8, 110u8]
}

pub open spec fn kw_interval() -> Seq<u8> {
    seq![105u8, 110u8, 116u8, 101u8, 114u8, 118u8, 97u8, 108u8]
}

pub open spec fn kw_min_interval() -> Seq<u8> {
    seq![109u8, 105u8, 110u8, 32u8, 105u8, 110u8, 116u8, 101u8, 114u8, 118u8, 97u8, 108u8]
}

pub open spec fn kw_warning_message() -> Seq<u8> {
    seq![119u8, 97u8, 114u8, 110u8, 105u8, 110u8, 103u8, 32u8, 109u8, 101u8, 115u8, 115u8, 97u8, 103u8, 101u8]
}

pub open spec fn kw_tracker_id() -> Seq<u8> {
    seq![116u8, 114u8, 97u8, 99u8, 107u8, 101u8, 114u8, 32u8, 105u8, 100u8]
}

pub open spec fn kw_complete() -> Seq<u8> {
    seq![99u8, 111u8, 109u8, 112u8, 108u8, 101u8, 116u8, 101u8]
}

pub open spec fn kw_incomplete() -> Seq<u8> {
    seq![105u8, 110u8, 99u8, 111u8, 109u8, 112u8, 108u8, 101u8, 116u8, 101u8]
}

pub open spec fn kw_peers() -> Seq<u8> {
    seq![112u8, 101u8, 101u8, 114u8, 115u8]
}

pub open spec fn kw_peer_id() -> Seq<u8> {
    seq![112u8, 101u8, 101u8, 114u8, 32u8, 105u8, 100u8]
}

pub open spec fn kw_ip() -> Seq<u8> {
    seq![105u8, 112u8]
}

pub open spec fn kw_port() -> Seq<u8> {
    seq![112u8, 111u8, 114u8, 116u8]
}
pub open spec fn lit_info_hash_eq() -> Seq<u8> {
    seq![105u8, 110u8, 102u8, 111u8, 95u8, 104u8, 97u8, 115u8, 104u8, 61u8]
}

pub open spec fn lit_amp_peer_id_eq() -> Seq<u8> {
    seq![38u8, 112u8, 101u8, 101u8, 114u8, 95u8, 105u8, 100u8, 61u8]
}

pub open spec fn lit_amp_uploaded_eq() -> Seq<u8> {
    seq![38u8, 117u8, 112u8, 108u8, 111u8, 97u8, 100u8, 101u8, 100u8, 61u8]
}

pub open spec fn lit_amp_downloaded_eq() -> Seq<u8> {
    seq![38u8, 100u8, 111u8, 119u8, 110u8, 108u8, 111u8, 97u8, 100u8, 101u8, 100u8, 61u8]
}

pub open spec fn lit_amp_left_eq() -> Seq<u8> {
    seq![38u8, 108u8, 101u8, 102u8, 116u8, 61u8]
}

pub open spec fn lit_amp_event_port_eq() -> Seq<u8> {
    seq![38u8, 101u8, 118u8, 101u8, 110u8, 116u8, 61u8, 115u8, 116u8, 97u8, 114u8, 116u8, 101u8, 100u8, 38u8, 112u8, 111u8, 114u8, 116u8, 61u8]
}

pub open spec fn lit_peer_id_prefix() -> Seq<u8> {
    seq![45u8, 77u8, 83u8, 48u8, 48u8, 48u8, 48u8, 45u8]
}

/// The hexadecimal digit (uppercase) for a value below 16.
pub open spec fn hex_digit(n: u8) -> u8 {
    if n < 10 {
        (48 + n) as u8
    } else {
        (55 + n) as u8
    }
}

/// One byte, percent-encoded: `%` and two uppercase hex digits. Every
/// byte of a binary field is escaped, to carry it exactly.
pub open spec fn pct_byte(b: u8) -> Seq<u8> {
    seq![37u8, hex_digit(b / 16), hex_digit(b % 16)]
}

/// A byte string, percent-encoded byte for byte.
pub open spec fn pct_enc(bs: Seq<u8>) -> Seq<u8>
    decreases bs,
{
    if bs.len() == 0 {
        Seq::empty()
    } else {
        pct_byte(bs[0]) + pct_enc(bs.drop_first())
    }
}

/// The announce query string, with its fixed parameter order:
/// `info_hash`, `peer_id`, `uploaded`, `downloaded`, `left`,
/// `event=started`, `port`.
pub open spec fn query_string(
    info_hash: Seq<u8>,
    peer_id: Seq<u8>,
    uploaded: u64,
    downloaded: u64,
    left: u64,
    port: u64,
) -> Seq<u8> {
    lit_info_hash_eq() + pct_enc(info_hash) + lit_amp_peer_id_eq() + pct_enc(peer_id)
        + lit_amp_uploaded_eq() + dec_digits(uploaded as nat) + lit_amp_downloaded_eq()
        + dec_digits(downloaded as nat) + lit_amp_left_eq() + dec_digits(left as nat)
        + lit_amp_event_port_eq() + dec_digits(port as nat)
}

proof fn lemma_pct_enc_snoc(bs: Seq<u8>)
    requires
        bs.len() >= 1,
    ensures
        pct_enc(bs) == pct_enc(bs.drop_last()) + pct_byte(bs.last()),
    decreases bs.len(),
{
    if bs.len() == 1 {
        assert(bs.drop_first() =~= Seq::<u8>::empty());
        assert(bs.drop_last() =~= Seq::<u8>::empty());
        assert(pct_enc(bs) =~= pct_enc(bs.drop_last()) + pct_byte(bs.last()));
    } else {
        let tail = bs.drop_first();
        lemma_pct_enc_snoc(tail);
        assert(tail.drop_last() =~= bs.drop_last().drop_first());
        assert(bs.drop_last()[0] == bs[0]);
        assert(pct_enc(bs) =~= pct_enc(bs.drop_last()) + pct_byte(bs.last()));
    }
}

/// Appends the percent-encoding of every byte of `bs`.
#[verifier::loop_isolation(false)]
fn push_pct(bs: &[u8], out: &mut Vec<u8>)
    ensures
        final(out)@ == old(out)@ + pct_enc(bs@),
{
    let mut k: usize = 0;
    while k < bs.len()
        invariant
            k <= bs@.len(),
            out@ == old(out)@ + pct_enc(bs@.take(k as int)),
        decreases bs@.len() - k,
    {
        let b = bs[k];
        out.push(37);
        let hi = b / 16;
        let lo = b % 16;
        out.push(if hi < 10 { 48 + hi } else { 55 + hi });
        out.push(if lo < 10 { 48 + lo } else { 55 + lo });
        proof {
            lemma_pct_enc_snoc(bs@.take(k + 1));
            assert(bs@.take(k + 1).drop_last() =~= bs@.take(k as int));
            assert(bs@.take(k + 1).last() == bs@[k as int]);
            assert(out@ =~= old(out)@ + pct_enc(bs@.take(k + 1)));
        }
        k = k + 1;
    }
    proof {
        assert(bs@.take(bs@.len() as int) =~= bs@);
    }
}

/// An announce request, built once per exchange. `uploaded` and
/// `downloaded` are zero and `left` is the whole content length: no
/// resume state exists. The only lifecycle event sent is `started`.
#[derive(Debug)]
pub struct AnnounceRequest {
    pub info_hash: Vec<u8>,
    pub peer_id: Vec<u8>,
    pub uploaded: u64,
    pub downloaded: u64,
    pub left: u64,
    pub port: u64,
}

/// The listening port placeholder sent to the tracker; this client never
/// opens a socket.
pub const ANNOUNCE_PORT: u64 = 6888;

/// Builds the announce request for a descriptor: fresh counters, `left`
/// equal to the total content length, the fixed placeholder port.
pub fn build_request(peer_id: Vec<u8>, t: &TorrentFile) -> (r: AnnounceRequest)
    requires
        wf_info(t.info),
        info_enc(t.info).len() < 0x2000000000000000,
    ensures
        r.info_hash@ == sha1_of(info_enc(t.info)),
        r.peer_id@ == peer_id@,
        r.uploaded == 0,
        r.downloaded == 0,
        r.left as int == total_length_of(t.info),
        r.port == ANNOUNCE_PORT,
{
    let info_hash = t.info_hash();
    let left = t.info.total_length();
    AnnounceRequest { info_hash, peer_id, uploaded: 0, downloaded: 0, left, port: ANNOUNCE_PORT }
}

/// Serializes an announce request as its query string. The two binary
/// fields are percent-encoded byte for byte; the counters are decimal.
pub fn request_query(r: &AnnounceRequest) -> (q: Vec<u8>)
    ensures
        q@ == query_string(r.info_hash@, r.peer_id@, r.uploaded, r.downloaded, r.left, r.port),
{
    let mut out: Vec<u8> = Vec::new();
    let l1 = [105, 110, 102, 111, 95, 104, 97, 115, 104, 61];
    proof {
        assert(l1@ =~= lit_info_hash_eq());
    }
    push_bytes(l1.as_slice(), &mut out);
    push_pct(r.info_hash.as_slice(), &mut out);
    let l2 = [38, 112, 101, 101, 114, 95, 105, 100, 61];
    proof {
        assert(l2@ =~= lit_amp_peer_id_eq());
    }
    push_bytes(l2.as_slice(), &mut out);
    push_pct(r.peer_id.as_slice(), &mut out);
    let l3 = [38, 117, 112, 108, 111, 97, 100, 101, 100, 61];
    proof {
        assert(l3@ =~= lit_amp_uploaded_eq());
    }
    push_bytes(l3.as_slice(), &mut out);
    push_u64_digits(r.uploaded, &mut out);
    let l4 = [38, 100, 111, 119, 110, 108, 111, 97, 100, 101, 100, 61];
    proof {
        assert(l4@ =~= lit_amp_downloaded_eq());
    }
    push_bytes(l4.as_slice(), &mut out);
    push_u64_digits(r.downloaded, &mut out);
    let l5 = [38, 108, 101, 102, 116, 61];
    proof {
        assert(l5@ =~= lit_amp_left_eq());
    }
    push_bytes(l5.as_slice(), &mut out);
    push_u64_digits(r.left, &mut out);
    let l6 = [38, 101, 118, 101, 110, 116, 61, 115, 116, 97, 114, 116, 101, 100, 38, 112, 111, 114, 116, 61];
    proof {
        assert(l6@ =~= lit_amp_event_port_eq());
    }
    push_bytes(l6.as_slice(), &mut out);
    push_u64_digits(r.port, &mut out);
    proof {
        assert(out@ =~= query_string(r.info_hash@, r.peer_id@, r.uploaded, r.downloaded,
            r.left, r.port));
    }
    out
}

/// The full announce URL: the descriptor's primary tracker URL, `?`, and
/// the query string. Only the primary URL is used.
pub fn announce_url(t: &TorrentFile, r: &AnnounceRequest) -> (u: Vec<u8>)
    ensures
        u@ == t.announce@ + seq![63u8] + query_string(r.info_hash@, r.peer_id@, r.uploaded,
            r.downloaded, r.left, r.port),
{
    let mut out = copy_bytes(t.announce.as_slice());
    out.push(63);
    let q = request_query(r);
    push_bytes(q.as_slice(), &mut out);
    proof {
        assert(out@ =~= t.announce@ + seq![63u8] + query_string(r.info_hash@, r.peer_id@,
            r.uploaded, r.downloaded, r.left, r.port));
    }
    out
}

/// The decimal digits of `n`, zero-padded on the left to `width` digits
/// (the low `width` digits of `n`).
pub open spec fn padded_digits(n: nat, width: nat) -> Seq<u8>
    decreases width,
{
    if width == 0 {
        Seq::empty()
    } else {
        padded_digits(n / 10, (width - 1) as nat).push((48 + n % 10) as u8)
    }
}

/// A client identifier derived from a number: the fixed client tag, then
/// the low twelve decimal digits.
pub open spec fn peer_id_spec(n: u64) -> Seq<u8> {
    lit_peer_id_prefix() + padded_digits((n % 1000000000000) as nat, 12)
}

proof fn lemma_padded_len(n: nat, width: nat)
    ensures
        padded_digits(n, width).len() == width,
    decreases width,
{
    if width > 0 {
        lemma_padded_len(n / 10, (width - 1) as nat);
    }
}

/// Appends the low `width` decimal digits of `n`, zero-padded.
fn push_padded(n: u64, width: u64, out: &mut Vec<u8>)
    ensures
        final(out)@ == old(out)@ + padded_digits(n as nat, width as nat),
    decreases width,
{
    if width > 0 {
        push_padded(n / 10, width - 1, out);
        out.push((48 + n % 10) as u8);
        assert(out@ =~= old(out)@ + padded_digits(n as nat, width as nat));
    } else {
        assert(out@ =~= old(out)@ + padded_digits(n as nat, 0));
    }
}

/// The 20-byte client identifier derived from `n`: the printable client
/// tag followed by twelve decimal digits.
pub fn peer_id_from(n: u64) -> (r: Vec<u8>)
    ensures
        r@ == peer_id_spec(n),
        r@.len() == 20,
{
    let mut out: Vec<u8> = Vec::new();
    let tag = [45, 77, 83, 48, 48, 48, 48, 45];
    proof {
        assert(tag@ =~= lit_peer_id_prefix());
    }
    push_bytes(tag.as_slice(), &mut out);
    push_padded(n % 1000000000000, 12, &mut out);
    proof {
        lemma_padded_len((n % 1000000000000) as nat, 12);
        assert(out@ =~= peer_id_spec(n));
    }
    out
}

/// Relies on `rand::random`: a fresh 64-bit value; nothing is assumed of
/// which value comes back. The thread-local generator aborts the process
/// if the operating system's entropy source fails at its first seeding,
/// an environmental failure of the same kind as running out of memory.
#[verifier::external_body]
fn random_u64() -> u64 {
    rand::random::<u64>()
}

/// A fresh 20-byte client identifier: the fixed tag and twelve decimal
/// digits drawn from a random number. Whatever number was drawn, the
/// result has the identifier shape.
pub fn generate_peer_id() -> (r: Vec<u8>)
    ensures
        r@.len() == 20,
        exists|n: u64| r@ == peer_id_spec(n),
{
    let n = random_u64();
    let r = peer_id_from(n);
    proof {
        assert(r@ == peer_id_spec(n));
    }
    r
}


/// A tracker rejection: a well-formed response carrying a reason string.
#[derive(Debug)]
pub struct Failure {
    pub reason: Vec<u8>,
}

/// One peer record of the classic (list-of-dictionaries) encoding.
#[derive(Debug)]
pub struct Peer {
    pub peer_id: Vec<u8>,
    pub ip: Vec<u8>,
    pub port: i64,
}

/// One peer of the compact encoding: four address octets and a
/// big-endian port, unpacked from a 6-byte group.
#[derive(Debug)]
pub struct CompactPeer {
    pub ip: [u8; 4],
    pub port: u16,
}

/// The peer list, polymorphic over its two wire encodings. The classic
/// list-of-dictionaries candidate is tried first, then the compact
/// byte-string form.
#[derive(Debug)]
pub enum Peers {
    Classic(Vec<Peer>),
    Compact(Vec<CompactPeer>),
}

/// A successful announce response.
#[derive(Debug)]
pub struct Success {
    pub warning: Option<Vec<u8>>,
    pub interval: i64,
    pub min_interval: Option<i64>,
    pub tracker_id: Option<Vec<u8>>,
    pub complete: Option<i64>,
    pub incomplete: Option<i64>,
    pub peers: Peers,
}

/// A decoded tracker response: the failure candidate is tried first,
/// then the success shape. A failure is a normal return value, not an
/// error.
#[derive(Debug)]
pub enum Response {
    Failure(Failure),
    Success(Success),
}

/// Whether the dictionary matches the failure candidate: a byte-string
/// `failure reason` entry.
pub open spec fn failure_candidate(es: Seq<(Vec<u8>, Bvalue)>) -> bool {
    dict_get(es, kw_failure_reason()) matches Option::Some(b) && b is Bytes
}

/// Whether a bencode value is one classic peer record: a dictionary with
/// byte-string `peer id` and `ip` and an integer `port`.
pub open spec fn peer_ok(v: Bvalue) -> bool {
    &&& v matches Bvalue::Dict(pes)
    &&& dict_get(pes@, kw_peer_id()) matches Option::Some(pid) && pid is Bytes
    &&& dict_get(pes@, kw_ip()) matches Option::Some(ip) && ip is Bytes
    &&& dict_get(pes@, kw_port()) matches Option::Some(pt) && pt is Int
}

/// A classic peer record and its extracted fields agree.
pub open spec fn peer_rel(v: Bvalue, p: Peer) -> bool {
    &&& v matches Bvalue::Dict(pes)
    &&& dict_get(pes@, kw_peer_id()) matches Option::Some(pid)
        && (pid matches Bvalue::Bytes(b) && p.peer_id@ == b@)
    &&& dict_get(pes@, kw_ip()) matches Option::Some(ip)
        && (ip matches Bvalue::Bytes(b2) && p.ip@ == b2@)
    &&& dict_get(pes@, kw_port()) matches Option::Some(pt)
        && (pt matches Bvalue::Int(n) && p.port == n)
}

/// How a compact peer list relates to the bytes it was unpacked from:
/// one peer per 6-byte group, four address octets then a big-endian port.
pub open spec fn compact_rel(b: Seq<u8>, ps: Seq<CompactPeer>) -> bool {
    &&& ps.len() * 6 == b.len()
    &&& forall|k: int|
        0 <= k < ps.len() ==> (#[trigger] ps[k]).ip@ == b.subrange(6 * k, 6 * k + 4)
    &&& forall|k: int|
        0 <= k < ps.len() ==> (#[trigger] ps[k]).port == b[6 * k + 4] * 256 + b[6 * k + 5]
}

/// Whether the `peers` value decodes: a list of classic records, or a
/// byte string whose length is a multiple of six.
pub open spec fn peers_ok(v: Bvalue) -> bool {
    match v {
        Bvalue::List(ps) => forall|k: int| 0 <= k < ps@.len() ==> peer_ok(#[trigger] ps@[k]),
        Bvalue::Bytes(b) => b@.len() % 6 == 0,
        _ => false,
    }
}

/// The `peers` value and the extracted list agree, per encoding.
pub open spec fn peers_rel(v: Bvalue, ps: Peers) -> bool {
    match v {
        Bvalue::List(items) => ps matches Peers::Classic(cs) && items@.len() == cs@.len()
            && forall|k: int| 0 <= k < items@.len() ==> peer_rel(#[trigger] items@[k], cs@[k]),
        Bvalue::Bytes(b) => ps matches Peers::Compact(cs) && compact_rel(b@, cs@),
        _ => false,
    }
}

/// Whether the dictionary matches the success shape: an integer
/// `interval`, a decodable `peers`, and well-typed optional fields.
pub open spec fn success_ok(es: Seq<(Vec<u8>, Bvalue)>) -> bool {
    &&& dict_get(es, kw_interval()) matches Option::Some(iv) && iv is Int
    &&& dict_get(es, kw_peers()) matches Option::Some(pv) && peers_ok(pv)
    &&& crate::torrent::opt_bytes_ok(dict_get(es, kw_warning_message()))
    &&& crate::torrent::opt_int_ok(dict_get(es, kw_min_interval()))
    &&& crate::torrent::opt_bytes_ok(dict_get(es, kw_tracker_id()))
    &&& crate::torrent::opt_int_ok(dict_get(es, kw_complete()))
    &&& crate::torrent::opt_int_ok(dict_get(es, kw_incomplete()))
}

/// The success dictionary and the extracted response agree.
pub open spec fn success_rel(es: Seq<(Vec<u8>, Bvalue)>, s: Success) -> bool {
    &&& dict_get(es, kw_interval()) matches Option::Some(iv)
        && (iv matches Bvalue::Int(n) && s.interval == n)
    &&& dict_get(es, kw_peers()) matches Option::Some(pv) && peers_rel(pv, s.peers)
    &&& crate::torrent::opt_bytes_rel(dict_get(es, kw_warning_message()), s.warning)
    &&& crate::torrent::opt_int_rel(dict_get(es, kw_min_interval()), s.min_interval)
    &&& crate::torrent::opt_bytes_rel(dict_get(es, kw_tracker_id()), s.tracker_id)
    &&& crate::torrent::opt_int_rel(dict_get(es, kw_complete()), s.complete)
    &&& crate::torrent::opt_int_rel(dict_get(es, kw_incomplete()), s.incomplete)
}

/// Whether a bencode value decodes as a tracker response: the failure
/// candidate first, else the success shape.
pub open spec fn response_ok(v: Bvalue) -> bool {
    &&& v matches Bvalue::Dict(es)
    &&& failure_candidate(es@) || success_ok(es@)
}

/// The response value and the decoded result agree, honouring the
/// candidate order: a dictionary matching the failure candidate decodes
/// to `Failure`, anything else to `Success`.
pub open spec fn response_rel(v: Bvalue, r: Response) -> bool {
    &&& v matches Bvalue::Dict(es)
    &&& if failure_candidate(es@) {
        r matches Response::Failure(f) && (dict_get(es@, kw_failure_reason())
            matches Option::Some(b) && (b matches Bvalue::Bytes(rb) && f.reason@ == rb@))
    } else {
        r matches Response::Success(s) && success_rel(es@, s)
    }
}

/// Unpacks a compact peer list: each consecutive 6-byte group is four
/// address octets and a big-endian port. Succeeds exactly when the
/// length is a multiple of six.
#[verifier::loop_isolation(false)]
pub fn compact_peers(b: &[u8]) -> (res: Result<Vec<CompactPeer>, DecodeError>)
    ensures
        res matches Ok(ps) ==> compact_rel(b@, ps@),
        res is Ok <==> b@.len() % 6 == 0,
{
    if b.len() % 6 != 0 {
        return Result::Err(DecodeError::InvalidPeers);
    }
    let count = b.len() / 6;
    let mut ps: Vec<CompactPeer> = Vec::new();
    let mut k: usize = 0;
    while k < count
        invariant
            k <= count,
            count * 6 == b@.len(),
            ps@.len() == k,
            forall|i: int|
                0 <= i < k ==> (#[trigger] ps@[i]).ip@ == b@.subrange(6 * i, 6 * i + 4),
            forall|i: int|
                0 <= i < k ==> (#[trigger] ps@[i]).port == b@[6 * i + 4] * 256 + b@[6 * i + 5],
        decreases count - k,
    {
        let j = 6 * k;
        let ip = [b[j], b[j + 1], b[j + 2], b[j + 3]];
        let port: u16 = (b[j + 4] as u16) * 256 + (b[j + 5] as u16);
        proof {
            assert(ip@ =~= b@.subrange(6 * (k as int), 6 * (k as int) + 4));
        }
        ps.push(CompactPeer { ip, port });
        k = k + 1;
    }
    Result::Ok(ps)
}

/// Extracts one classic peer record.
fn peer_from_bvalue(v: &Bvalue) -> (res: Result<Peer, DecodeError>)
    ensures
        res matches Ok(p) ==> peer_rel(*v, p),
        res is Ok <==> peer_ok(*v),
{
    let pes = match v {
        Bvalue::Dict(es) => es,
        _ => {
            return Result::Err(DecodeError::Shape(Field::Peers));
        },
    };
    let kpid = [112, 101, 101, 114, 32, 105, 100];
    let kip = [105, 112];
    let kpt = [112, 111, 114, 116];
    proof {
        assert(kpid@ =~= kw_peer_id());
        assert(kip@ =~= kw_ip());
        assert(kpt@ =~= kw_port());
    }
    let peer_id = match lookup(pes, kpid.as_slice()) {
        Option::Some(Bvalue::Bytes(b)) => copy_bytes(b.as_slice()),
        _ => {
            return Result::Err(DecodeError::Shape(Field::PeerId));
        },
    };
    let ip = match lookup(pes, kip.as_slice()) {
        Option::Some(Bvalue::Bytes(b)) => copy_bytes(b.as_slice()),
        _ => {
            return Result::Err(DecodeError::Shape(Field::Ip));
        },
    };
    let port = match lookup(pes, kpt.as_slice()) {
        Option::Some(Bvalue::Int(n)) => *n,
        _ => {
            return Result::Err(DecodeError::Shape(Field::Port));
        },
    };
    Result::Ok(Peer { peer_id, ip, port })
}

/// Decodes the tracker response from its bencode value, trying the
/// failure candidate first, then the success shape.
#[verifier::loop_isolation(false)]
pub fn response_from_bvalue(v: &Bvalue) -> (res: Result<Response, DecodeError>)
    ensures
        res matches Ok(r) ==> response_rel(*v, r),
        res is Ok <==> response_ok(*v),
{
    let entries = match v {
        Bvalue::Dict(es) => es,
        _ => {
            return Result::Err(DecodeError::Shape(Field::Document));
        },
    };
    let kfr = [102, 97, 105, 108, 117, 114, 101, 32, 114, 101, 97, 115, 111, 110];
    let kin = [105, 110, 116, 101, 114, 118, 97, 108];
    let kpe = [112, 101, 101, 114, 115];
    let kwm = [119, 97, 114, 110, 105, 110, 103, 32, 109, 101, 115, 115, 97, 103, 101];
    let kmi = [109, 105, 110, 32, 105, 110, 116, 101, 114, 118, 97, 108];
    let kti = [116, 114, 97, 99, 107, 101, 114, 32, 105, 100];
    let kco = [99, 111, 109, 112, 108, 101, 116, 101];
    let kic = [105, 110, 99, 111, 109, 112, 108, 101, 116, 101];
    proof {
        assert(kfr@ =~= kw_failure_reason());
        assert(kin@ =~= kw_interval());
        assert(kpe@ =~= kw_peers());
        assert(kwm@ =~= kw_warning_message());
        assert(kmi@ =~= kw_min_interval());
        assert(kti@ =~= kw_tracker_id());
        assert(kco@ =~= kw_complete());
        assert(kic@ =~= kw_incomplete());
    }
    match lookup(entries, kfr.as_slice()) {
        Option::Some(Bvalue::Bytes(b)) => {
            let reason = copy_bytes(b.as_slice());
            return Result::Ok(Response::Failure(Failure { reason }));
        },
        _ => {},
    }
    let interval = match lookup(entries, kin.as_slice()) {
        Option::Some(Bvalue::Int(n)) => *n,
        _ => {
            return Result::Err(DecodeError::Shape(Field::Interval));
        },
    };
    let warning = match lookup(entries, kwm.as_slice()) {
        Option::Some(Bvalue::Bytes(b)) => Option::Some(copy_bytes(b.as_slice())),
        Option::Some(_) => {
            return Result::Err(DecodeError::Shape(Field::Warning));
        },
        Option::None => Option::None,
    };
    let min_interval = match lookup(entries, kmi.as_slice()) {
        Option::Some(Bvalue::Int(n)) => Option::Some(*n),
        Option::Some(_) => {
            return Result::Err(DecodeError::Shape(Field::MinInterval));
        },
        Option::None => Option::None,
    };
    let tracker_id = match lookup(entries, kti.as_slice()) {
        Option::Some(Bvalue::Bytes(b)) => Option::Some(copy_bytes(b.as_slice())),
        Option::Some(_) => {
            return Result::Err(DecodeError::Shape(Field::TrackerId));
        },
        Option::None => Option::None,
    };
    let complete = match lookup(entries, kco.as_slice()) {
        Option::Some(Bvalue::Int(n)) => Option::Some(*n),
        Option::Some(_) => {
            return Result::Err(DecodeError::Shape(Field::Complete));
        },
        Option::None => Option::None,
    };
    let incomplete = match lookup(entries, kic.as_slice()) {
        Option::Some(Bvalue::Int(n)) => Option::Some(*n),
        Option::Some(_) => {
            return Result::Err(DecodeError::Shape(Field::Incomplete));
        },
        Option::None => Option::None,
    };
    let peers: Peers = match lookup(entries, kpe.as_slice()) {
        Option::Some(pv) => match pv {
            Bvalue::List(items) => {
                let mut cs: Vec<Peer> = Vec::new();
                let mut k: usize = 0;
                while k < items.len()
                    invariant
                        k <= items@.len(),
                        cs@.len() == k,
                        forall|i: int| 0 <= i < k ==> peer_rel(#[trigger] items@[i], cs@[i]),
                    decreases items@.len() - k,
                {
                    match peer_from_bvalue(&items[k]) {
                        Result::Ok(p) => {
                            cs.push(p);
                        },
                        Result::Err(e) => {
                            return Result::Err(e);
                        },
                    }
                    k = k + 1;
                }
                Peers::Classic(cs)
            },
            Bvalue::Bytes(b) => {
                match compact_peers(b.as_slice()) {
                    Result::Ok(ps) => Peers::Compact(ps),
                    Result::Err(e) => {
                        return Result::Err(e);
                    },
                }
            },
            _ => {
                return Result::Err(DecodeError::Shape(Field::Peers));
            },
        },
        Option::None => {
            return Result::Err(DecodeError::Shape(Field::Peers));
        },
    };
    let s = Success { warning, interval, min_interval, tracker_id, complete, incomplete, peers };
    Result::Ok(Response::Success(s))
}

/// Decodes a tracker response body: bencode bytes to a typed response.
/// Succeeds exactly when the bytes encode one of the two candidate
/// shapes. A failure response decodes to the `Failure` variant; it is a
/// normal value, not an error.
pub fn response_from_bytes(s: &[u8]) -> (res: Result<Response, DecodeError>)
    ensures
        res matches Ok(r) ==> exists|v: Bvalue| crate::bencode::enc(v) == s@
            && response_rel(v, r),
        res is Ok <==> exists|v: Bvalue| crate::bencode::enc(v) == s@ && response_ok(v),
{
    match crate::bencode::decode(s) {
        Result::Ok(bv) => {
            match response_from_bvalue(&bv) {
                Result::Ok(r) => {
                    proof {
                        assert(crate::bencode::enc(bv) == s@ && response_rel(bv, r));
                        assert(crate::bencode::enc(bv) == s@ && response_ok(bv));
                    }
                    Result::Ok(r)
                },
                Result::Err(e) => {
                    proof {
                        if exists|v: Bvalue| crate::bencode::enc(v) == s@
                            && response_ok(v) {
                            let w = choose|v: Bvalue| crate::bencode::enc(v) == s@
                                && response_ok(v);
                            crate::bencode::lemma_enc_injective(bv, w);
                            lemma_beq_response_ok(bv, w);
                            assert(false);
                        }
                    }
                    Result::Err(e)
                },
            }
        },
        Result::Err(e) => {
            proof {
                if exists|v: Bvalue| crate::bencode::enc(v) == s@ && response_ok(v) {
                    let w = choose|v: Bvalue| crate::bencode::enc(v) == s@
                        && response_ok(v);
                    assert(crate::bencode::encodes(s@)) by {
                        assert(crate::bencode::enc(w) == s@);
                    }
                    assert(false);
                }
            }
            Result::Err(e)
        },
    }
}


proof fn lemma_beq_peer_ok(v1: Bvalue, v2: Bvalue)
    requires
        crate::bencode::beq(v1, v2),
    ensures
        peer_ok(v1) == peer_ok(v2),
{
    if v1 is Dict && v2 is Dict {
        let es1 = v1->Dict_0@;
        let es2 = v2->Dict_0@;
        crate::bencode::lemma_beq_dict_get(es1, es2, kw_peer_id());
        crate::bencode::lemma_beq_dict_get(es1, es2, kw_ip());
        crate::bencode::lemma_beq_dict_get(es1, es2, kw_port());
    }
}

/// Structurally equal bencode values decode as tracker responses, or
/// fail to, together.
pub proof fn lemma_beq_response_ok(v1: Bvalue, v2: Bvalue)
    requires
        crate::bencode::beq(v1, v2),
    ensures
        response_ok(v1) == response_ok(v2),
{
    if v1 is Dict && v2 is Dict {
        let es1 = v1->Dict_0@;
        let es2 = v2->Dict_0@;
        crate::bencode::lemma_beq_dict_get(es1, es2, kw_failure_reason());
        crate::bencode::lemma_beq_dict_get(es1, es2, kw_interval());
        crate::bencode::lemma_beq_dict_get(es1, es2, kw_peers());
        crate::bencode::lemma_beq_dict_get(es1, es2, kw_warning_message());
        crate::bencode::lemma_beq_dict_get(es1, es2, kw_min_interval());
        crate::bencode::lemma_beq_dict_get(es1, es2, kw_tracker_id());
        crate::bencode::lemma_beq_dict_get(es1, es2, kw_complete());
        crate::bencode::lemma_beq_dict_get(es1, es2, kw_incomplete());
        match (dict_get(es1, kw_peers()), dict_get(es2, kw_peers())) {
            (Option::Some(a), Option::Some(b)) => {
                if a is List && b is List {
                    let p1 = a->List_0@;
                    let p2 = b->List_0@;
                    if peers_ok(a) {
                        assert forall|k: int| 0 <= k < p2.len()
                            implies peer_ok(#[trigger] p2[k]) by {
                            crate::bencode::lemma_beq_list_index(p1, p2, k);
                            lemma_beq_peer_ok(p1[k], p2[k]);
                        }
                    }
                    if peers_ok(b) {
                        assert forall|k: int| 0 <= k < p1.len()
                            implies peer_ok(#[trigger] p1[k]) by {
                            crate::bencode::lemma_beq_list_index(p1, p2, k);
                            lemma_beq_peer_ok(p1[k], p2[k]);
                        }
                    }
                }
            },
            _ => {},
        }
    }
}

} // verus!
