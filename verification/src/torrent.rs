//! The metainfo model: a typed torrent descriptor, its canonical bencode
//! encoding (fixed, lexicographically sorted key order), derived queries,
//! and the SHA-1 info-hash.
use vstd::prelude::*;

use crate::bencode::Bvalue;
use crate::bencode::DecodeError;
use crate::bencode::Field;
use crate::bencode::enc;
use crate::bencode::enc_list;
use crate::bencode::enc_dict;
use crate::bencode::str_enc;
use crate::bencode::int_enc;
use crate::bencode::dec_digits;
use crate::bencode::push_u64_digits;
use crate::bencode::push_str_enc;
use crate::bencode::bytes_eq;
use crate::bencode::copy_bytes;
use crate::bencode::dict_get;
use crate::bencode::lookup;
use crate::bencode::lemma_dec_digits_props;

verus! {

/// One entry of a multi-file torrent: a length and a path given as a
/// sequence of path segments.
#[derive(Debug)]
pub struct InfoFile {
    pub length: u64,
    pub path: Vec<Vec<u8>>,
}

/// The `info` dictionary of a single-file torrent.
#[derive(Debug)]
pub struct InfoSingle {
    pub piece_length: u64,
    pub pieces: Vec<u8>,
    pub private: Option<u8>,
    pub length: u64,
    pub name: Vec<u8>,
}

/// The `info` dictionary of a multi-file torrent.
#[derive(Debug)]
pub struct InfoMultiple {
    pub piece_length: u64,
    pub pieces: Vec<u8>,
    pub private: Option<u8>,
    pub name: Vec<u8>,
    pub files: Vec<InfoFile>,
}

/// The two structural variants of the `info` dictionary. A decoded value
/// is `Single` when the dictionary carries a `length` key, `Multiple`
/// when it carries a `files` list; `Single` is the first candidate.
#[derive(Debug)]
pub enum Info {
    Single(InfoSingle),
    Multiple(InfoMultiple),
}

/// A torrent descriptor: the `info` dictionary plus the tracker URL and
/// optional descriptive metadata.
#[derive(Debug)]
pub struct TorrentFile {
    pub info: Info,
    pub announce: Vec<u8>,
    pub announce_list: Option<Vec<Vec<Vec<u8>>>>,
    pub creation_date: Option<i64>,
    pub comment: Option<Vec<u8>>,
    pub created_by: Option<Vec<u8>>,
    pub encoding: Option<Vec<u8>>,
}

pub open spec fn kw_length() -> Seq<u8> {
    seq![108u8, 101u8, 110u8, 103u8, 116u8, 104u8]
}

pub open spec fn kw_name() -> Seq<u8> {
    seq![110u8, 97u8, 109u8, 101u8]
}

pub open spec fn kw_piece_length() -> Seq<u8> {
    seq![112u8, 105u8, 101u8, 99u8, 101u8, 32u8, 108u8, 101u8, 110u8, 103u8, 116u8, 104u8]
}

pub open spec fn kw_pieces() -> Seq<u8> {
    seq![112u8, 105u8, 101u8, 99u8, 101u8, 115u8]
}

pub open spec fn kw_private() -> Seq<u8> {
    seq![112u8, 114u8, 105u8, 118u8, 97u8, 116u8, 101u8]
}

pub open spec fn kw_files() -> Seq<u8> {
    seq![102u8, 105u8, 108u8, 101u8, 115u8]
}

pub open spec fn kw_path() -> Seq<u8> {
    seq![112u8, 97u8, 116u8, 104u8]
}

pub open spec fn kw_announce() -> Seq<u8> {
    seq![97u8, 110u8, 110u8, 111u8, 117u8, 110u8, 99u8, 101u8]
}

pub open spec fn kw_announce_list() -> Seq<u8> {
    seq![97u8, 110u8, 110u8, 111u8, 117u8, 110u8, 99u8, 101u8, 45u8, 108u8, 105u8, 115u8, 116u8]
}

pub open spec fn kw_creation_date() -> Seq<u8> {
    seq![99u8, 114u8, 101u8, 97u8, 116u8, 105u8, 111u8, 110u8, 32u8, 100u8, 97u8, 116u8, 101u8]
}

pub open spec fn kw_comment() -> Seq<u8> {
    seq![99u8, 111u8, 109u8, 109u8, 101u8, 110u8, 116u8]
}

pub open spec fn kw_created_by() -> Seq<u8> {
    seq![99u8, 114u8, 101u8, 97u8, 116u8, 101u8, 100u8, 32u8, 98u8, 121u8]
}

pub open spec fn kw_encoding() -> Seq<u8> {
    seq![101u8, 110u8, 99u8, 111u8, 100u8, 105u8, 110u8, 103u8]
}

pub open spec fn kw_info() -> Seq<u8> {
    seq![105u8, 110u8, 102u8, 111u8]
}

/// The concatenated byte-string encodings of a file's path segments.
pub open spec fn path_enc(ps: Seq<Vec<u8>>) -> Seq<u8>
    decreases ps,
{
    if ps.len() == 0 {
        Seq::empty()
    } else {
        str_enc(ps[0]@) + path_enc(ps.drop_first())
    }
}

/// The canonical encoding of one file entry: a dictionary with the keys
/// `length` and `path` in that (sorted) order.
pub open spec fn file_enc(f: InfoFile) -> Seq<u8> {
    seq![100u8] + str_enc(kw_length()) + int_enc(f.length as int) + str_enc(kw_path())
        + seq![108u8] + path_enc(f.path@) + seq![101u8] + seq![101u8]
}

/// The concatenated encodings of the file entries.
pub open spec fn files_enc(fs: Seq<InfoFile>) -> Seq<u8>
    decreases fs,
{
    if fs.len() == 0 {
        Seq::empty()
    } else {
        file_enc(fs[0]) + files_enc(fs.drop_first())
    }
}

/// The optional `private` entry: absent, or the key and an integer.
pub open spec fn private_enc(p: Option<u8>) -> Seq<u8> {
    match p {
        Option::None => Seq::empty(),
        Option::Some(x) => str_enc(kw_private()) + int_enc(x as int),
    }
}

/// The canonical bencode encoding of the `info` dictionary. The keys are
/// emitted in ascending lexicographic order, hard-coded per variant:
/// `length`, `name`, `piece length`, `pieces`, `private` for single-file;
/// `files`, `name`, `piece length`, `pieces`, `private` for multi-file.
pub open spec fn info_enc(i: Info) -> Seq<u8> {
    match i {
        Info::Single(s) => seq![100u8] + str_enc(kw_length()) + int_enc(s.length as int)
            + str_enc(kw_name()) + str_enc(s.name@) + str_enc(kw_piece_length())
            + int_enc(s.piece_length as int) + str_enc(kw_pieces()) + str_enc(s.pieces@)
            + private_enc(s.private) + seq![101u8],
        Info::Multiple(m) => seq![100u8] + str_enc(kw_files()) + seq![108u8]
            + files_enc(m.files@) + seq![101u8] + str_enc(kw_name()) + str_enc(m.name@)
            + str_enc(kw_piece_length()) + int_enc(m.piece_length as int)
            + str_enc(kw_pieces()) + str_enc(m.pieces@) + private_enc(m.private)
            + seq![101u8],
    }
}

/// The concatenated piece hashes of a descriptor.
pub open spec fn pieces_of(i: Info) -> Seq<u8> {
    match i {
        Info::Single(s) => s.pieces@,
        Info::Multiple(m) => m.pieces@,
    }
}

/// The piece size of a descriptor.
pub open spec fn piece_length_of(i: Info) -> u64 {
    match i {
        Info::Single(s) => s.piece_length,
        Info::Multiple(m) => m.piece_length,
    }
}

/// The sum of the per-file lengths.
pub open spec fn sum_lengths(fs: Seq<InfoFile>) -> int
    decreases fs,
{
    if fs.len() == 0 {
        0
    } else {
        sum_lengths(fs.drop_last()) + fs.last().length
    }
}

/// The total content length: the `length` field for a single-file
/// descriptor, the sum of the per-file lengths for a multi-file one.
pub open spec fn total_length_of(i: Info) -> int {
    match i {
        Info::Single(s) => s.length as int,
        Info::Multiple(m) => sum_lengths(m.files@),
    }
}

/// A validly-decoded descriptor: the concatenated piece hashes split into
/// whole 20-byte hashes, and the total length fits 64 bits.
pub open spec fn wf_info(i: Info) -> bool {
    &&& pieces_of(i).len() % 20 == 0
    &&& 0 <= total_length_of(i) <= u64::MAX
}

proof fn lemma_sum_prefix_le(fs: Seq<InfoFile>, k: int)
    requires
        0 <= k <= fs.len(),
    ensures
        sum_lengths(fs.take(k)) <= sum_lengths(fs),
    decreases fs.len() - k,
{
    if k == fs.len() {
        assert(fs.take(k) =~= fs);
    } else {
        lemma_sum_prefix_le(fs, k + 1);
        assert(fs.take(k + 1).drop_last() =~= fs.take(k));
        assert(fs.take(k + 1).last() == fs[k]);
    }
}

impl Info {
    /// The piece size.
    pub fn piece_length(&self) -> (r: u64)
        ensures
            r == piece_length_of(*self),
    {
        match self {
            Info::Single(s) => s.piece_length,
            Info::Multiple(m) => m.piece_length,
        }
    }

    /// How many pieces the content has: the length of `pieces` divided by
    /// 20. On a validly-decoded descriptor the division is exact:
    /// `r * 20` is the byte length of `pieces`.
    pub fn piece_count(&self) -> (r: usize)
        ensures
            r == pieces_of(*self).len() / 20,
            wf_info(*self) ==> r * 20 == pieces_of(*self).len(),
    {
        let r = match self {
            Info::Single(s) => s.pieces.len() / 20,
            Info::Multiple(m) => m.pieces.len() / 20,
        };
        r
    }

    /// The total content length; equals the sum of the per-file lengths
    /// for a multi-file descriptor and the `length` field otherwise.
    #[verifier::loop_isolation(false)]
    pub fn total_length(&self) -> (r: u64)
        requires
            wf_info(*self),
        ensures
            r as int == total_length_of(*self),
    {
        match self {
            Info::Single(s) => s.length,
            Info::Multiple(m) => {
                let mut acc: u64 = 0;
                let mut k: usize = 0;
                while k < m.files.len()
                    invariant
                        k <= m.files@.len(),
                        acc as int == sum_lengths(m.files@.take(k as int)),
                    decreases m.files@.len() - k,
                {
                    proof {
                        lemma_sum_prefix_le(m.files@, k + 1);
                        assert(m.files@.take(k + 1).drop_last() =~= m.files@.take(k as int));
                        assert(m.files@.take(k + 1).last() == m.files@[k as int]);
                    }
                    acc = acc + m.files[k].length;
                    k = k + 1;
                }
                proof {
                    assert(m.files@.take(m.files@.len() as int) =~= m.files@);
                }
                acc
            },
        }
    }
}

/// Appends `i<digits>e` for an unsigned integer.
fn push_u64_int(n: u64, out: &mut Vec<u8>)
    ensures
        final(out)@ == old(out)@ + int_enc(n as int),
{
    out.push(105);
    push_u64_digits(n, out);
    out.push(101);
    assert(out@ =~= old(out)@ + int_enc(n as int));
}

proof fn lemma_path_enc_snoc(ps: Seq<Vec<u8>>)
    requires
        ps.len() >= 1,
    ensures
        path_enc(ps) == path_enc(ps.drop_last()) + str_enc(ps.last()@),
    decreases ps.len(),
{
    if ps.len() == 1 {
        assert(ps.drop_first() =~= Seq::<Vec<u8>>::empty());
        assert(ps.drop_last() =~= Seq::<Vec<u8>>::empty());
        assert(path_enc(ps) =~= path_enc(ps.drop_last()) + str_enc(ps.last()@));
    } else {
        let tail = ps.drop_first();
        lemma_path_enc_snoc(tail);
        assert(tail.drop_last() =~= ps.drop_last().drop_first());
        assert(ps.drop_last()[0] == ps[0]);
        assert(path_enc(ps) =~= path_enc(ps.drop_last()) + str_enc(ps.last()@));
    }
}

proof fn lemma_files_enc_snoc(fs: Seq<InfoFile>)
    requires
        fs.len() >= 1,
    ensures
        files_enc(fs) == files_enc(fs.drop_last()) + file_enc(fs.last()),
    decreases fs.len(),
{
    if fs.len() == 1 {
        assert(fs.drop_first() =~= Seq::<InfoFile>::empty());
        assert(fs.drop_last() =~= Seq::<InfoFile>::empty());
        assert(files_enc(fs) =~= files_enc(fs.drop_last()) + file_enc(fs.last()));
    } else {
        let tail = fs.drop_first();
        lemma_files_enc_snoc(tail);
        assert(tail.drop_last() =~= fs.drop_last().drop_first());
        assert(fs.drop_last()[0] == fs[0]);
        assert(files_enc(fs) =~= files_enc(fs.drop_last()) + file_enc(fs.last()));
    }
}

/// Appends the canonical encoding of one file entry.
#[verifier::loop_isolation(false)]
fn push_file_enc(f: &InfoFile, out: &mut Vec<u8>)
    ensures
        final(out)@ == old(out)@ + file_enc(*f),
{
    out.push(100);
    let kl = [108, 101, 110, 103, 116, 104];
    proof {
        assert(kl@ =~= kw_length());
    }
    push_str_enc(kl.as_slice(), out);
    push_u64_int(f.length, out);
    let kp = [112, 97, 116, 104];
    proof {
        assert(kp@ =~= kw_path());
    }
    push_str_enc(kp.as_slice(), out);
    out.push(108);
    let ghost head = out@;
    let mut k: usize = 0;
    while k < f.path.len()
        invariant
            k <= f.path@.len(),
            out@ == head + path_enc(f.path@.take(k as int)),
        decreases f.path@.len() - k,
    {
        push_str_enc(f.path[k].as_slice(), out);
        proof {
            lemma_path_enc_snoc(f.path@.take(k + 1));
            assert(f.path@.take(k + 1).drop_last() =~= f.path@.take(k as int));
            assert(f.path@.take(k + 1).last() == f.path@[k as int]);
            assert(out@ =~= head + path_enc(f.path@.take(k + 1)));
        }
        k = k + 1;
    }
    out.push(101);
    out.push(101);
    proof {
        assert(f.path@.take(f.path@.len() as int) =~= f.path@);
        assert(out@ =~= old(out)@ + file_enc(*f));
    }
}

/// The canonical bencode encoding of the `info` dictionary, with its
/// fixed key order; re-encoding a decoded descriptor reproduces the bytes
/// the hash is taken over.
#[verifier::loop_isolation(false)]
#[verifier::rlimit(30)]
pub fn encode_info(i: &Info) -> (r: Vec<u8>)
    ensures
        r@ == info_enc(*i),
{
    let mut out: Vec<u8> = Vec::new();
    out.push(100);
    match i {
        Info::Single(s) => {
            let kl = [108, 101, 110, 103, 116, 104];
            proof {
                assert(kl@ =~= kw_length());
            }
            push_str_enc(kl.as_slice(), &mut out);
            push_u64_int(s.length, &mut out);
            let kn = [110, 97, 109, 101];
            proof {
                assert(kn@ =~= kw_name());
            }
            push_str_enc(kn.as_slice(), &mut out);
            push_str_enc(s.name.as_slice(), &mut out);
            let kpl = [112, 105, 101, 99, 101, 32, 108, 101, 110, 103, 116, 104];
            proof {
                assert(kpl@ =~= kw_piece_length());
            }
            push_str_enc(kpl.as_slice(), &mut out);
            push_u64_int(s.piece_length, &mut out);
            let kps = [112, 105, 101, 99, 101, 115];
            proof {
                assert(kps@ =~= kw_pieces());
            }
            push_str_enc(kps.as_slice(), &mut out);
            push_str_enc(s.pieces.as_slice(), &mut out);
            match &s.private {
                Option::None => {},
                Option::Some(p) => {
                    let kpr = [112, 114, 105, 118, 97, 116, 101];
                    proof {
                        assert(kpr@ =~= kw_private());
                    }
                    push_str_enc(kpr.as_slice(), &mut out);
                    push_u64_int(*p as u64, &mut out);
                },
            }
            out.push(101);
            proof {
                assert(out@ =~= info_enc(*i));
            }
        },
        Info::Multiple(m) => {
            let kf = [102, 105, 108, 101, 115];
            proof {
                assert(kf@ =~= kw_files());
            }
            push_str_enc(kf.as_slice(), &mut out);
            out.push(108);
            let ghost head = out@;
            let mut k: usize = 0;
            while k < m.files.len()
                invariant
                    k <= m.files@.len(),
                    out@ == head + files_enc(m.files@.take(k as int)),
                decreases m.files@.len() - k,
            {
                push_file_enc(&m.files[k], &mut out);
                proof {
                    lemma_files_enc_snoc(m.files@.take(k + 1));
                    assert(m.files@.take(k + 1).drop_last() =~= m.files@.take(k as int));
                    assert(m.files@.take(k + 1).last() == m.files@[k as int]);
                    assert(out@ =~= head + files_enc(m.files@.take(k + 1)));
                }
                k = k + 1;
            }
            out.push(101);
            proof {
                assert(m.files@.take(m.files@.len() as int) =~= m.files@);
            }
            let kn = [110, 97, 109, 101];
            proof {
                assert(kn@ =~= kw_name());
            }
            push_str_enc(kn.as_slice(), &mut out);
            push_str_enc(m.name.as_slice(), &mut out);
            let kpl = [112, 105, 101, 99, 101, 32, 108, 101, 110, 103, 116, 104];
            proof {
                assert(kpl@ =~= kw_piece_length());
            }
            push_str_enc(kpl.as_slice(), &mut out);
            push_u64_int(m.piece_length, &mut out);
            let kps = [112, 105, 101, 99, 101, 115];
            proof {
                assert(kps@ =~= kw_pieces());
            }
            push_str_enc(kps.as_slice(), &mut out);
            push_str_enc(m.pieces.as_slice(), &mut out);
            match &m.private {
                Option::None => {},
                Option::Some(p) => {
                    let kpr = [112, 114, 105, 118, 97, 116, 101];
                    proof {
                        assert(kpr@ =~= kw_private());
                    }
                    push_str_enc(kpr.as_slice(), &mut out);
                    push_u64_int(*p as u64, &mut out);
                },
            }
            out.push(101);
            proof {
                assert(out@ =~= info_enc(*i));
            }
        },
    }
    out
}

/// What the SHA-1 digest of a byte sequence is; a function of the bytes
/// alone, computed by an outside library.
pub uninterp spec fn sha1_of(data: Seq<u8>) -> Seq<u8>;

/// Relies on `ring::digest::digest` with `SHA1_FOR_LEGACY_USE_ONLY`: the
/// 20-byte SHA-1 digest of the input, a function of the input alone. The
/// library panics when the input's bit length overflows 64 bits, so
/// inputs of 2^61 bytes or more are excluded.
#[verifier::external_body]
fn sha1(data: &[u8]) -> (r: Vec<u8>)
    requires
        data@.len() < 0x2000000000000000,
    ensures
        r@ == sha1_of(data@),
        r@.len() == 20,
{
    ring::digest::digest(&ring::digest::SHA1_FOR_LEGACY_USE_ONLY, data)
        .as_ref()
        .to_vec()
}

impl TorrentFile {
    /// The 20-byte info-hash: SHA-1 over the canonical re-encoding of the
    /// `info` dictionary. A pure function of the descriptor. The encoding
    /// must be shorter than the hash function's 2^61-byte input limit;
    /// every descriptor that fits in memory today is far below it.
    pub fn info_hash(&self) -> (r: Vec<u8>)
        requires
            info_enc(self.info).len() < 0x2000000000000000,
        ensures
            r@ == sha1_of(info_enc(self.info)),
            r@.len() == 20,
    {
        let e = encode_info(&self.info);
        sha1(e.as_slice())
    }
}


/// Whether every element of a path list is a byte string.
pub open spec fn path_ok(ps: Seq<Bvalue>) -> bool {
    forall|k: int| 0 <= k < ps.len() ==> (#[trigger] ps[k]) is Bytes
}

/// A path list and its extracted segments agree element by element.
pub open spec fn path_shape(ps: Seq<Bvalue>, path: Seq<Vec<u8>>) -> bool {
    &&& ps.len() == path.len()
    &&& forall|k: int|
        0 <= k < ps.len() ==> ((#[trigger] ps[k]) matches Bvalue::Bytes(b) && path[k]@ == b@)
}

/// Whether a bencode value decodes as a file entry: a dictionary whose
/// `length` entry is a non-negative integer and whose `path` entry is a
/// list of byte strings. Other entries are ignored.
pub open spec fn file_ok(v: Bvalue) -> bool {
    &&& v matches Bvalue::Dict(es)
    &&& dict_get(es@, kw_length()) matches Option::Some(lv) && lv matches Bvalue::Int(n)
        && n >= 0
    &&& dict_get(es@, kw_path()) matches Option::Some(pv) && pv matches Bvalue::List(ps)
        && path_ok(ps@)
}

/// A file-entry value and the extracted file agree, field by field.
pub open spec fn file_fields(v: Bvalue, f: InfoFile) -> bool {
    &&& v matches Bvalue::Dict(es)
    &&& dict_get(es@, kw_length()) matches Option::Some(lv) && lv matches Bvalue::Int(n)
        && f.length == n
    &&& dict_get(es@, kw_path()) matches Option::Some(pv) && pv matches Bvalue::List(ps)
        && path_shape(ps@, f.path@)
}

/// The `length` field of a decodable file entry.
pub open spec fn bfile_length(v: Bvalue) -> int {
    match dict_get(v->Dict_0@, kw_length()) {
        Option::Some(lv) => lv->Int_0 as int,
        Option::None => 0,
    }
}

/// Whether every element is a decodable file entry.
pub open spec fn files_ok(items: Seq<Bvalue>) -> bool {
    forall|k: int| 0 <= k < items.len() ==> file_ok(#[trigger] items[k])
}

/// File-entry values and extracted files agree pointwise.
pub open spec fn files_fields(items: Seq<Bvalue>, fs: Seq<InfoFile>) -> bool {
    &&& items.len() == fs.len()
    &&& forall|k: int| 0 <= k < items.len() ==> file_fields(#[trigger] items[k], fs[k])
}

/// The sum of the length fields of a list of file entries.
pub open spec fn bfiles_sum(items: Seq<Bvalue>) -> int
    decreases items,
{
    if items.len() == 0 {
        0
    } else {
        bfiles_sum(items.drop_last()) + bfile_length(items.last())
    }
}

/// The fields shared by both `info` candidates: a byte-string `name`, a
/// non-negative integer `piece length`, a byte-string `pieces`, and an
/// optional small-integer `private`. Other entries are ignored.
pub open spec fn tail_ok(es: Seq<(Vec<u8>, Bvalue)>) -> bool {
    &&& dict_get(es, kw_name()) matches Option::Some(nv) && nv is Bytes
    &&& dict_get(es, kw_piece_length()) matches Option::Some(plv)
        && (plv matches Bvalue::Int(pl) && pl >= 0)
    &&& dict_get(es, kw_pieces()) matches Option::Some(pv) && pv is Bytes
    &&& match dict_get(es, kw_private()) {
        Option::None => true,
        Option::Some(prv) => prv matches Bvalue::Int(p) && 0 <= p <= 255,
    }
}

/// The single-file candidate: the shared fields plus a non-negative
/// integer `length`. It is attempted first; a dictionary matching both
/// candidates decodes as single-file.
pub open spec fn single_ok(es: Seq<(Vec<u8>, Bvalue)>) -> bool {
    &&& tail_ok(es)
    &&& dict_get(es, kw_length()) matches Option::Some(lv) && lv matches Bvalue::Int(n)
        && n >= 0
}

/// The multi-file candidate: the shared fields plus a `files` list of
/// file entries.
pub open spec fn multiple_ok(es: Seq<(Vec<u8>, Bvalue)>) -> bool {
    &&& tail_ok(es)
    &&& dict_get(es, kw_files()) matches Option::Some(fv) && fv matches Bvalue::List(items)
        && files_ok(items@)
}

/// Whether a bencode value decodes as an `info` dictionary: one of the
/// two candidate shapes, a `pieces` length that is a multiple of 20, and
/// for the multi-file outcome a total length that fits 64 bits.
pub open spec fn info_ok(v: Bvalue) -> bool {
    &&& v matches Bvalue::Dict(es)
    &&& single_ok(es@) || multiple_ok(es@)
    &&& dict_get(es@, kw_pieces()) matches Option::Some(pv) && pv->Bytes_0@.len() % 20 == 0
    &&& !single_ok(es@) ==> bfiles_sum(dict_get(es@, kw_files())->Some_0->List_0@)
        <= u64::MAX
}

/// The `name` bytes of a descriptor.
pub open spec fn name_of(i: Info) -> Seq<u8> {
    match i {
        Info::Single(s) => s.name@,
        Info::Multiple(m) => m.name@,
    }
}

/// The `private` flag of a descriptor.
pub open spec fn private_of(i: Info) -> Option<u8> {
    match i {
        Info::Single(s) => s.private,
        Info::Multiple(m) => m.private,
    }
}

/// An `info` value and the extracted descriptor agree: the variant
/// follows the candidate order (single-file exactly when that candidate
/// matches), and every field equals the corresponding entry.
pub open spec fn info_fields(v: Bvalue, i: Info) -> bool {
    &&& v matches Bvalue::Dict(es)
    &&& (i is Single <==> single_ok(es@))
    &&& dict_get(es@, kw_name()) matches Option::Some(nv)
        && (nv matches Bvalue::Bytes(nb) && name_of(i) == nb@)
    &&& dict_get(es@, kw_piece_length()) matches Option::Some(plv)
        && (plv matches Bvalue::Int(pl) && piece_length_of(i) == pl)
    &&& dict_get(es@, kw_pieces()) matches Option::Some(pv)
        && (pv matches Bvalue::Bytes(pb) && pieces_of(i) == pb@)
    &&& match dict_get(es@, kw_private()) {
        Option::None => private_of(i) is None,
        Option::Some(prv) => prv matches Bvalue::Int(p)
            && private_of(i) == Option::Some(p as u8),
    }
    &&& match i {
        Info::Single(s) => dict_get(es@, kw_length()) matches Option::Some(lv)
            && (lv matches Bvalue::Int(n) && s.length == n),
        Info::Multiple(m) => dict_get(es@, kw_files()) matches Option::Some(fv)
            && (fv matches Bvalue::List(items) && files_fields(items@, m.files@)),
    }
}

/// The exact canonical file-entry shape: the keys `length` and `path`
/// and nothing else, in sorted order.
pub open spec fn file_canonical(v: Bvalue) -> bool {
    &&& v matches Bvalue::Dict(es)
    &&& es@.len() == 2
    &&& es@[0].0@ == kw_length()
    &&& es@[0].1 matches Bvalue::Int(n) && n >= 0
    &&& es@[1].0@ == kw_path()
    &&& es@[1].1 matches Bvalue::List(ps) && path_ok(ps@)
}

/// Whether every element is a canonical file entry.
pub open spec fn files_canonical(items: Seq<Bvalue>) -> bool {
    forall|k: int| 0 <= k < items.len() ==> file_canonical(#[trigger] items[k])
}

/// The trailing canonical entries shared by both `info` variants:
/// `name`, `piece length`, `pieces`, and an optional `private`, in
/// sorted order and nothing else.
pub open spec fn info_tail_canonical(es: Seq<(Vec<u8>, Bvalue)>) -> bool {
    &&& es.len() == 4 || es.len() == 5
    &&& es[1].0@ == kw_name()
    &&& es[1].1 is Bytes
    &&& es[2].0@ == kw_piece_length()
    &&& es[2].1 matches Bvalue::Int(pl) && pl >= 0
    &&& es[3].0@ == kw_pieces()
    &&& es[3].1 is Bytes
    &&& es.len() == 5 ==> es[4].0@ == kw_private() && (es[4].1 matches Bvalue::Int(p)
        && 0 <= p <= 255)
}

/// The exact canonical single-file shape: a `length` entry first, then
/// the shared tail.
pub open spec fn single_canonical(es: Seq<(Vec<u8>, Bvalue)>) -> bool {
    &&& info_tail_canonical(es)
    &&& es[0].0@ == kw_length()
    &&& es[0].1 matches Bvalue::Int(n) && n >= 0
}

/// The exact canonical multi-file shape: a `files` entry of canonical
/// file entries first, then the shared tail.
pub open spec fn multiple_canonical(es: Seq<(Vec<u8>, Bvalue)>) -> bool {
    &&& info_tail_canonical(es)
    &&& es[0].0@ == kw_files()
    &&& es[0].1 matches Bvalue::List(items) && files_canonical(items@)
}

/// The exact canonical `info` shape: only the modeled keys, in sorted
/// order. A decoded value of this shape re-encodes byte-identically.
pub open spec fn info_canonical(v: Bvalue) -> bool {
    &&& v matches Bvalue::Dict(es)
    &&& single_canonical(es@) || multiple_canonical(es@)
}

proof fn lemma_bfiles_sum_prefix(items: Seq<Bvalue>, k: int)
    requires
        0 <= k <= items.len(),
        forall|j: int| 0 <= j < items.len() ==> bfile_length(#[trigger] items[j]) >= 0,
    ensures
        bfiles_sum(items.take(k)) <= bfiles_sum(items),
    decreases items.len() - k,
{
    if k == items.len() {
        assert(items.take(k) =~= items);
    } else {
        lemma_bfiles_sum_prefix(items, k + 1);
        assert(items.take(k + 1).drop_last() =~= items.take(k));
        assert(items.take(k + 1).last() == items[k]);
    }
}

proof fn lemma_enc_dict2(es: Seq<(Vec<u8>, Bvalue)>)
    requires
        es.len() == 2,
    ensures
        enc_dict(es) == str_enc(es[0].0@) + enc(es[0].1) + str_enc(es[1].0@) + enc(es[1].1),
{
    let e1 = es.drop_first();
    assert(e1[0] == es[1]);
    assert(e1.drop_first() =~= Seq::<(Vec<u8>, Bvalue)>::empty());
    assert(enc_dict(e1.drop_first()) == Seq::<u8>::empty());
    assert(enc_dict(e1) == str_enc(e1[0].0@) + enc(e1[0].1) + enc_dict(e1.drop_first()));
    assert(enc_dict(es) == str_enc(es[0].0@) + enc(es[0].1) + enc_dict(e1));
    assert(enc_dict(es) =~= str_enc(es[0].0@) + enc(es[0].1) + str_enc(es[1].0@)
        + enc(es[1].1));
}

#[verifier::rlimit(100)]
#[verifier::spinoff_prover]
proof fn lemma_enc_dict45(es: Seq<(Vec<u8>, Bvalue)>)
    requires
        es.len() == 4 || es.len() == 5,
    ensures
        es.len() == 4 ==> enc_dict(es) == str_enc(es[0].0@) + enc(es[0].1)
            + str_enc(es[1].0@) + enc(es[1].1) + str_enc(es[2].0@) + enc(es[2].1)
            + str_enc(es[3].0@) + enc(es[3].1),
        es.len() == 5 ==> enc_dict(es) == str_enc(es[0].0@) + enc(es[0].1)
            + str_enc(es[1].0@) + enc(es[1].1) + str_enc(es[2].0@) + enc(es[2].1)
            + str_enc(es[3].0@) + enc(es[3].1) + str_enc(es[4].0@) + enc(es[4].1),
{
    let e1 = es.drop_first();
    let e2 = e1.drop_first();
    let e3 = e2.drop_first();
    let e4 = e3.drop_first();
    assert(e1[0] == es[1] && e2[0] == es[2] && e3[0] == es[3]);
    assert(enc_dict(es) == str_enc(es[0].0@) + enc(es[0].1) + enc_dict(e1));
    assert(enc_dict(e1) == str_enc(e1[0].0@) + enc(e1[0].1) + enc_dict(e2));
    assert(enc_dict(e2) == str_enc(e2[0].0@) + enc(e2[0].1) + enc_dict(e3));
    assert(enc_dict(e3) == str_enc(e3[0].0@) + enc(e3[0].1) + enc_dict(e4));
    if es.len() == 4 {
        assert(e4 =~= Seq::<(Vec<u8>, Bvalue)>::empty());
        assert(enc_dict(e4) == Seq::<u8>::empty());
        assert(enc_dict(es) =~= str_enc(es[0].0@) + enc(es[0].1) + str_enc(es[1].0@)
            + enc(es[1].1) + str_enc(es[2].0@) + enc(es[2].1) + str_enc(es[3].0@)
            + enc(es[3].1));
    } else {
        assert(e4[0] == es[4]);
        assert(e4.drop_first() =~= Seq::<(Vec<u8>, Bvalue)>::empty());
        assert(enc_dict(e4.drop_first()) == Seq::<u8>::empty());
        assert(enc_dict(e4) == str_enc(e4[0].0@) + enc(e4[0].1) + enc_dict(e4.drop_first()));
        assert(enc_dict(es) =~= str_enc(es[0].0@) + enc(es[0].1) + str_enc(es[1].0@)
            + enc(es[1].1) + str_enc(es[2].0@) + enc(es[2].1) + str_enc(es[3].0@)
            + enc(es[3].1) + str_enc(es[4].0@) + enc(es[4].1));
    }
}


proof fn lemma_path_enc_from_shape(ps: Seq<Bvalue>, path: Seq<Vec<u8>>)
    requires
        path_shape(ps, path),
    ensures
        enc_list(ps) == path_enc(path),
    decreases ps.len(),
{
    if ps.len() == 0 {
        assert(path =~= Seq::<Vec<u8>>::empty());
    } else {
        assert(path_shape(ps.drop_first(), path.drop_first())) by {
            assert forall|k: int| 0 <= k < ps.drop_first().len()
                implies ((#[trigger] ps.drop_first()[k]) matches Bvalue::Bytes(b)
                    && path.drop_first()[k]@ == b@) by {
                assert(ps.drop_first()[k] == ps[k + 1]);
                assert(path.drop_first()[k] == path[k + 1]);
            }
        }
        lemma_path_enc_from_shape(ps.drop_first(), path.drop_first());
        assert(path[0]@ == ps[0]->Bytes_0@);
        assert(enc(ps[0]) == str_enc(path[0]@));
    }
}

#[verifier::rlimit(100)]
#[verifier::spinoff_prover]
proof fn lemma_file_canonical_enc(v: Bvalue, f: InfoFile)
    requires
        file_canonical(v),
        file_fields(v, f),
    ensures
        enc(v) == file_enc(f),
{
    let es = v->Dict_0;
    assert(kw_length() != kw_path());
    assert(dict_get(es@, kw_length()) == Option::Some(es@[0].1));
    assert(dict_get(es@, kw_path()) == dict_get(es@.drop_first(), kw_path()));
    assert(es@.drop_first()[0] == es@[1]);
    assert(dict_get(es@, kw_path()) == Option::Some(es@[1].1));
    let ps = es@[1].1->List_0;
    lemma_path_enc_from_shape(ps@, f.path@);
    lemma_enc_dict2(es@);
    assert(enc(es@[1].1) == seq![108u8] + path_enc(f.path@) + seq![101u8]);
    assert(enc(v) =~= file_enc(f));
}

proof fn lemma_files_enc_from_fields(items: Seq<Bvalue>, fs: Seq<InfoFile>)
    requires
        files_canonical(items),
        files_fields(items, fs),
    ensures
        enc_list(items) == files_enc(fs),
    decreases items.len(),
{
    if items.len() == 0 {
        assert(fs =~= Seq::<InfoFile>::empty());
    } else {
        assert(files_canonical(items.drop_first())) by {
            assert forall|k: int| 0 <= k < items.drop_first().len()
                implies file_canonical(#[trigger] items.drop_first()[k]) by {
                assert(items.drop_first()[k] == items[k + 1]);
            }
        }
        assert(files_fields(items.drop_first(), fs.drop_first())) by {
            assert forall|k: int| 0 <= k < items.drop_first().len()
                implies file_fields(#[trigger] items.drop_first()[k],
                fs.drop_first()[k]) by {
                assert(items.drop_first()[k] == items[k + 1]);
                assert(fs.drop_first()[k] == fs[k + 1]);
            }
        }
        lemma_files_enc_from_fields(items.drop_first(), fs.drop_first());
        lemma_file_canonical_enc(items[0], fs[0]);
        assert(fs.drop_first()[0 - 0] == fs[1] || fs.len() == 1);
        assert(files_enc(fs) == file_enc(fs[0]) + files_enc(fs.drop_first()));
    }
}

#[verifier::rlimit(100)]
#[verifier::spinoff_prover]
proof fn lemma_canonical_gets(es: Seq<(Vec<u8>, Bvalue)>)
    requires
        single_canonical(es) || multiple_canonical(es),
    ensures
        single_canonical(es) ==> dict_get(es, kw_length()) == Option::Some(es[0].1)
            && dict_get(es, kw_files()) is None,
        multiple_canonical(es) ==> dict_get(es, kw_files()) == Option::Some(es[0].1)
            && dict_get(es, kw_length()) is None,
        dict_get(es, kw_name()) == Option::Some(es[1].1),
        dict_get(es, kw_piece_length()) == Option::Some(es[2].1),
        dict_get(es, kw_pieces()) == Option::Some(es[3].1),
        es.len() == 5 ==> dict_get(es, kw_private()) == Option::Some(es[4].1),
        es.len() == 4 ==> dict_get(es, kw_private()) is None,
{
    assert(kw_length()[0] != kw_pieces()[0]);
    assert(kw_length() != kw_pieces());
    let e1 = es.drop_first();
    let e2 = e1.drop_first();
    let e3 = e2.drop_first();
    let e4 = e3.drop_first();
    assert(e1[0] == es[1] && e2[0] == es[2] && e3[0] == es[3]);
    if es.len() == 5 {
        assert(e4[0] == es[4]);
        assert(e4.drop_first() =~= Seq::<(Vec<u8>, Bvalue)>::empty());
    } else {
        assert(e4 =~= Seq::<(Vec<u8>, Bvalue)>::empty());
    }
    assert(dict_get(es, kw_name()) == dict_get(e1, kw_name()));
    assert(dict_get(e1, kw_name()) == Option::Some(es[1].1));
    assert(dict_get(es, kw_piece_length()) == dict_get(e1, kw_piece_length()));
    assert(dict_get(e1, kw_piece_length()) == dict_get(e2, kw_piece_length()));
    assert(dict_get(e2, kw_piece_length()) == Option::Some(es[2].1));
    assert(dict_get(es, kw_pieces()) == dict_get(e1, kw_pieces()));
    assert(dict_get(e1, kw_pieces()) == dict_get(e2, kw_pieces()));
    assert(dict_get(e2, kw_pieces()) == dict_get(e3, kw_pieces()));
    assert(dict_get(e3, kw_pieces()) == Option::Some(es[3].1));
    assert(dict_get(es, kw_private()) == dict_get(e1, kw_private()));
    assert(dict_get(e1, kw_private()) == dict_get(e2, kw_private()));
    assert(dict_get(e2, kw_private()) == dict_get(e3, kw_private()));
    assert(dict_get(e3, kw_private()) == dict_get(e4, kw_private()));
    if es.len() == 5 {
        assert(dict_get(e4, kw_private()) == Option::Some(es[4].1));
    } else {
        assert(dict_get(e4, kw_private()) is None);
    }
    if single_canonical(es) {
        assert(dict_get(es, kw_length()) == Option::Some(es[0].1));
        assert(dict_get(es, kw_files()) == dict_get(e1, kw_files()));
        assert(dict_get(e1, kw_files()) == dict_get(e2, kw_files()));
        assert(dict_get(e2, kw_files()) == dict_get(e3, kw_files()));
        assert(dict_get(e3, kw_files()) == dict_get(e4, kw_files()));
        if es.len() == 5 {
            assert(dict_get(e4, kw_files()) == dict_get(e4.drop_first(), kw_files()));
        }
        assert(dict_get(es, kw_files()) is None);
    } else {
        assert(dict_get(es, kw_files()) == Option::Some(es[0].1));
        assert(dict_get(es, kw_length()) == dict_get(e1, kw_length()));
        assert(dict_get(e1, kw_length()) == dict_get(e2, kw_length()));
        assert(dict_get(e2, kw_length()) == dict_get(e3, kw_length()));
        assert(dict_get(e3, kw_length()) == dict_get(e4, kw_length()));
        if es.len() == 5 {
            assert(dict_get(e4, kw_length()) == dict_get(e4.drop_first(), kw_length()));
        }
        assert(dict_get(es, kw_length()) is None);
    }
}




proof fn lemma_info_single_enc(v: Bvalue, i: InfoSingle)
    requires
        ({
            &&& v matches Bvalue::Dict(es)
            &&& es@.len() == 4 || es@.len() == 5
            &&& es@[0].0@ == kw_length()
            &&& es@[0].1 matches Bvalue::Int(n) && n >= 0 && i.length == n
            &&& es@[1].0@ == kw_name()
            &&& es@[1].1 matches Bvalue::Bytes(nb) && i.name@ == nb@
            &&& es@[2].0@ == kw_piece_length()
            &&& es@[2].1 matches Bvalue::Int(pl) && pl >= 0 && i.piece_length == pl
            &&& es@[3].0@ == kw_pieces()
            &&& es@[3].1 matches Bvalue::Bytes(pb) && i.pieces@ == pb@
            &&& es@.len() == 5 ==> es@[4].0@ == kw_private() && (es@[4].1
                matches Bvalue::Int(p) && 0 <= p <= 255 && i.private == Option::Some(p as u8))
            &&& es@.len() == 4 ==> i.private is None
        }),
    ensures
        enc(v) == info_enc(Info::Single(i)),
{
    let es = v->Dict_0;
    lemma_enc_dict45(es@);
    assert(enc(v) =~= info_enc(Info::Single(i)));
}

#[verifier::rlimit(100)]
#[verifier::spinoff_prover]
proof fn lemma_info_multiple_enc(v: Bvalue, i: InfoMultiple)
    requires
        ({
            &&& v matches Bvalue::Dict(es)
            &&& es@.len() == 4 || es@.len() == 5
            &&& es@[0].0@ == kw_files()
            &&& es@[0].1 matches Bvalue::List(items) && enc_list(items@) == files_enc(i.files@)
            &&& es@[1].0@ == kw_name()
            &&& es@[1].1 matches Bvalue::Bytes(nb) && i.name@ == nb@
            &&& es@[2].0@ == kw_piece_length()
            &&& es@[2].1 matches Bvalue::Int(pl) && pl >= 0 && i.piece_length == pl
            &&& es@[3].0@ == kw_pieces()
            &&& es@[3].1 matches Bvalue::Bytes(pb) && i.pieces@ == pb@
            &&& es@.len() == 5 ==> es@[4].0@ == kw_private() && (es@[4].1
                matches Bvalue::Int(p) && 0 <= p <= 255 && i.private == Option::Some(p as u8))
            &&& es@.len() == 4 ==> i.private is None
        }),
    ensures
        enc(v) == info_enc(Info::Multiple(i)),
{
    let es = v->Dict_0;
    lemma_enc_dict45(es@);
    let items = es@[0].1->List_0;
    assert(enc(es@[0].1) == seq![108u8] + files_enc(i.files@) + seq![101u8]);
    assert(enc(v) =~= info_enc(Info::Multiple(i)));
}

/// Extracts one file entry from its decoded bencode value, reading the
/// dictionary by key: unknown keys are ignored. Succeeds exactly on the
/// file-entry shape.
#[verifier::loop_isolation(false)]
#[verifier::rlimit(100)]
fn file_from_bvalue(v: &Bvalue) -> (res: Result<InfoFile, DecodeError>)
    ensures
        res matches Ok(f) ==> file_fields(*v, f) && f.length as int == bfile_length(*v),
        res is Ok <==> file_ok(*v),
{
    let es = match v {
        Bvalue::Dict(es) => es,
        _ => {
            return Result::Err(DecodeError::Shape(Field::Files));
        },
    };
    let kl = [108, 101, 110, 103, 116, 104];
    let kp = [112, 97, 116, 104];
    proof {
        assert(kl@ =~= kw_length());
        assert(kp@ =~= kw_path());
    }
    let length: u64 = match lookup(es, kl.as_slice()) {
        Option::Some(Bvalue::Int(n)) => {
            if *n < 0 {
                return Result::Err(DecodeError::Shape(Field::Length));
            }
            *n as u64
        },
        _ => {
            return Result::Err(DecodeError::Shape(Field::Length));
        },
    };
    match lookup(es, kp.as_slice()) {
        Option::Some(Bvalue::List(ps)) => {
            let mut path: Vec<Vec<u8>> = Vec::new();
            let mut k: usize = 0;
            while k < ps.len()
                invariant
                    k <= ps@.len(),
                    path@.len() == k,
                    path_shape(ps@.take(k as int), path@),
                decreases ps@.len() - k,
            {
                match &ps[k] {
                    Bvalue::Bytes(b) => {
                        let seg = copy_bytes(b.as_slice());
                        proof {
                            assert(path_shape(ps@.take(k + 1), path@.push(seg))) by {
                                assert(ps@.take(k + 1)[k as int] == ps@[k as int]);
                                assert forall|j: int| 0 <= j < k + 1
                                    implies ((#[trigger] ps@.take(k + 1)[j])
                                        matches Bvalue::Bytes(bb)
                                        && path@.push(seg)[j]@ == bb@) by {
                                    assert(ps@.take(k + 1)[j] == ps@[j]);
                                    if j < k {
                                        assert(ps@.take(k as int)[j] == ps@[j]);
                                    }
                                }
                            }
                        }
                        path.push(seg);
                    },
                    _ => {
                        proof {
                            assert(!path_ok(ps@));
                        }
                        return Result::Err(DecodeError::Shape(Field::FilePath));
                    },
                }
                k = k + 1;
            }
            let f = InfoFile { length, path };
            proof {
                assert(ps@.take(ps@.len() as int) =~= ps@);
                assert(file_fields(*v, f));
                assert(file_ok(*v));
            }
            Result::Ok(f)
        },
        _ => Result::Err(DecodeError::Shape(Field::FilePath)),
    }
}

/// Extracts the `info` dictionary from its decoded bencode value. The
/// dictionary is read by key; unknown keys are ignored. The single-file
/// candidate is attempted first: a dictionary matching both candidate
/// shapes decodes as single-file. Succeeds exactly on the decodable
/// shapes with valid `pieces` and a 64-bit total length. When the
/// dictionary is exactly canonical, the result re-encodes byte-exactly
/// to the input.
#[verifier::loop_isolation(false)]
#[verifier::rlimit(100)]
pub fn info_from_bvalue(v: &Bvalue) -> (res: Result<Info, DecodeError>)
    ensures
        res matches Ok(i) ==> wf_info(i) && info_fields(*v, i),
        res matches Ok(i) ==> (info_canonical(*v) ==> enc(*v) == info_enc(i)),
        res is Ok <==> info_ok(*v),
{
    let entries = match v {
        Bvalue::Dict(es) => es,
        _ => {
            return Result::Err(DecodeError::Shape(Field::InfoDict));
        },
    };
    let kl = [108, 101, 110, 103, 116, 104];
    let kf = [102, 105, 108, 101, 115];
    let kn = [110, 97, 109, 101];
    let kpl = [112, 105, 101, 99, 101, 32, 108, 101, 110, 103, 116, 104];
    let kps = [112, 105, 101, 99, 101, 115];
    let kpr = [112, 114, 105, 118, 97, 116, 101];
    proof {
        assert(kl@ =~= kw_length());
        assert(kf@ =~= kw_files());
        assert(kn@ =~= kw_name());
        assert(kpl@ =~= kw_piece_length());
        assert(kps@ =~= kw_pieces());
        assert(kpr@ =~= kw_private());
    }
    let name: Vec<u8> = match lookup(entries, kn.as_slice()) {
        Option::Some(Bvalue::Bytes(b)) => copy_bytes(b.as_slice()),
        _ => {
            return Result::Err(DecodeError::Shape(Field::Name));
        },
    };
    let piece_length: u64 = match lookup(entries, kpl.as_slice()) {
        Option::Some(Bvalue::Int(n)) => {
            if *n < 0 {
                return Result::Err(DecodeError::Shape(Field::PieceLength));
            }
            *n as u64
        },
        _ => {
            return Result::Err(DecodeError::Shape(Field::PieceLength));
        },
    };
    let pieces: Vec<u8> = match lookup(entries, kps.as_slice()) {
        Option::Some(Bvalue::Bytes(b)) => copy_bytes(b.as_slice()),
        _ => {
            return Result::Err(DecodeError::Shape(Field::Pieces));
        },
    };
    let private: Option<u8> = match lookup(entries, kpr.as_slice()) {
        Option::Some(Bvalue::Int(p)) => {
            if *p < 0 || *p > 255 {
                return Result::Err(DecodeError::Shape(Field::Private));
            }
            Option::Some(*p as u8)
        },
        Option::Some(_) => {
            return Result::Err(DecodeError::Shape(Field::Private));
        },
        Option::None => Option::None,
    };
    if pieces.len() % 20 != 0 {
        return Result::Err(DecodeError::InvalidPieces);
    }
    let single_length: Option<u64> = match lookup(entries, kl.as_slice()) {
        Option::Some(Bvalue::Int(n)) => {
            if *n >= 0 {
                Option::Some(*n as u64)
            } else {
                Option::None
            }
        },
        _ => Option::None,
    };
    match single_length {
        Option::Some(length) => {
            let single = InfoSingle { piece_length, pieces, private, length, name };
            proof {
                assert(single_ok(entries@));
                assert(info_ok(*v));
                assert(info_fields(*v, Info::Single(single)));
                if info_canonical(*v) {
                    lemma_canonical_gets(entries@);
                    lemma_info_single_enc(*v, single);
                }
            }
            Result::Ok(Info::Single(single))
        },
        Option::None => {
            proof {
                assert(!single_ok(entries@));
            }
            let items = match lookup(entries, kf.as_slice()) {
                Option::Some(Bvalue::List(its)) => its,
                _ => {
                    return Result::Err(DecodeError::Shape(Field::Files));
                },
            };
            let mut files: Vec<InfoFile> = Vec::new();
            let mut acc: u64 = 0;
            let mut k: usize = 0;
            while k < items.len()
                invariant
                    k <= items@.len(),
                    files@.len() == k,
                    forall|j: int| 0 <= j < k ==> file_ok(#[trigger] items@[j]),
                    forall|j: int| 0 <= j < k ==> file_fields(#[trigger] items@[j], files@[j]),
                    acc as int == sum_lengths(files@),
                    acc as int == bfiles_sum(items@.take(k as int)),
                decreases items@.len() - k,
            {
                let f = match file_from_bvalue(&items[k]) {
                    Result::Ok(f) => f,
                    Result::Err(e) => {
                        proof {
                            assert(!files_ok(items@));
                            assert(!multiple_ok(entries@));
                        }
                        return Result::Err(e);
                    },
                };
                if acc > u64::MAX - f.length {
                    proof {
                        assert(items@.take(k + 1).drop_last() =~= items@.take(k as int));
                        assert(items@.take(k + 1).last() == items@[k as int]);
                        assert(bfiles_sum(items@.take(k + 1)) > u64::MAX);
                        if multiple_ok(entries@) {
                            assert(files_ok(items@));
                            assert forall|j: int| 0 <= j < items@.len()
                                implies bfile_length(#[trigger] items@[j]) >= 0 by {
                                assert(file_ok(items@[j]));
                            }
                            lemma_bfiles_sum_prefix(items@, k + 1);
                            assert(bfiles_sum(items@) > u64::MAX);
                        }
                        assert(!info_ok(*v));
                    }
                    return Result::Err(DecodeError::LengthOverflow);
                }
                proof {
                    assert(files@.push(f).drop_last() =~= files@);
                    assert(sum_lengths(files@.push(f)) == sum_lengths(files@) + f.length);
                    assert(items@.take(k + 1).drop_last() =~= items@.take(k as int));
                    assert(items@.take(k + 1).last() == items@[k as int]);
                }
                acc = acc + f.length;
                files.push(f);
                k = k + 1;
            }
            let multiple = InfoMultiple { piece_length, pieces, private, name, files };
            proof {
                assert(items@.take(items@.len() as int) =~= items@);
                assert(multiple_ok(entries@));
                assert(info_ok(*v));
                assert(info_fields(*v, Info::Multiple(multiple)));
                if info_canonical(*v) {
                    lemma_canonical_gets(entries@);
                    assert(files_canonical(items@));
                    lemma_files_enc_from_fields(items@, files@);
                    lemma_info_multiple_enc(*v, multiple);
                }
            }
            Result::Ok(Info::Multiple(multiple))
        },
    }
}

/// An optional field that, when present, must be a byte string.
pub open spec fn opt_bytes_ok(o: Option<Bvalue>) -> bool {
    match o {
        Option::None => true,
        Option::Some(b) => b is Bytes,
    }
}

/// An absent field maps to `None`; a byte-string field to its bytes.
pub open spec fn opt_bytes_rel(o: Option<Bvalue>, f: Option<Vec<u8>>) -> bool {
    match o {
        Option::None => f is None,
        Option::Some(b) => b matches Bvalue::Bytes(x) && (f matches Some(fv) && fv@ == x@),
    }
}

/// An optional field that, when present, must be an integer.
pub open spec fn opt_int_ok(o: Option<Bvalue>) -> bool {
    match o {
        Option::None => true,
        Option::Some(b) => b is Int,
    }
}

/// An absent field maps to `None`; an integer field to its value.
pub open spec fn opt_int_rel(o: Option<Bvalue>, f: Option<i64>) -> bool {
    match o {
        Option::None => f is None,
        Option::Some(b) => b matches Bvalue::Int(n) && f == Option::Some(n),
    }
}

/// One announce tier: a list of byte-string URLs.
pub open spec fn tier_ok(t: Bvalue) -> bool {
    t matches Bvalue::List(us) && (forall|j: int|
        0 <= j < us@.len() ==> (#[trigger] us@[j]) is Bytes)
}

/// The optional `announce-list`: a list of tiers.
pub open spec fn tiers_ok(o: Option<Bvalue>) -> bool {
    match o {
        Option::None => true,
        Option::Some(l) => l matches Bvalue::List(ts) && (forall|k: int|
            0 <= k < ts@.len() ==> tier_ok(#[trigger] ts@[k])),
    }
}

/// A tier value and its extracted URLs agree element by element.
pub open spec fn tier_rel(t: Bvalue, tier: Vec<Vec<u8>>) -> bool {
    t matches Bvalue::List(us) && us@.len() == tier@.len() && (forall|j: int|
        0 <= j < us@.len() ==> ((#[trigger] us@[j]) matches Bvalue::Bytes(b)
            && tier@[j]@ == b@))
}

/// The `announce-list` value and the extracted tiers agree.
pub open spec fn tiers_rel(o: Option<Bvalue>, al: Option<Vec<Vec<Vec<u8>>>>) -> bool {
    match o {
        Option::None => al is None,
        Option::Some(l) => l matches Bvalue::List(ts) && (al matches Some(a)
            && ts@.len() == a@.len() && forall|k: int|
            0 <= k < ts@.len() ==> tier_rel(#[trigger] ts@[k], a@[k])),
    }
}

/// Whether a bencode value decodes as a whole torrent descriptor: a
/// dictionary with a byte-string `announce`, a decodable `info`, and
/// well-typed optional metadata.
pub open spec fn torrent_ok(v: Bvalue) -> bool {
    &&& v matches Bvalue::Dict(es)
    &&& dict_get(es@, kw_announce()) matches Option::Some(a) && a is Bytes
    &&& dict_get(es@, kw_info()) matches Option::Some(iv) && info_ok(iv)
    &&& opt_int_ok(dict_get(es@, kw_creation_date()))
    &&& opt_bytes_ok(dict_get(es@, kw_comment()))
    &&& opt_bytes_ok(dict_get(es@, kw_created_by()))
    &&& opt_bytes_ok(dict_get(es@, kw_encoding()))
    &&& tiers_ok(dict_get(es@, kw_announce_list()))
}

/// How a decoded descriptor relates to the bencode value it came from:
/// every field equals the corresponding entry, and a canonical `info`
/// entry re-encodes exactly to the bytes it was decoded from.
pub open spec fn torrent_rel(v: Bvalue, t: TorrentFile) -> bool {
    &&& v matches Bvalue::Dict(es)
    &&& dict_get(es@, kw_announce()) matches Option::Some(a)
        && (a matches Bvalue::Bytes(ab) && t.announce@ == ab@)
    &&& dict_get(es@, kw_info()) matches Option::Some(iv) && info_fields(iv, t.info)
        && wf_info(t.info) && (info_canonical(iv) ==> enc(iv) == info_enc(t.info))
    &&& opt_int_rel(dict_get(es@, kw_creation_date()), t.creation_date)
    &&& opt_bytes_rel(dict_get(es@, kw_comment()), t.comment)
    &&& opt_bytes_rel(dict_get(es@, kw_created_by()), t.created_by)
    &&& opt_bytes_rel(dict_get(es@, kw_encoding()), t.encoding)
    &&& tiers_rel(dict_get(es@, kw_announce_list()), t.announce_list)
}

/// Extracts one announce tier.
#[verifier::loop_isolation(false)]
fn tier_from_bvalue(t: &Bvalue) -> (res: Result<Vec<Vec<u8>>, DecodeError>)
    ensures
        res matches Ok(tier) ==> tier_rel(*t, tier),
        res is Ok <==> tier_ok(*t),
{
    match t {
        Bvalue::List(us) => {
            let mut tier: Vec<Vec<u8>> = Vec::new();
            let mut j: usize = 0;
            while j < us.len()
                invariant
                    j <= us@.len(),
                    tier@.len() == j,
                    forall|i: int|
                        0 <= i < j ==> ((#[trigger] us@[i]) matches Bvalue::Bytes(b)
                            && tier@[i]@ == b@),
                decreases us@.len() - j,
            {
                match &us[j] {
                    Bvalue::Bytes(b) => {
                        tier.push(copy_bytes(b.as_slice()));
                    },
                    _ => {
                        return Result::Err(DecodeError::Shape(Field::AnnounceList));
                    },
                }
                j = j + 1;
            }
            Result::Ok(tier)
        },
        _ => Result::Err(DecodeError::Shape(Field::AnnounceList)),
    }
}

/// Extracts a torrent descriptor from its decoded bencode value. The
/// dictionary is read by key: unknown keys are ignored, required keys
/// (`announce`, `info`) must be present and well-typed.
#[verifier::loop_isolation(false)]
pub fn torrent_from_bvalue(v: &Bvalue) -> (res: Result<TorrentFile, DecodeError>)
    ensures
        res matches Ok(t) ==> torrent_rel(*v, t),
        res is Ok <==> torrent_ok(*v),
{
    let entries = match v {
        Bvalue::Dict(es) => es,
        _ => {
            return Result::Err(DecodeError::Shape(Field::Document));
        },
    };
    let ka = [97, 110, 110, 111, 117, 110, 99, 101];
    let ki = [105, 110, 102, 111];
    let kcd = [99, 114, 101, 97, 116, 105, 111, 110, 32, 100, 97, 116, 101];
    let kc = [99, 111, 109, 109, 101, 110, 116];
    let kcb = [99, 114, 101, 97, 116, 101, 100, 32, 98, 121];
    let ke = [101, 110, 99, 111, 100, 105, 110, 103];
    let kal = [97, 110, 110, 111, 117, 110, 99, 101, 45, 108, 105, 115, 116];
    proof {
        assert(ka@ =~= kw_announce());
        assert(ki@ =~= kw_info());
        assert(kcd@ =~= kw_creation_date());
        assert(kc@ =~= kw_comment());
        assert(kcb@ =~= kw_created_by());
        assert(ke@ =~= kw_encoding());
        assert(kal@ =~= kw_announce_list());
    }
    let announce: Vec<u8> = match lookup(entries, ka.as_slice()) {
        Option::Some(Bvalue::Bytes(b)) => copy_bytes(b.as_slice()),
        _ => {
            return Result::Err(DecodeError::Shape(Field::Announce));
        },
    };
    let info: Info = match lookup(entries, ki.as_slice()) {
        Option::Some(iv) => match info_from_bvalue(iv) {
            Result::Ok(i) => i,
            Result::Err(e) => {
                return Result::Err(e);
            },
        },
        Option::None => {
            return Result::Err(DecodeError::Shape(Field::InfoDict));
        },
    };
    let creation_date: Option<i64> = match lookup(entries, kcd.as_slice()) {
        Option::Some(Bvalue::Int(n)) => Option::Some(*n),
        Option::Some(_) => {
            return Result::Err(DecodeError::Shape(Field::CreationDate));
        },
        Option::None => Option::None,
    };
    let comment: Option<Vec<u8>> = match lookup(entries, kc.as_slice()) {
        Option::Some(Bvalue::Bytes(b)) => Option::Some(copy_bytes(b.as_slice())),
        Option::Some(_) => {
            return Result::Err(DecodeError::Shape(Field::Comment));
        },
        Option::None => Option::None,
    };
    let created_by: Option<Vec<u8>> = match lookup(entries, kcb.as_slice()) {
        Option::Some(Bvalue::Bytes(b)) => Option::Some(copy_bytes(b.as_slice())),
        Option::Some(_) => {
            return Result::Err(DecodeError::Shape(Field::CreatedBy));
        },
        Option::None => Option::None,
    };
    let encoding: Option<Vec<u8>> = match lookup(entries, ke.as_slice()) {
        Option::Some(Bvalue::Bytes(b)) => Option::Some(copy_bytes(b.as_slice())),
        Option::Some(_) => {
            return Result::Err(DecodeError::Shape(Field::Encoding));
        },
        Option::None => Option::None,
    };
    let announce_list: Option<Vec<Vec<Vec<u8>>>> = match lookup(entries, kal.as_slice()) {
        Option::Some(lv) => match lv {
            Bvalue::List(ts) => {
                let mut tiers: Vec<Vec<Vec<u8>>> = Vec::new();
                let mut k: usize = 0;
                while k < ts.len()
                    invariant
                        k <= ts@.len(),
                        tiers@.len() == k,
                        forall|i: int| 0 <= i < k ==> tier_rel(#[trigger] ts@[i], tiers@[i]),
                    decreases ts@.len() - k,
                {
                    match tier_from_bvalue(&ts[k]) {
                        Result::Ok(tier) => {
                            tiers.push(tier);
                        },
                        Result::Err(e) => {
                            return Result::Err(e);
                        },
                    }
                    k = k + 1;
                }
                Option::Some(tiers)
            },
            _ => {
                return Result::Err(DecodeError::Shape(Field::AnnounceList));
            },
        },
        Option::None => Option::None,
    };
    let t = TorrentFile { info, announce, announce_list, creation_date, comment, created_by, encoding };
    Result::Ok(t)
}

impl TorrentFile {
    /// Decodes a whole torrent file from its bytes: a bencode dictionary
    /// holding `announce`, `info`, and optional metadata. Succeeds exactly
    /// when the bytes encode a decodable descriptor; a canonical `info`
    /// entry then re-encodes byte-identically, so the info-hash is over
    /// the original bytes.
    pub fn from_bytes(s: &[u8]) -> (res: Result<TorrentFile, DecodeError>)
        ensures
            res matches Ok(t) ==> exists|v: Bvalue| enc(v) == s@ && torrent_rel(v, t),
            res matches Ok(t) ==> wf_info(t.info),
            res is Ok <==> exists|v: Bvalue| enc(v) == s@ && torrent_ok(v),
    {
        match crate::bencode::decode(s) {
            Result::Ok(bv) => {
                match torrent_from_bvalue(&bv) {
                    Result::Ok(t) => {
                        proof {
                            assert(enc(bv) == s@ && torrent_rel(bv, t));
                            assert(enc(bv) == s@ && torrent_ok(bv));
                        }
                        Result::Ok(t)
                    },
                    Result::Err(e) => {
                        proof {
                            if exists|v: Bvalue| enc(v) == s@ && torrent_ok(v) {
                                let w = choose|v: Bvalue| enc(v) == s@ && torrent_ok(v);
                                crate::bencode::lemma_enc_injective(bv, w);
                                lemma_beq_torrent_ok(bv, w);
                                assert(false);
                            }
                        }
                        Result::Err(e)
                    },
                }
            },
            Result::Err(e) => {
                proof {
                    if exists|v: Bvalue| enc(v) == s@ && torrent_ok(v) {
                        let w = choose|v: Bvalue| enc(v) == s@ && torrent_ok(v);
                        assert(crate::bencode::encodes(s@)) by {
                            assert(enc(w) == s@);
                        }
                        assert(false);
                    }
                }
                Result::Err(e)
            },
        }
    }
}


/// Field-wise equality of two file entries, over the views of the byte
/// vectors.
pub open spec fn file_eq(a: InfoFile, b: InfoFile) -> bool {
    &&& a.length == b.length
    &&& a.path@.len() == b.path@.len()
    &&& forall|k: int| 0 <= k < a.path@.len() ==> (#[trigger] a.path@[k])@ == b.path@[k]@
}

/// Field-wise equality of two `info` values: same variant, and every
/// field equal over the views of the byte vectors.
pub open spec fn info_eq(a: Info, b: Info) -> bool {
    match (a, b) {
        (Info::Single(x), Info::Single(y)) => {
            &&& x.piece_length == y.piece_length
            &&& x.pieces@ == y.pieces@
            &&& x.private == y.private
            &&& x.length == y.length
            &&& x.name@ == y.name@
        },
        (Info::Multiple(x), Info::Multiple(y)) => {
            &&& x.piece_length == y.piece_length
            &&& x.pieces@ == y.pieces@
            &&& x.private == y.private
            &&& x.name@ == y.name@
            &&& x.files@.len() == y.files@.len()
            &&& forall|k: int|
                0 <= k < x.files@.len() ==> file_eq(#[trigger] x.files@[k], y.files@[k])
        },
        _ => false,
    }
}

proof fn lemma_str_enc_first(x: Seq<u8>)
    ensures
        str_enc(x).len() >= 2,
        48 <= str_enc(x)[0] <= 57,
{
    lemma_dec_digits_props(x.len());
    let d = dec_digits(x.len());
    assert(str_enc(x)[0] == d[0]);
}

proof fn lemma_path_enc_unique(p1: Seq<Vec<u8>>, p2: Seq<Vec<u8>>, t1: Seq<u8>, t2: Seq<u8>)
    requires
        path_enc(p1) + t1 == path_enc(p2) + t2,
        t1.len() >= 1 && t1[0] == 101,
        t2.len() >= 1 && t2[0] == 101,
    ensures
        p1.len() == p2.len(),
        forall|k: int| 0 <= k < p1.len() ==> (#[trigger] p1[k])@ == p2[k]@,
        t1 == t2,
    decreases p1.len(),
{
    if p1.len() == 0 && p2.len() == 0 {
        assert(path_enc(p1) + t1 =~= t1);
        assert(path_enc(p2) + t2 =~= t2);
    } else if p1.len() == 0 {
        assert(path_enc(p1) + t1 =~= t1);
        lemma_str_enc_first(p2[0]@);
        assert(path_enc(p2) + t2 =~= str_enc(p2[0]@) + (path_enc(p2.drop_first()) + t2));
        assert(t1[0] == str_enc(p2[0]@)[0]);
        assert(false);
    } else if p2.len() == 0 {
        assert(path_enc(p2) + t2 =~= t2);
        lemma_str_enc_first(p1[0]@);
        assert(path_enc(p1) + t1 =~= str_enc(p1[0]@) + (path_enc(p1.drop_first()) + t1));
        assert(t2[0] == str_enc(p1[0]@)[0]);
        assert(false);
    } else {
        assert(path_enc(p1) + t1 =~= str_enc(p1[0]@) + (path_enc(p1.drop_first()) + t1));
        assert(path_enc(p2) + t2 =~= str_enc(p2[0]@) + (path_enc(p2.drop_first()) + t2));
        crate::bencode::lemma_str_enc_unique(p1[0]@, p2[0]@, path_enc(p1.drop_first()) + t1,
            path_enc(p2.drop_first()) + t2);
        lemma_path_enc_unique(p1.drop_first(), p2.drop_first(), t1, t2);
        assert forall|k: int| 0 <= k < p1.len() implies (#[trigger] p1[k])@ == p2[k]@ by {
            if k > 0 {
                assert(p1.drop_first()[k - 1] == p1[k]);
                assert(p2.drop_first()[k - 1] == p2[k]);
            }
        }
    }
}

#[verifier::rlimit(100)]
#[verifier::spinoff_prover]
proof fn lemma_file_enc_unique(f1: InfoFile, f2: InfoFile, t1: Seq<u8>, t2: Seq<u8>)
    requires
        file_enc(f1) + t1 == file_enc(f2) + t2,
    ensures
        file_eq(f1, f2),
        t1 == t2,
{
    let r1 = int_enc(f1.length as int) + (str_enc(kw_path()) + (seq![108u8] + (path_enc(
        f1.path@) + (seq![101u8] + (seq![101u8] + t1)))));
    let r2 = int_enc(f2.length as int) + (str_enc(kw_path()) + (seq![108u8] + (path_enc(
        f2.path@) + (seq![101u8] + (seq![101u8] + t2)))));
    assert(file_enc(f1) + t1 =~= seq![100u8] + (str_enc(kw_length()) + r1));
    assert(file_enc(f2) + t2 =~= seq![100u8] + (str_enc(kw_length()) + r2));
    crate::bencode::lemma_concat_split(seq![100u8], str_enc(kw_length()) + r1, seq![100u8],
        str_enc(kw_length()) + r2);
    crate::bencode::lemma_str_enc_unique(kw_length(), kw_length(), r1, r2);
    crate::bencode::lemma_int_enc_unique(f1.length as int, f2.length as int,
        str_enc(kw_path()) + (seq![108u8] + (path_enc(f1.path@) + (seq![101u8] + (seq![101u8]
            + t1)))),
        str_enc(kw_path()) + (seq![108u8] + (path_enc(f2.path@) + (seq![101u8] + (seq![101u8]
            + t2)))));
    crate::bencode::lemma_str_enc_unique(kw_path(), kw_path(),
        seq![108u8] + (path_enc(f1.path@) + (seq![101u8] + (seq![101u8] + t1))),
        seq![108u8] + (path_enc(f2.path@) + (seq![101u8] + (seq![101u8] + t2))));
    crate::bencode::lemma_concat_split(seq![108u8],
        path_enc(f1.path@) + (seq![101u8] + (seq![101u8] + t1)),
        seq![108u8],
        path_enc(f2.path@) + (seq![101u8] + (seq![101u8] + t2)));
    assert((seq![101u8] + (seq![101u8] + t1))[0] == 101);
    assert((seq![101u8] + (seq![101u8] + t2))[0] == 101);
    lemma_path_enc_unique(f1.path@, f2.path@, seq![101u8] + (seq![101u8] + t1),
        seq![101u8] + (seq![101u8] + t2));
    crate::bencode::lemma_concat_split(seq![101u8], seq![101u8] + t1, seq![101u8],
        seq![101u8] + t2);
    crate::bencode::lemma_concat_split(seq![101u8], t1, seq![101u8], t2);
}

proof fn lemma_files_enc_unique(fs1: Seq<InfoFile>, fs2: Seq<InfoFile>, t1: Seq<u8>, t2: Seq<u8>)
    requires
        files_enc(fs1) + t1 == files_enc(fs2) + t2,
        t1.len() >= 1 && t1[0] == 101,
        t2.len() >= 1 && t2[0] == 101,
    ensures
        fs1.len() == fs2.len(),
        forall|k: int| 0 <= k < fs1.len() ==> file_eq(#[trigger] fs1[k], fs2[k]),
        t1 == t2,
    decreases fs1.len(),
{
    if fs1.len() == 0 && fs2.len() == 0 {
        assert(files_enc(fs1) + t1 =~= t1);
        assert(files_enc(fs2) + t2 =~= t2);
    } else if fs1.len() == 0 {
        assert(files_enc(fs1) + t1 =~= t1);
        assert(files_enc(fs2) + t2 =~= file_enc(fs2[0]) + (files_enc(fs2.drop_first()) + t2));
        assert(file_enc(fs2[0])[0] == 100);
        assert(t1[0] == 100);
        assert(false);
    } else if fs2.len() == 0 {
        assert(files_enc(fs2) + t2 =~= t2);
        assert(files_enc(fs1) + t1 =~= file_enc(fs1[0]) + (files_enc(fs1.drop_first()) + t1));
        assert(file_enc(fs1[0])[0] == 100);
        assert(t2[0] == 100);
        assert(false);
    } else {
        assert(files_enc(fs1) + t1 =~= file_enc(fs1[0]) + (files_enc(fs1.drop_first()) + t1));
        assert(files_enc(fs2) + t2 =~= file_enc(fs2[0]) + (files_enc(fs2.drop_first()) + t2));
        lemma_file_enc_unique(fs1[0], fs2[0], files_enc(fs1.drop_first()) + t1,
            files_enc(fs2.drop_first()) + t2);
        lemma_files_enc_unique(fs1.drop_first(), fs2.drop_first(), t1, t2);
        assert forall|k: int| 0 <= k < fs1.len() implies file_eq(#[trigger] fs1[k], fs2[k]) by {
            if k > 0 {
                assert(fs1.drop_first()[k - 1] == fs1[k]);
                assert(fs2.drop_first()[k - 1] == fs2[k]);
            }
        }
    }
}


/// The shared trailing entries of an `info` encoding: `name`,
/// `piece length`, `pieces`, the optional `private`, and the closing `e`.
pub open spec fn info_tail_enc(name: Seq<u8>, pl: u64, pieces: Seq<u8>, pr: Option<u8>)
    -> Seq<u8> {
    str_enc(kw_name()) + str_enc(name) + str_enc(kw_piece_length()) + int_enc(pl as int)
        + str_enc(kw_pieces()) + str_enc(pieces) + private_enc(pr) + seq![101u8]
}

#[verifier::rlimit(100)]
#[verifier::spinoff_prover]
proof fn lemma_info_tail_unique(
    name1: Seq<u8>,
    pl1: u64,
    pieces1: Seq<u8>,
    pr1: Option<u8>,
    name2: Seq<u8>,
    pl2: u64,
    pieces2: Seq<u8>,
    pr2: Option<u8>,
)
    requires
        info_tail_enc(name1, pl1, pieces1, pr1) == info_tail_enc(name2, pl2, pieces2, pr2),
    ensures
        name1 == name2,
        pl1 == pl2,
        pieces1 == pieces2,
        pr1 == pr2,
{
    let r1 = private_enc(pr1) + seq![101u8];
    let r2 = private_enc(pr2) + seq![101u8];
    assert(info_tail_enc(name1, pl1, pieces1, pr1) =~= str_enc(kw_name()) + (str_enc(name1)
        + (str_enc(kw_piece_length()) + (int_enc(pl1 as int) + (str_enc(kw_pieces())
        + (str_enc(pieces1) + r1))))));
    assert(info_tail_enc(name2, pl2, pieces2, pr2) =~= str_enc(kw_name()) + (str_enc(name2)
        + (str_enc(kw_piece_length()) + (int_enc(pl2 as int) + (str_enc(kw_pieces())
        + (str_enc(pieces2) + r2))))));
    crate::bencode::lemma_str_enc_unique(kw_name(), kw_name(),
        str_enc(name1) + (str_enc(kw_piece_length()) + (int_enc(pl1 as int)
            + (str_enc(kw_pieces()) + (str_enc(pieces1) + r1)))),
        str_enc(name2) + (str_enc(kw_piece_length()) + (int_enc(pl2 as int)
            + (str_enc(kw_pieces()) + (str_enc(pieces2) + r2)))));
    crate::bencode::lemma_str_enc_unique(name1, name2,
        str_enc(kw_piece_length()) + (int_enc(pl1 as int) + (str_enc(kw_pieces())
            + (str_enc(pieces1) + r1))),
        str_enc(kw_piece_length()) + (int_enc(pl2 as int) + (str_enc(kw_pieces())
            + (str_enc(pieces2) + r2))));
    crate::bencode::lemma_str_enc_unique(kw_piece_length(), kw_piece_length(),
        int_enc(pl1 as int) + (str_enc(kw_pieces()) + (str_enc(pieces1) + r1)),
        int_enc(pl2 as int) + (str_enc(kw_pieces()) + (str_enc(pieces2) + r2)));
    crate::bencode::lemma_int_enc_unique(pl1 as int, pl2 as int,
        str_enc(kw_pieces()) + (str_enc(pieces1) + r1),
        str_enc(kw_pieces()) + (str_enc(pieces2) + r2));
    crate::bencode::lemma_str_enc_unique(kw_pieces(), kw_pieces(), str_enc(pieces1) + r1,
        str_enc(pieces2) + r2);
    crate::bencode::lemma_str_enc_unique(pieces1, pieces2, r1, r2);
    match (pr1, pr2) {
        (Option::None, Option::None) => {},
        (Option::Some(x), Option::Some(y)) => {
            assert(r1 =~= str_enc(kw_private()) + (int_enc(x as int) + seq![101u8]));
            assert(r2 =~= str_enc(kw_private()) + (int_enc(y as int) + seq![101u8]));
            crate::bencode::lemma_str_enc_unique(kw_private(), kw_private(),
                int_enc(x as int) + seq![101u8], int_enc(y as int) + seq![101u8]);
            crate::bencode::lemma_int_enc_unique(x as int, y as int, seq![101u8], seq![101u8]);
        },
        (Option::None, Option::Some(y)) => {
            assert(r1 =~= seq![101u8]);
            assert(r2 =~= str_enc(kw_private()) + (int_enc(y as int) + seq![101u8]));
            lemma_str_enc_first(kw_private());
            assert(r2[0] == str_enc(kw_private())[0]);
            assert(r1[0] == 101);
            assert(false);
        },
        (Option::Some(x), Option::None) => {
            assert(r2 =~= seq![101u8]);
            assert(r1 =~= str_enc(kw_private()) + (int_enc(x as int) + seq![101u8]));
            lemma_str_enc_first(kw_private());
            assert(r1[0] == str_enc(kw_private())[0]);
            assert(r2[0] == 101);
            assert(false);
        },
    }
}

/// The round-trip law for the `info` dictionary: the canonical encoding
/// is injective, so two values with the same encoding are equal. With
/// `encode_info` writing `info_enc` and decoding guaranteeing that the
/// result re-encodes to the input bytes, encoding a value and decoding
/// those bytes can only yield an equal value.
#[verifier::rlimit(100)]
#[verifier::spinoff_prover]
proof fn lemma_info_single_unique(x: InfoSingle, y: InfoSingle)
    requires
        info_enc(Info::Single(x)) == info_enc(Info::Single(y)),
    ensures
        info_eq(Info::Single(x), Info::Single(y)),
{
    let tx = info_tail_enc(x.name@, x.piece_length, x.pieces@, x.private);
    let ty = info_tail_enc(y.name@, y.piece_length, y.pieces@, y.private);
    assert(info_enc(Info::Single(x)) =~= seq![100u8] + (str_enc(kw_length()) + (int_enc(
        x.length as int) + tx)));
    assert(info_enc(Info::Single(y)) =~= seq![100u8] + (str_enc(kw_length()) + (int_enc(
        y.length as int) + ty)));
    crate::bencode::lemma_concat_split(seq![100u8], str_enc(kw_length()) + (int_enc(
        x.length as int) + tx), seq![100u8], str_enc(kw_length()) + (int_enc(y.length as int)
        + ty));
    crate::bencode::lemma_str_enc_unique(kw_length(), kw_length(), int_enc(x.length as int)
        + tx, int_enc(y.length as int) + ty);
    crate::bencode::lemma_int_enc_unique(x.length as int, y.length as int, tx, ty);
    lemma_info_tail_unique(x.name@, x.piece_length, x.pieces@, x.private, y.name@,
        y.piece_length, y.pieces@, y.private);
}

#[verifier::rlimit(100)]
#[verifier::spinoff_prover]
proof fn lemma_info_multiple_unique(x: InfoMultiple, y: InfoMultiple)
    requires
        info_enc(Info::Multiple(x)) == info_enc(Info::Multiple(y)),
    ensures
        info_eq(Info::Multiple(x), Info::Multiple(y)),
{
    let tx = info_tail_enc(x.name@, x.piece_length, x.pieces@, x.private);
    let ty = info_tail_enc(y.name@, y.piece_length, y.pieces@, y.private);
    let u1 = seq![101u8] + tx;
    let u2 = seq![101u8] + ty;
    assert(info_enc(Info::Multiple(x)) =~= seq![100u8] + (str_enc(kw_files()) + (seq![108u8]
        + (files_enc(x.files@) + u1))));
    assert(info_enc(Info::Multiple(y)) =~= seq![100u8] + (str_enc(kw_files()) + (seq![108u8]
        + (files_enc(y.files@) + u2))));
    crate::bencode::lemma_concat_split(seq![100u8], str_enc(kw_files()) + (seq![108u8]
        + (files_enc(x.files@) + u1)), seq![100u8], str_enc(kw_files()) + (seq![108u8]
        + (files_enc(y.files@) + u2)));
    crate::bencode::lemma_str_enc_unique(kw_files(), kw_files(), seq![108u8] + (files_enc(
        x.files@) + u1), seq![108u8] + (files_enc(y.files@) + u2));
    crate::bencode::lemma_concat_split(seq![108u8], files_enc(x.files@) + u1, seq![108u8],
        files_enc(y.files@) + u2);
    assert(u1[0] == 101 && u2[0] == 101);
    lemma_files_enc_unique(x.files@, y.files@, u1, u2);
    crate::bencode::lemma_concat_split(seq![101u8], tx, seq![101u8], ty);
    lemma_info_tail_unique(x.name@, x.piece_length, x.pieces@, x.private, y.name@,
        y.piece_length, y.pieces@, y.private);
}

#[verifier::rlimit(100)]
#[verifier::spinoff_prover]
proof fn lemma_info_enc_second_byte_single(x: InfoSingle)
    ensures
        info_enc(Info::Single(x)).len() >= 2,
        info_enc(Info::Single(x))[1] == 54,
{
    lemma_str_enc_first(kw_length());
    assert(info_enc(Info::Single(x)) =~= seq![100u8] + (str_enc(kw_length()) + (int_enc(
        x.length as int) + info_tail_enc(x.name@, x.piece_length, x.pieces@, x.private))));
    assert(dec_digits(6) =~= seq![54u8]);
    assert(str_enc(kw_length())[0] == 54);
    assert(info_enc(Info::Single(x))[1] == str_enc(kw_length())[0]);
}

#[verifier::rlimit(100)]
#[verifier::spinoff_prover]
proof fn lemma_info_enc_second_byte_multiple(y: InfoMultiple)
    ensures
        info_enc(Info::Multiple(y)).len() >= 2,
        info_enc(Info::Multiple(y))[1] == 53,
{
    lemma_str_enc_first(kw_files());
    assert(info_enc(Info::Multiple(y)) =~= seq![100u8] + (str_enc(kw_files()) + (seq![108u8]
        + (files_enc(y.files@) + (seq![101u8] + info_tail_enc(y.name@, y.piece_length,
        y.pieces@, y.private))))));
    assert(dec_digits(5) =~= seq![53u8]);
    assert(str_enc(kw_files())[0] == 53);
    assert(info_enc(Info::Multiple(y))[1] == str_enc(kw_files())[0]);
}

proof fn lemma_info_enc_variant(a: Info, b: Info)
    requires
        info_enc(a) == info_enc(b),
        a is Single,
    ensures
        b is Single,
{
    if b is Multiple {
        lemma_info_enc_second_byte_single(a->Single_0);
        lemma_info_enc_second_byte_multiple(b->Multiple_0);
        assert(info_enc(a)[1] != info_enc(b)[1]);
    }
}

/// The round-trip law for the `info` dictionary: the canonical encoding
/// is injective, so two values with the same encoding are equal. With
/// `encode_info` writing `info_enc` and decoding guaranteeing that the
/// result re-encodes to the input bytes, encoding a value and decoding
/// those bytes can only yield an equal value.
pub proof fn lemma_info_enc_injective(a: Info, b: Info)
    requires
        info_enc(a) == info_enc(b),
    ensures
        info_eq(a, b),
{
    match (a, b) {
        (Info::Single(x), Info::Single(y)) => {
            lemma_info_single_unique(x, y);
        },
        (Info::Multiple(x), Info::Multiple(y)) => {
            lemma_info_multiple_unique(x, y);
        },
        (Info::Single(_), Info::Multiple(_)) => {
            lemma_info_enc_variant(a, b);
        },
        (Info::Multiple(_), Info::Single(_)) => {
            lemma_info_enc_variant(b, a);
        },
    }
}

/// Round-trip: when the bytes of an encoded `info` value `a` decode to a
/// value `b` (any decoded value re-encodes exactly to the bytes it came
/// from), then `b` equals `a`.
pub proof fn lemma_info_round_trip(a: Info, b: Info, bytes: Seq<u8>)
    requires
        bytes == info_enc(a),
        bytes == info_enc(b),
    ensures
        info_eq(a, b),
{
    lemma_info_enc_injective(a, b);
}


proof fn lemma_beq_file_ok(v1: Bvalue, v2: Bvalue)
    requires
        crate::bencode::beq(v1, v2),
    ensures
        file_ok(v1) == file_ok(v2),
        file_ok(v1) ==> bfile_length(v1) == bfile_length(v2),
{
    if v1 is Dict && v2 is Dict {
        let es1 = v1->Dict_0@;
        let es2 = v2->Dict_0@;
        crate::bencode::lemma_beq_dict_get(es1, es2, kw_length());
        crate::bencode::lemma_beq_dict_get(es1, es2, kw_path());
        match (dict_get(es1, kw_path()), dict_get(es2, kw_path())) {
            (Option::Some(a), Option::Some(b)) => {
                if a is List && b is List {
                    let p1 = a->List_0@;
                    let p2 = b->List_0@;
                    if path_ok(p1) {
                        assert forall|k: int| 0 <= k < p2.len()
                            implies (#[trigger] p2[k]) is Bytes by {
                            crate::bencode::lemma_beq_list_index(p1, p2, k);
                        }
                    }
                    if path_ok(p2) {
                        assert forall|k: int| 0 <= k < p1.len()
                            implies (#[trigger] p1[k]) is Bytes by {
                            crate::bencode::lemma_beq_list_index(p1, p2, k);
                        }
                    }
                }
            },
            _ => {},
        }
    }
}

proof fn lemma_beq_files(l1: Seq<Bvalue>, l2: Seq<Bvalue>)
    requires
        crate::bencode::beq_list(l1, l2),
    ensures
        files_ok(l1) == files_ok(l2),
        files_ok(l1) ==> bfiles_sum(l1) == bfiles_sum(l2),
    decreases l1.len(),
{
    if files_ok(l1) {
        assert forall|k: int| 0 <= k < l2.len() implies file_ok(#[trigger] l2[k]) by {
            crate::bencode::lemma_beq_list_index(l1, l2, k);
            lemma_beq_file_ok(l1[k], l2[k]);
        }
    }
    if files_ok(l2) {
        assert forall|k: int| 0 <= k < l1.len() implies file_ok(#[trigger] l1[k]) by {
            crate::bencode::lemma_beq_list_index(l1, l2, k);
            lemma_beq_file_ok(l1[k], l2[k]);
        }
    }
    if files_ok(l1) && l1.len() > 0 {
        assert forall|k: int| 0 <= k < l1.drop_last().len()
            implies crate::bencode::beq(#[trigger] l1.drop_last()[k],
            l2.drop_last()[k]) by {
            crate::bencode::lemma_beq_list_index(l1, l2, k);
            assert(l1.drop_last()[k] == l1[k]);
            assert(l2.drop_last()[k] == l2[k]);
        }
        crate::bencode::lemma_beq_list_from_pointwise(l1.drop_last(), l2.drop_last());
        assert forall|k: int| 0 <= k < l1.drop_last().len()
            implies file_ok(#[trigger] l1.drop_last()[k]) by {
            assert(l1.drop_last()[k] == l1[k]);
        }
        lemma_beq_files(l1.drop_last(), l2.drop_last());
        crate::bencode::lemma_beq_list_index(l1, l2, l1.len() - 1);
        lemma_beq_file_ok(l1.last(), l2.last());
    }
}

proof fn lemma_beq_info_ok(v1: Bvalue, v2: Bvalue)
    requires
        crate::bencode::beq(v1, v2),
    ensures
        info_ok(v1) == info_ok(v2),
{
    if v1 is Dict && v2 is Dict {
        let es1 = v1->Dict_0@;
        let es2 = v2->Dict_0@;
        crate::bencode::lemma_beq_dict_get(es1, es2, kw_name());
        crate::bencode::lemma_beq_dict_get(es1, es2, kw_piece_length());
        crate::bencode::lemma_beq_dict_get(es1, es2, kw_pieces());
        crate::bencode::lemma_beq_dict_get(es1, es2, kw_private());
        crate::bencode::lemma_beq_dict_get(es1, es2, kw_length());
        crate::bencode::lemma_beq_dict_get(es1, es2, kw_files());
        match (dict_get(es1, kw_files()), dict_get(es2, kw_files())) {
            (Option::Some(a), Option::Some(b)) => {
                if a is List && b is List {
                    lemma_beq_files(a->List_0@, b->List_0@);
                }
            },
            _ => {},
        }
        assert(tail_ok(es1) == tail_ok(es2));
        assert(single_ok(es1) == single_ok(es2));
        assert(multiple_ok(es1) == multiple_ok(es2));
    }
}

proof fn lemma_beq_tier_ok(t1: Bvalue, t2: Bvalue)
    requires
        crate::bencode::beq(t1, t2),
    ensures
        tier_ok(t1) == tier_ok(t2),
{
    if t1 is List && t2 is List {
        let u1 = t1->List_0@;
        let u2 = t2->List_0@;
        if tier_ok(t1) {
            assert forall|j: int| 0 <= j < u2.len() implies (#[trigger] u2[j]) is Bytes by {
                crate::bencode::lemma_beq_list_index(u1, u2, j);
            }
        }
        if tier_ok(t2) {
            assert forall|j: int| 0 <= j < u1.len() implies (#[trigger] u1[j]) is Bytes by {
                crate::bencode::lemma_beq_list_index(u1, u2, j);
            }
        }
    }
}

/// Structurally equal bencode values decode as torrent descriptors, or
/// fail to, together.
pub proof fn lemma_beq_torrent_ok(v1: Bvalue, v2: Bvalue)
    requires
        crate::bencode::beq(v1, v2),
    ensures
        torrent_ok(v1) == torrent_ok(v2),
{
    if v1 is Dict && v2 is Dict {
        let es1 = v1->Dict_0@;
        let es2 = v2->Dict_0@;
        crate::bencode::lemma_beq_dict_get(es1, es2, kw_announce());
        crate::bencode::lemma_beq_dict_get(es1, es2, kw_info());
        crate::bencode::lemma_beq_dict_get(es1, es2, kw_creation_date());
        crate::bencode::lemma_beq_dict_get(es1, es2, kw_comment());
        crate::bencode::lemma_beq_dict_get(es1, es2, kw_created_by());
        crate::bencode::lemma_beq_dict_get(es1, es2, kw_encoding());
        crate::bencode::lemma_beq_dict_get(es1, es2, kw_announce_list());
        match (dict_get(es1, kw_info()), dict_get(es2, kw_info())) {
            (Option::Some(a), Option::Some(b)) => {
                lemma_beq_info_ok(a, b);
            },
            _ => {},
        }
        match (dict_get(es1, kw_announce_list()), dict_get(es2, kw_announce_list())) {
            (Option::Some(a), Option::Some(b)) => {
                if a is List && b is List {
                    let t1 = a->List_0@;
                    let t2 = b->List_0@;
                    if tiers_ok(dict_get(es1, kw_announce_list())) {
                        assert forall|k: int| 0 <= k < t2.len()
                            implies tier_ok(#[trigger] t2[k]) by {
                            crate::bencode::lemma_beq_list_index(t1, t2, k);
                            lemma_beq_tier_ok(t1[k], t2[k]);
                        }
                    }
                    if tiers_ok(dict_get(es2, kw_announce_list())) {
                        assert forall|k: int| 0 <= k < t1.len()
                            implies tier_ok(#[trigger] t1[k]) by {
                            crate::bencode::lemma_beq_list_index(t1, t2, k);
                            lemma_beq_tier_ok(t1[k], t2[k]);
                        }
                    }
                }
            },
            _ => {},
        }
    }
}

} // verus!
