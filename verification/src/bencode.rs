//! Bencode codec: a generic value tree for the four bencode kinds
//! (integers, byte strings, lists, dictionaries), a byte-exact
//! specification of the canonical encoding, and verified encode/decode.
use vstd::prelude::*;

verus! {

use vstd::slice::slice_subrange;
use vstd::slice::slice_to_vec;

/// A bencode value. Dictionaries are kept as ordered key/value entry
/// lists; the canonical encoding emits entries in the order they stand.
#[derive(Debug)]
pub enum Bvalue {
    Int(i64),
    Bytes(Vec<u8>),
    List(Vec<Bvalue>),
    Dict(Vec<(Vec<u8>, Bvalue)>),
}

/// The sub-field on which a shape mismatch was detected, surfaced as
/// the causal context of a `Shape` error.
#[derive(Debug, PartialEq, Eq)]
pub enum Field {
    Document,
    Announce,
    AnnounceList,
    CreationDate,
    Comment,
    CreatedBy,
    Encoding,
    InfoDict,
    Name,
    PieceLength,
    Pieces,
    Private,
    Length,
    Files,
    FilePath,
    Interval,
    Peers,
    PeerId,
    Ip,
    Port,
    Warning,
    MinInterval,
    TrackerId,
    Complete,
    Incomplete,
}

/// Why a byte sequence failed to decode.
#[derive(Debug, PartialEq, Eq)]
pub enum DecodeError {
    /// The input ended before the value did.
    Truncated,
    /// A digit was expected (integer body or string length prefix).
    ExpectedDigit,
    /// An integer or length does not fit the machine representation.
    OutOfRange,
    /// A malformed token: bad leading byte, leading zero, or a negative zero.
    Malformed,
    /// Bytes were left over after the top-level value.
    TrailingData,
    /// The value decoded, but does not fit the requested shape; the
    /// payload names the sub-field that failed.
    Shape(Field),
    /// A `pieces` field whose length is not a multiple of 20.
    InvalidPieces,
    /// A compact peer list whose length is not a multiple of 6.
    InvalidPeers,
    /// A sum of file lengths that does not fit 64 bits.
    LengthOverflow,
}

/// The decimal digits of `n`, most significant first, no leading zeros.
pub open spec fn dec_digits(n: nat) -> Seq<u8>
    decreases n,
{
    if n < 10 {
        seq![(48 + n) as u8]
    } else {
        dec_digits(n / 10).push((48 + n % 10) as u8)
    }
}

/// The bencode digits of a signed integer: a minus sign for negative
/// values, then the decimal digits of the magnitude.
pub open spec fn int_bytes(n: int) -> Seq<u8> {
    if n >= 0 {
        dec_digits(n as nat)
    } else {
        seq![45u8] + dec_digits((-n) as nat)
    }
}

/// The encoding of a byte string: `<decimal length>:<bytes>`.
pub open spec fn str_enc(b: Seq<u8>) -> Seq<u8> {
    dec_digits(b.len()) + seq![58u8] + b
}

/// The encoding of an integer value: `i<digits>e`.
pub open spec fn int_enc(n: int) -> Seq<u8> {
    seq![105u8] + int_bytes(n) + seq![101u8]
}

/// The canonical bencode encoding of a value.
pub open spec fn enc(v: Bvalue) -> Seq<u8>
    decreases v,
{
    match v {
        Bvalue::Int(n) => int_enc(n as int),
        Bvalue::Bytes(b) => str_enc(b@),
        Bvalue::List(items) => seq![108u8] + enc_list(items@) + seq![101u8],
        Bvalue::Dict(entries) => seq![100u8] + enc_dict(entries@) + seq![101u8],
    }
}

/// The concatenated encodings of a sequence of values.
pub open spec fn enc_list(items: Seq<Bvalue>) -> Seq<u8>
    decreases items,
{
    if items.len() == 0 {
        Seq::empty()
    } else {
        enc(items[0]) + enc_list(items.drop_first())
    }
}

/// The concatenated encodings of dictionary entries: each key as a byte
/// string, then its value.
pub open spec fn enc_dict(entries: Seq<(Vec<u8>, Bvalue)>) -> Seq<u8>
    decreases entries,
{
    if entries.len() == 0 {
        Seq::empty()
    } else {
        str_enc(entries[0].0@) + enc(entries[0].1) + enc_dict(entries.drop_first())
    }
}

/// The numeric value of a most-significant-first decimal digit sequence.
pub open spec fn digits_val(ds: Seq<u8>) -> nat
    decreases ds,
{
    if ds.len() == 0 {
        0
    } else {
        (digits_val(ds.drop_last()) * 10 + (ds.last() - 48)) as nat
    }
}

/// Whether every byte of `ds` is an ASCII decimal digit.
pub open spec fn all_digits(ds: Seq<u8>) -> bool {
    forall|k: int| 0 <= k < ds.len() ==> 48 <= #[trigger] ds[k] <= 57
}

pub proof fn lemma_dec_digits_props(n: nat)
    ensures
        dec_digits(n).len() >= 1,
        all_digits(dec_digits(n)),
        n > 0 ==> dec_digits(n)[0] != 48,
        n < 10 ==> dec_digits(n) == seq![(48 + n) as u8],
    decreases n,
{
    if n >= 10 {
        lemma_dec_digits_props(n / 10);
        assert(n / 10 > 0);
    }
}

pub proof fn lemma_digits_val_of_dec(n: nat)
    ensures
        digits_val(dec_digits(n)) == n,
    decreases n,
{
    if n < 10 {
        let ds = dec_digits(n);
        assert(ds.drop_last() =~= Seq::<u8>::empty());
        assert(digits_val(Seq::<u8>::empty()) == 0);
    } else {
        lemma_digits_val_of_dec(n / 10);
        let ds = dec_digits(n);
        assert(ds.drop_last() =~= dec_digits(n / 10));
    }
}

pub proof fn lemma_digits_val_lower(ds: Seq<u8>)
    requires
        ds.len() >= 1,
        all_digits(ds),
        ds[0] != 48,
    ensures
        digits_val(ds) >= 1,
        ds.len() >= 2 ==> digits_val(ds) >= 10,
    decreases ds.len(),
{
    if ds.len() == 1 {
        assert(ds.drop_last() =~= Seq::<u8>::empty());
        assert(digits_val(Seq::<u8>::empty()) == 0);
        assert(digits_val(ds) == (ds.last() - 48) as nat);
    } else {
        let pre = ds.drop_last();
        assert(pre[0] == ds[0]);
        lemma_digits_val_lower(pre);
    }
}

/// A nonempty digit string with no leading zero is exactly the canonical
/// digit rendering of its value.
pub proof fn lemma_digits_canonical(ds: Seq<u8>)
    requires
        ds.len() >= 1,
        all_digits(ds),
        ds[0] != 48 || ds.len() == 1,
    ensures
        dec_digits(digits_val(ds)) == ds,
    decreases ds.len(),
{
    let v = digits_val(ds);
    if ds.len() == 1 {
        assert(ds.drop_last() =~= Seq::<u8>::empty());
        assert(digits_val(Seq::<u8>::empty()) == 0);
        assert(v == (ds.last() - 48) as nat);
        assert(v < 10);
        assert(dec_digits(v) =~= ds);
    } else {
        let pre = ds.drop_last();
        let d = (ds.last() - 48) as nat;
        assert(pre[0] == ds[0]);
        lemma_digits_val_lower(ds);
        assert(v >= 10);
        assert(v == digits_val(pre) * 10 + d);
        assert(v / 10 == digits_val(pre) && v % 10 == d) by (nonlinear_arith)
            requires
                v == digits_val(pre) * 10 + d,
                0 <= d < 10,
        ;
        lemma_digits_canonical(pre);
        assert(dec_digits(v) =~= ds);
    }
}

/// Appends the decimal digits of `n` to `out`.
pub fn push_u64_digits(n: u64, out: &mut Vec<u8>)
    ensures
        final(out)@ == old(out)@ + dec_digits(n as nat),
    decreases n,
{
    if n < 10 {
        out.push((48 + n) as u8);
        assert(out@ =~= old(out)@ + dec_digits(n as nat));
    } else {
        push_u64_digits(n / 10, out);
        out.push((48 + n % 10) as u8);
        assert(out@ =~= old(out)@ + dec_digits(n as nat));
    }
}

/// Appends the bencode digits of a signed integer (sign, then magnitude).
pub fn push_i64_digits(n: i64, out: &mut Vec<u8>)
    ensures
        final(out)@ == old(out)@ + int_bytes(n as int),
{
    if n >= 0 {
        push_u64_digits(n as u64, out);
    } else {
        out.push(45);
        let m: u64 = if n == i64::MIN {
            9223372036854775808u64
        } else {
            (-n) as u64
        };
        assert(m as nat == (-(n as int)) as nat);
        push_u64_digits(m, out);
        assert(out@ =~= old(out)@ + int_bytes(n as int));
    }
}

/// Appends every byte of `b` to `out`.
pub fn push_bytes(b: &[u8], out: &mut Vec<u8>)
    ensures
        final(out)@ == old(out)@ + b@,
{
    let mut k: usize = 0;
    while k < b.len()
        invariant
            k <= b@.len(),
            out@ == old(out)@ + b@.take(k as int),
        decreases b@.len() - k,
    {
        out.push(b[k]);
        assert(out@ =~= old(out)@ + b@.take(k + 1));
        k = k + 1;
    }
    assert(b@.take(b@.len() as int) =~= b@);
}

/// Appends the encoding of a byte string: decimal length, `:`, the bytes.
pub fn push_str_enc(b: &[u8], out: &mut Vec<u8>)
    ensures
        final(out)@ == old(out)@ + str_enc(b@),
{
    push_u64_digits(b.len() as u64, out);
    out.push(58);
    push_bytes(b, out);
    assert(out@ =~= old(out)@ + str_enc(b@));
}

pub proof fn lemma_enc_list_snoc(items: Seq<Bvalue>)
    requires
        items.len() >= 1,
    ensures
        enc_list(items) == enc_list(items.drop_last()) + enc(items.last()),
    decreases items.len(),
{
    if items.len() == 1 {
        assert(items.drop_first() =~= Seq::<Bvalue>::empty());
        assert(items.drop_last() =~= Seq::<Bvalue>::empty());
        assert(enc_list(items) =~= enc_list(items.drop_last()) + enc(items.last()));
    } else {
        let tail = items.drop_first();
        lemma_enc_list_snoc(tail);
        assert(tail.drop_last() =~= items.drop_last().drop_first());
        assert(items.drop_last()[0] == items[0]);
        assert(enc_list(items) =~= enc_list(items.drop_last()) + enc(items.last()));
    }
}

pub proof fn lemma_enc_dict_snoc(entries: Seq<(Vec<u8>, Bvalue)>)
    requires
        entries.len() >= 1,
    ensures
        enc_dict(entries) == enc_dict(entries.drop_last()) + str_enc(entries.last().0@)
            + enc(entries.last().1),
    decreases entries.len(),
{
    if entries.len() == 1 {
        assert(entries.drop_first() =~= Seq::<(Vec<u8>, Bvalue)>::empty());
        assert(entries.drop_last() =~= Seq::<(Vec<u8>, Bvalue)>::empty());
        assert(enc_dict(entries) =~= enc_dict(entries.drop_last())
            + str_enc(entries.last().0@) + enc(entries.last().1));
    } else {
        let tail = entries.drop_first();
        lemma_enc_dict_snoc(tail);
        assert(tail.drop_last() =~= entries.drop_last().drop_first());
        assert(entries.drop_last()[0] == entries[0]);
        assert(enc_dict(entries) =~= enc_dict(entries.drop_last())
            + str_enc(entries.last().0@) + enc(entries.last().1));
    }
}

/// Appends the canonical encoding of `v` to `out`.
#[verifier::loop_isolation(false)]
pub fn encode_into(v: &Bvalue, out: &mut Vec<u8>)
    ensures
        final(out)@ == old(out)@ + enc(*v),
    decreases *v,
{
    match v {
        Bvalue::Int(n) => {
            out.push(105);
            push_i64_digits(*n, out);
            out.push(101);
            assert(out@ =~= old(out)@ + enc(*v));
        },
        Bvalue::Bytes(b) => {
            push_str_enc(b.as_slice(), out);
        },
        Bvalue::List(items) => {
            out.push(108);
            let mut k: usize = 0;
            while k < items.len()
                invariant
                    k <= items@.len(),
                    out@ == old(out)@ + seq![108u8] + enc_list(items@.take(k as int)),
                decreases items@.len() - k,
            {
                proof {
                    assert(decreases_to!(*v => v->List_0));
                    assert(v->List_0 == *items);
                    assert(decreases_to!(*items => items@));
                    assert(decreases_to!(items@ => items@[k as int]));
                }
                encode_into(&items[k], out);
                proof {
                    lemma_enc_list_snoc(items@.take(k + 1));
                    assert(items@.take(k + 1).drop_last() =~= items@.take(k as int));
                    assert(items@.take(k + 1).last() == items@[k as int]);
                    assert(out@ =~= old(out)@ + seq![108u8] + enc_list(items@.take(k + 1)));
                }
                k = k + 1;
            }
            out.push(101);
            proof {
                assert(items@.take(items@.len() as int) =~= items@);
                assert(out@ =~= old(out)@ + enc(*v));
            }
        },
        Bvalue::Dict(entries) => {
            out.push(100);
            let mut k: usize = 0;
            while k < entries.len()
                invariant
                    k <= entries@.len(),
                    out@ == old(out)@ + seq![100u8] + enc_dict(entries@.take(k as int)),
                decreases entries@.len() - k,
            {
                proof {
                    assert(decreases_to!(*v => v->Dict_0));
                    assert(v->Dict_0 == *entries);
                    assert(decreases_to!(*entries => entries@));
                    assert(decreases_to!(entries@ => entries@[k as int]));
                    assert(decreases_to!(entries@[k as int] => entries@[k as int].1));
                }
                push_str_enc(entries[k].0.as_slice(), out);
                encode_into(&entries[k].1, out);
                proof {
                    lemma_enc_dict_snoc(entries@.take(k + 1));
                    assert(entries@.take(k + 1).drop_last() =~= entries@.take(k as int));
                    assert(entries@.take(k + 1).last() == entries@[k as int]);
                    assert(out@ =~= old(out)@ + seq![100u8] + enc_dict(entries@.take(k + 1)));
                }
                k = k + 1;
            }
            out.push(101);
            proof {
                assert(entries@.take(entries@.len() as int) =~= entries@);
                assert(out@ =~= old(out)@ + enc(*v));
            }
        },
    }
}

/// Whether a canonical digit run for `m` stands at `i` and ends at `j`,
/// with no further digit following it.
pub open spec fn digits_at(s: Seq<u8>, i: int, j: int, m: nat) -> bool {
    &&& 0 <= i <= j <= s.len()
    &&& j == s.len() || !(48 <= s[j] <= 57)
    &&& dec_digits(m) == s.subrange(i, j)
}

/// No representable number has its canonical digit run at `i`.
pub open spec fn no_digits_at(s: Seq<u8>, i: int) -> bool {
    forall|m: nat, j: int| m <= u64::MAX as nat ==> !(#[trigger] digits_at(s, i, j, m))
}

/// No byte-string encoding spans any range starting at `i`.
pub open spec fn no_bstr_at(s: Seq<u8>, i: int) -> bool {
    forall|b: Seq<u8>, j: int| i <= j <= s.len() ==> str_enc(b) != s.subrange(i, j)
}

/// Some value's canonical encoding is exactly `s[i..j]`.
pub open spec fn encodes_span(s: Seq<u8>, i: int, j: int) -> bool {
    exists|v: Bvalue| enc(v) == s.subrange(i, j)
}

/// No value's canonical encoding spans any range starting at `i`.
pub open spec fn no_value_at(s: Seq<u8>, i: int) -> bool {
    forall|j: int| i <= j <= s.len() ==> !(#[trigger] encodes_span(s, i, j))
}

/// `s[p..j]` is the tail of a list body: the encodings of some remaining
/// elements, then the closing `e`.
pub open spec fn list_tail_at(s: Seq<u8>, p: int, j: int) -> bool {
    exists|rest: Seq<Bvalue>| enc_list(rest) + seq![101u8] == s.subrange(p, j)
}

/// `s[p..j]` is the tail of a dictionary body: some remaining entries,
/// then the closing `e`.
pub open spec fn dict_tail_at(s: Seq<u8>, p: int, j: int) -> bool {
    exists|rest: Seq<(Vec<u8>, Bvalue)>| enc_dict(rest) + seq![101u8] == s.subrange(p, j)
}

/// `s` is exactly the canonical encoding of some value.
pub open spec fn encodes(s: Seq<u8>) -> bool {
    exists|v: Bvalue| enc(v) == s
}

proof fn lemma_concat_prefix(a: Seq<u8>, t: Seq<u8>, s: Seq<u8>, p: int, j: int)
    requires
        0 <= p <= j <= s.len(),
        a + t == s.subrange(p, j),
    ensures
        p + a.len() <= j,
        a == s.subrange(p, p + a.len()),
        t == s.subrange(p + a.len(), j),
{
    assert((a + t).len() == a.len() + t.len());
    assert forall|k: int| 0 <= k < a.len() implies a[k] == s[p + k] by {
        assert((a + t)[k] == a[k]);
        assert(s.subrange(p, j)[k] == s[p + k]);
    }
    assert(a =~= s.subrange(p, p + a.len()));
    assert forall|k: int| 0 <= k < t.len() implies t[k] == s[p + a.len() + k] by {
        assert((a + t)[a.len() + k] == t[k]);
        assert(s.subrange(p, j)[a.len() + k] == s[p + a.len() + k]);
    }
    assert(t =~= s.subrange(p + a.len(), j));
}

proof fn lemma_digits_val_prefix(ds: Seq<u8>, k: int)
    requires
        all_digits(ds),
        0 <= k <= ds.len(),
    ensures
        digits_val(ds.take(k)) <= digits_val(ds),
    decreases ds.len() - k,
{
    if k == ds.len() {
        assert(ds.take(k) =~= ds);
    } else {
        lemma_digits_val_prefix(ds, k + 1);
        assert(ds.take(k + 1).drop_last() =~= ds.take(k));
        assert(ds.take(k + 1).last() == ds[k]);
        let dv = digits_val(ds.take(k));
        assert(digits_val(ds.take(k + 1)) == dv * 10 + (ds[k] - 48));
        assert(dv * 10 >= dv) by (nonlinear_arith)
            requires
                dv >= 0,
        ;
    }
}

proof fn lemma_digits_at_unique(s: Seq<u8>, i: int, j1: int, m1: nat, j2: int, m2: nat)
    requires
        digits_at(s, i, j1, m1),
        digits_at(s, i, j2, m2),
    ensures
        j1 == j2,
        m1 == m2,
{
    lemma_dec_digits_props(m1);
    lemma_dec_digits_props(m2);
    if j1 < j2 {
        assert(dec_digits(m2)[j1 - i] == s[j1]);
        assert(48 <= s[j1] <= 57);
        assert(false);
    }
    if j2 < j1 {
        assert(dec_digits(m1)[j2 - i] == s[j2]);
        assert(48 <= s[j2] <= 57);
        assert(false);
    }
    lemma_digits_val_of_dec(m1);
    lemma_digits_val_of_dec(m2);
    assert(dec_digits(m1) == dec_digits(m2));
}

proof fn lemma_bstr_candidate(s: Seq<u8>, i: int, j: int, b: Seq<u8>)
    requires
        0 <= i <= j <= s.len(),
        str_enc(b) == s.subrange(i, j),
    ensures
        j == i + dec_digits(b.len()).len() + 1 + b.len(),
        i + dec_digits(b.len()).len() < s.len(),
        s[i + dec_digits(b.len()).len()] == 58,
        digits_at(s, i, i + dec_digits(b.len()).len(), b.len()),
        b == s.subrange(i + dec_digits(b.len()).len() + 1, j),
{
    lemma_dec_digits_props(b.len());
    let d = dec_digits(b.len());
    assert(str_enc(b) =~= d + (seq![58u8] + b));
    lemma_concat_prefix(d, seq![58u8] + b, s, i, j);
    lemma_concat_prefix(seq![58u8], b, s, i + d.len(), j);
    assert(s.subrange(i + d.len(), i + d.len() + 1)[0] == s[i + d.len()]);
}

proof fn lemma_int_candidate(s: Seq<u8>, i: int, j: int)
    requires
        0 <= i <= j <= s.len(),
        i < s.len(),
        s[i] == 105,
        encodes_span(s, i, j),
    ensures
        j >= i + 3,
        s[j - 1] == 101,
        s[i + 1] == 45 ==> j >= i + 4 && (exists|mm: nat|
            1 <= mm <= 0x8000000000000000 && #[trigger] digits_at(s, i + 2, j - 1, mm)),
        s[i + 1] != 45 ==> exists|mm: nat|
            mm <= 0x7fffffffffffffff && #[trigger] digits_at(s, i + 1, j - 1, mm),
{
    let v = choose|v: Bvalue| enc(v) == s.subrange(i, j);
    lemma_enc_shape(v);
    assert(enc(v)[0] == s.subrange(i, j)[0]);
    assert(v is Int);
    let n = v->Int_0;
    let ib = int_bytes(n as int);
    assert(enc(v) =~= seq![105u8] + (ib + seq![101u8]));
    lemma_concat_prefix(seq![105u8], ib + seq![101u8], s, i, j);
    lemma_concat_prefix(ib, seq![101u8], s, i + 1, j);
    assert(s.subrange(i + 1 + ib.len(), j)[0] == s[i + 1 + ib.len()]);
    assert(j == i + 2 + ib.len());
    assert(s[j - 1] == 101);
    if n >= 0 {
        lemma_dec_digits_props(n as nat);
        assert(ib == dec_digits(n as nat));
        assert(ib[0] == s.subrange(i + 1, i + 1 + ib.len())[0]);
        assert(48 <= s[i + 1] <= 57);
        assert(s[i + 1] != 45);
        assert(digits_at(s, i + 1, j - 1, n as nat)) by {
            assert(dec_digits(n as nat) =~= s.subrange(i + 1, j - 1));
        }
        assert(n as nat <= 0x7fffffffffffffff);
    } else {
        let mm = (-(n as int)) as nat;
        lemma_dec_digits_props(mm);
        assert(ib =~= seq![45u8] + dec_digits(mm));
        lemma_concat_prefix(seq![45u8], dec_digits(mm), s, i + 1, i + 1 + ib.len());
        assert(s.subrange(i + 1, i + 2)[0] == s[i + 1]);
        assert(s[i + 1] == 45);
        assert(digits_at(s, i + 2, j - 1, mm)) by {
            assert(dec_digits(mm) =~= s.subrange(i + 2, j - 1));
        }
        assert(1 <= mm <= 0x8000000000000000);
        assert(j >= i + 4);
    }
}

/// Reads a canonical decimal number at position `i`: one or more digits,
/// no leading zero unless the number is exactly zero. Fails exactly when
/// no representable number has its canonical digit run here.
#[verifier::loop_isolation(false)]
#[verifier::rlimit(100)]
pub fn parse_digits(s: &[u8], i: usize) -> (res: Result<(u64, usize), DecodeError>)
    requires
        i <= s@.len(),
    ensures
        (res matches Ok(p) ==> i < p.1 <= s@.len()
            && dec_digits(p.0 as nat) == s@.subrange(i as int, p.1 as int)
            && (p.1 == s@.len() || !(48 <= s@[p.1 as int] <= 57))),
        res is Err ==> no_digits_at(s@, i as int),
{
    if i >= s.len() {
        proof {
            assert forall|m: nat, j2: int| m <= u64::MAX as nat
                implies !digits_at(s@, i as int, j2, m) by {
                if digits_at(s@, i as int, j2, m) {
                    lemma_dec_digits_props(m);
                    assert(s@.subrange(i as int, j2).len() == j2 - i);
                    assert(false);
                }
            }
        }
        return Result::Err(DecodeError::Truncated);
    }
    let c = s[i];
    if c < 48 || c > 57 {
        proof {
            assert forall|m: nat, j2: int| m <= u64::MAX as nat
                implies !digits_at(s@, i as int, j2, m) by {
                if digits_at(s@, i as int, j2, m) {
                    lemma_dec_digits_props(m);
                    assert(dec_digits(m)[0] == s@.subrange(i as int, j2)[0]);
                    assert(48 <= s@[i as int] <= 57);
                    assert(false);
                }
            }
        }
        return Result::Err(DecodeError::ExpectedDigit);
    }
    if c == 48 {
        if i + 1 < s.len() && 48 <= s[i + 1] && s[i + 1] <= 57 {
            proof {
                assert forall|m: nat, j2: int| m <= u64::MAX as nat
                    implies !digits_at(s@, i as int, j2, m) by {
                    if digits_at(s@, i as int, j2, m) {
                        lemma_dec_digits_props(m);
                        assert(dec_digits(m)[0] == s@.subrange(i as int, j2)[0]);
                        assert(dec_digits(m)[0] == 48);
                        assert(m == 0) by {
                            if m > 0 {
                                assert(dec_digits(m)[0] != 48);
                            }
                        }
                        assert(dec_digits(0) =~= seq![48u8]);
                        assert(j2 == i + 1);
                        assert(false);
                    }
                }
            }
            return Result::Err(DecodeError::Malformed);
        }
        proof {
            assert(dec_digits(0) =~= seq![48u8]);
            assert(s@.subrange(i as int, i + 1) =~= seq![48u8]);
        }
        return Result::Ok((0, i + 1));
    }
    let mut m: u64 = (c - 48) as u64;
    let mut j: usize = i + 1;
    proof {
        assert(s@.subrange(i as int, j as int) =~= seq![c]);
        assert(digits_val(Seq::<u8>::empty()) == 0);
        assert(seq![c].drop_last() =~= Seq::<u8>::empty());
    }
    while j < s.len() && 48 <= s[j] && s[j] <= 57
        invariant
            i < j <= s@.len(),
            all_digits(s@.subrange(i as int, j as int)),
            m as nat == digits_val(s@.subrange(i as int, j as int)),
        decreases s@.len() - j,
    {
        let d = (s[j] - 48) as u64;
        if m > (u64::MAX - d) / 10 {
            proof {
                let p = j as int;
                assert forall|m2: nat, j2: int| m2 <= u64::MAX as nat
                    implies !digits_at(s@, i as int, j2, m2) by {
                    if digits_at(s@, i as int, j2, m2) {
                        lemma_dec_digits_props(m2);
                        if j2 <= p {
                            assert(j2 > i);
                            if j2 < p {
                                assert(s@.subrange(i as int, p)[j2 - i] == s@[j2]);
                                assert(48 <= s@[j2] <= 57);
                            } else {
                                assert(48 <= s@[j2] <= 57);
                            }
                            assert(j2 < s@.len());
                            assert(false);
                        }
                        assert(dec_digits(m2).take(p + 1 - i) =~= s@.subrange(i as int, p + 1));
                        assert(s@.subrange(i as int, p + 1).drop_last() =~= s@.subrange(
                            i as int, p));
                        assert(s@.subrange(i as int, p + 1).last() == s@[p]);
                        assert(digits_val(s@.subrange(i as int, p + 1)) == m * 10 + d);
                        let mi = m as int;
                        let di = d as int;
                        let mx = u64::MAX as int;
                        assert(mi * 10 + di > mx) by (nonlinear_arith)
                            requires
                                mi > (mx - di) / 10,
                                0 <= di < 10,
                                mx == 0xffffffffffffffff,
                        ;
                        lemma_digits_val_prefix(dec_digits(m2), p + 1 - i);
                        lemma_digits_val_of_dec(m2);
                        assert(false);
                    }
                }
            }
            return Result::Err(DecodeError::OutOfRange);
        }
        proof {
            let mi = m as int;
            let di = d as int;
            let mx = u64::MAX as int;
            assert(mi * 10 + di <= mx) by (nonlinear_arith)
                requires
                    mi <= (mx - di) / 10,
                    0 <= di < 10,
                    mx == 0xffffffffffffffff,
            ;
            assert(s@.subrange(i as int, j + 1).drop_last() =~= s@.subrange(i as int, j as int));
            assert(s@.subrange(i as int, j + 1).last() == s@[j as int]);
        }
        m = m * 10 + d;
        j = j + 1;
    }
    proof {
        lemma_digits_canonical(s@.subrange(i as int, j as int));
    }
    Result::Ok((m, j))
}

/// Reads a bencode byte string at position `i`: decimal length, `:`,
/// bytes. Fails exactly when no byte-string encoding stands here.
#[verifier::loop_isolation(false)]
#[verifier::rlimit(100)]
pub fn parse_bstr(s: &[u8], i: usize) -> (res: Result<(Vec<u8>, usize), DecodeError>)
    requires
        i <= s@.len(),
    ensures
        (res matches Ok(p) ==> i < p.1 <= s@.len()
            && str_enc(p.0@) == s@.subrange(i as int, p.1 as int)),
        res is Err ==> no_bstr_at(s@, i as int),
{
    let slen = s.len();
    let (m, k) = match parse_digits(s, i) {
        Result::Ok(p) => p,
        Result::Err(e) => {
            proof {
                assert forall|b: Seq<u8>, j2: int| i as int <= j2 <= s@.len()
                    implies str_enc(b) != s@.subrange(i as int, j2) by {
                    if str_enc(b) == s@.subrange(i as int, j2) {
                        lemma_bstr_candidate(s@, i as int, j2, b);
                        assert(b.len() <= s@.len());
                        assert(s@.len() <= u64::MAX as nat);
                        assert(false);
                    }
                }
            }
            return Result::Err(e);
        },
    };
    if k >= s.len() || s[k] != 58 {
        proof {
            assert(digits_at(s@, i as int, k as int, m as nat));
            assert forall|b: Seq<u8>, j2: int| i as int <= j2 <= s@.len()
                implies str_enc(b) != s@.subrange(i as int, j2) by {
                if str_enc(b) == s@.subrange(i as int, j2) {
                    lemma_bstr_candidate(s@, i as int, j2, b);
                    assert(s@.len() <= u64::MAX as nat);
                    lemma_digits_at_unique(s@, i as int, k as int, m as nat,
                        i + dec_digits(b.len()).len(), b.len());
                    assert(s@[k as int] == 58);
                    assert(false);
                }
            }
        }
        if k >= s.len() {
            return Result::Err(DecodeError::Truncated);
        }
        return Result::Err(DecodeError::Malformed);
    }
    let rem = s.len() - (k + 1);
    if m > rem as u64 {
        proof {
            assert(digits_at(s@, i as int, k as int, m as nat));
            assert forall|b: Seq<u8>, j2: int| i as int <= j2 <= s@.len()
                implies str_enc(b) != s@.subrange(i as int, j2) by {
                if str_enc(b) == s@.subrange(i as int, j2) {
                    lemma_bstr_candidate(s@, i as int, j2, b);
                    assert(s@.len() <= u64::MAX as nat);
                    lemma_digits_at_unique(s@, i as int, k as int, m as nat,
                        i + dec_digits(b.len()).len(), b.len());
                    assert(j2 == k + 1 + b.len());
                    assert(false);
                }
            }
        }
        return Result::Err(DecodeError::Truncated);
    }
    let len = m as usize;
    let end = k + 1 + len;
    let b = slice_to_vec(slice_subrange(s, k + 1, end));
    proof {
        assert(b@.len() == m as nat);
        assert(str_enc(b@) =~= s@.subrange(i as int, end as int));
    }
    Result::Ok((b, end))
}

/// Reads one bencode value at position `i`. On success the consumed span
/// of the input is exactly the canonical encoding of the returned value;
/// on failure no value's canonical encoding spans any range starting at
/// `i`.
#[verifier::loop_isolation(false)]
#[verifier::rlimit(100)]
pub fn parse_value(s: &[u8], i: usize) -> (res: Result<(Bvalue, usize), DecodeError>)
    requires
        i <= s@.len(),
    ensures
        (res matches Ok(p) ==> i < p.1 <= s@.len()
            && enc(p.0) == s@.subrange(i as int, p.1 as int)),
        res is Err ==> no_value_at(s@, i as int),
    decreases s@.len() - i,
{
    if i >= s.len() {
        proof {
            assert forall|j2: int| i as int <= j2 <= s@.len()
                implies !encodes_span(s@, i as int, j2) by {
                if encodes_span(s@, i as int, j2) {
                    let v = choose|v: Bvalue| enc(v) == s@.subrange(i as int, j2);
                    lemma_enc_shape(v);
                    assert(s@.subrange(i as int, j2).len() == j2 - i);
                    assert(false);
                }
            }
        }
        return Result::Err(DecodeError::Truncated);
    }
    let c = s[i];
    if c == 105 {
        let mut pos: usize = i + 1;
        if pos >= s.len() {
            proof {
                assert forall|j2: int| i as int <= j2 <= s@.len()
                    implies !encodes_span(s@, i as int, j2) by {
                    if encodes_span(s@, i as int, j2) {
                        lemma_int_candidate(s@, i as int, j2);
                        assert(false);
                    }
                }
            }
            return Result::Err(DecodeError::Truncated);
        }
        let neg = s[pos] == 45;
        if neg {
            pos = pos + 1;
        }
        let (m, j) = match parse_digits(s, pos) {
            Result::Ok(p) => p,
            Result::Err(e) => {
                proof {
                    assert forall|j2: int| i as int <= j2 <= s@.len()
                        implies !encodes_span(s@, i as int, j2) by {
                        if encodes_span(s@, i as int, j2) {
                            lemma_int_candidate(s@, i as int, j2);
                            assert(false);
                        }
                    }
                }
                return Result::Err(e);
            },
        };
        proof {
            assert(digits_at(s@, pos as int, j as int, m as nat));
        }
        if j >= s.len() || s[j] != 101 {
            proof {
                assert forall|j2: int| i as int <= j2 <= s@.len()
                    implies !encodes_span(s@, i as int, j2) by {
                    if encodes_span(s@, i as int, j2) {
                        lemma_int_candidate(s@, i as int, j2);
                        if neg {
                            let mm = choose|mm: nat| 1 <= mm <= 0x8000000000000000
                                && #[trigger] digits_at(s@, i + 2, j2 - 1, mm);
                            lemma_digits_at_unique(s@, pos as int, j as int, m as nat,
                                j2 - 1, mm);
                        } else {
                            let mm = choose|mm: nat| mm <= 0x7fffffffffffffff
                                && #[trigger] digits_at(s@, i + 1, j2 - 1, mm);
                            lemma_digits_at_unique(s@, pos as int, j as int, m as nat,
                                j2 - 1, mm);
                        }
                        assert(false);
                    }
                }
            }
            if j >= s.len() {
                return Result::Err(DecodeError::Truncated);
            }
            return Result::Err(DecodeError::Malformed);
        }
        let n: i64;
        if neg {
            if m == 0 || m > 9223372036854775808u64 {
                proof {
                    assert forall|j2: int| i as int <= j2 <= s@.len()
                        implies !encodes_span(s@, i as int, j2) by {
                        if encodes_span(s@, i as int, j2) {
                            lemma_int_candidate(s@, i as int, j2);
                            let mm = choose|mm: nat| 1 <= mm <= 0x8000000000000000
                                && #[trigger] digits_at(s@, i + 2, j2 - 1, mm);
                            lemma_digits_at_unique(s@, pos as int, j as int, m as nat,
                                j2 - 1, mm);
                            assert(false);
                        }
                    }
                }
                if m == 0 {
                    return Result::Err(DecodeError::Malformed);
                }
                return Result::Err(DecodeError::OutOfRange);
            }
            n = if m == 9223372036854775808u64 {
                i64::MIN
            } else {
                -(m as i64)
            };
        } else {
            if m > 9223372036854775807u64 {
                proof {
                    assert forall|j2: int| i as int <= j2 <= s@.len()
                        implies !encodes_span(s@, i as int, j2) by {
                        if encodes_span(s@, i as int, j2) {
                            lemma_int_candidate(s@, i as int, j2);
                            let mm = choose|mm: nat| mm <= 0x7fffffffffffffff
                                && #[trigger] digits_at(s@, i + 1, j2 - 1, mm);
                            lemma_digits_at_unique(s@, pos as int, j as int, m as nat,
                                j2 - 1, mm);
                            assert(false);
                        }
                    }
                }
                return Result::Err(DecodeError::OutOfRange);
            }
            n = m as i64;
        }
        proof {
            if neg {
                assert((-(n as int)) as nat == m as nat);
            }
            assert(enc(Bvalue::Int(n)) =~= s@.subrange(i as int, j + 1));
        }
        return Result::Ok((Bvalue::Int(n), j + 1));
    }
    if c >= 48 && c <= 57 {
        let (b, j) = match parse_bstr(s, i) {
            Result::Ok(p) => p,
            Result::Err(e) => {
                proof {
                    assert forall|j2: int| i as int <= j2 <= s@.len()
                        implies !encodes_span(s@, i as int, j2) by {
                        if encodes_span(s@, i as int, j2) {
                            let v = choose|v: Bvalue| enc(v) == s@.subrange(i as int, j2);
                            lemma_enc_shape(v);
                            assert(enc(v)[0] == s@.subrange(i as int, j2)[0]);
                            assert(v is Bytes);
                            assert(str_enc(v->Bytes_0@) == s@.subrange(i as int, j2));
                            assert(false);
                        }
                    }
                }
                return Result::Err(e);
            },
        };
        return Result::Ok((Bvalue::Bytes(b), j));
    }
    if c == 108 {
        let mut items: Vec<Bvalue> = Vec::new();
        let mut pos: usize = i + 1;
        proof {
            assert forall|j2: int| i as int <= j2 <= s@.len() && #[trigger] encodes_span(s@,
                i as int, j2) implies j2 > pos as int && list_tail_at(s@, pos as int, j2) by {
                let v = choose|v: Bvalue| enc(v) == s@.subrange(i as int, j2);
                lemma_enc_shape(v);
                assert(enc(v)[0] == s@.subrange(i as int, j2)[0]);
                assert(v is List);
                let ws = v->List_0;
                assert(enc(v) =~= seq![108u8] + (enc_list(ws@) + seq![101u8]));
                lemma_concat_prefix(seq![108u8], enc_list(ws@) + seq![101u8], s@, i as int,
                    j2);
                assert(enc_list(ws@) + seq![101u8] == s@.subrange(i + 1, j2));
            }
        }
        loop
            invariant
                i < pos <= s@.len(),
                enc_list(items@) == s@.subrange(i + 1, pos as int),
                forall|j2: int| i as int <= j2 <= s@.len() && #[trigger] encodes_span(s@,
                    i as int, j2) ==> j2 > pos as int && list_tail_at(s@, pos as int, j2),
            decreases s@.len() - pos,
        {
            if pos >= s.len() {
                proof {
                    assert forall|j2: int| i as int <= j2 <= s@.len()
                        implies !encodes_span(s@, i as int, j2) by {
                        if encodes_span(s@, i as int, j2) {
                            assert(j2 > pos as int);
                            assert(false);
                        }
                    }
                }
                return Result::Err(DecodeError::Truncated);
            }
            if s[pos] == 101 {
                proof {
                    assert(enc(Bvalue::List(items)) =~= s@.subrange(i as int, pos + 1));
                }
                return Result::Ok((Bvalue::List(items), pos + 1));
            }
            let (v, j) = match parse_value(s, pos) {
                Result::Ok(p) => p,
                Result::Err(e) => {
                    proof {
                        assert forall|j2: int| i as int <= j2 <= s@.len()
                            implies !encodes_span(s@, i as int, j2) by {
                            if encodes_span(s@, i as int, j2) {
                                let rest = choose|rest: Seq<Bvalue>| enc_list(rest)
                                    + seq![101u8] == s@.subrange(pos as int, j2);
                                if rest.len() == 0 {
                                    assert(enc_list(rest) + seq![101u8] =~= seq![101u8]);
                                    assert(s@.subrange(pos as int, j2)[0] == s@[pos as int]);
                                    assert(false);
                                }
                                assert(enc_list(rest) + seq![101u8] =~= enc(rest[0])
                                    + (enc_list(rest.drop_first()) + seq![101u8]));
                                lemma_concat_prefix(enc(rest[0]), enc_list(rest.drop_first())
                                    + seq![101u8], s@, pos as int, j2);
                                assert(encodes_span(s@, pos as int,
                                    pos + enc(rest[0]).len())) by {
                                    assert(enc(rest[0]) == s@.subrange(pos as int,
                                        pos + enc(rest[0]).len()));
                                }
                                assert(false);
                            }
                        }
                    }
                    return Result::Err(e);
                },
            };
            proof {
                lemma_enc_list_snoc(items@.push(v));
                assert(items@.push(v).drop_last() =~= items@);
                assert(enc_list(items@.push(v)) =~= s@.subrange(i + 1, j as int));
                assert forall|j2: int| i as int <= j2 <= s@.len() && #[trigger] encodes_span(
                    s@, i as int, j2) implies j2 > j as int && list_tail_at(s@, j as int,
                    j2) by {
                    let rest = choose|rest: Seq<Bvalue>| enc_list(rest) + seq![101u8]
                        == s@.subrange(pos as int, j2);
                    if rest.len() == 0 {
                        assert(enc_list(rest) + seq![101u8] =~= seq![101u8]);
                        assert(s@.subrange(pos as int, j2)[0] == s@[pos as int]);
                        assert(false);
                    }
                    assert(enc_list(rest) + seq![101u8] =~= enc(rest[0])
                        + (enc_list(rest.drop_first()) + seq![101u8]));
                    lemma_concat_prefix(enc(rest[0]), enc_list(rest.drop_first())
                        + seq![101u8], s@, pos as int, j2);
                    let e0len = enc(rest[0]).len();
                    assert(enc(rest[0]) + s@.subrange(pos + e0len, s@.len() as int)
                        =~= s@.subrange(pos as int, s@.len() as int));
                    assert(enc(v) + s@.subrange(j as int, s@.len() as int)
                        =~= s@.subrange(pos as int, s@.len() as int));
                    lemma_enc_unique(rest[0], v, s@.subrange(pos + e0len, s@.len() as int),
                        s@.subrange(j as int, s@.len() as int));
                    assert(pos + e0len == j as int);
                    assert(list_tail_at(s@, j as int, j2)) by {
                        assert(enc_list(rest.drop_first()) + seq![101u8] == s@.subrange(
                            j as int, j2));
                    }
                }
            }
            items.push(v);
            pos = j;
        }
    }
    if c == 100 {
        let mut entries: Vec<(Vec<u8>, Bvalue)> = Vec::new();
        let mut pos: usize = i + 1;
        proof {
            assert forall|j2: int| i as int <= j2 <= s@.len() && #[trigger] encodes_span(s@,
                i as int, j2) implies j2 > pos as int && dict_tail_at(s@, pos as int, j2) by {
                let v = choose|v: Bvalue| enc(v) == s@.subrange(i as int, j2);
                lemma_enc_shape(v);
                assert(enc(v)[0] == s@.subrange(i as int, j2)[0]);
                assert(v is Dict);
                let ws = v->Dict_0;
                assert(enc(v) =~= seq![100u8] + (enc_dict(ws@) + seq![101u8]));
                lemma_concat_prefix(seq![100u8], enc_dict(ws@) + seq![101u8], s@, i as int,
                    j2);
                assert(enc_dict(ws@) + seq![101u8] == s@.subrange(i + 1, j2));
            }
        }
        loop
            invariant
                i < pos <= s@.len(),
                enc_dict(entries@) == s@.subrange(i + 1, pos as int),
                forall|j2: int| i as int <= j2 <= s@.len() && #[trigger] encodes_span(s@,
                    i as int, j2) ==> j2 > pos as int && dict_tail_at(s@, pos as int, j2),
            decreases s@.len() - pos,
        {
            if pos >= s.len() {
                proof {
                    assert forall|j2: int| i as int <= j2 <= s@.len()
                        implies !encodes_span(s@, i as int, j2) by {
                        if encodes_span(s@, i as int, j2) {
                            assert(j2 > pos as int);
                            assert(false);
                        }
                    }
                }
                return Result::Err(DecodeError::Truncated);
            }
            if s[pos] == 101 {
                proof {
                    assert(enc(Bvalue::Dict(entries)) =~= s@.subrange(i as int, pos + 1));
                }
                return Result::Ok((Bvalue::Dict(entries), pos + 1));
            }
            let (key, k) = match parse_bstr(s, pos) {
                Result::Ok(p) => p,
                Result::Err(e) => {
                    proof {
                        assert forall|j2: int| i as int <= j2 <= s@.len()
                            implies !encodes_span(s@, i as int, j2) by {
                            if encodes_span(s@, i as int, j2) {
                                let rest = choose|rest: Seq<(Vec<u8>, Bvalue)>| enc_dict(rest)
                                    + seq![101u8] == s@.subrange(pos as int, j2);
                                if rest.len() == 0 {
                                    assert(enc_dict(rest) + seq![101u8] =~= seq![101u8]);
                                    assert(s@.subrange(pos as int, j2)[0] == s@[pos as int]);
                                    assert(false);
                                }
                                assert(enc_dict(rest) + seq![101u8] =~= str_enc(rest[0].0@)
                                    + ((enc(rest[0].1) + (enc_dict(rest.drop_first())
                                    + seq![101u8]))));
                                lemma_concat_prefix(str_enc(rest[0].0@), enc(rest[0].1)
                                    + (enc_dict(rest.drop_first()) + seq![101u8]), s@,
                                    pos as int, j2);
                                assert(false);
                            }
                        }
                    }
                    return Result::Err(e);
                },
            };
            let (v, j) = match parse_value(s, k) {
                Result::Ok(p) => p,
                Result::Err(e) => {
                    proof {
                        assert forall|j2: int| i as int <= j2 <= s@.len()
                            implies !encodes_span(s@, i as int, j2) by {
                            if encodes_span(s@, i as int, j2) {
                                let rest = choose|rest: Seq<(Vec<u8>, Bvalue)>| enc_dict(rest)
                                    + seq![101u8] == s@.subrange(pos as int, j2);
                                if rest.len() == 0 {
                                    assert(enc_dict(rest) + seq![101u8] =~= seq![101u8]);
                                    assert(s@.subrange(pos as int, j2)[0] == s@[pos as int]);
                                    assert(false);
                                }
                                let tail = enc(rest[0].1) + (enc_dict(rest.drop_first())
                                    + seq![101u8]);
                                assert(enc_dict(rest) + seq![101u8] =~= str_enc(rest[0].0@)
                                    + tail);
                                lemma_concat_prefix(str_enc(rest[0].0@), tail, s@, pos as int,
                                    j2);
                                let sklen = str_enc(rest[0].0@).len();
                                assert(str_enc(rest[0].0@) + s@.subrange(pos + sklen,
                                    s@.len() as int) =~= s@.subrange(pos as int,
                                    s@.len() as int));
                                assert(str_enc(key@) + s@.subrange(k as int, s@.len() as int)
                                    =~= s@.subrange(pos as int, s@.len() as int));
                                lemma_str_enc_unique(rest[0].0@, key@, s@.subrange(pos + sklen,
                                    s@.len() as int), s@.subrange(k as int, s@.len() as int));
                                assert(pos + sklen == k as int);
                                assert(tail == s@.subrange(k as int, j2));
                                lemma_concat_prefix(enc(rest[0].1), enc_dict(rest.drop_first())
                                    + seq![101u8], s@, k as int, j2);
                                assert(encodes_span(s@, k as int,
                                    k + enc(rest[0].1).len())) by {
                                    assert(enc(rest[0].1) == s@.subrange(k as int,
                                        k + enc(rest[0].1).len()));
                                }
                                assert(false);
                            }
                        }
                    }
                    return Result::Err(e);
                },
            };
            proof {
                lemma_enc_dict_snoc(entries@.push((key, v)));
                assert(entries@.push((key, v)).drop_last() =~= entries@);
                assert(enc_dict(entries@.push((key, v))) =~= s@.subrange(i + 1, j as int));
                assert forall|j2: int| i as int <= j2 <= s@.len() && #[trigger] encodes_span(
                    s@, i as int, j2) implies j2 > j as int && dict_tail_at(s@, j as int,
                    j2) by {
                    let rest = choose|rest: Seq<(Vec<u8>, Bvalue)>| enc_dict(rest)
                        + seq![101u8] == s@.subrange(pos as int, j2);
                    if rest.len() == 0 {
                        assert(enc_dict(rest) + seq![101u8] =~= seq![101u8]);
                        assert(s@.subrange(pos as int, j2)[0] == s@[pos as int]);
                        assert(false);
                    }
                    let tail = enc(rest[0].1) + (enc_dict(rest.drop_first()) + seq![101u8]);
                    assert(enc_dict(rest) + seq![101u8] =~= str_enc(rest[0].0@) + tail);
                    lemma_concat_prefix(str_enc(rest[0].0@), tail, s@, pos as int, j2);
                    let sklen = str_enc(rest[0].0@).len();
                    assert(str_enc(rest[0].0@) + s@.subrange(pos + sklen, s@.len() as int)
                        =~= s@.subrange(pos as int, s@.len() as int));
                    assert(str_enc(key@) + s@.subrange(k as int, s@.len() as int)
                        =~= s@.subrange(pos as int, s@.len() as int));
                    lemma_str_enc_unique(rest[0].0@, key@, s@.subrange(pos + sklen,
                        s@.len() as int), s@.subrange(k as int, s@.len() as int));
                    assert(pos + sklen == k as int);
                    assert(tail == s@.subrange(k as int, j2));
                    lemma_concat_prefix(enc(rest[0].1), enc_dict(rest.drop_first())
                        + seq![101u8], s@, k as int, j2);
                    let e0len = enc(rest[0].1).len();
                    assert(enc(rest[0].1) + s@.subrange(k + e0len, s@.len() as int)
                        =~= s@.subrange(k as int, s@.len() as int));
                    assert(enc(v) + s@.subrange(j as int, s@.len() as int)
                        =~= s@.subrange(k as int, s@.len() as int));
                    lemma_enc_unique(rest[0].1, v, s@.subrange(k + e0len, s@.len() as int),
                        s@.subrange(j as int, s@.len() as int));
                    assert(k + e0len == j as int);
                    assert(dict_tail_at(s@, j as int, j2)) by {
                        assert(enc_dict(rest.drop_first()) + seq![101u8] == s@.subrange(
                            j as int, j2));
                    }
                }
            }
            entries.push((key, v));
            pos = j;
        }
    }
    proof {
        assert forall|j2: int| i as int <= j2 <= s@.len()
            implies !encodes_span(s@, i as int, j2) by {
            if encodes_span(s@, i as int, j2) {
                let v = choose|v: Bvalue| enc(v) == s@.subrange(i as int, j2);
                lemma_enc_shape(v);
                assert(enc(v)[0] == s@.subrange(i as int, j2)[0]);
                assert(false);
            }
        }
    }
    Result::Err(DecodeError::Malformed)
}

/// Decodes a complete bencode document: one value spanning all of `s`.
/// Succeeds exactly when `s` is the canonical encoding of some value;
/// the canonical encoding of the result is then exactly `s`.
pub fn decode(s: &[u8]) -> (res: Result<Bvalue, DecodeError>)
    ensures
        (res matches Ok(v) ==> enc(v) == s@),
        res is Ok <==> encodes(s@),
{
    match parse_value(s, 0) {
        Result::Ok((v, j)) => {
            if j == s.len() {
                proof {
                    assert(s@.subrange(0, s@.len() as int) =~= s@);
                    assert(encodes(s@)) by {
                        assert(enc(v) == s@);
                    }
                }
                Result::Ok(v)
            } else {
                proof {
                    if encodes(s@) {
                        let w = choose|w: Bvalue| enc(w) == s@;
                        assert(enc(v) + s@.subrange(j as int, s@.len() as int) =~= s@);
                        assert(enc(w) + Seq::<u8>::empty() =~= s@);
                        lemma_enc_unique(v, w, s@.subrange(j as int, s@.len() as int),
                            Seq::<u8>::empty());
                        assert(false);
                    }
                }
                Result::Err(DecodeError::TrailingData)
            }
        },
        Result::Err(e) => {
            proof {
                if encodes(s@) {
                    let w = choose|w: Bvalue| enc(w) == s@;
                    assert(encodes_span(s@, 0, s@.len() as int)) by {
                        assert(enc(w) == s@.subrange(0, s@.len() as int)) by {
                            assert(s@.subrange(0, s@.len() as int) =~= s@);
                        }
                    }
                    assert(false);
                }
            }
            Result::Err(e)
        },
    }
}

/// The canonical bencode encoding of `v`, as fresh bytes.
pub fn encode(v: &Bvalue) -> (r: Vec<u8>)
    ensures
        r@ == enc(*v),
{
    let mut out: Vec<u8> = Vec::new();
    encode_into(v, &mut out);
    out
}

/// Byte-wise equality of two slices.
pub fn bytes_eq(a: &[u8], b: &[u8]) -> (r: bool)
    ensures
        r == (a@ == b@),
{
    if a.len() != b.len() {
        return false;
    }
    let mut k: usize = 0;
    while k < a.len()
        invariant
            k <= a@.len(),
            a@.len() == b@.len(),
            forall|j: int| 0 <= j < k ==> a@[j] == b@[j],
        decreases a@.len() - k,
    {
        if a[k] != b[k] {
            return false;
        }
        k = k + 1;
    }
    proof {
        assert(a@ =~= b@);
    }
    true
}

/// A fresh copy of a byte slice.
pub fn copy_bytes(b: &[u8]) -> (r: Vec<u8>)
    ensures
        r@ == b@,
{
    let mut out: Vec<u8> = Vec::new();
    push_bytes(b, &mut out);
    out
}


/// The value of the first entry with the given key, if any.
pub open spec fn dict_get(es: Seq<(Vec<u8>, Bvalue)>, key: Seq<u8>) -> Option<Bvalue>
    decreases es,
{
    if es.len() == 0 {
        Option::None
    } else if es[0].0@ == key {
        Option::Some(es[0].1)
    } else {
        dict_get(es.drop_first(), key)
    }
}

proof fn lemma_dict_get_step(es: Seq<(Vec<u8>, Bvalue)>, key: Seq<u8>, k: int)
    requires
        0 <= k <= es.len(),
        forall|j: int| 0 <= j < k ==> (#[trigger] es[j]).0@ != key,
    ensures
        dict_get(es, key) == dict_get(es.skip(k), key),
    decreases k,
{
    if k == 0 {
        assert(es.skip(0) =~= es);
    } else {
        lemma_dict_get_step(es, key, k - 1);
        let sk = es.skip(k - 1);
        assert(sk.len() > 0);
        assert(sk[0] == es[k - 1]);
        assert(sk[0].0@ != key);
        assert(sk.drop_first() =~= es.skip(k));
        assert(dict_get(sk, key) == dict_get(sk.drop_first(), key));
    }
}

/// Finds the first entry with the given key in a dictionary's entry list.
#[verifier::loop_isolation(false)]
pub fn lookup<'a>(es: &'a Vec<(Vec<u8>, Bvalue)>, key: &[u8]) -> (res: Option<&'a Bvalue>)
    ensures
        (res matches Some(b) ==> dict_get(es@, key@) == Some(*b)),
        res is None ==> dict_get(es@, key@) is None,
{
    let mut k: usize = 0;
    while k < es.len()
        invariant
            k <= es@.len(),
            forall|j: int| 0 <= j < k ==> (#[trigger] es@[j]).0@ != key@,
        decreases es@.len() - k,
    {
        if bytes_eq(es[k].0.as_slice(), key) {
            proof {
                lemma_dict_get_step(es@, key@, k as int);
                assert(es@.skip(k as int)[0] == es@[k as int]);
            }
            return Option::Some(&es[k].1);
        }
        k = k + 1;
    }
    proof {
        lemma_dict_get_step(es@, key@, es@.len() as int);
        assert(es@.skip(es@.len() as int) =~= Seq::<(Vec<u8>, Bvalue)>::empty());
    }
    Option::None
}


pub proof fn lemma_concat_split(a1: Seq<u8>, t1: Seq<u8>, a2: Seq<u8>, t2: Seq<u8>)
    requires
        a1 + t1 == a2 + t2,
        a1.len() == a2.len(),
    ensures
        a1 == a2,
        t1 == t2,
{
    assert forall|k: int| 0 <= k < a1.len() implies a1[k] == a2[k] by {
        assert((a1 + t1)[k] == a1[k]);
        assert((a2 + t2)[k] == a2[k]);
    }
    assert(a1 =~= a2);
    assert((a1 + t1).len() == a1.len() + t1.len());
    assert((a2 + t2).len() == a2.len() + t2.len());
    assert(t1.len() == t2.len());
    assert forall|k: int| 0 <= k < t1.len() implies t1[k] == t2[k] by {
        assert((a1 + t1)[a1.len() + k] == t1[k]);
        assert((a2 + t2)[a2.len() + k] == t2[k]);
    }
    assert(t1 =~= t2);
}

proof fn lemma_digits_unique(a1: Seq<u8>, t1: Seq<u8>, a2: Seq<u8>, t2: Seq<u8>)
    requires
        all_digits(a1),
        all_digits(a2),
        a1.len() >= 1,
        a2.len() >= 1,
        a1 + t1 == a2 + t2,
        t1.len() == 0 || !(48 <= t1[0] <= 57),
        t2.len() == 0 || !(48 <= t2[0] <= 57),
    ensures
        a1 == a2,
        t1 == t2,
{
    assert((a1 + t1).len() == a1.len() + t1.len());
    assert((a2 + t2).len() == a2.len() + t2.len());
    assert(a1.len() + t1.len() == a2.len() + t2.len());
    if a1.len() < a2.len() {
        assert(t1.len() > 0);
        assert((a1 + t1)[a1.len() as int] == t1[0]);
        assert((a2 + t2)[a1.len() as int] == a2[a1.len() as int]);
        assert(48 <= a2[a1.len() as int] <= 57);
        assert(false);
    }
    if a2.len() < a1.len() {
        assert(t2.len() > 0);
        assert((a2 + t2)[a2.len() as int] == t2[0]);
        assert((a1 + t1)[a2.len() as int] == a1[a2.len() as int]);
        assert(48 <= a1[a2.len() as int] <= 57);
        assert(false);
    }
    lemma_concat_split(a1, t1, a2, t2);
}

/// A byte-string encoding determines the string and what follows it: the
/// encoding is prefix-free within a longer message.
pub proof fn lemma_str_enc_unique(x: Seq<u8>, y: Seq<u8>, t1: Seq<u8>, t2: Seq<u8>)
    requires
        str_enc(x) + t1 == str_enc(y) + t2,
    ensures
        x == y,
        t1 == t2,
{
    let d1 = dec_digits(x.len());
    let d2 = dec_digits(y.len());
    lemma_dec_digits_props(x.len());
    lemma_dec_digits_props(y.len());
    let u1 = seq![58u8] + (x + t1);
    let u2 = seq![58u8] + (y + t2);
    assert(d1 + u1 =~= str_enc(x) + t1);
    assert(d2 + u2 =~= str_enc(y) + t2);
    assert(u1[0] == 58 && u2[0] == 58);
    lemma_digits_unique(d1, u1, d2, u2);
    lemma_digits_val_of_dec(x.len());
    lemma_digits_val_of_dec(y.len());
    assert(x.len() == y.len());
    lemma_concat_split(seq![58u8], x + t1, seq![58u8], y + t2);
    lemma_concat_split(x, t1, y, t2);
}

/// An integer encoding determines the integer and what follows it.
pub proof fn lemma_int_enc_unique(n1: int, n2: int, t1: Seq<u8>, t2: Seq<u8>)
    requires
        int_enc(n1) + t1 == int_enc(n2) + t2,
    ensures
        n1 == n2,
        t1 == t2,
{
    let b1 = int_bytes(n1);
    let b2 = int_bytes(n2);
    let u1 = b1 + (seq![101u8] + t1);
    let u2 = b2 + (seq![101u8] + t2);
    assert(seq![105u8] + u1 =~= int_enc(n1) + t1);
    assert(seq![105u8] + u2 =~= int_enc(n2) + t2);
    lemma_concat_split(seq![105u8], u1, seq![105u8], u2);
    lemma_dec_digits_props((if n1 >= 0 { n1 } else { -n1 }) as nat);
    lemma_dec_digits_props((if n2 >= 0 { n2 } else { -n2 }) as nat);
    assert(b1.len() >= 1 && b2.len() >= 1);
    assert(u1[0] == b1[0] && u2[0] == b2[0]);
    if n1 >= 0 && n2 >= 0 {
        assert((seq![101u8] + t1)[0] == 101);
        assert((seq![101u8] + t2)[0] == 101);
        lemma_digits_unique(b1, seq![101u8] + t1, b2, seq![101u8] + t2);
        lemma_digits_val_of_dec(n1 as nat);
        lemma_digits_val_of_dec(n2 as nat);
        lemma_concat_split(seq![101u8], t1, seq![101u8], t2);
    } else if n1 < 0 && n2 < 0 {
        let m1 = dec_digits((-n1) as nat);
        let m2 = dec_digits((-n2) as nat);
        let w1 = m1 + (seq![101u8] + t1);
        let w2 = m2 + (seq![101u8] + t2);
        assert(seq![45u8] + w1 =~= u1);
        assert(seq![45u8] + w2 =~= u2);
        lemma_concat_split(seq![45u8], w1, seq![45u8], w2);
        assert((seq![101u8] + t1)[0] == 101);
        assert((seq![101u8] + t2)[0] == 101);
        lemma_digits_unique(m1, seq![101u8] + t1, m2, seq![101u8] + t2);
        lemma_digits_val_of_dec((-n1) as nat);
        lemma_digits_val_of_dec((-n2) as nat);
        lemma_concat_split(seq![101u8], t1, seq![101u8], t2);
    } else if n1 >= 0 {
        assert(48 <= b1[0] <= 57);
        assert(b2[0] == 45);
        assert(false);
    } else {
        assert(b1[0] == 45);
        assert(48 <= b2[0] <= 57);
        assert(false);
    }
}


/// Structural equality of two bencode values, over the views of their
/// byte vectors.
pub open spec fn beq(v1: Bvalue, v2: Bvalue) -> bool
    decreases v1,
{
    match (v1, v2) {
        (Bvalue::Int(a), Bvalue::Int(b)) => a == b,
        (Bvalue::Bytes(a), Bvalue::Bytes(b)) => a@ == b@,
        (Bvalue::List(a), Bvalue::List(b)) => beq_list(a@, b@),
        (Bvalue::Dict(a), Bvalue::Dict(b)) => beq_entries(a@, b@),
        _ => false,
    }
}

/// Pointwise structural equality of two value sequences.
pub open spec fn beq_list(s1: Seq<Bvalue>, s2: Seq<Bvalue>) -> bool
    decreases s1,
{
    if s1.len() != s2.len() {
        false
    } else if s1.len() == 0 {
        true
    } else {
        beq(s1[0], s2[0]) && beq_list(s1.drop_first(), s2.drop_first())
    }
}

/// Pointwise equality of two entry lists: equal keys, structurally equal
/// values.
pub open spec fn beq_entries(s1: Seq<(Vec<u8>, Bvalue)>, s2: Seq<(Vec<u8>, Bvalue)>) -> bool
    decreases s1,
{
    if s1.len() != s2.len() {
        false
    } else if s1.len() == 0 {
        true
    } else {
        s1[0].0@ == s2[0].0@ && beq(s1[0].1, s2[0].1) && beq_entries(s1.drop_first(),
            s2.drop_first())
    }
}

proof fn lemma_enc_shape(v: Bvalue)
    ensures
        enc(v).len() >= 2,
        v is Int ==> enc(v)[0] == 105 && enc(v).len() >= 3,
        v is Bytes ==> 48 <= enc(v)[0] <= 57,
        v is List ==> enc(v)[0] == 108,
        v is Dict ==> enc(v)[0] == 100,
        enc(v)[0] == 105 ==> v is Int,
        48 <= enc(v)[0] <= 57 ==> v is Bytes,
        enc(v)[0] == 108 ==> v is List,
        enc(v)[0] == 100 ==> v is Dict,
{
    match v {
        Bvalue::Int(n) => {
            lemma_dec_digits_props((if n >= 0 { n as int } else { -(n as int) }) as nat);
        },
        Bvalue::Bytes(b) => {
            lemma_dec_digits_props(b@.len());
            assert(enc(v)[0] == dec_digits(b@.len())[0]);
        },
        Bvalue::List(_) => {},
        Bvalue::Dict(_) => {},
    }
}

proof fn lemma_enc_unique(v1: Bvalue, v2: Bvalue, t1: Seq<u8>, t2: Seq<u8>)
    requires
        enc(v1) + t1 == enc(v2) + t2,
    ensures
        beq(v1, v2),
        t1 == t2,
    decreases v1,
{
    lemma_enc_shape(v1);
    lemma_enc_shape(v2);
    assert((enc(v1) + t1)[0] == enc(v1)[0]);
    assert((enc(v2) + t2)[0] == enc(v2)[0]);
    match (v1, v2) {
        (Bvalue::Int(n1), Bvalue::Int(n2)) => {
            lemma_int_enc_unique(n1 as int, n2 as int, t1, t2);
        },
        (Bvalue::Bytes(b1), Bvalue::Bytes(b2)) => {
            lemma_str_enc_unique(b1@, b2@, t1, t2);
        },
        (Bvalue::List(items1), Bvalue::List(items2)) => {
            let u1 = seq![101u8] + t1;
            let u2 = seq![101u8] + t2;
            assert(enc(v1) + t1 =~= seq![108u8] + (enc_list(items1@) + u1));
            assert(enc(v2) + t2 =~= seq![108u8] + (enc_list(items2@) + u2));
            lemma_concat_split(seq![108u8], enc_list(items1@) + u1, seq![108u8],
                enc_list(items2@) + u2);
            assert(decreases_to!(v1 => items1@));
            lemma_enc_list_unique(items1@, items2@, u1, u2);
            lemma_concat_split(seq![101u8], t1, seq![101u8], t2);
        },
        (Bvalue::Dict(entries1), Bvalue::Dict(entries2)) => {
            let u1 = seq![101u8] + t1;
            let u2 = seq![101u8] + t2;
            assert(enc(v1) + t1 =~= seq![100u8] + (enc_dict(entries1@) + u1));
            assert(enc(v2) + t2 =~= seq![100u8] + (enc_dict(entries2@) + u2));
            lemma_concat_split(seq![100u8], enc_dict(entries1@) + u1, seq![100u8],
                enc_dict(entries2@) + u2);
            assert(decreases_to!(v1 => entries1@));
            lemma_enc_dict_unique(entries1@, entries2@, u1, u2);
            lemma_concat_split(seq![101u8], t1, seq![101u8], t2);
        },
        _ => {
            assert(false);
        },
    }
}

proof fn lemma_enc_list_unique(s1: Seq<Bvalue>, s2: Seq<Bvalue>, t1: Seq<u8>, t2: Seq<u8>)
    requires
        enc_list(s1) + t1 == enc_list(s2) + t2,
        t1.len() >= 1 && t1[0] == 101,
        t2.len() >= 1 && t2[0] == 101,
    ensures
        beq_list(s1, s2),
        t1 == t2,
    decreases s1,
{
    if s1.len() == 0 && s2.len() == 0 {
        assert(enc_list(s1) + t1 =~= t1);
        assert(enc_list(s2) + t2 =~= t2);
    } else if s1.len() == 0 {
        lemma_enc_shape(s2[0]);
        assert(enc_list(s1) + t1 =~= t1);
        assert(enc_list(s2) + t2 =~= enc(s2[0]) + (enc_list(s2.drop_first()) + t2));
        assert(t1[0] == enc(s2[0])[0]);
        assert(false);
    } else if s2.len() == 0 {
        lemma_enc_shape(s1[0]);
        assert(enc_list(s2) + t2 =~= t2);
        assert(enc_list(s1) + t1 =~= enc(s1[0]) + (enc_list(s1.drop_first()) + t1));
        assert(t2[0] == enc(s1[0])[0]);
        assert(false);
    } else {
        assert(enc_list(s1) + t1 =~= enc(s1[0]) + (enc_list(s1.drop_first()) + t1));
        assert(enc_list(s2) + t2 =~= enc(s2[0]) + (enc_list(s2.drop_first()) + t2));
        lemma_enc_unique(s1[0], s2[0], enc_list(s1.drop_first()) + t1,
            enc_list(s2.drop_first()) + t2);
        lemma_enc_list_unique(s1.drop_first(), s2.drop_first(), t1, t2);
    }
}

proof fn lemma_enc_dict_unique(
    s1: Seq<(Vec<u8>, Bvalue)>,
    s2: Seq<(Vec<u8>, Bvalue)>,
    t1: Seq<u8>,
    t2: Seq<u8>,
)
    requires
        enc_dict(s1) + t1 == enc_dict(s2) + t2,
        t1.len() >= 1 && t1[0] == 101,
        t2.len() >= 1 && t2[0] == 101,
    ensures
        beq_entries(s1, s2),
        t1 == t2,
    decreases s1,
{
    if s1.len() == 0 && s2.len() == 0 {
        assert(enc_dict(s1) + t1 =~= t1);
        assert(enc_dict(s2) + t2 =~= t2);
    } else if s1.len() == 0 {
        lemma_dec_digits_props(s2[0].0@.len());
        assert(enc_dict(s1) + t1 =~= t1);
        assert(enc_dict(s2) + t2 =~= str_enc(s2[0].0@) + (enc(s2[0].1) + (enc_dict(
            s2.drop_first()) + t2)));
        assert(t1[0] == str_enc(s2[0].0@)[0]);
        assert(str_enc(s2[0].0@)[0] == dec_digits(s2[0].0@.len())[0]);
        assert(false);
    } else if s2.len() == 0 {
        lemma_dec_digits_props(s1[0].0@.len());
        assert(enc_dict(s2) + t2 =~= t2);
        assert(enc_dict(s1) + t1 =~= str_enc(s1[0].0@) + (enc(s1[0].1) + (enc_dict(
            s1.drop_first()) + t1)));
        assert(t2[0] == str_enc(s1[0].0@)[0]);
        assert(str_enc(s1[0].0@)[0] == dec_digits(s1[0].0@.len())[0]);
        assert(false);
    } else {
        assert(enc_dict(s1) + t1 =~= str_enc(s1[0].0@) + (enc(s1[0].1) + (enc_dict(
            s1.drop_first()) + t1)));
        assert(enc_dict(s2) + t2 =~= str_enc(s2[0].0@) + (enc(s2[0].1) + (enc_dict(
            s2.drop_first()) + t2)));
        lemma_str_enc_unique(s1[0].0@, s2[0].0@, enc(s1[0].1) + (enc_dict(s1.drop_first())
            + t1), enc(s2[0].1) + (enc_dict(s2.drop_first()) + t2));
        assert(decreases_to!(s1 => s1[0]));
        lemma_enc_unique(s1[0].1, s2[0].1, enc_dict(s1.drop_first()) + t1,
            enc_dict(s2.drop_first()) + t2);
        lemma_enc_dict_unique(s1.drop_first(), s2.drop_first(), t1, t2);
    }
}

/// The codec round-trip law: the canonical encoding is injective. A
/// decoded value re-encodes exactly to its input, so a value decoded from
/// the encoding of `v` is structurally equal to `v`.
pub proof fn lemma_enc_injective(v1: Bvalue, v2: Bvalue)
    requires
        enc(v1) == enc(v2),
    ensures
        beq(v1, v2),
{
    assert(enc(v1) + Seq::<u8>::empty() =~= enc(v2) + Seq::<u8>::empty());
    lemma_enc_unique(v1, v2, Seq::empty(), Seq::empty());
}


/// Equal positions of structurally equal lists hold structurally equal
/// values.
pub proof fn lemma_beq_list_index(l1: Seq<Bvalue>, l2: Seq<Bvalue>, k: int)
    requires
        beq_list(l1, l2),
        0 <= k < l1.len(),
    ensures
        l1.len() == l2.len(),
        beq(l1[k], l2[k]),
    decreases k,
{
    if k > 0 {
        lemma_beq_list_index(l1.drop_first(), l2.drop_first(), k - 1);
        assert(l1.drop_first()[k - 1] == l1[k]);
        assert(l2.drop_first()[k - 1] == l2[k]);
    }
}

/// Pointwise structural equality gives structural equality of lists.
pub proof fn lemma_beq_list_from_pointwise(l1: Seq<Bvalue>, l2: Seq<Bvalue>)
    requires
        l1.len() == l2.len(),
        forall|k: int| 0 <= k < l1.len() ==> beq(#[trigger] l1[k], l2[k]),
    ensures
        beq_list(l1, l2),
    decreases l1.len(),
{
    if l1.len() > 0 {
        assert forall|k: int| 0 <= k < l1.drop_first().len()
            implies beq(#[trigger] l1.drop_first()[k], l2.drop_first()[k]) by {
            assert(l1.drop_first()[k] == l1[k + 1]);
            assert(l2.drop_first()[k] == l2[k + 1]);
        }
        lemma_beq_list_from_pointwise(l1.drop_first(), l2.drop_first());
    }
}

/// Looking a key up in structurally equal entry lists gives absence on
/// both sides, or structurally equal values.
pub proof fn lemma_beq_dict_get(
    es1: Seq<(Vec<u8>, Bvalue)>,
    es2: Seq<(Vec<u8>, Bvalue)>,
    k: Seq<u8>,
)
    requires
        beq_entries(es1, es2),
    ensures
        match (dict_get(es1, k), dict_get(es2, k)) {
            (Option::None, Option::None) => true,
            (Option::Some(a), Option::Some(b)) => beq(a, b),
            _ => false,
        },
    decreases es1,
{
    if es1.len() != 0 {
        assert(es1[0].0@ == es2[0].0@);
        if es1[0].0@ != k {
            lemma_beq_dict_get(es1.drop_first(), es2.drop_first(), k);
        }
    }
}

} // verus!
