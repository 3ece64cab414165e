//! The record codec: how one log record is laid out in bytes.
//!
//! A record is a tag byte (`1` for a put (a set of a key), `0` for a removal) followed by its
//! strings, each written as its UTF-8 byte length (eight bytes, little endian)
//! and then its UTF-8 bytes. The layout is self-delimiting: the decoder learns
//! from the bytes themselves where a record ends.

use vstd::bytes::*;
use vstd::prelude::*;
use vstd::utf8::*;

verus! {

/// One record of the log.
#[derive(Debug, PartialEq, Eq)]
pub enum Log {
    Put { key: String, value: String },
    Rm { key: String },
}

/// The mathematical value of a record.
pub enum LogModel {
    Put { key: Seq<char>, value: Seq<char> },
    Rm { key: Seq<char> },
}

impl LogModel {
    pub open spec fn key(self) -> Seq<char> {
        match self {
            LogModel::Put { key, .. } => key,
            LogModel::Rm { key } => key,
        }
    }
}

impl View for Log {
    type V = LogModel;

    open spec fn view(&self) -> LogModel {
        match self {
            Log::Put { key, value } => LogModel::Put { key: key@, value: value@ },
            Log::Rm { key } => LogModel::Rm { key: key@ },
        }
    }
}

pub const TAG_PUT: u8 = 1;

pub const TAG_RM: u8 = 0;

/// A string's length prefix and UTF-8 bytes.
pub open spec fn field_bytes(s: Seq<char>) -> Seq<u8> {
    spec_u64_to_le_bytes(encode_utf8(s).len() as u64) + encode_utf8(s)
}

/// A string can be written as a field when its byte length fits the prefix.
pub open spec fn field_fits(s: Seq<char>) -> bool {
    encode_utf8(s).len() <= u64::MAX
}

pub open spec fn record_fits(l: LogModel) -> bool {
    match l {
        LogModel::Put { key, value } => field_fits(key) && field_fits(value),
        LogModel::Rm { key } => field_fits(key),
    }
}

/// The bytes of one record.
pub open spec fn encode_spec(l: LogModel) -> Seq<u8> {
    match l {
        LogModel::Put { key, value } => seq![TAG_PUT] + field_bytes(key) + field_bytes(value),
        LogModel::Rm { key } => seq![TAG_RM] + field_bytes(key),
    }
}

/// Reads a field that starts at `at`: its characters and the position just past it.
pub open spec fn decode_field_spec(b: Seq<u8>, at: int) -> Option<(Seq<char>, int)> {
    if 0 <= at && at + 8 <= b.len() {
        let n = spec_u64_from_le_bytes(b.subrange(at, at + 8)) as int;
        let end = at + 8 + n;
        if end <= b.len() && valid_utf8(b.subrange(at + 8, end)) {
            Some((decode_utf8(b.subrange(at + 8, end)), end))
        } else {
            None
        }
    } else {
        None
    }
}

/// Reads the record at the start of `b`: the record and the number of bytes it takes.
pub open spec fn decode_spec(b: Seq<u8>) -> Option<(LogModel, int)> {
    if b.len() == 0 {
        None
    } else if b[0] == TAG_PUT {
        match decode_field_spec(b, 1) {
            Some((key, e1)) => match decode_field_spec(b, e1) {
                Some((value, e2)) => Some((LogModel::Put { key, value }, e2)),
                None => None,
            },
            None => None,
        }
    } else if b[0] == TAG_RM {
        match decode_field_spec(b, 1) {
            Some((key, e1)) => Some((LogModel::Rm { key }, e1)),
            None => None,
        }
    } else {
        None
    }
}

/// Relies on `String::from_utf8`: it accepts exactly the valid UTF-8 byte
/// sequences, and the string it returns holds the characters they encode.
#[verifier::external_body]
fn string_from_utf8(bytes: Vec<u8>) -> (r: Option<String>)
    ensures
        r is Some <==> valid_utf8(bytes@),
        r matches Some(s) ==> s@ == decode_utf8(bytes@),
{
    String::from_utf8(bytes).ok()
}

/// Appends the field of `s` to `out`.
fn push_field(out: &mut Vec<u8>, s: &String)
    ensures
        final(out)@ == old(out)@ + field_bytes(s@),
        field_fits(s@),
{
    let b = s.as_str().as_bytes();
    let n: usize = b.len();
    let prefix = u64_to_le_bytes(n as u64);
    let ghost start = out@;
    let mut i: usize = 0;
    while i < 8
        invariant
            prefix@.len() == 8,
            0 <= i <= 8,
            out@ == start + prefix@.subrange(0, i as int),
        decreases 8 - i,
    {
        out.push(prefix[i]);
        i = i + 1;
        proof {
            assert(prefix@.subrange(0, i as int) == prefix@.subrange(0, i - 1) + seq![prefix@[i - 1]]);
        }
    }
    let ghost mid = out@;
    let mut j: usize = 0;
    while j < n
        invariant
            n == b@.len(),
            0 <= j <= n,
            out@ == mid + b@.subrange(0, j as int),
        decreases n - j,
    {
        out.push(b[j]);
        j = j + 1;
        proof {
            assert(b@.subrange(0, j as int) == b@.subrange(0, j - 1) + seq![b@[j - 1]]);
        }
    }
    proof {
        assert(prefix@.subrange(0, 8) == prefix@);
        assert(b@.subrange(0, n as int) == b@);
        assert(out@ == start + field_bytes(s@));
    }
}

/// The bytes of `log`.
pub fn encode(log: &Log) -> (r: Vec<u8>)
    ensures
        r@ == encode_spec(log@),
        record_fits(log@),
{
    let mut out: Vec<u8> = Vec::new();
    match log {
        Log::Put { key, value } => {
            out.push(TAG_PUT);
            push_field(&mut out, key);
            push_field(&mut out, value);
            proof {
                assert(out@ == seq![TAG_PUT] + field_bytes(key@) + field_bytes(value@));
            }
        },
        Log::Rm { key } => {
            out.push(TAG_RM);
            push_field(&mut out, key);
            proof {
                assert(out@ == seq![TAG_RM] + field_bytes(key@));
            }
        },
    }
    out
}

/// Copies `b[start..end]`.
pub fn copy_range(b: &[u8], start: usize, end: usize) -> (r: Vec<u8>)
    requires
        start <= end <= b@.len(),
    ensures
        r@ == b@.subrange(start as int, end as int),
{
    let mut out: Vec<u8> = Vec::new();
    let mut i: usize = start;
    while i < end
        invariant
            start <= i <= end <= b@.len(),
            out@ == b@.subrange(start as int, i as int),
        decreases end - i,
    {
        out.push(b[i]);
        i = i + 1;
        proof {
            assert(b@.subrange(start as int, i as int) == b@.subrange(start as int, i - 1) + seq![
                b@[i - 1],
            ]);
        }
    }
    out
}

/// Reads the field that starts at `at`.
fn decode_field(b: &[u8], at: usize) -> (r: Option<(String, usize)>)
    ensures
        match r {
            Some((s, e)) => decode_field_spec(b@, at as int) == Some((s@, e as int)),
            None => decode_field_spec(b@, at as int) is None,
        },
{
    let len: usize = b.len();
    if at > len || len - at < 8 {
        return None;
    }
    let prefix = copy_range(b, at, at + 8);
    let n: u64 = u64_from_le_bytes(prefix.as_slice());
    let room: usize = len - (at + 8);
    if n > room as u64 {
        return None;
    }
    let end: usize = at + 8 + n as usize;
    let bytes = copy_range(b, at + 8, end);
    match string_from_utf8(bytes) {
        Some(s) => Some((s, end)),
        None => None,
    }
}

/// Decodes the record that starts at `start` in `b`.
///
/// Gives `Ok(None)` at the end of the bytes, `Ok(Some((log, n)))` when a whole
/// record of `n` bytes stands there, and `Err(MalformedRecord)` when the bytes
/// from `start` on are truncated or corrupt.
pub fn decode_next(b: &[u8], start: usize) -> (r: Result<Option<(Log, usize)>, crate::error::KvsError>)
    requires
        start <= b@.len(),
    ensures
        start == b@.len() ==> r == Ok::<Option<(Log, usize)>, crate::error::KvsError>(None),
        start < b@.len() ==> match r {
            Ok(Some((log, n))) => decode_spec(b@.subrange(start as int, b@.len() as int)) == Some(
                (log@, n as int),
            ),
            Ok(None) => false,
            Err(e) => e is MalformedRecord && decode_spec(
                b@.subrange(start as int, b@.len() as int),
            ) is None,
        },
{
    if start == b.len() {
        return Ok(None);
    }
    let tail = copy_range(b, start, b.len());
    let ts = tail.as_slice();
    assert(ts@ == b@.subrange(start as int, b@.len() as int));
    let tag = ts[0];
    if tag == TAG_PUT {
        match decode_field(ts, 1) {
            Some((key, e1)) => match decode_field(ts, e1) {
                Some((value, e2)) => Ok(Some((Log::Put { key, value }, e2))),
                None => Err(crate::error::KvsError::MalformedRecord),
            },
            None => Err(crate::error::KvsError::MalformedRecord),
        }
    } else if tag == TAG_RM {
        match decode_field(ts, 1) {
            Some((key, e1)) => Ok(Some((Log::Rm { key }, e1))),
            None => Err(crate::error::KvsError::MalformedRecord),
        }
    } else {
        Err(crate::error::KvsError::MalformedRecord)
    }
}


/// The records that a whole log holds, in order; `None` when some part of it is
/// not a well-formed record.
pub open spec fn parse_log(b: Seq<u8>) -> Option<Seq<LogModel>>
    decreases b.len(),
{
    if b.len() == 0 {
        Some(Seq::empty())
    } else {
        match decode_spec(b) {
            Some((l, n)) => if 0 < n <= b.len() {
                match parse_log(b.subrange(n, b.len() as int)) {
                    Some(rest) => Some(seq![l] + rest),
                    None => None,
                }
            } else {
                None
            },
            None => None,
        }
    }
}

proof fn lemma_field_read(pre: Seq<u8>, s: Seq<char>, post: Seq<u8>)
    requires
        field_fits(s),
    ensures
        decode_field_spec(pre + field_bytes(s) + post, pre.len() as int) == Some(
            (s, (pre.len() + field_bytes(s).len()) as int),
        ),
        field_bytes(s).len() == 8 + encode_utf8(s).len(),
{
    lemma_auto_spec_u64_to_from_le_bytes();
    encode_utf8_valid_utf8(s);
    encode_utf8_decode_utf8(s);
    let b = pre + field_bytes(s) + post;
    let u = encode_utf8(s);
    let at = pre.len() as int;
    assert(b.subrange(at, at + 8) =~= spec_u64_to_le_bytes(u.len() as u64));
    assert(b.subrange(at + 8, at + 8 + u.len()) =~= u);
}

proof fn lemma_field_extend(b: Seq<u8>, x: Seq<u8>, at: int)
    requires
        decode_field_spec(b, at) is Some,
    ensures
        decode_field_spec(b + x, at) == decode_field_spec(b, at),
{
    let n = spec_u64_from_le_bytes(b.subrange(at, at + 8)) as int;
    assert((b + x).subrange(at, at + 8) =~= b.subrange(at, at + 8));
    assert((b + x).subrange(at + 8, at + 8 + n) =~= b.subrange(at + 8, at + 8 + n));
}

/// Decoding reads no byte past the record it finds: bytes after it change nothing.
pub proof fn lemma_decode_extend(b: Seq<u8>, x: Seq<u8>)
    requires
        decode_spec(b) is Some,
    ensures
        decode_spec(b + x) == decode_spec(b),
        decode_spec(b)->Some_0.1 <= b.len(),
{
    assert((b + x)[0] == b[0]);
    lemma_field_extend(b, x, 1);
    if b[0] == TAG_PUT {
        let e1 = decode_field_spec(b, 1)->Some_0.1;
        lemma_field_extend(b, x, e1);
    }
}

/// Decoding the bytes of a record gives back that record, and the number of
/// bytes it reports is the number of bytes that encoding produced.
pub proof fn lemma_round_trip(l: LogModel)
    requires
        record_fits(l),
    ensures
        decode_spec(encode_spec(l)) == Some((l, encode_spec(l).len() as int)),
{
    let e: Seq<u8> = Seq::empty();
    match l {
        LogModel::Put { key, value } => {
            let b = encode_spec(l);
            lemma_field_read(seq![TAG_PUT], key, field_bytes(value));
            assert(b =~= seq![TAG_PUT] + field_bytes(key) + field_bytes(value));
            lemma_field_read(seq![TAG_PUT] + field_bytes(key), value, e);
            assert(b =~= seq![TAG_PUT] + field_bytes(key) + field_bytes(value) + e);
        },
        LogModel::Rm { key } => {
            let b = encode_spec(l);
            lemma_field_read(seq![TAG_RM], key, e);
            assert(b =~= seq![TAG_RM] + field_bytes(key) + e);
        },
    }
}

/// Appending the bytes of a record to a well-formed log appends that record
/// to what the log holds.
pub proof fn lemma_parse_append(b: Seq<u8>, l: LogModel)
    requires
        parse_log(b) is Some,
        record_fits(l),
    ensures
        parse_log(b + encode_spec(l)) == Some(parse_log(b)->Some_0.push(l)),
    decreases b.len(),
{
    let e = encode_spec(l);
    lemma_round_trip(l);
    if b.len() == 0 {
        assert(b + e =~= e);
        let empty: Seq<u8> = Seq::empty();
        assert(e.subrange(e.len() as int, e.len() as int) =~= empty);
        assert(parse_log(empty) == Some(Seq::<LogModel>::empty()));
        assert(e.len() > 0);
        assert(parse_log(e) == Some(seq![l] + Seq::<LogModel>::empty()));
        assert(seq![l] + Seq::<LogModel>::empty() =~= Seq::<LogModel>::empty().push(l));
    } else {
        let (r, n) = decode_spec(b)->Some_0;
        lemma_decode_extend(b, e);
        let rest = b.subrange(n, b.len() as int);
        assert((b + e).subrange(n, (b + e).len() as int) =~= rest + e);
        lemma_parse_append(rest, l);
        let rs = parse_log(rest)->Some_0;
        assert(seq![r] + rs.push(l) =~= (seq![r] + rs).push(l));
    }
}


proof fn lemma_field_canonical(b: Seq<u8>, at: int)
    requires
        decode_field_spec(b, at) is Some,
    ensures
        ({
            let (s, e) = decode_field_spec(b, at)->Some_0;
            &&& b.subrange(at, e) == field_bytes(s)
            &&& field_fits(s)
            &&& at + 8 <= e <= b.len()
        }),
{
    lemma_auto_spec_u64_to_from_le_bytes();
    let (s, e) = decode_field_spec(b, at)->Some_0;
    let p = b.subrange(at, at + 8);
    let u = b.subrange(at + 8, e);
    decode_utf8_encode_utf8(u);
    assert(encode_utf8(s) == u);
    assert(spec_u64_to_le_bytes(spec_u64_from_le_bytes(p)) == p);
    assert(b.subrange(at, e) =~= p + u);
}

/// A record that decodes from the start of `b` stands there in exactly the
/// bytes that encoding it gives.
pub proof fn lemma_decode_canonical(b: Seq<u8>)
    requires
        decode_spec(b) is Some,
    ensures
        ({
            let (l, n) = decode_spec(b)->Some_0;
            &&& b.subrange(0, n) == encode_spec(l)
            &&& record_fits(l)
            &&& 0 < n <= b.len()
        }),
{
    let (l, n) = decode_spec(b)->Some_0;
    lemma_field_canonical(b, 1);
    let (k, e1) = decode_field_spec(b, 1)->Some_0;
    if b[0] == TAG_PUT {
        lemma_field_canonical(b, e1);
        let (v, e2) = decode_field_spec(b, e1)->Some_0;
        assert(b.subrange(0, n) =~= seq![TAG_PUT] + b.subrange(1, e1) + b.subrange(e1, e2));
    } else {
        assert(b.subrange(0, n) =~= seq![TAG_RM] + b.subrange(1, e1));
    }
}

} // verus!
