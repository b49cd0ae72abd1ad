//! The persistence codec: a byte encoding of a stream and its decoder.
//!
//! The format is explicitly little-endian, independent of the host byte
//! order: an eight-byte entry count, then for each entry its offset
//! (eight bytes), its payload length (eight bytes) and the payload bytes
//! themselves, each integer in little-endian order.  Encoding and decoding
//! round-trip exactly: see [`lemma_stream_round_trip`].

use vstd::prelude::*;

use crate::logger::file_model;
use crate::logger::LogError;
use crate::logger::Log;
use crate::logger::LogFile;

verus! {

/// The eight bytes of `v` in little-endian order.
pub open spec fn u64_le_bytes(v: u64) -> Seq<u8> {
    seq![
        (v & 0xff) as u8,
        ((v >> 8) & 0xff) as u8,
        ((v >> 16) & 0xff) as u8,
        ((v >> 24) & 0xff) as u8,
        ((v >> 32) & 0xff) as u8,
        ((v >> 40) & 0xff) as u8,
        ((v >> 48) & 0xff) as u8,
        ((v >> 56) & 0xff) as u8,
    ]
}

/// The value whose little-endian bytes are the eight bytes of `s`.
pub open spec fn le_u64_of(s: Seq<u8>) -> u64
    recommends
        s.len() == 8,
{
    (s[0] as u64) | ((s[1] as u64) << 8) | ((s[2] as u64) << 16) | ((s[3] as u64) << 24)
        | ((s[4] as u64) << 32) | ((s[5] as u64) << 40) | ((s[6] as u64) << 48) | ((
    s[7] as u64) << 56)
}

/// Reading back the little-endian bytes of `v` yields `v`.
pub proof fn lemma_le_u64_round_trip(v: u64)
    ensures
        le_u64_of(u64_le_bytes(v)) == v,
{
    assert((((v & 0xff) as u8) as u64) | (((((v >> 8) & 0xff) as u8) as u64) << 8) | (((((v
        >> 16) & 0xff) as u8) as u64) << 16) | (((((v >> 24) & 0xff) as u8) as u64) << 24)
        | (((((v >> 32) & 0xff) as u8) as u64) << 32) | (((((v >> 40) & 0xff) as u8) as u64)
        << 40) | (((((v >> 48) & 0xff) as u8) as u64) << 48) | (((((v >> 56) & 0xff) as u8)
        as u64) << 56) == v) by (bit_vector);
}

/// The encoding of one entry: offset, payload length, payload.
pub open spec fn encoded_entry(e: (Seq<u8>, u64)) -> Seq<u8> {
    u64_le_bytes(e.1) + u64_le_bytes(e.0.len() as u64) + e.0
}

/// The concatenated encodings of a sequence of entries.
pub open spec fn encoded_entries(s: Seq<(Seq<u8>, u64)>) -> Seq<u8>
    decreases s.len(),
{
    if s.len() == 0 {
        Seq::empty()
    } else {
        encoded_entry(s[0]) + encoded_entries(s.drop_first())
    }
}

/// The encoding of a whole stream: the entry count, then the entries.
pub open spec fn encoded_stream(s: Seq<(Seq<u8>, u64)>) -> Seq<u8> {
    u64_le_bytes(s.len() as u64) + encoded_entries(s)
}

/// Parses exactly `n` entries from `d`, requiring `d` to be consumed
/// entirely; `None` where `d` is not of that shape.
pub open spec fn parsed_entries(d: Seq<u8>, n: nat) -> Option<Seq<(Seq<u8>, u64)>>
    decreases n,
{
    if n == 0 {
        if d.len() == 0 {
            Some(Seq::empty())
        } else {
            None
        }
    } else if d.len() < 16 {
        None
    } else {
        let time = le_u64_of(d.take(8));
        let len = le_u64_of(d.subrange(8, 16));
        if d.len() < 16 + len {
            None
        } else {
            let payload = d.subrange(16, 16 + len as int);
            match parsed_entries(d.skip(16 + len as int), (n - 1) as nat) {
                Some(rest) => Some(seq![(payload, time)] + rest),
                None => None,
            }
        }
    }
}

/// Parses a whole stream; `None` where `d` is not a valid encoding.
pub open spec fn parsed_stream(d: Seq<u8>) -> Option<Seq<(Seq<u8>, u64)>> {
    if d.len() < 8 {
        None
    } else {
        parsed_entries(d.skip(8), le_u64_of(d.take(8)) as nat)
    }
}

/// Prepends already-parsed entries to the outcome of parsing the rest.
pub open spec fn with_prefix(p: Seq<(Seq<u8>, u64)>, r: Option<Seq<(Seq<u8>, u64)>>) -> Option<
    Seq<(Seq<u8>, u64)>,
> {
    match r {
        Some(t) => Some(p + t),
        None => None,
    }
}

/// Moving one parsed entry from the head of the remainder onto the prefix
/// leaves the combined outcome unchanged.
proof fn lemma_with_prefix_step(
    p: Seq<(Seq<u8>, u64)>,
    e: (Seq<u8>, u64),
    r: Option<Seq<(Seq<u8>, u64)>>,
)
    ensures
        with_prefix(p.push(e), r) == with_prefix(
            p,
            match r {
                Some(t) => Some(seq![e] + t),
                None => None::<Seq<(Seq<u8>, u64)>>,
            },
        ),
{
    match r {
        Some(t) => {
            assert(p.push(e) + t =~= p + (seq![e] + t));
        },
        None => {},
    }
}

/// Entry encodings concatenate: encoding `a + b` is encoding `a` followed
/// by encoding `b`.
pub proof fn lemma_encoded_entries_app(a: Seq<(Seq<u8>, u64)>, b: Seq<(Seq<u8>, u64)>)
    ensures
        encoded_entries(a + b) == encoded_entries(a) + encoded_entries(b),
    decreases a.len(),
{
    if a.len() == 0 {
        assert(a + b =~= b);
        assert(encoded_entries(a) + encoded_entries(b) =~= encoded_entries(b));
    } else {
        assert((a + b).drop_first() =~= a.drop_first() + b);
        lemma_encoded_entries_app(a.drop_first(), b);
        assert(encoded_entry((a + b)[0]) + (encoded_entries(a.drop_first()) + encoded_entries(b))
            =~= (encoded_entry(a[0]) + encoded_entries(a.drop_first())) + encoded_entries(b));
    }
}

/// Parsing the encoding of `s`, entry by entry, yields `s` back.
proof fn lemma_entries_round_trip(s: Seq<(Seq<u8>, u64)>)
    requires
        forall|i: int| 0 <= i < s.len() ==> (#[trigger] s[i]).0.len() <= u64::MAX,
    ensures
        parsed_entries(encoded_entries(s), s.len()) == Some(s),
    decreases s.len(),
{
    if s.len() == 0 {
        assert(parsed_entries(encoded_entries(s), 0) == Some(Seq::<(Seq<u8>, u64)>::empty()));
        assert(Seq::<(Seq<u8>, u64)>::empty() =~= s);
    } else {
        let e = s[0];
        let d = encoded_entries(s);
        let tail = encoded_entries(s.drop_first());
        lemma_le_u64_round_trip(e.1);
        lemma_le_u64_round_trip(e.0.len() as u64);
        assert(d.take(8) =~= u64_le_bytes(e.1));
        assert(d.subrange(8, 16) =~= u64_le_bytes(e.0.len() as u64));
        assert(le_u64_of(d.take(8)) == e.1);
        assert(le_u64_of(d.subrange(8, 16)) == e.0.len() as u64);
        assert(d.subrange(16, 16 + e.0.len() as int) =~= e.0);
        assert(d.skip(16 + e.0.len() as int) =~= tail);
        lemma_entries_round_trip(s.drop_first());
        assert(seq![(e.0, e.1)] + s.drop_first() =~= s);
    }
}

/// The round-trip law: decoding the encoding of any stream yields exactly
/// that stream — same entry count, same payload bytes, same offsets, in
/// the same order.
pub proof fn lemma_stream_round_trip(s: Seq<(Seq<u8>, u64)>)
    requires
        s.len() <= u64::MAX,
        forall|i: int| 0 <= i < s.len() ==> (#[trigger] s[i]).0.len() <= u64::MAX,
    ensures
        parsed_stream(encoded_stream(s)) == Some(s),
{
    let d = encoded_stream(s);
    lemma_le_u64_round_trip(s.len() as u64);
    assert(d.take(8) =~= u64_le_bytes(s.len() as u64));
    assert(d.skip(8) =~= encoded_entries(s));
    lemma_entries_round_trip(s);
}

/// Appends the eight little-endian bytes of `v`.
fn push_u64_le(out: &mut Vec<u8>, v: u64)
    ensures
        final(out)@ == old(out)@ + u64_le_bytes(v),
{
    out.push((v & 0xff) as u8);
    out.push(((v >> 8) & 0xff) as u8);
    out.push(((v >> 16) & 0xff) as u8);
    out.push(((v >> 24) & 0xff) as u8);
    out.push(((v >> 32) & 0xff) as u8);
    out.push(((v >> 40) & 0xff) as u8);
    out.push(((v >> 48) & 0xff) as u8);
    out.push(((v >> 56) & 0xff) as u8);
    proof {
        assert(out@ =~= old(out)@ + u64_le_bytes(v));
    }
}

/// Appends the bytes of `s`, in order.
fn push_bytes(out: &mut Vec<u8>, s: &[u8])
    ensures
        final(out)@ == old(out)@ + s@,
{
    let n = s.len();
    let mut i: usize = 0;
    while i < n
        invariant
            i <= n,
            n == s@.len(),
            out@ == old(out)@ + s@.take(i as int),
        decreases n - i,
    {
        out.push(s[i]);
        proof {
            assert(out@ =~= old(out)@ + s@.take(i + 1));
        }
        i = i + 1;
    }
    proof {
        assert(old(out)@ + s@.take(n as int) =~= old(out)@ + s@);
    }
}

/// Reads the little-endian value of the eight bytes at `off`.
fn read_u64_le(data: &Vec<u8>, off: usize) -> (r: u64)
    requires
        off + 8 <= data@.len(),
    ensures
        r == le_u64_of(data@.subrange(off as int, off as int + 8)),
{
    // the vector's length is a usize, which bounds the index arithmetic below
    let n = data.len();
    assert(off + 8 <= n);
    let r = (data[off] as u64) | ((data[off + 1] as u64) << 8) | ((data[off + 2] as u64) << 16) | ((
    data[off + 3] as u64) << 24) | ((data[off + 4] as u64) << 32) | ((data[off + 5] as u64) << 40)
        | ((data[off + 6] as u64) << 48) | ((data[off + 7] as u64) << 56);
    proof {
        let s = data@.subrange(off as int, off as int + 8);
        assert(s[0] == data@[off as int]);
        assert(s[1] == data@[off as int + 1]);
        assert(s[2] == data@[off as int + 2]);
        assert(s[3] == data@[off as int + 3]);
        assert(s[4] == data@[off as int + 4]);
        assert(s[5] == data@[off as int + 5]);
        assert(s[6] == data@[off as int + 6]);
        assert(s[7] == data@[off as int + 7]);
    }
    r
}

/// Encodes a stream to bytes, exactly as [`encoded_stream`] states.
pub fn encode_log_file(f: &LogFile) -> (r: Vec<u8>)
    ensures
        r@ == encoded_stream(file_model(*f)),
{
    let ghost m = file_model(*f);
    let mut out: Vec<u8> = Vec::new();
    let n = f.logs.len();
    push_u64_le(&mut out, n as u64);
    let mut i: usize = 0;
    while i < n
        invariant
            i <= n,
            n == f.logs@.len(),
            m == file_model(*f),
            m.len() == n,
            out@ == u64_le_bytes(n as u64) + encoded_entries(m.take(i as int)),
        decreases n - i,
    {
        let ghost out_before = out@;
        let entry = &f.logs[i];
        push_u64_le(&mut out, entry.time);
        push_u64_le(&mut out, entry.item.len() as u64);
        push_bytes(&mut out, entry.item.as_slice());
        proof {
            assert(m[i as int] == (entry.item@, entry.time));
            assert(out@ =~= out_before + encoded_entry(m[i as int]));
            assert(m.take(i + 1) =~= m.take(i as int) + seq![m[i as int]]);
            lemma_encoded_entries_app(m.take(i as int), seq![m[i as int]]);
            assert(seq![m[i as int]].drop_first() =~= Seq::<(Seq<u8>, u64)>::empty());
            assert(encoded_entries(Seq::<(Seq<u8>, u64)>::empty()) =~= Seq::<u8>::empty());
            assert(encoded_entries(seq![m[i as int]]) =~= encoded_entry(m[i as int]));
            assert(out@ =~= u64_le_bytes(n as u64) + encoded_entries(m.take(i + 1)));
        }
        i = i + 1;
    }
    proof {
        assert(m.take(n as int) =~= m);
    }
    out
}

/// Decodes bytes into a stream.  Succeeds exactly on the byte sequences
/// that [`parsed_stream`] accepts, and then returns exactly the stream it
/// describes; rejects everything else as malformed.
pub fn decode_log_file(data: &Vec<u8>) -> (r: Result<LogFile, LogError>)
    ensures
        match r {
            Ok(f) => parsed_stream(data@) == Some(file_model(f)),
            Err(e) => parsed_stream(data@) is None && e == LogError::Malformed,
        },
{
    if data.len() < 8 {
        return Err(LogError::Malformed);
    }
    let n64 = read_u64_le(data, 0);
    proof {
        assert(data@.subrange(0, 8) =~= data@.take(8));
    }
    let mut logs: Vec<Log> = Vec::new();
    let mut pos: usize = 8;
    let mut i: u64 = 0;
    proof {
        assert(crate::logger::logs_model(logs@) =~= Seq::<(Seq<u8>, u64)>::empty());
        match parsed_entries(data@.skip(8), n64 as nat) {
            Some(t) => {
                assert(Seq::<(Seq<u8>, u64)>::empty() + t =~= t);
            },
            None => {},
        }
    }
    while i < n64
        invariant
            i <= n64,
            8 <= pos <= data@.len(),
            data@.len() <= usize::MAX,
            parsed_stream(data@) == with_prefix(
                crate::logger::logs_model(logs@),
                parsed_entries(data@.skip(pos as int), (n64 - i) as nat),
            ),
        decreases n64 - i,
    {
        let ghost rem = data@.skip(pos as int);
        let ghost k = (n64 - i) as nat;
        let ghost prefix = crate::logger::logs_model(logs@);
        if data.len() - pos < 16 {
            proof {
                assert(rem.len() < 16);
                assert(parsed_entries(rem, k) is None);
            }
            return Err(LogError::Malformed);
        }
        let time = read_u64_le(data, pos);
        let len64 = read_u64_le(data, pos + 8);
        proof {
            assert(data@.subrange(pos as int, pos as int + 8) =~= rem.take(8));
            assert(data@.subrange(pos as int + 8, pos as int + 16) =~= rem.subrange(8, 16));
        }
        let remaining = data.len() - pos - 16;
        if len64 > remaining as u64 {
            proof {
                assert(rem.len() < 16 + len64);
                assert(parsed_entries(rem, k) is None);
            }
            return Err(LogError::Malformed);
        }
        let len = len64 as usize;
        proof {
            assert(len == len64);
            assert(pos + 16 + len <= data@.len());
        }
        let mut item: Vec<u8> = Vec::new();
        let mut j: usize = 0;
        while j < len
            invariant
                j <= len,
                pos + 16 + len <= data@.len(),
                data@.len() <= usize::MAX,
                item@ == data@.subrange(pos as int + 16, pos as int + 16 + j),
            decreases len - j,
        {
            item.push(data[pos + 16 + j]);
            proof {
                assert(item@ =~= data@.subrange(pos as int + 16, pos as int + 16 + j + 1));
            }
            j = j + 1;
        }
        proof {
            assert(item@ =~= rem.subrange(16, 16 + len64 as int));
        }
        let entry = Log { item, time };
        let ghost e = crate::logger::log_model(entry);
        let ghost inner = parsed_entries(rem.skip(16 + len64 as int), (k - 1) as nat);
        proof {
            assert(parsed_entries(rem, k) == (match inner {
                Some(rest) => Some(seq![e] + rest),
                None => None::<Seq<(Seq<u8>, u64)>>,
            }));
            lemma_with_prefix_step(prefix, e, inner);
        }
        logs.push(entry);
        proof {
            assert(crate::logger::logs_model(logs@) =~= prefix.push(e));
            assert(data@.skip(pos as int + 16 + len64 as int) =~= rem.skip(16 + len64 as int));
        }
        pos = pos + 16 + len;
        i = i + 1;
    }
    if pos != data.len() {
        proof {
            assert(data@.skip(pos as int).len() > 0);
            assert(parsed_entries(data@.skip(pos as int), 0) is None);
        }
        return Err(LogError::Malformed);
    }
    let f = LogFile { logs };
    proof {
        assert(data@.skip(pos as int).len() == 0);
        assert(parsed_entries(data@.skip(pos as int), 0) == Some(Seq::<(Seq<u8>, u64)>::empty()));
        assert(crate::logger::logs_model(f.logs@) + Seq::<(Seq<u8>, u64)>::empty() =~= file_model(
            f,
        ));
    }
    Ok(f)
}

/// Byte-order fidelity: a payload logged into a stream comes back from the
/// encode/decode round trip byte-for-byte equal.
pub proof fn lemma_payload_fidelity(s: Seq<(Seq<u8>, u64)>, i: int)
    requires
        s.len() <= u64::MAX,
        forall|j: int| 0 <= j < s.len() ==> (#[trigger] s[j]).0.len() <= u64::MAX,
        0 <= i < s.len(),
    ensures
        parsed_stream(encoded_stream(s)) matches Some(t) && t[i].0 == s[i].0,
{
    lemma_stream_round_trip(s);
}

} // verus!
