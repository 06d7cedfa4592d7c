//! Wire codec for pattern sets.
//!
//! An encoded pattern buffer is a sequence of records, each record being a
//! four-byte little-endian unsigned length `L` followed by `L` bytes of
//! pattern text, with no terminator and no padding. The buffer is well formed
//! exactly when it is the concatenation of complete records.

use vstd::prelude::*;

verus! {

/// Why a buffer failed to decode.
#[derive(Clone, Copy, Debug, PartialEq, Eq)]
pub enum DecodeError {
    /// Fewer than four bytes remained where a record length was expected.
    TruncatedLength,
    /// A record declared more payload bytes than the buffer still holds.
    TruncatedPayload,
}

/// The value of a four-byte little-endian unsigned integer.
pub open spec fn le32(b0: u8, b1: u8, b2: u8, b3: u8) -> int {
    b0 as int + 256 * (b1 as int) + 65536 * (b2 as int) + 16777216 * (b3 as int)
}

/// The four little-endian bytes of a value below 2^32.
pub open spec fn u32_le(n: int) -> Seq<u8> {
    seq![
        (n % 256) as u8,
        ((n / 256) % 256) as u8,
        ((n / 65536) % 256) as u8,
        ((n / 16777216) % 256) as u8,
    ]
}

/// One wire record: the length prefix followed by the pattern bytes.
pub open spec fn encode_record(pat: Seq<u8>) -> Seq<u8> {
    u32_le(pat.len() as int) + pat
}

/// The wire form of an ordered pattern sequence: its records, concatenated.
pub open spec fn encode_spec(pats: Seq<Seq<u8>>) -> Seq<u8>
    decreases pats.len(),
{
    if pats.len() == 0 {
        Seq::empty()
    } else {
        encode_record(pats[0]) + encode_spec(pats.drop_first())
    }
}

/// A pattern sequence is encodable when every length fits the length prefix.
pub open spec fn wf_patterns(pats: Seq<Seq<u8>>) -> bool {
    forall|i: int| 0 <= i < pats.len() ==> (#[trigger] pats[i]).len() <= u32::MAX
}

/// What decoding a buffer yields: the ordered pattern sequence, or the first
/// malformation found scanning records front to back.
pub open spec fn decode_spec(buf: Seq<u8>) -> Result<Seq<Seq<u8>>, DecodeError>
    decreases buf.len(),
{
    if buf.len() == 0 {
        Ok(Seq::empty())
    } else if buf.len() < 4 {
        Err(DecodeError::TruncatedLength)
    } else {
        let l = le32(buf[0], buf[1], buf[2], buf[3]);
        if buf.len() < 4 + l {
            Err(DecodeError::TruncatedPayload)
        } else {
            match decode_spec(buf.skip(4 + l)) {
                Ok(rest) => Ok(seq![buf.subrange(4, 4 + l)] + rest),
                Err(e) => Err(e),
            }
        }
    }
}

/// Why a pattern list cannot be put on the wire.
#[derive(Clone, Copy, Debug, PartialEq, Eq)]
pub enum EncodeError {
    /// A pattern is longer than the length prefix can express, or the encoded
    /// buffer would not fit in addressable memory.
    Oversize,
}

/// Little-endian bytes round-trip: reading four bytes and writing the value
/// back reproduces the bytes.
pub proof fn lemma_le32_of_bytes(b0: u8, b1: u8, b2: u8, b3: u8)
    ensures
        0 <= le32(b0, b1, b2, b3) <= u32::MAX,
        u32_le(le32(b0, b1, b2, b3)) == seq![b0, b1, b2, b3],
{
    let n = le32(b0, b1, b2, b3);
    let q1 = b1 as int + 256 * (b2 as int) + 65536 * (b3 as int);
    let q2 = b2 as int + 256 * (b3 as int);
    vstd::arithmetic::div_mod::lemma_fundamental_div_mod_converse(n, 256, q1, b0 as int);
    vstd::arithmetic::div_mod::lemma_fundamental_div_mod_converse(q1, 256, q2, b1 as int);
    vstd::arithmetic::div_mod::lemma_div_denominator(n, 256, 256);
    vstd::arithmetic::div_mod::lemma_fundamental_div_mod_converse(q2, 256, b3 as int, b2 as int);
    vstd::arithmetic::div_mod::lemma_div_denominator(n, 65536, 256);
    vstd::arithmetic::div_mod::lemma_small_mod(b3 as nat, 256);
    assert(u32_le(n) =~= seq![b0, b1, b2, b3]);
}

/// Little-endian value round-trip: writing a value below 2^32 and reading the
/// four bytes back reproduces the value.
pub proof fn lemma_le32_of_value(n: int)
    requires
        0 <= n <= u32::MAX,
    ensures
        le32(u32_le(n)[0], u32_le(n)[1], u32_le(n)[2], u32_le(n)[3]) == n,
{
    vstd::arithmetic::div_mod::lemma_fundamental_div_mod(n, 256);
    vstd::arithmetic::div_mod::lemma_fundamental_div_mod(n / 256, 256);
    vstd::arithmetic::div_mod::lemma_div_denominator(n, 256, 256);
    vstd::arithmetic::div_mod::lemma_fundamental_div_mod(n / 65536, 256);
    vstd::arithmetic::div_mod::lemma_div_denominator(n, 65536, 256);
    vstd::arithmetic::div_mod::lemma_div_is_ordered(n, u32::MAX as int, 16777216);
    vstd::arithmetic::div_mod::lemma_small_mod((n / 16777216) as nat, 256);
}

/// Concatenating pattern lists concatenates their encodings.
pub proof fn lemma_encode_append(a: Seq<Seq<u8>>, b: Seq<Seq<u8>>)
    ensures
        encode_spec(a + b) == encode_spec(a) + encode_spec(b),
    decreases a.len(),
{
    if a.len() == 0 {
        assert(a + b =~= b);
        assert(encode_spec(a) + encode_spec(b) =~= encode_spec(b));
    } else {
        lemma_encode_append(a.drop_first(), b);
        assert((a + b).drop_first() =~~= a.drop_first() + b);
        assert((a + b)[0] == a[0]);
        assert(encode_record(a[0]) + (encode_spec(a.drop_first()) + encode_spec(b)) =~= (
        encode_record(a[0]) + encode_spec(a.drop_first())) + encode_spec(b));
    }
}

/// Decodes an encoded pattern buffer into its ordered pattern list.
///
/// Pattern order from the wire is preserved; duplicates are kept; no
/// normalization is performed. Any remainder that is not a complete record
/// makes the whole buffer malformed.
pub fn decode_patterns(buf: &[u8]) -> (r: Result<Vec<Vec<u8>>, DecodeError>)
    ensures
        r matches Ok(pats) ==> decode_spec(buf@) == Ok::<Seq<Seq<u8>>, DecodeError>(pats.deep_view()),
        r matches Err(e) ==> decode_spec(buf@) == Err::<Seq<Seq<u8>>, DecodeError>(e),
{
    let len: usize = buf.len();
    let mut cursor: usize = 0;
    let mut pats: Vec<Vec<u8>> = Vec::new();
    proof {
        assert(buf@.subrange(0, len as int) =~= buf@);
        if let Ok(rest) = decode_spec(buf@) {
            assert(pats.deep_view() + rest =~~= rest);
        }
    }
    while cursor < len
        invariant
            len == buf@.len(),
            cursor <= len,
            decode_spec(buf@) == (match decode_spec(buf@.subrange(cursor as int, len as int)) {
                Ok(rest) => Ok::<Seq<Seq<u8>>, DecodeError>(pats.deep_view() + rest),
                Err(e) => Err::<Seq<Seq<u8>>, DecodeError>(e),
            }),
        decreases len - cursor,
    {
        let ghost suffix = buf@.subrange(cursor as int, len as int);
        if len - cursor < 4 {
            return Err(DecodeError::TruncatedLength);
        }
        let b0 = buf[cursor];
        let b1 = buf[cursor + 1];
        let b2 = buf[cursor + 2];
        let b3 = buf[cursor + 3];
        let l32: u32 = b0 as u32 + (b1 as u32) * 256 + (b2 as u32) * 65536 + (b3 as u32)
            * 16777216;
        let l: usize = l32 as usize;
        proof {
            assert(l as int == le32(suffix[0], suffix[1], suffix[2], suffix[3]));
        }
        if len - cursor - 4 < l {
            return Err(DecodeError::TruncatedPayload);
        }
        let pat: Vec<u8> = vstd::slice::slice_to_vec(
            vstd::slice::slice_subrange(buf, cursor + 4, cursor + 4 + l),
        );
        let ghost prev = pats.deep_view();
        pats.push(pat);
        cursor = cursor + 4 + l;
        proof {
            let ns = buf@.subrange(cursor as int, len as int);
            assert(suffix.skip(4 + l as int) =~= ns);
            assert(suffix.subrange(4, 4 + l as int) =~= pat@);
            assert(pats.deep_view() =~~= prev.push(pat@));
            if let Ok(rest) = decode_spec(ns) {
                assert(prev + (seq![pat@] + rest) =~~= pats.deep_view() + rest);
            }
        }
    }
    proof {
        assert(buf@.subrange(cursor as int, len as int) =~= Seq::<u8>::empty());
        assert(pats.deep_view() + Seq::<Seq<u8>>::empty() =~~= pats.deep_view());
    }
    Ok(pats)
}

/// A one-pattern list encodes to that pattern's record alone.
pub proof fn lemma_encode_singleton(p: Seq<u8>)
    ensures
        encode_spec(seq![p]) == encode_record(p),
{
    assert(encode_spec(seq![p]) == encode_record(p)) by {
        reveal_with_fuel(encode_spec, 2);
        assert(seq![p].drop_first() =~~= Seq::<Seq<u8>>::empty());
        assert(seq![p][0] == p);
        assert(encode_record(p) + Seq::<u8>::empty() =~= encode_record(p));
    }
}

/// The patterns any buffer decodes to are themselves encodable: each decoded
/// length came out of a four-byte prefix.
pub proof fn lemma_decoded_wf(buf: Seq<u8>)
    requires
        decode_spec(buf) is Ok,
    ensures
        wf_patterns(decode_spec(buf)->Ok_0),
    decreases buf.len(),
{
    if buf.len() != 0 {
        let l = le32(buf[0], buf[1], buf[2], buf[3]);
        let head = buf.subrange(4, 4 + l);
        let tail = buf.skip(4 + l);
        lemma_decoded_wf(tail);
        let rest = decode_spec(tail)->Ok_0;
        let pats = decode_spec(buf)->Ok_0;
        assert(pats == seq![head] + rest);
        assert forall|i: int| 0 <= i < pats.len() implies (#[trigger] pats[i]).len()
            <= u32::MAX by {
            if i > 0 {
                assert(pats[i] == rest[i - 1]);
            } else {
                assert(pats[0] == head);
            }
        }
    }
}

/// Round trip: a buffer that decodes re-encodes to exactly itself.
#[verifier::spinoff_prover]
pub proof fn lemma_decode_then_encode(buf: Seq<u8>)
    requires
        decode_spec(buf) is Ok,
    ensures
        encode_spec(decode_spec(buf)->Ok_0) == buf,
    decreases buf.len(),
{
    if buf.len() == 0 {
        assert(encode_spec(decode_spec(buf)->Ok_0) =~= buf);
    } else {
        let l = le32(buf[0], buf[1], buf[2], buf[3]);
        let head = buf.subrange(4, 4 + l);
        let tail = buf.skip(4 + l);
        lemma_decode_then_encode(tail);
        let rest = decode_spec(tail)->Ok_0;
        let pats = decode_spec(buf)->Ok_0;
        assert(pats == seq![head] + rest);
        lemma_encode_append(seq![head], rest);
        lemma_encode_singleton(head);
        assert(head.len() == l);
        assert(encode_record(head) =~= buf.subrange(0, 4 + l)) by {
            lemma_le32_of_bytes(buf[0], buf[1], buf[2], buf[3]);
            assert(u32_le(l) == seq![buf[0], buf[1], buf[2], buf[3]]);
        }
        assert(buf.subrange(0, 4 + l) + tail =~= buf);
        assert(encode_spec(pats) == encode_record(head) + encode_spec(rest));
    }
}

/// Completeness: the encoding of any encodable pattern list decodes back to
/// exactly that list.
#[verifier::spinoff_prover]
#[verifier::rlimit(100)]
pub proof fn lemma_encode_then_decode(pats: Seq<Seq<u8>>)
    requires
        wf_patterns(pats),
    ensures
        decode_spec(encode_spec(pats)) == Ok::<Seq<Seq<u8>>, DecodeError>(pats),
    decreases pats.len(),
{
    if pats.len() == 0 {
        assert(pats =~~= Seq::<Seq<u8>>::empty());
    } else {
        let head = pats[0];
        let rest = pats.drop_first();
        assert forall|i: int| 0 <= i < rest.len() implies (#[trigger] rest[i]).len()
            <= u32::MAX by {
            assert(rest[i] == pats[i + 1]);
        }
        lemma_encode_then_decode(rest);
        let buf = encode_spec(pats);
        let l = head.len() as int;
        assert(buf == encode_record(head) + encode_spec(rest));
        assert(encode_record(head).len() == 4 + l);
        assert(le32(buf[0], buf[1], buf[2], buf[3]) == l) by {
            lemma_le32_of_value(l);
            assert(buf[0] == u32_le(l)[0] && buf[1] == u32_le(l)[1] && buf[2] == u32_le(l)[2]
                && buf[3] == u32_le(l)[3]);
        }
        assert(buf.subrange(4, 4 + l) =~= head);
        assert(buf.skip(4 + l) =~= encode_spec(rest));
        assert(decode_spec(buf) == Ok::<Seq<Seq<u8>>, DecodeError>(seq![head] + rest));
        assert(seq![head] + rest =~~= pats);
    }
}

/// Rejection of malformed input: a buffer that is not the exact encoding of
/// any encodable pattern list never decodes; it is reported malformed.
pub proof fn lemma_malformed_rejected(buf: Seq<u8>)
    requires
        forall|pats: Seq<Seq<u8>>| wf_patterns(pats) ==> #[trigger] encode_spec(pats) != buf,
    ensures
        decode_spec(buf) is Err,
{
    if decode_spec(buf) is Ok {
        lemma_decoded_wf(buf);
        lemma_decode_then_encode(buf);
    }
}

/// Encodes an ordered pattern list into its wire form.
///
/// Fails exactly when the list has no wire form: a pattern longer than the
/// length prefix can express, or a total size beyond addressable memory.
pub fn encode_patterns(pats: &Vec<Vec<u8>>) -> (r: Result<Vec<u8>, EncodeError>)
    ensures
        r matches Ok(out) ==> out@ == encode_spec(pats.deep_view()),
        r is Ok <==> wf_patterns(pats.deep_view()) && encode_spec(pats.deep_view()).len()
            <= usize::MAX,
{
    let ghost dv = pats.deep_view();
    let mut out: Vec<u8> = Vec::new();
    let n = pats.len();
    proof {
        assert(dv.take(0) =~~= Seq::<Seq<u8>>::empty());
    }
    let mut i: usize = 0;
    while i < n
        invariant
            n == dv.len(),
            dv == pats.deep_view(),
            i <= n,
            wf_patterns(dv.take(i as int)),
            out@ == encode_spec(dv.take(i as int)),
        decreases n - i,
    {
        let p: &Vec<u8> = &pats[i];
        let l: usize = p.len();
        proof {
            assert(dv[i as int] =~= p@);
            assert(dv.take(i as int) + seq![dv[i as int]] =~~= dv.take(i + 1));
            lemma_encode_append(dv.take(i as int), seq![dv[i as int]]);
            lemma_encode_singleton(dv[i as int]);
        }
        if l as u64 > 0xFFFF_FFFFu64 {
            return Err(EncodeError::Oversize);
        }
        let cap_left = usize::MAX - out.len();
        if cap_left < 4 || cap_left - 4 < l {
            proof {
                assert(encode_spec(dv.take(i + 1)).len() > usize::MAX);
                assert(dv.take(i + 1) + dv.skip(i + 1) =~~= dv);
                lemma_encode_append(dv.take(i + 1), dv.skip(i + 1));
            }
            return Err(EncodeError::Oversize);
        }
        out.push((l % 256) as u8);
        out.push(((l / 256) % 256) as u8);
        out.push(((l / 65536) % 256) as u8);
        out.push(((l / 16777216) % 256) as u8);
        let mut payload: Vec<u8> = vstd::slice::slice_to_vec(p.as_slice());
        out.append(&mut payload);
        proof {
            assert(out@ =~= encode_spec(dv.take(i as int)) + encode_record(dv[i as int]));
        }
        i = i + 1;
    }
    proof {
        assert(dv.take(n as int) =~~= dv);
    }
    let total = out.len();
    proof {
        assert(encode_spec(dv).len() == total <= usize::MAX);
    }
    Ok(out)
}

} // verus!
