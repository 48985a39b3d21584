use crate::consts::MAX_STRING_LEN;
use crate::error::ProxyError;
use vstd::prelude::*;
use vstd::slice::slice_subrange;
use vstd::utf8::{decode_utf8, encode_utf8, valid_utf8};

verus! {

/// The variable-length integer of the wire format: groups of seven bits, low
/// group first, the top bit of a byte set while another byte follows.
pub struct VarInt;

/// How many bytes at the head of `s` carry the continuation bit.
pub open spec fn continuation_run(s: Seq<u8>) -> nat
    decreases s.len(),
{
    if s.len() > 0 && s[0] >= 128 {
        1 + continuation_run(s.drop_first())
    } else {
        0
    }
}

/// The number whose base-128 digits, lowest first, are the low seven bits of
/// the bytes of `s`.
pub open spec fn base128(s: Seq<u8>) -> nat
    decreases s.len(),
{
    if s.len() == 0 {
        0
    } else {
        (s[0] % 128) as nat + 128 * base128(s.drop_first())
    }
}

/// The signed 32-bit integer with the same low 32 bits as `n`.
pub open spec fn wrap_i32(n: nat) -> i32 {
    let low = n % 0x1_0000_0000;
    if low < 0x8000_0000 {
        low as i32
    } else {
        (low - 0x1_0000_0000) as i32
    }
}

/// The unsigned 32-bit integer with the same bits as `v`.
pub open spec fn unsigned32(v: i32) -> nat {
    if v >= 0 {
        v as nat
    } else {
        (v + 0x1_0000_0000) as nat
    }
}

/// What reading one integer from the head of `s` gives: the value and the
/// number of bytes it occupies, or the reason why there is none. Five bytes
/// with the continuation bit ask for a sixth, which the format does not have.
pub open spec fn decode_varint(s: Seq<u8>) -> Result<(i32, nat), ProxyError> {
    let run = continuation_run(s);
    if run >= 5 {
        Err(ProxyError::VarIntTooBig)
    } else if run >= s.len() {
        Err(ProxyError::VarIntTruncated)
    } else {
        Ok((wrap_i32(base128(s.take(run + 1 as int))), run + 1))
    }
}

/// The bytes that stand for `n`.
pub open spec fn encode_varint(n: nat) -> Seq<u8>
    decreases n,
{
    if n < 128 {
        seq![n as u8]
    } else {
        seq![(n % 128 + 128) as u8] + encode_varint(n / 128)
    }
}

/// What reading one length-prefixed string from the head of `s` gives: the
/// text and the number of bytes read, or the reason why there is none.
pub open spec fn decode_string(s: Seq<u8>) -> Result<(Seq<char>, nat), ProxyError> {
    match decode_varint(s) {
        Err(e) => Err(e),
        Ok((len, used)) => {
            if len < 0 {
                Err(ProxyError::NegativeLength)
            } else if len > MAX_STRING_LEN {
                Err(ProxyError::StringTooLarge)
            } else if s.len() - used < len {
                Err(ProxyError::StringTruncated)
            } else if !valid_utf8(s.subrange(used as int, used + len)) {
                Err(ProxyError::InvalidUtf8)
            } else {
                Ok((decode_utf8(s.subrange(used as int, used + len)), (used + len) as nat))
            }
        },
    }
}

/// The bytes that stand for the text `text`: its byte length, then its UTF-8
/// bytes.
pub open spec fn encode_string(text: Seq<char>) -> Seq<u8> {
    encode_varint(encode_utf8(text).len()) + encode_utf8(text)
}

/// Number of binary digits of `n`; none for zero.
pub open spec fn bit_length(n: nat) -> nat
    decreases n,
{
    if n == 0 {
        0
    } else {
        1 + bit_length(n / 2)
    }
}

/// Number of seven-bit groups that hold the binary digits of `n`, at least one.
pub open spec fn varint_width(n: nat) -> nat {
    if n == 0 {
        1
    } else {
        (bit_length(n) + 6) / 7
    }
}

/// 128 to the power of `k`.
spec fn pow128(k: nat) -> nat
    decreases k,
{
    if k == 0 {
        1
    } else {
        128 * pow128((k - 1) as nat)
    }
}

proof fn lemma_run_at_least(s: Seq<u8>, k: nat)
    requires
        k <= s.len(),
        forall|j: int| 0 <= j < k ==> s[j] >= 128,
    ensures
        continuation_run(s) >= k,
        k < s.len() && s[k as int] < 128 ==> continuation_run(s) == k,
        k == s.len() ==> continuation_run(s) == k,
    decreases k,
{
    if k > 0 {
        let t = s.drop_first();
        assert forall|j: int| 0 <= j < k - 1 implies t[j] >= 128 by {
            assert(t[j] == s[j + 1]);
        }
        lemma_run_at_least(t, (k - 1) as nat);
        if k < s.len() {
            assert(t[k - 1] == s[k as int]);
        }
    }
}

proof fn lemma_base128_extend(s: Seq<u8>, k: nat)
    requires
        k < s.len(),
    ensures
        base128(s.take(k + 1 as int)) == base128(s.take(k as int)) + (s[k as int] % 128) * pow128(k),
    decreases k,
{
    let longer = s.take(k + 1 as int);
    let shorter = s.take(k as int);
    assert(longer[0] == s[0]);
    if k == 0 {
        assert(longer.drop_first() =~= Seq::<u8>::empty());
        assert(base128(Seq::<u8>::empty()) == 0);
        assert(shorter =~= Seq::<u8>::empty());
        assert(base128(longer) == (s[0] % 128) as nat);
        assert(pow128(0) == 1);
    } else {
        let t = s.drop_first();
        assert(shorter[0] == s[0]);
        assert(longer.drop_first() =~= t.take(k as int));
        assert(shorter.drop_first() =~= t.take(k - 1));
        lemma_base128_extend(t, (k - 1) as nat);
        assert(t[k - 1] == s[k as int]);
        let digit = (s[k as int] % 128) as int;
        let below = pow128((k - 1) as nat) as int;
        assert(t.take((k - 1) as nat + 1 as int) == t.take(k as int));
        assert(base128(t.take(k as int)) == base128(t.take(k - 1)) + digit * below);
        assert(pow128(k) == 128 * below);
        assert(128 * (digit * below) == digit * (128 * below)) by (nonlinear_arith);
        assert(base128(longer) == (s[0] % 128) + 128 * base128(t.take(k as int)));
        assert(base128(shorter) == (s[0] % 128) + 128 * base128(t.take(k - 1)));
    }
}

proof fn lemma_run_extends(s: Seq<u8>, t: Seq<u8>)
    ensures
        continuation_run(s + t) >= continuation_run(s),
        continuation_run(s) < s.len() ==> continuation_run(s + t) == continuation_run(s),
    decreases s.len(),
{
    if s.len() > 0 {
        assert((s + t)[0] == s[0]);
        assert((s + t).drop_first() =~= s.drop_first() + t);
        lemma_run_extends(s.drop_first(), t);
    }
}

/// What was read from a byte sequence is read from every sequence that
/// begins with it: only running out of bytes is mended by more bytes.
pub proof fn lemma_decode_extends(s: Seq<u8>, t: Seq<u8>)
    requires
        decode_varint(s) != Err::<(i32, nat), ProxyError>(ProxyError::VarIntTruncated),
    ensures
        decode_varint(s + t) == decode_varint(s),
{
    lemma_run_extends(s, t);
    let run = continuation_run(s);
    if run < 5 {
        assert((s + t).take(run + 1 as int) =~= s.take(run + 1 as int));
    }
}

/// An integer takes at least one byte and at most five.
pub proof fn lemma_decode_used(s: Seq<u8>)
    ensures
        decode_varint(s) matches Ok((_, used)) ==> 1 <= used <= 5 && used <= s.len(),
{
}

proof fn lemma_encode_shape(n: nat, rest: Seq<u8>)
    ensures
        encode_varint(n).len() >= 1,
        continuation_run(encode_varint(n) + rest) == encode_varint(n).len() - 1,
        base128(encode_varint(n)) == n,
    decreases n,
{
    let e = encode_varint(n);
    if n < 128 {
        assert((e + rest)[0] == e[0]);
        assert(e.drop_first() =~= Seq::<u8>::empty());
        assert(base128(Seq::<u8>::empty()) == 0);
    } else {
        let tail = encode_varint(n / 128);
        lemma_encode_shape(n / 128, rest);
        assert((e + rest)[0] == e[0]);
        assert((e + rest).drop_first() =~= tail + rest);
        assert(e.drop_first() =~= tail);
    }
}

proof fn lemma_encode_len_bound(n: nat, k: nat)
    requires
        k >= 1,
        n < pow128(k),
    ensures
        encode_varint(n).len() <= k,
    decreases k,
{
    if n >= 128 {
        assert(k >= 2) by {
            reveal_with_fuel(pow128, 2);
        }
        lemma_encode_len_bound(n / 128, (k - 1) as nat);
    }
}

proof fn lemma_bit_length_step(n: nat)
    requires
        n >= 128,
    ensures
        bit_length(n) == 7 + bit_length(n / 128),
{
    reveal_with_fuel(bit_length, 8);
    assert(n / 2 / 2 / 2 / 2 / 2 / 2 / 2 == n / 128);
}

proof fn lemma_encode_width(n: nat)
    ensures
        encode_varint(n).len() == varint_width(n),
    decreases n,
{
    if n < 128 {
        reveal_with_fuel(bit_length, 9);
    } else {
        lemma_encode_width(n / 128);
        lemma_bit_length_step(n);
    }
}

/// Decoding what stands for a number gives the number back: for every `n` up
/// to 2^31 - 1, reading the encoding of `n`, whatever follows it, yields `n`
/// and uses as many bytes as `n` has seven-bit groups, at least one.
pub proof fn lemma_varint_round_trip(n: nat, rest: Seq<u8>)
    requires
        n <= 0x7fff_ffff,
    ensures
        decode_varint(encode_varint(n) + rest) == Ok::<(i32, nat), ProxyError>(
            (n as i32, varint_width(n)),
        ),
        encode_varint(n).len() == varint_width(n),
        1 <= varint_width(n) <= 5,
{
    lemma_signed_round_trip(n as i32, rest);
    lemma_encode_width(n);
}

/// Decoding what stands for a signed integer gives the integer back, and no
/// encoding is longer than five bytes.
pub proof fn lemma_signed_round_trip(v: i32, rest: Seq<u8>)
    ensures
        decode_varint(encode_varint(unsigned32(v)) + rest) == Ok::<(i32, nat), ProxyError>(
            (v, encode_varint(unsigned32(v)).len()),
        ),
        1 <= encode_varint(unsigned32(v)).len() <= 5,
{
    let n = unsigned32(v);
    let e = encode_varint(n);
    lemma_encode_shape(n, rest);
    assert(n < pow128(5)) by {
        reveal_with_fuel(pow128, 6);
    }
    lemma_encode_len_bound(n, 5);
    assert((e + rest).take(e.len() as int) =~= e);
}

/// Decoding what stands for a text gives the text back: for every text of at
/// most `MAX_STRING_LEN` bytes, reading its encoding, whatever follows it,
/// yields the text and uses exactly the bytes of the encoding.
pub proof fn lemma_string_round_trip(text: Seq<char>, rest: Seq<u8>)
    requires
        encode_utf8(text).len() <= MAX_STRING_LEN,
    ensures
        decode_string(encode_string(text) + rest) == Ok::<(Seq<char>, nat), ProxyError>(
            (text, encode_string(text).len()),
        ),
{
    let body = encode_utf8(text);
    let head = encode_varint(body.len());
    let all = encode_string(text) + rest;
    lemma_varint_round_trip(body.len(), body + rest);
    assert(all =~= head + (body + rest));
    assert(all.subrange(head.len() as int, head.len() + body.len() as int) =~= body);
    vstd::utf8::encode_utf8_valid_utf8(text);
    vstd::utf8::encode_utf8_decode_utf8(text);
}

/// `std::str::from_utf8`: the bytes as text where they are well-formed UTF-8,
/// which is then the text whose UTF-8 form they are; nothing where they are
/// not.
#[verifier::external_body]
fn utf8_text(bytes: &[u8]) -> (text: Option<&str>)
    ensures
        match text {
            Some(t) => valid_utf8(bytes@) && encode_utf8(t@) == bytes@,
            None => !valid_utf8(bytes@),
        },
{
    std::str::from_utf8(bytes).ok()
}

fn low32_signed(acc: u64) -> (v: i32)
    ensures
        v == wrap_i32(acc as nat),
{
    let low: u64 = acc % 0x1_0000_0000;
    if low < 0x8000_0000 {
        low as i32
    } else {
        (low as i64 - 0x1_0000_0000) as i32
    }
}

impl VarInt {
    /// Reads one integer from the head of `buf` and moves `buf` past it.
    pub fn read_from_slice(buf: &mut &[u8]) -> (r: Result<i32, ProxyError>)
        ensures
            match decode_varint(old(buf)@) {
                Ok((value, used)) => r == Ok::<i32, ProxyError>(value) && final(buf)@ == old(
                    buf,
                )@.skip(used as int),
                Err(e) => r == Err::<i32, ProxyError>(e),
            },
    {
        let data: &[u8] = *buf;
        let mut acc: u64 = 0;
        let mut scale: u64 = 1;
        let mut i: usize = 0;
        while i < 5
            invariant
                data@ == old(buf)@,
                *buf == data,
                i <= 5,
                i <= data@.len(),
                forall|j: int| 0 <= j < i ==> data@[j] >= 128,
                acc == base128(data@.take(i as int)),
                scale == pow128(i as nat),
                acc < scale,
            decreases 5 - i,
        {
            proof {
                lemma_run_at_least(data@, i as nat);
                reveal_with_fuel(pow128, 6);
            }
            if i >= data.len() {
                return Err(ProxyError::VarIntTruncated);
            }
            let b: u8 = data[i];
            let group: u8 = b & 0x7f;
            let last: bool = b & 0x80 == 0;
            proof {
                assert(b & 0x7f == b % 128) by (bit_vector);
                assert((b & 0x80 == 0) == (b < 128)) by (bit_vector);
                lemma_base128_extend(data@, i as nat);
                assert(group * scale <= 127 * scale) by (nonlinear_arith)
                    requires
                        group <= 127,
                        scale >= 0,
                ;
            }
            acc = acc + (group as u64) * scale;
            if last {
                let n: usize = data.len();
                *buf = slice_subrange(data, i + 1, n);
                return Ok(low32_signed(acc));
            }
            scale = scale * 128;
            i = i + 1;
        }
        proof {
            lemma_run_at_least(data@, 5);
        }
        Err(ProxyError::VarIntTooBig)
    }

    /// Appends the bytes that stand for `value` to `out`.
    pub fn write_to_vec(value: i32, out: &mut Vec<u8>)
        ensures
            final(out)@ == old(out)@ + encode_varint(unsigned32(value)),
    {
        let mut n: u32 = if value >= 0 {
            value as u32
        } else {
            (value as i64 + 0x1_0000_0000) as u32
        };
        while n >= 128
            invariant
                out@ + encode_varint(n as nat) == old(out)@ + encode_varint(unsigned32(value)),
            decreases n,
        {
            let ghost before = out@;
            out.push((n % 128 + 128) as u8);
            proof {
                assert(out@ + encode_varint((n / 128) as nat) =~= before + encode_varint(n as nat));
            }
            n = n / 128;
        }
        let ghost before = out@;
        out.push(n as u8);
        proof {
            assert(out@ =~= before + encode_varint(n as nat));
        }
    }
}

/// Reads one length-prefixed string from the head of `buf` and moves `buf`
/// past it.
pub fn read_varint_string_from_slice(buf: &mut &[u8]) -> (r: Result<String, ProxyError>)
    ensures
        match decode_string(old(buf)@) {
            Ok((text, used)) => r is Ok && r->Ok_0@ == text && final(buf)@ == old(buf)@.skip(
                used as int,
            ),
            Err(e) => r == Err::<String, ProxyError>(e),
        },
{
    let ghost start = buf@;
    let len: i32 = match VarInt::read_from_slice(buf) {
        Ok(v) => v,
        Err(e) => {
            return Err(e);
        },
    };
    if len < 0 {
        return Err(ProxyError::NegativeLength);
    }
    let len: usize = len as usize;
    if len > MAX_STRING_LEN {
        return Err(ProxyError::StringTooLarge);
    }
    let rest: &[u8] = *buf;
    if rest.len() < len {
        return Err(ProxyError::StringTruncated);
    }
    let body: &[u8] = slice_subrange(rest, 0, len);
    proof {
        let used = decode_varint(start)->Ok_0.1;
        assert(body@ =~= start.subrange(used as int, used + len));
    }
    let text: String = match utf8_text(body) {
        Some(t) => t.to_owned(),
        None => {
            return Err(ProxyError::InvalidUtf8);
        },
    };
    let n: usize = rest.len();
    *buf = slice_subrange(rest, len, n);
    proof {
        let used = decode_varint(start)->Ok_0.1;
        vstd::utf8::encode_utf8_decode_utf8(text@);
        assert(buf@ =~= start.skip(used + len));
    }
    Ok(text)
}

/// Appends the bytes that stand for `text` to `out`; a text of more than
/// `MAX_STRING_LEN` bytes has no encoding and leaves `out` as it is.
pub fn write_varint_string_to_vec(text: &str, out: &mut Vec<u8>) -> (r: Result<(), ProxyError>)
    ensures
        encode_utf8(text@).len() <= MAX_STRING_LEN ==> r is Ok && final(out)@ == old(out)@
            + encode_string(text@),
        encode_utf8(text@).len() > MAX_STRING_LEN ==> r == Err::<(), ProxyError>(
            ProxyError::StringTooLarge,
        ) && final(out)@ == old(out)@,
{
    let bytes: &[u8] = text.as_bytes();
    if bytes.len() > MAX_STRING_LEN {
        return Err(ProxyError::StringTooLarge);
    }
    VarInt::write_to_vec(bytes.len() as i32, out);
    let mut i: usize = 0;
    while i < bytes.len()
        invariant
            i <= bytes@.len(),
            out@ == old(out)@ + encode_varint(bytes@.len()) + bytes@.take(i as int),
        decreases bytes@.len() - i,
    {
        let ghost before = out@;
        out.push(bytes[i]);
        proof {
            assert(bytes@.take(i + 1) =~= bytes@.take(i as int).push(bytes@[i as int]));
            assert(out@ =~= old(out)@ + encode_varint(bytes@.len()) + bytes@.take(i + 1));
        }
        i = i + 1;
    }
    proof {
        assert(bytes@.take(i as int) =~= bytes@);
        assert(out@ =~= old(out)@ + encode_string(text@));
    }
    Ok(())
}

} // verus!
