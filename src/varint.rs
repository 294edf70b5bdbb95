use vstd::prelude::*;

use crate::text::{decimal, push_decimal};

verus! {

/// The number of data bits per varint byte (the high bit is the continuation flag).
pub const DATA_BITS: u32 = 7;

/// Bitmask for the data bits of a varint byte.
pub const DATA_MASK: u8 = 0x7F;

/// The continuation bit: set in every byte but the last.
pub const CONTINUATION_BIT: u8 = 0x80;

/// The most bytes a 64-bit varint occupies.
pub const MAX_VARINT_BYTES: usize = 10;

/// The encoding of `v`: seven data bits per byte, least significant group
/// first, the continuation bit set on every byte but the last.
pub open spec fn encoding(v: nat) -> Seq<u8>
    decreases v,
{
    if v < 128 {
        seq![v as u8]
    } else {
        seq![(v % 128 + 128) as u8] + encoding(v / 128)
    }
}

/// The encodings of `vs`, one after the other.
pub open spec fn encoding_all(vs: Seq<u64>) -> Seq<u8>
    decreases vs.len(),
{
    if vs.len() == 0 {
        Seq::empty()
    } else {
        encoding_all(vs.drop_last()) + encoding(vs.last() as nat)
    }
}

/// How many bytes the decoder takes from the front of `s`, looking from
/// index `i` on: up to and including the first byte without the
/// continuation bit, at most `MAX_VARINT_BYTES`, at most all of `s`.
pub open spec fn read_len_from(s: Seq<u8>, i: nat) -> nat
    decreases MAX_VARINT_BYTES - i,
{
    if i >= s.len() {
        s.len()
    } else if i >= MAX_VARINT_BYTES {
        i
    } else if s[i as int] < 128 {
        i + 1
    } else {
        read_len_from(s, i + 1)
    }
}

pub open spec fn read_len(s: Seq<u8>) -> nat {
    read_len_from(s, 0)
}

/// 256 to the power `i`: the weight of the `i`-th byte's data bits.
pub open spec fn place(i: nat) -> nat
    decreases i,
{
    if i == 0 {
        1
    } else {
        256 * place((i - 1) as nat)
    }
}

/// The value that the decoder assembles from the first `k` bytes: the
/// data bits of byte `i` are placed at bit `8 * i`, and bytes past the
/// eighth add nothing.
pub open spec fn groups_value(s: Seq<u8>, k: nat) -> nat
    decreases k,
{
    if k == 0 {
        0
    } else {
        let i = (k - 1) as nat;
        groups_value(s, i) + if i < 8 { (s[i as int] % 128) as nat * place(i) } else { 0 }
    }
}

pub open spec fn decoded_value(s: Seq<u8>) -> nat {
    groups_value(s, read_len(s))
}

/// The values that the stream decoder reads from `s`, starting at `offset`.
pub open spec fn decode_stream_from(s: Seq<u8>, offset: nat) -> Seq<u64>
    decreases s.len() - offset,
{
    if offset >= s.len() {
        Seq::empty()
    } else {
        let rest = s.skip(offset as int);
        let k = read_len(rest);
        if k == 0 || offset + k > s.len() {
            Seq::empty()
        } else {
            seq![decoded_value(rest) as u64] + decode_stream_from(s, offset + k)
        }
    }
}

/// The result of decoding a varint: the value and how many bytes were consumed.
#[derive(Debug, Clone, Copy, PartialEq, Eq, Structural)]
pub struct DecodeResult {
    pub value: u64,
    pub bytes_read: usize,
}

impl DecodeResult {
    pub fn new(value: u64, bytes_read: usize) -> (r: Self)
        ensures
            r == (DecodeResult { value, bytes_read }),
    {
        DecodeResult { value, bytes_read }
    }

    /// `DecodeResult { value: <value>, bytes_read: <bytes_read> }`.
    pub fn to_text(&self) -> (r: String)
        ensures
            r@ == "DecodeResult { value: "@ + decimal(self.value as nat) + ", bytes_read: "@ + decimal(
                self.bytes_read as nat,
            ) + " }"@,
    {
        let mut out = String::new();
        out.append("DecodeResult { value: ");
        push_decimal(&mut out, self.value);
        out.append(", bytes_read: ");
        push_decimal(&mut out, self.bytes_read as u64);
        out.append(" }");
        out
    }
}

proof fn lemma_place_bound(i: nat)
    requires
        i <= 8,
    ensures
        place(i) <= 0x1_0000_0000_0000_0000,
        i < 8 ==> 128 * place(i) <= 0x8000_0000_0000_0000,
        place(i) >= 1,
    decreases i,
{
    reveal_with_fuel(place, 9);
}

proof fn lemma_groups_bound(s: Seq<u8>, k: nat)
    requires
        k <= s.len(),
    ensures
        groups_value(s, k) < place(if k < 8 { k } else { 8 }),
    decreases k,
{
    if k > 0 {
        let i = (k - 1) as nat;
        lemma_groups_bound(s, i);
        if i < 8 {
            let d = (s[i as int] % 128) as nat;
            assert(d < 256);
            let p = place(i);
            assert(place(i + 1) == 256 * p);
            assert(d * p + p <= 256 * p) by (nonlinear_arith)
                requires
                    d < 256,
            {
            }
            assert(groups_value(s, i) + d * p < 256 * p);
        }
    }
}

/// Decode one varint starting at `offset`.
fn decode_from(bytes: &[u8], offset: usize) -> (r: DecodeResult)
    requires
        offset <= bytes@.len(),
    ensures
        r.bytes_read == read_len(bytes@.skip(offset as int)),
        r.value == decoded_value(bytes@.skip(offset as int)),
{
    let ghost s = bytes@.skip(offset as int);
    let n = bytes.len() - offset;
    let mut result: u64 = 0;
    let mut scale: u64 = 1;
    let mut i: usize = 0;
    proof {
        reveal_with_fuel(place, 9);
    }
    while i < n
        invariant
            s == bytes@.skip(offset as int),
            n == s.len(),
            offset + n == bytes@.len(),
            bytes@.len() <= usize::MAX,
            i <= n,
            i <= MAX_VARINT_BYTES,
            read_len(s) == read_len_from(s, i as nat),
            result == groups_value(s, i as nat),
            scale == place(if i < 7 { i as nat } else { 7 }),
        decreases n - i,
    {
        if i >= MAX_VARINT_BYTES {
            return DecodeResult::new(result, i);
        }
        let byte = bytes[offset + i];
        assert(byte == s[i as int]);
        let data = (byte & DATA_MASK) as u64;
        assert(byte & 0x7Fu8 == byte % 128) by (bit_vector);
        proof {
            lemma_groups_bound(s, i as nat);
            if i < 8 {
                lemma_place_bound(i as nat);
            }
            lemma_place_bound(7);
            reveal_with_fuel(place, 9);
        }
        if i < 8 {
            assert(data * scale <= 127 * scale) by (nonlinear_arith)
                requires
                    data <= 127,
            {
            }
            assert(i < 7 ==> scale == place(i as nat));
            assert(i == 7 ==> scale == place(7));
            result = result + data * scale;
        }
        if i < 7 {
            scale = scale * 256;
        }
        if byte & CONTINUATION_BIT == 0 {
            assert(byte & 0x80u8 == 0 <==> byte < 128) by (bit_vector);
            return DecodeResult::new(result, i + 1);
        }
        assert(byte & 0x80u8 != 0 <==> byte >= 128) by (bit_vector);
        i += 1;
    }
    DecodeResult::new(result, n)
}

/// Decode a varint from the front of `bytes`: the value and the number of
/// bytes consumed.
pub fn decode_varint(bytes: &[u8]) -> (r: DecodeResult)
    ensures
        r.bytes_read == read_len(bytes@),
        r.value == decoded_value(bytes@),
{
    assert(bytes@.skip(0) == bytes@);
    decode_from(bytes, 0)
}

/// Decode a varint starting at `offset`: the value and the offset just past it.
pub fn decode_varint_at(bytes: &[u8], offset: usize) -> (r: (u64, usize))
    requires
        offset <= bytes@.len(),
    ensures
        r.0 == decoded_value(bytes@.skip(offset as int)),
        r.1 == offset + read_len(bytes@.skip(offset as int)),
{
    let result = decode_from(bytes, offset);
    let len = bytes.len();
    proof { lemma_read_len_bound(bytes@.skip(offset as int), 0); }
    assert(bytes@.skip(offset as int).len() == len - offset);
    (result.value, offset + result.bytes_read)
}

proof fn lemma_read_len_bound(s: Seq<u8>, i: nat)
    requires
        i <= s.len(),
    ensures
        i <= read_len_from(s, i) <= s.len(),
        i < s.len() && i < MAX_VARINT_BYTES ==> read_len_from(s, i) > i,
    decreases MAX_VARINT_BYTES - i,
{
    if i < s.len() && i < MAX_VARINT_BYTES && s[i as int] >= 128 {
        lemma_read_len_bound(s, i + 1);
    }
}

/// Decode a stream of concatenated varints until all bytes are consumed.
pub fn decode_many(bytes: &[u8]) -> (r: Vec<u64>)
    ensures
        r@ == decode_stream_from(bytes@, 0),
{
    let mut values: Vec<u64> = Vec::new();
    let mut offset: usize = 0;
    while offset < bytes.len()
        invariant
            offset <= bytes@.len(),
            values@ + decode_stream_from(bytes@, offset as nat) == decode_stream_from(bytes@, 0),
        decreases bytes@.len() - offset,
    {
        let result = decode_from(bytes, offset);
        let len = bytes.len();
        proof { lemma_read_len_bound(bytes@.skip(offset as int), 0); }
        assert(bytes@.skip(offset as int).len() == len - offset);
        assert(result.bytes_read > 0);
        let ghost before = values@;
        values.push(result.value);
        assert(values@ + decode_stream_from(bytes@, (offset + result.bytes_read) as nat)
            =~= before + decode_stream_from(bytes@, offset as nat));
        offset = offset + result.bytes_read;
    }
    assert(values@ + Seq::<u64>::empty() =~= values@);
    values
}

proof fn lemma_encoding_len(v: nat)
    requires
        v <= u64::MAX,
    ensures
        1 <= encoding(v).len() <= MAX_VARINT_BYTES,
        v < 128 ==> encoding(v).len() == 1,
{
    reveal_with_fuel(encoding, 11);
    assert(v / 128 / 128 / 128 / 128 / 128 / 128 / 128 / 128 / 128 < 128);
}

proof fn lemma_encoding_step(v: nat)
    requires
        v >= 128,
    ensures
        encoding(v) == seq![(v % 128 + 128) as u8] + encoding(v / 128),
{
}

/// Encode `value` as a varint.
pub fn encode_varint(value: u64) -> (r: Vec<u8>)
    ensures
        r@ == encoding(value as nat),
        1 <= r@.len() <= MAX_VARINT_BYTES,
{
    let mut buf: Vec<u8> = Vec::new();
    let mut rest: u64 = value;
    proof { lemma_encoding_len(value as nat); }
    loop
        invariant_except_break
            buf@ + encoding(rest as nat) == encoding(value as nat),
        ensures
            buf@ == encoding(value as nat),
        decreases rest,
    {
        let mut byte = (rest & DATA_MASK as u64) as u8;
        assert(rest & 0x7Fu64 == rest % 128) by (bit_vector);
        let next = rest >> DATA_BITS;
        assert(rest >> 7u32 == rest / 128) by (bit_vector);
        if next != 0 {
            assert(byte | 0x80u8 == byte + 128) by (bit_vector)
                requires
                    byte < 128,
            ;
            byte = byte | CONTINUATION_BIT;
            assert(buf@.push(byte) + encoding(next as nat) =~= buf@ + encoding(rest as nat));
            buf.push(byte);
            rest = next;
        } else {
            assert(buf@.push(byte) =~= buf@ + encoding(rest as nat));
            buf.push(byte);
            break;
        }
    }
    buf
}

/// Encode `value` into `buf` at `offset`; returns the number of bytes written.
/// The rest of `buf` is left as it was.
pub fn encode_varint_into(value: u64, buf: &mut [u8], offset: usize) -> (r: usize)
    requires
        offset + encoding(value as nat).len() <= old(buf)@.len(),
    ensures
        r == encoding(value as nat).len(),
        final(buf)@ == old(buf)@.take(offset as int) + encoding(value as nat) + old(buf)@.skip(
            offset + r,
        ),
{
    let mut i: usize = offset;
    let mut rest: u64 = value;
    let ghost enc = encoding(value as nat);
    assert(enc.subrange(0, 0) + enc =~= enc);
    assert(old(buf)@ =~= old(buf)@.take(offset as int) + enc.subrange(0, 0) + old(buf)@.skip(offset as int));
    loop
        invariant_except_break
            i - offset + encoding(rest as nat).len() == enc.len(),
            enc.subrange(0, i - offset) + encoding(rest as nat) == enc,
        invariant
            offset <= i,
            buf@.len() == old(buf)@.len(),
            enc == encoding(value as nat),
            offset + enc.len() <= old(buf)@.len(),
            buf@ == old(buf)@.take(offset as int) + enc.subrange(0, i - offset) + old(buf)@.skip(
                i as int,
            ),
        ensures
            i - offset == enc.len(),
        decreases rest,
    {
        proof { lemma_encoding_len(rest as nat); }
        let mut byte = (rest & DATA_MASK as u64) as u8;
        assert(rest & 0x7Fu64 == rest % 128) by (bit_vector);
        let next = rest >> DATA_BITS;
        assert(rest >> 7u32 == rest / 128) by (bit_vector);
        if next != 0 {
            assert(byte | 0x80u8 == byte + 128) by (bit_vector)
                requires
                    byte < 128,
            ;
            byte = byte | CONTINUATION_BIT;
        }
        assert(enc[i - offset] == byte) by {
            assert(enc.subrange(0, i - offset) + encoding(rest as nat) == enc);
            reveal_with_fuel(encoding, 2);
            assert(encoding(rest as nat)[0] == byte);
            assert(enc[i - offset] == (enc.subrange(0, i - offset) + encoding(rest as nat))[i - offset]);
        }
        let ghost before = buf@;
        buf[i] = byte;
        assert(buf@ =~= old(buf)@.take(offset as int) + enc.subrange(0, i + 1 - offset) + old(buf)@.skip(
            i + 1,
        ));
        i = i + 1;
        if next == 0 {
            assert(enc.subrange(0, i - offset) =~= enc);
            break;
        }
        assert(enc.subrange(0, i - offset) + encoding(next as nat) =~= enc) by {
            assert(encoding(rest as nat) == seq![byte] + encoding(next as nat));
            assert(enc.subrange(0, i - 1 - offset) + encoding(rest as nat) == enc);
        }
        rest = next;
    }
    i - offset
}

/// Encode each value in turn into one byte stream.
pub fn encode_many(values: &[u64]) -> (r: Vec<u8>)
    ensures
        r@ == encoding_all(values@),
{
    let mut buf: Vec<u8> = Vec::new();
    let mut i: usize = 0;
    while i < values.len()
        invariant
            i <= values@.len(),
            buf@ == encoding_all(values@.take(i as int)),
        decreases values@.len() - i,
    {
        let mut enc = encode_varint(values[i]);
        assert(values@.take(i as int + 1).drop_last() == values@.take(i as int));
        buf.append(&mut enc);
        i += 1;
    }
    assert(values@.take(i as int) == values@);
    buf
}

/// The number of bytes the encoding of `value` takes.
pub fn expected_byte_count(value: u64) -> (r: usize)
    ensures
        r == encoding(value as nat).len(),
{
    let mut rest: u64 = value;
    let mut count: usize = 1;
    proof { lemma_encoding_len(value as nat); }
    while rest >= 128
        invariant
            count + encoding(rest as nat).len() == encoding(value as nat).len() + 1,
            encoding(value as nat).len() <= MAX_VARINT_BYTES,
            count >= 1,
        decreases rest,
    {
        proof { lemma_encoding_step(rest as nat); }
        rest = rest / 128;
        count = count + 1;
    }
    count
}

} // verus!
