//! Row (tuple) serialization.
//!
//! A row is a vector of [`Value`]s, serialized into one self-describing buffer:
//!
//! ```text
//! [u32 total_len][u16 num_values][null bitmap][value...]
//! ```
//!
//! - `total_len` is the byte length of the whole buffer.
//! - The null bitmap uses one bit per value (LSB first); a set bit means NULL.
//! - Every non-NULL value is a type tag followed by its payload.
//! - All multi-byte integers are big-endian.
use vstd::prelude::*;
use vstd::string::*;
use vstd::utf8::{decode_utf8, encode_utf8, encode_utf8_decode_utf8, encode_utf8_valid_utf8, valid_utf8};

use super::endian::{
    be16_at, be16_bytes, be32_at, be32_bytes, be64_at, be64_bytes, lemma_be16_roundtrip,
    lemma_be32_roundtrip, lemma_be64_roundtrip, lemma_be_at_window, push_u16, push_u32, push_u64,
    read_u64,
};
use crate::error::Error;
use crate::text::{dec_chars, push_decimal, text, utf8_error_text, utf8_to_string};
use crate::Result;

verus! {

/// A single column value of a row.
#[derive(Debug, Clone, PartialEq, Eq)]
pub enum Value {
    /// 64-bit signed integer.
    Integer(i64),
    /// UTF-8 text.
    Varchar(String),
    /// Boolean flag.
    Boolean(bool),
    /// SQL NULL.
    Null,
}

/// The mathematical value of a [`Value`]: text is its sequence of characters.
pub enum ValueV {
    Integer(i64),
    Varchar(Seq<char>),
    Boolean(bool),
    Null,
}

impl View for Value {
    type V = ValueV;

    open spec fn view(&self) -> ValueV {
        match self {
            Value::Integer(n) => ValueV::Integer(*n),
            Value::Varchar(s) => ValueV::Varchar(s@),
            Value::Boolean(b) => ValueV::Boolean(*b),
            Value::Null => ValueV::Null,
        }
    }
}

/// The values of a row.
pub open spec fn values_view(vs: Seq<Value>) -> Seq<ValueV> {
    Seq::new(vs.len(), |i: int| vs[i]@)
}

pub const TAG_INTEGER: u8 = 0x01;

pub const TAG_VARCHAR: u8 = 0x02;

pub const TAG_BOOLEAN: u8 = 0x03;

/// Bytes of the `total_len` and `num_values` fields.
pub const LENGTH_HEADER: usize = 4 + 2;

/// The tag and payload written for one value (nothing for NULL).
pub open spec fn value_bytes(v: ValueV) -> Seq<u8> {
    match v {
        ValueV::Integer(n) => seq![TAG_INTEGER] + be64_bytes(n as u64),
        ValueV::Varchar(s) => seq![TAG_VARCHAR] + be32_bytes(encode_utf8(s).len() as u32)
            + encode_utf8(s),
        ValueV::Boolean(b) => seq![TAG_BOOLEAN, if b { 1u8 } else { 0u8 }],
        ValueV::Null => Seq::empty(),
    }
}

/// The payloads of all values, in order.
pub open spec fn payload_bytes(vs: Seq<ValueV>) -> Seq<u8>
    decreases vs.len(),
{
    if vs.len() == 0 {
        Seq::empty()
    } else {
        payload_bytes(vs.drop_last()) + value_bytes(vs.last())
    }
}

/// Bytes of the null bitmap of a row of `n` values.
pub open spec fn bitmap_len(n: nat) -> nat {
    (n + 7) / 8
}

/// Bit `i` of the bitmap `bm` (least significant bit first).
pub open spec fn bit_set(bm: Seq<u8>, i: int) -> bool {
    (bm[i / 8] >> ((i % 8) as u8)) & 1u8 == 1u8
}

/// `bm` is the null bitmap of `vs`: bit `i` is set exactly when value `i` is NULL.
pub open spec fn is_null_bitmap(bm: Seq<u8>, vs: Seq<ValueV>) -> bool {
    &&& bm.len() == bitmap_len(vs.len())
    &&& forall|i: int|
        0 <= i < 8 * bm.len() ==> #[trigger] bit_set(bm, i) == (i < vs.len() && vs[i] is Null)
}

/// Byte length of the serialized row `vs`.
pub open spec fn row_len(vs: Seq<ValueV>) -> nat {
    (LENGTH_HEADER + bitmap_len(vs.len()) + payload_bytes(vs).len()) as nat
}

/// `b` is the serialization of `vs`.
pub open spec fn is_row_encoding(b: Seq<u8>, vs: Seq<ValueV>) -> bool {
    let bl = bitmap_len(vs.len()) as int;
    &&& b.len() == row_len(vs)
    &&& b.subrange(0, 4) == be32_bytes(b.len() as u32)
    &&& b.subrange(4, 6) == be16_bytes(vs.len() as u16)
    &&& is_null_bitmap(b.subrange(6, 6 + bl), vs)
    &&& b.subrange(6 + bl, b.len() as int) == payload_bytes(vs)
}

/// Why a buffer cannot be decoded as a row.
pub enum RowFault {
    ShorterThanHeader,
    LengthMismatch(u32, usize),
    TruncatedBitmap,
    TruncatedRow,
    /// The text between these two offsets of the buffer is not valid UTF-8.
    InvalidUtf8(usize, usize),
    UnknownTag(u8),
}

/// Decodes the values `i..n` whose payloads start at `pos`.
pub open spec fn decode_values(b: Seq<u8>, bm: Seq<u8>, n: nat, i: nat, pos: int) -> core::result::Result<
    Seq<ValueV>,
    RowFault,
>
    decreases n - i,
{
    if i >= n {
        Ok(Seq::empty())
    } else if bit_set(bm, i as int) {
        match decode_values(b, bm, n, i + 1, pos) {
            Ok(rest) => Ok(seq![ValueV::Null] + rest),
            Err(e) => Err(e),
        }
    } else if pos + 1 > b.len() {
        Err(RowFault::TruncatedRow)
    } else {
        let tag = b[pos];
        if tag == TAG_INTEGER {
            if pos + 9 > b.len() {
                Err(RowFault::TruncatedRow)
            } else {
                let v = ValueV::Integer((be64_at(b, pos + 1) as u64) as i64);
                match decode_values(b, bm, n, i + 1, pos + 9) {
                    Ok(rest) => Ok(seq![v] + rest),
                    Err(e) => Err(e),
                }
            }
        } else if tag == TAG_VARCHAR {
            if pos + 5 > b.len() {
                Err(RowFault::TruncatedRow)
            } else {
                let len = be32_at(b, pos + 1);
                if pos + 5 + len > b.len() {
                    Err(RowFault::TruncatedRow)
                } else {
                    let raw = b.subrange(pos + 5, pos + 5 + len);
                    if !valid_utf8(raw) {
                        Err(RowFault::InvalidUtf8((pos + 5) as usize, (pos + 5 + len) as usize))
                    } else {
                        let v = ValueV::Varchar(decode_utf8(raw));
                        match decode_values(b, bm, n, i + 1, pos + 5 + len) {
                            Ok(rest) => Ok(seq![v] + rest),
                            Err(e) => Err(e),
                        }
                    }
                }
            }
        } else if tag == TAG_BOOLEAN {
            if pos + 2 > b.len() {
                Err(RowFault::TruncatedRow)
            } else {
                let v = ValueV::Boolean(b[pos + 1] != 0);
                match decode_values(b, bm, n, i + 1, pos + 2) {
                    Ok(rest) => Ok(seq![v] + rest),
                    Err(e) => Err(e),
                }
            }
        } else {
            Err(RowFault::UnknownTag(tag))
        }
    }
}

/// Decodes a whole row buffer.
pub open spec fn decode_row(b: Seq<u8>) -> core::result::Result<Seq<ValueV>, RowFault> {
    if b.len() < LENGTH_HEADER {
        Err(RowFault::ShorterThanHeader)
    } else if be32_at(b, 0) != b.len() {
        Err(RowFault::LengthMismatch(be32_at(b, 0) as u32, b.len() as usize))
    } else {
        let n = be16_at(b, 4) as nat;
        let bl = bitmap_len(n) as int;
        if LENGTH_HEADER + bl > b.len() {
            Err(RowFault::TruncatedBitmap)
        } else {
            decode_values(b, b.subrange(6, 6 + bl), n, 0, 6 + bl)
        }
    }
}

/// The message of the error reported for `fault` in decoding the buffer `b`.
pub open spec fn row_fault_message(b: Seq<u8>, fault: RowFault) -> Seq<char> {
    match fault {
        RowFault::ShorterThanHeader => "row shorter than header"@,
        RowFault::LengthMismatch(h, l) => "length mismatch: header says "@ + dec_chars(h as nat)
            + ", buffer has "@ + dec_chars(l as nat),
        RowFault::TruncatedBitmap => "truncated null bitmap"@,
        RowFault::TruncatedRow => "truncated row"@,
        RowFault::InvalidUtf8(s, e) => "invalid UTF-8: "@ + utf8_error_text(
            b.subrange(s as int, e as int),
        ),
        RowFault::UnknownTag(t) => "unknown tag "@ + dec_chars(t as nat),
    }
}

/// Setting one bit of a byte sets that bit and keeps the others.
proof fn lemma_set_bit(x: u8, m: u8, t: u8)
    requires
        m < 8,
        t < 8,
    ensures
        ((x | (1u8 << m)) >> t) & 1u8 == 1u8 <==> ((x >> t) & 1u8 == 1u8 || t == m),
{
    assert(((x | (1u8 << m)) >> t) & 1u8 == 1u8 <==> ((x >> t) & 1u8 == 1u8 || t == m))
        by (bit_vector)
        requires
            m < 8,
            t < 8,
    ;
}

/// No bit of a zero byte is set.
proof fn lemma_zero_bits(t: u8)
    requires
        t < 8,
    ensures
        (0u8 >> t) & 1u8 != 1u8,
{
    assert((0u8 >> t) & 1u8 != 1u8) by (bit_vector);
}

/// Appends the bytes of `src` to `out`.
fn append_bytes(out: &mut Vec<u8>, src: &[u8])
    ensures
        final(out)@ == old(out)@ + src@,
{
    let mut i: usize = 0;
    while i < src.len()
        invariant
            0 <= i <= src@.len(),
            out@ == old(out)@ + src@.subrange(0, i as int),
        decreases src@.len() - i,
    {
        out.push(src[i]);
        i = i + 1;
        assert(out@ =~= old(out)@ + src@.subrange(0, i as int));
    }
    assert(src@.subrange(0, src@.len() as int) =~= src@);
}

/// The null bitmap of `values`.
fn null_bitmap(values: &[Value]) -> (bm: Vec<u8>)
    ensures
        is_null_bitmap(bm@, values_view(values@)),
{
    let n = values.len();
    let len = n / 8 + if n % 8 == 0 { 0 } else { 1 };
    let mut bitmap = vec![0u8; len];
    let ghost vs = values_view(values@);
    assert forall|k: int| 0 <= k < 8 * bitmap@.len() implies !#[trigger] bit_set(bitmap@, k) by {
        lemma_zero_bits((k % 8) as u8);
    }
    let mut i: usize = 0;
    while i < n
        invariant
            n == values@.len(),
            vs == values_view(values@),
            0 <= i <= n,
            bitmap@.len() == bitmap_len(n as nat),
            forall|k: int|
                0 <= k < 8 * bitmap@.len() ==> #[trigger] bit_set(bitmap@, k) == (k < i
                    && vs[k] is Null),
        decreases n - i,
    {
        if let Value::Null = &values[i] {
            let ghost old_bm = bitmap@;
            let j = i / 8;
            let m = (i % 8) as u8;
            let byte = bitmap[j];
            bitmap.set(j, byte | (1u8 << m));
            assert forall|k: int| 0 <= k < 8 * bitmap@.len() implies #[trigger] bit_set(bitmap@, k)
                == (k < i + 1 && vs[k] is Null) by {
                assert(bit_set(old_bm, k) == (k < i && vs[k] is Null));
                if k / 8 == j {
                    lemma_set_bit(byte, m, (k % 8) as u8);
                    assert(bitmap@[k / 8] == byte | (1u8 << m));
                    assert(old_bm[k / 8] == byte);
                    assert(((k % 8) as u8 == m) == (k == i));
                    assert(vs[i as int] is Null);
                } else {
                    assert(bitmap@[k / 8] == old_bm[k / 8]);
                    assert(bit_set(old_bm, k) == bit_set(bitmap@, k));
                }
            }
        }
        i = i + 1;
    }
    bitmap
}

/// Appends the tag and payload of `value`.
fn push_value(out: &mut Vec<u8>, value: &Value)
    ensures
        final(out)@ == old(out)@ + value_bytes(value@),
{
    match value {
        Value::Null => {
            assert(final(out)@ =~= old(out)@ + value_bytes(value@));
        },
        Value::Integer(n) => {
            out.push(TAG_INTEGER);
            push_u64(out, *n as u64);
            assert(final(out)@ =~= old(out)@ + value_bytes(value@));
        },
        Value::Varchar(s) => {
            let bytes = s.as_str().as_bytes();
            out.push(TAG_VARCHAR);
            push_u32(out, bytes.len() as u32);
            append_bytes(out, bytes);
            assert(final(out)@ =~= old(out)@ + value_bytes(value@));
        },
        Value::Boolean(b) => {
            out.push(TAG_BOOLEAN);
            out.push(if *b { 1u8 } else { 0u8 });
            assert(final(out)@ =~= old(out)@ + value_bytes(value@));
        },
    }
}

/// The byte length that [`serialize`] gives `values`, if it fits in a `usize`.
pub fn encoded_len(values: &[Value]) -> (r: Option<usize>)
    ensures
        match r {
            Some(n) => n == row_len(values_view(values@)),
            None => row_len(values_view(values@)) > usize::MAX,
        },
{
    let ghost vs = values_view(values@);
    let n = values.len();
    let bitmap = if n % 8 == 0 {
        n / 8
    } else {
        n / 8 + 1
    };
    assert(bitmap == bitmap_len(vs.len()));
    let mut total: usize = LENGTH_HEADER + bitmap;
    let mut i: usize = 0;
    while i < n
        invariant
            n == values@.len(),
            vs == values_view(values@),
            i <= n,
            total == LENGTH_HEADER + bitmap_len(vs.len()) + payload_bytes(vs.subrange(0, i as int)).len(),
        decreases n - i,
    {
        let size: usize = match &values[i] {
            Value::Integer(_) => 9,
            Value::Varchar(s) => {
                let len = s.as_str().as_bytes().len();
                if len > usize::MAX - 5 {
                    proof {
                        let t = vs.subrange(0, i + 1);
                        assert(t.drop_last() =~= vs.subrange(0, i as int));
                        assert(value_bytes(vs[i as int]).len() == len + 5);
                        lemma_payload_prefix_len(vs, i as int + 1, n as int);
                        assert(vs.subrange(0, n as int) =~= vs);
                    }
                    return None;
                }
                len + 5
            },
            Value::Boolean(_) => 2,
            Value::Null => 0,
        };
        proof {
            let t = vs.subrange(0, i + 1);
            assert(t.drop_last() =~= vs.subrange(0, i as int));
            assert(size == value_bytes(vs[i as int]).len());
        }
        if total > usize::MAX - size {
            proof {
                lemma_payload_prefix_len(vs, i as int + 1, n as int);
                assert(vs.subrange(0, n as int) =~= vs);
            }
            return None;
        }
        total = total + size;
        i = i + 1;
    }
    assert(vs.subrange(0, n as int) =~= vs);
    Some(total)
}

/// The payload of a prefix of a row is no longer than the payload of a longer prefix.
proof fn lemma_payload_prefix_len(vs: Seq<ValueV>, i: int, j: int)
    requires
        0 <= i <= j <= vs.len(),
    ensures
        payload_bytes(vs.subrange(0, i)).len() <= payload_bytes(vs.subrange(0, j)).len(),
    decreases j - i,
{
    if i < j {
        lemma_payload_prefix_len(vs, i, j - 1);
        assert(vs.subrange(0, j).drop_last() =~= vs.subrange(0, j - 1));
    }
}

/// Serializes `values` into the length-prefixed row format.
///
/// The `total_len` and `num_values` fields keep the low 32 and 16 bits of the
/// real length and count.
pub fn serialize(values: &[Value]) -> (out: Vec<u8>)
    requires
        row_len(values_view(values@)) <= usize::MAX,
    ensures
        is_row_encoding(out@, values_view(values@)),
{
    let ghost vs = values_view(values@);
    let bitmap = null_bitmap(values);
    let mut payload: Vec<u8> = Vec::new();
    let mut i: usize = 0;
    while i < values.len()
        invariant
            0 <= i <= values@.len(),
            vs == values_view(values@),
            payload@ == payload_bytes(vs.subrange(0, i as int)),
        decreases values@.len() - i,
    {
        push_value(&mut payload, &values[i]);
        proof {
            let t = vs.subrange(0, i + 1);
            assert(t.drop_last() =~= vs.subrange(0, i as int));
        }
        i = i + 1;
    }
    assert(vs.subrange(0, values@.len() as int) =~= vs);
    let total_len = LENGTH_HEADER + bitmap.len() + payload.len();
    let mut out: Vec<u8> = Vec::with_capacity(total_len);
    push_u32(&mut out, total_len as u32);
    push_u16(&mut out, values.len() as u16);
    append_bytes(&mut out, bitmap.as_slice());
    append_bytes(&mut out, payload.as_slice());
    proof {
        let bl = bitmap@.len() as int;
        assert(out@.subrange(0, 4) =~= be32_bytes(total_len as u32));
        assert(out@.subrange(4, 6) =~= be16_bytes(values@.len() as u16));
        assert(out@.subrange(6, 6 + bl) =~= bitmap@);
        assert(out@.subrange(6 + bl, out@.len() as int) =~= payload@);
    }
    out
}

/// The deserialization error reported for `fault` in decoding `bytes`; for
/// invalid UTF-8, `utf8_detail` is the standard library's description.
fn row_fault_error(bytes: &[u8], fault: RowFault, utf8_detail: &str) -> (e: Error)
    requires
        fault matches RowFault::InvalidUtf8(s, t) ==> s <= t <= bytes@.len() && utf8_detail@
            == utf8_error_text(bytes@.subrange(s as int, t as int)),
    ensures
        e matches Error::Deserialize(m) && m@ == row_fault_message(bytes@, fault),
{
    let m = match fault {
        RowFault::ShorterThanHeader => text("row shorter than header"),
        RowFault::LengthMismatch(h, l) => {
            let mut m = text("length mismatch: header says ");
            push_decimal(&mut m, h as u64);
            m.append(", buffer has ");
            push_decimal(&mut m, l as u64);
            m
        },
        RowFault::TruncatedBitmap => text("truncated null bitmap"),
        RowFault::TruncatedRow => text("truncated row"),
        RowFault::InvalidUtf8(_, _) => {
            let mut m = text("invalid UTF-8: ");
            m.append(utf8_detail);
            m
        },
        RowFault::UnknownTag(t) => {
            let mut m = text("unknown tag ");
            push_decimal(&mut m, t as u64);
            m
        },
    };
    Error::Deserialize(m)
}

/// Returns the `n` bytes starting at `*pos` and advances `*pos` past them.
fn take<'a>(bytes: &'a [u8], pos: &mut usize, n: usize) -> (r: Result<&'a [u8]>)
    ensures
        if *old(pos) + n <= bytes@.len() {
            &&& r matches Ok(s)
            &&& s@ == bytes@.subrange(*old(pos) as int, *old(pos) + n)
            &&& *final(pos) == *old(pos) + n
        } else {
            &&& r matches Err(Error::Deserialize(m))
            &&& m@ == row_fault_message(bytes@, RowFault::TruncatedRow)
            &&& *final(pos) == *old(pos)
        },
{
    let start = *pos;
    if start > bytes.len() || n > bytes.len() - start {
        return Err(row_fault_error(bytes, RowFault::TruncatedRow, ""));
    }
    let end = start + n;
    *pos = end;
    Ok(&bytes[start..end])
}

/// Reads the big-endian `u16` at `pos`.
fn read_u16(bytes: &[u8], pos: usize) -> (r: u16)
    requires
        pos + 2 <= bytes.len(),
    ensures
        r == be16_at(bytes@, pos as int),
{
    super::endian::read_u16(bytes, pos)
}

/// Reads the big-endian `u32` at `pos`.
fn read_u32(bytes: &[u8], pos: usize) -> (r: u32)
    requires
        pos + 4 <= bytes.len(),
    ensures
        r == be32_at(bytes@, pos as int),
{
    super::endian::read_u32(bytes, pos)
}

/// Decodes a buffer produced by [`serialize`] back into values.
pub fn deserialize(bytes: &[u8]) -> (r: Result<Vec<Value>>)
    ensures
        match decode_row(bytes@) {
            Ok(vs) => r matches Ok(v) && values_view(v@) == vs,
            Err(f) => r matches Err(Error::Deserialize(m)) && m@ == row_fault_message(bytes@, f),
        },
{
    let ghost b = bytes@;
    if bytes.len() < LENGTH_HEADER {
        return Err(row_fault_error(bytes, RowFault::ShorterThanHeader, ""));
    }
    let total_len = read_u32(bytes, 0);
    if total_len as usize != bytes.len() {
        return Err(row_fault_error(bytes, RowFault::LengthMismatch(total_len, bytes.len()), ""));
    }
    let num_values = read_u16(bytes, 4) as usize;
    let bl = num_values / 8 + if num_values % 8 == 0 { 0 } else { 1 };
    let mut pos = LENGTH_HEADER + bl;
    if pos > bytes.len() {
        return Err(row_fault_error(bytes, RowFault::TruncatedBitmap, ""));
    }
    let bitmap = &bytes[LENGTH_HEADER..pos];
    let ghost bm = bitmap@;
    let ghost n = num_values as nat;
    let ghost start = pos as int;
    assert(bl == bitmap_len(n));

    let mut values: Vec<Value> = Vec::new();
    let mut i: usize = 0;
    while i < num_values
        invariant
            b == bytes@,
            bm == bitmap@,
            bm.len() == bitmap_len(n),
            n == num_values,
            0 <= i <= num_values,
            values@.len() == i,
            decode_row(b) == decode_values(b, bm, n, 0, start),
            decode_values(b, bm, n, 0, start) == match decode_values(b, bm, n, i as nat, pos as int) {
                Ok(rest) => Ok(values_view(values@) + rest),
                Err(e) => Err(e),
            },
        decreases num_values - i,
    {
        let ghost vv = values_view(values@);
        let is_null = bitmap[i / 8] & (1u8 << ((i % 8) as u8)) != 0;
        assert(is_null == bit_set(bm, i as int)) by {
            let x = bm[(i / 8) as int];
            let t = (i % 8) as u8;
            assert(t < 8);
            assert((x & (1u8 << t) != 0) == ((x >> t) & 1u8 == 1u8)) by (bit_vector)
                requires
                    t < 8,
            ;
        }
        if is_null {
            values.push(Value::Null);
            i = i + 1;
            assert(values_view(values@) =~= vv.push(ValueV::Null));
            assert(forall|rest: Seq<ValueV>| vv + (seq![ValueV::Null] + rest) =~= vv.push(ValueV::Null) + rest);
            continue;
        }
        let ghost p0 = pos as int;
        let tag = take(bytes, &mut pos, 1)?[0];
        let v: Value;
        if tag == TAG_INTEGER {
            let raw = take(bytes, &mut pos, 8)?;
            let x = read_u64(raw, 0);
            assert(be64_at(raw@, 0) == be64_at(b, p0 + 1)) by {
                assert(raw@.subrange(0, 8) =~= b.subrange(p0 + 1, p0 + 9));
                lemma_be_at_window(raw@, b, 0, p0 + 1, 8);
            }
            v = Value::Integer(x as i64);
        } else if tag == TAG_VARCHAR {
            let raw_len = take(bytes, &mut pos, 4)?;
            let len = read_u32(raw_len, 0) as usize;
            assert(be32_at(raw_len@, 0) == be32_at(b, p0 + 1)) by {
                assert(raw_len@.subrange(0, 4) =~= b.subrange(p0 + 1, p0 + 5));
                lemma_be_at_window(raw_len@, b, 0, p0 + 1, 4);
            }
            let raw_start = pos;
            let raw = take(bytes, &mut pos, len)?;
            match utf8_to_string(raw) {
                Ok(s) => {
                    v = Value::Varchar(s);
                },
                Err(detail) => {
                    return Err(
                        row_fault_error(
                            bytes,
                            RowFault::InvalidUtf8(raw_start, pos),
                            detail.as_str(),
                        ),
                    );
                },
            }
        } else if tag == TAG_BOOLEAN {
            let raw = take(bytes, &mut pos, 1)?[0];
            v = Value::Boolean(raw != 0);
        } else {
            return Err(row_fault_error(bytes, RowFault::UnknownTag(tag), ""));
        }
        let ghost vg = v@;
        values.push(v);
        i = i + 1;
        assert(values_view(values@) =~= vv.push(vg));
        assert(forall|rest: Seq<ValueV>| vv + (seq![vg] + rest) =~= vv.push(vg) + rest);
    }
    assert(values_view(values@) + Seq::<ValueV>::empty() =~= values_view(values@));
    Ok(values)
}

/// The payload of a row starts with the payload of its first value.
pub proof fn lemma_payload_first(vs: Seq<ValueV>)
    requires
        vs.len() > 0,
    ensures
        payload_bytes(vs) == value_bytes(vs[0]) + payload_bytes(vs.drop_first()),
    decreases vs.len(),
{
    if vs.len() == 1 {
        assert(vs.drop_last() =~= Seq::<ValueV>::empty());
        assert(vs.drop_first() =~= Seq::<ValueV>::empty());
        assert(payload_bytes(vs) =~= value_bytes(vs[0]) + payload_bytes(vs.drop_first()));
    } else {
        lemma_payload_first(vs.drop_last());
        assert(vs.drop_last().drop_first() =~= vs.drop_first().drop_last());
        assert(vs.drop_first().last() == vs.last());
        assert(payload_bytes(vs) =~= value_bytes(vs[0]) + payload_bytes(vs.drop_first()));
    }
}

/// Reinterpreting an `i64` as a `u64` and back gives the `i64`.
proof fn lemma_i64_u64_roundtrip(n: i64)
    ensures
        ((n as u64) as i64) == n,
{
    assert(((n as u64) as i64) == n) by (bit_vector);
}

/// Decoding the values `i..` from a buffer that holds their payloads at `pos` gives them back.
#[verifier::rlimit(50)]
proof fn lemma_decode_values(b: Seq<u8>, bm: Seq<u8>, vs: Seq<ValueV>, i: nat, pos: int)
    requires
        is_null_bitmap(bm, vs),
        i <= vs.len(),
        0 <= pos,
        b.len() <= u32::MAX,
        pos + payload_bytes(vs.subrange(i as int, vs.len() as int)).len() <= b.len(),
        b.subrange(pos, pos + payload_bytes(vs.subrange(i as int, vs.len() as int)).len())
            == payload_bytes(vs.subrange(i as int, vs.len() as int)),
    ensures
        decode_values(b, bm, vs.len(), i, pos) == Ok::<Seq<ValueV>, RowFault>(
            vs.subrange(i as int, vs.len() as int),
        ),
    decreases vs.len() - i,
{
    let n = vs.len();
    if i < n {
        let t = vs.subrange(i as int, n as int);
        let rest = vs.subrange(i as int + 1, n as int);
        assert(t.drop_first() =~= rest);
        lemma_payload_first(t);
        let vb = value_bytes(vs[i as int]);
        let pr = payload_bytes(rest);
        let whole = b.subrange(pos, pos + (vb + pr).len());
        assert(whole == vb + pr);
        assert(b.subrange(pos, pos + vb.len()) =~= whole.subrange(0, vb.len() as int));
        assert((vb + pr).subrange(0, vb.len() as int) =~= vb);
        assert(b.subrange(pos + vb.len(), pos + vb.len() + pr.len()) =~= whole.subrange(
            vb.len() as int,
            (vb + pr).len() as int,
        ));
        assert((vb + pr).subrange(vb.len() as int, (vb + pr).len() as int) =~= pr);
        assert(8 * bm.len() >= n);
        assert(bit_set(bm, i as int) == (vs[i as int] is Null));
        lemma_decode_values(b, bm, vs, i + 1, pos + vb.len());
        assert(seq![vs[i as int]] + rest =~= t);
        let head = b.subrange(pos, pos + vb.len());
        match vs[i as int] {
            ValueV::Null => {},
            ValueV::Integer(x) => {
                assert(head[0] == b[pos]);
                lemma_be64_roundtrip(x as u64);
                assert(b.subrange(pos + 1, pos + 9) =~= head.subrange(1, 9));
                assert(vb.subrange(1, 9) =~= be64_bytes(x as u64));
                assert(be64_bytes(x as u64).subrange(0, 8) =~= be64_bytes(x as u64));
                lemma_be_at_window(b, be64_bytes(x as u64), pos + 1, 0, 8);
                lemma_i64_u64_roundtrip(x);
            },
            ValueV::Varchar(c) => {
                let e = encode_utf8(c);
                assert(head[0] == b[pos]);
                lemma_be32_roundtrip(e.len() as u32);
                assert(b.subrange(pos + 1, pos + 5) =~= head.subrange(1, 5));
                assert(vb.subrange(1, 5) =~= be32_bytes(e.len() as u32));
                assert(be32_bytes(e.len() as u32).subrange(0, 4) =~= be32_bytes(e.len() as u32));
                assert(b.subrange(pos + 5, pos + 5 + e.len()) =~= head.subrange(5, 5 + e.len() as int));
                assert(vb.subrange(5, 5 + e.len() as int) =~= e);
                lemma_be_at_window(b, be32_bytes(e.len() as u32), pos + 1, 0, 4);
                assert(b.subrange(pos + 5, pos + 5 + e.len()) =~= e);
                encode_utf8_valid_utf8(c);
                encode_utf8_decode_utf8(c);
            },
            ValueV::Boolean(x) => {
                assert(head[0] == b[pos]);
                assert(head[1] == b[pos + 1]);
            },
        }
    } else {
        assert(vs.subrange(i as int, n as int) =~= Seq::<ValueV>::empty());
    }
}

/// Decoding a serialized row gives back its values, when the row has fewer than
/// 65536 values and its encoding is shorter than 4 GiB.
pub proof fn lemma_row_roundtrip(b: Seq<u8>, vs: Seq<ValueV>)
    requires
        is_row_encoding(b, vs),
        vs.len() <= u16::MAX,
        b.len() <= u32::MAX,
    ensures
        decode_row(b) == Ok::<Seq<ValueV>, RowFault>(vs),
{
    let bl = bitmap_len(vs.len()) as int;
    lemma_be32_roundtrip(b.len() as u32);
    assert(be32_bytes(b.len() as u32).subrange(0, 4) =~= be32_bytes(b.len() as u32));
    lemma_be_at_window(b, be32_bytes(b.len() as u32), 0, 0, 4);
    lemma_be16_roundtrip(vs.len() as u16);
    assert(be16_bytes(vs.len() as u16).subrange(0, 2) =~= be16_bytes(vs.len() as u16));
    lemma_be_at_window(b, be16_bytes(vs.len() as u16), 4, 0, 2);
    assert(vs.subrange(0, vs.len() as int) =~= vs);
    lemma_decode_values(b, b.subrange(6, 6 + bl), vs, 0, 6 + bl);
}

} // verus!
