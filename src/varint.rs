//! Variable-width unsigned integers.
//!
//! A value is written as one tag byte followed by the value in little-endian
//! order. The tag byte holds a two-bit width class in its low bits (its upper
//! bits are zero) and the class fixes the number of value bytes:
//!
//! | tag | value bytes | values          |
//! |-----|-------------|-----------------|
//! | 0   | 0           | 0               |
//! | 1   | 1           | below 2^8       |
//! | 2   | 4           | below 2^32      |
//! | 3   | 8           | below 2^64      |
//!
//! The encoder always picks the narrowest class that holds the value.
use vstd::prelude::*;

use crate::error::FormatError;

verus! {

/// Largest tag value.
pub const MAX_TAG: u8 = 3;

/// `256^n`.
pub open spec fn pow256(n: nat) -> nat
    decreases n,
{
    if n == 0 {
        1
    } else {
        256 * pow256((n - 1) as nat)
    }
}

/// Whether `tag` names a width class.
pub open spec fn is_tag(tag: u8) -> bool {
    tag <= MAX_TAG
}

/// Number of value bytes of the width class `tag`.
pub open spec fn width_of(tag: u8) -> nat {
    if tag == 0 {
        0
    } else if tag == 1 {
        1
    } else if tag == 2 {
        4
    } else {
        8
    }
}

/// The narrowest width class that holds `v`.
pub open spec fn tag_for(v: u64) -> u8 {
    if v == 0 {
        0
    } else if v < 0x100 {
        1
    } else if v < 0x1_0000_0000 {
        2
    } else {
        3
    }
}

/// The number that the bytes `s` spell in little-endian order.
pub open spec fn le_value(s: Seq<u8>) -> nat
    decreases s.len(),
{
    if s.len() == 0 {
        0
    } else {
        s[0] as nat + 256 * le_value(s.drop_first())
    }
}

/// The `n` low bytes of `v`, least significant first.
pub open spec fn le_bytes(v: nat, n: nat) -> Seq<u8>
    decreases n,
{
    if n == 0 {
        Seq::empty()
    } else {
        seq![(v % 256) as u8] + le_bytes(v / 256, (n - 1) as nat)
    }
}

/// The tag and value bytes that encode `v`.
pub open spec fn encode_spec(v: u64) -> (u8, Seq<u8>) {
    (tag_for(v), le_bytes(v as nat, width_of(tag_for(v))))
}

/// The value that a tag and its value bytes stand for.
pub open spec fn decode_spec(tag: u8, bytes: Seq<u8>) -> Result<u64, FormatError> {
    if !is_tag(tag) {
        Err(FormatError::InvalidTag)
    } else if bytes.len() != width_of(tag) {
        Err(FormatError::WidthMismatch)
    } else {
        Ok(le_value(bytes) as u64)
    }
}

/// `v` as it stands in a buffer: its tag byte, then its value bytes.
pub open spec fn varint_bytes(v: u64) -> Seq<u8> {
    seq![encode_spec(v).0] + encode_spec(v).1
}

/// Reads a value that starts at offset `p` of `s`: the value and the offset
/// just past it.
pub open spec fn parse_varint(s: Seq<u8>, p: int) -> Result<(u64, int), FormatError> {
    if p < 0 || p >= s.len() {
        Err(FormatError::Truncated)
    } else if !is_tag(s[p]) {
        Err(FormatError::InvalidTag)
    } else if p + 1 + width_of(s[p]) > s.len() {
        Err(FormatError::Truncated)
    } else {
        let end = p + 1 + width_of(s[p]);
        Ok((le_value(s.subrange(p + 1, end)) as u64, end))
    }
}

proof fn lemma_pow256_values()
    ensures
        pow256(0) == 1,
        pow256(1) == 0x100,
        pow256(4) == 0x1_0000_0000,
        pow256(8) == 0x1_0000_0000_0000_0000,
{
    reveal_with_fuel(pow256, 9);
}

proof fn lemma_pow256_monotonic(a: nat, b: nat)
    requires
        a <= b,
    ensures
        pow256(a) <= pow256(b),
    decreases b,
{
    if a < b {
        lemma_pow256_monotonic(a, (b - 1) as nat);
    }
}

proof fn lemma_le_value_bound(s: Seq<u8>)
    ensures
        le_value(s) < pow256(s.len()),
    decreases s.len(),
{
    if s.len() > 0 {
        lemma_le_value_bound(s.drop_first());
    }
}

proof fn lemma_le_bytes_round_trip(v: nat, n: nat)
    requires
        v < pow256(n),
    ensures
        le_bytes(v, n).len() == n,
        le_value(le_bytes(v, n)) == v,
    decreases n,
{
    if n > 0 {
        lemma_le_bytes_round_trip(v / 256, (n - 1) as nat);
        let s = le_bytes(v, n);
        assert(s.drop_first() =~= le_bytes(v / 256, (n - 1) as nat));
    }
}

/// The narrowest class holds `v`, and no narrower class does.
proof fn lemma_tag_for_fits(v: u64)
    ensures
        is_tag(tag_for(v)),
        v < pow256(width_of(tag_for(v))),
        forall|t: u8| t < tag_for(v) ==> v >= pow256(width_of(t)),
{
    lemma_pow256_values();
}

/// Decoding what encoding gives returns the value that was encoded.
pub proof fn lemma_varint_round_trip(v: u64)
    ensures
        decode_spec(encode_spec(v).0, encode_spec(v).1) == Ok::<u64, FormatError>(v),
{
    lemma_tag_for_fits(v);
    lemma_le_bytes_round_trip(v as nat, width_of(tag_for(v)));
}

/// A stored value is its tag byte followed by as many bytes as the tag declares.
pub proof fn lemma_varint_bytes_shape(v: u64)
    ensures
        is_tag(tag_for(v)),
        varint_bytes(v).len() == 1 + width_of(tag_for(v)),
        varint_bytes(v)[0] == tag_for(v),
{
    lemma_tag_for_fits(v);
    lemma_le_bytes_round_trip(v as nat, width_of(tag_for(v)));
}

/// A value written at offset `p` of a buffer reads back from there.
pub proof fn lemma_parse_varint_at(s: Seq<u8>, p: int, v: u64)
    requires
        0 <= p,
        p + varint_bytes(v).len() <= s.len(),
        s.subrange(p, p + varint_bytes(v).len()) == varint_bytes(v),
    ensures
        parse_varint(s, p) == Ok::<(u64, int), FormatError>((v, p + varint_bytes(v).len())),
{
    lemma_varint_round_trip(v);
    lemma_tag_for_fits(v);
    lemma_le_bytes_round_trip(v as nat, width_of(tag_for(v)));
    let enc = varint_bytes(v);
    assert(s[p] == enc[0]);
    assert(s.subrange(p + 1, p + enc.len()) =~= enc.drop_first());
    assert(enc.drop_first() =~= encode_spec(v).1);
}

fn width(tag: u8) -> (w: usize)
    requires
        is_tag(tag),
    ensures
        w == width_of(tag),
{
    if tag == 0 {
        0
    } else if tag == 1 {
        1
    } else if tag == 2 {
        4
    } else {
        8
    }
}

/// Appends the `n` low bytes of `v` to `out`, least significant first.
fn push_le(out: &mut Vec<u8>, v: u64, n: usize)
    ensures
        final(out)@ == old(out)@ + le_bytes(v as nat, n as nat),
{
    let mut x: u64 = v;
    let mut i: usize = 0;
    while i < n
        invariant
            i <= n,
            out@ + le_bytes(x as nat, (n - i) as nat) == old(out)@ + le_bytes(v as nat, n as nat),
        decreases n - i,
    {
        let ghost before = out@;
        let ghost rest = le_bytes((x / 256) as nat, (n - i - 1) as nat);
        assert(le_bytes(x as nat, (n - i) as nat) == seq![(x % 256) as u8] + rest);
        out.push((x % 256) as u8);
        assert(out@ + rest =~= before + (seq![(x % 256) as u8] + rest));
        x = x / 256;
        i = i + 1;
    }
    assert(out@ =~= out@ + le_bytes(x as nat, 0));
}

/// The number spelled by the `n` bytes of `s` that start at `start`.
fn read_le(s: &[u8], start: usize, n: usize) -> (r: u64)
    requires
        start + n <= s@.len(),
        n <= 8,
    ensures
        r == le_value(s@.subrange(start as int, start + n)),
{
    let ghost end = start + n;
    let mut acc: u64 = 0;
    let mut i: usize = n;
    proof {
        assert(s@.subrange(start + n, end) =~= Seq::<u8>::empty());
    }
    while i > 0
        invariant
            i <= n <= 8,
            start + n <= s.len(),
            end == start + n,
            acc == le_value(s@.subrange(start + i, end)),
        decreases i,
    {
        let ghost tail = s@.subrange(start + i, end);
        i = i - 1;
        let ghost cur = s@.subrange(start + i, end);
        proof {
            assert(cur.drop_first() =~= tail);
            lemma_le_value_bound(tail);
            lemma_pow256_monotonic(tail.len(), 7);
            lemma_pow256_values();
            reveal_with_fuel(pow256, 9);
        }
        acc = acc * 256 + s[start + i] as u64;
    }
    acc
}

/// The narrowest width class that holds `v`.
fn tag_of(v: u64) -> (t: u8)
    ensures
        t == tag_for(v),
{
    if v == 0 {
        0
    } else if v < 0x100 {
        1
    } else if v < 0x1_0000_0000 {
        2
    } else {
        3
    }
}

/// Encodes `v` as a width tag and the value bytes that the tag declares.
pub fn encode_varint(v: u64) -> (r: (u8, Vec<u8>))
    ensures
        (r.0, r.1@) == encode_spec(v),
        is_tag(r.0),
        r.1@.len() == width_of(r.0),
        le_value(r.1@) == v,
        forall|t: u8| t < r.0 ==> v >= pow256(width_of(t)),
{
    proof {
        lemma_tag_for_fits(v);
        lemma_le_bytes_round_trip(v as nat, width_of(tag_for(v)));
    }
    let tag = tag_of(v);
    let mut bytes: Vec<u8> = Vec::new();
    push_le(&mut bytes, v, width(tag));
    assert(bytes@ =~= le_bytes(v as nat, width_of(tag)));
    (tag, bytes)
}

/// Decodes a width tag and its value bytes.
pub fn decode_varint(tag: u8, bytes: &[u8]) -> (r: Result<u64, FormatError>)
    ensures
        r == decode_spec(tag, bytes@),
{
    if tag > MAX_TAG {
        return Err(FormatError::InvalidTag);
    }
    if bytes.len() != width(tag) {
        return Err(FormatError::WidthMismatch);
    }
    let v = read_le(bytes, 0, bytes.len());
    assert(bytes@.subrange(0, bytes@.len() as int) =~= bytes@);
    Ok(v)
}

/// Appends `v`, tag byte first, to `out`.
pub fn write_varint(out: &mut Vec<u8>, v: u64)
    ensures
        final(out)@ == old(out)@ + varint_bytes(v),
{
    let tag = tag_of(v);
    proof {
        lemma_tag_for_fits(v);
    }
    let ghost start = out@;
    out.push(tag);
    push_le(out, v, width(tag));
    assert(out@ =~= start + varint_bytes(v));
}

/// Reads the value that starts at offset `p` of `s`, with the offset just past it.
pub fn read_varint(s: &[u8], p: usize) -> (r: Result<(u64, usize), FormatError>)
    ensures
        match r {
            Ok((v, q)) => parse_varint(s@, p as int) == Ok::<(u64, int), FormatError>((v, q as int)),
            Err(e) => parse_varint(s@, p as int) == Err::<(u64, int), FormatError>(e),
        },
{
    if p >= s.len() {
        return Err(FormatError::Truncated);
    }
    let tag = s[p];
    if tag > MAX_TAG {
        return Err(FormatError::InvalidTag);
    }
    let w = width(tag);
    if w > s.len() - p - 1 {
        return Err(FormatError::Truncated);
    }
    let v = read_le(s, p + 1, w);
    proof {
        lemma_le_value_bound(s@.subrange(p + 1, p + 1 + w));
        lemma_pow256_monotonic(w as nat, 8);
        lemma_pow256_values();
    }
    Ok((v, p + 1 + w))
}

} // verus!
