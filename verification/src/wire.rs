//! The wire form of the tag format: big-endian integers, length-prefixed
//! text, and the byte-level meaning of every tag value.  This module
//! defines the encoding and decoding of byte sequences as specification
//! functions, the executable conversion helpers, and the round-trip laws.

use vstd::prelude::*;

use crate::nbt_tag::NbtTagError;
use crate::nbt_tag::NbtTagType;
use crate::nbt_tag::TagV;
use crate::nbt_tag::CompoundV;
use crate::nbt_tag::spec_type_id;
use crate::nbt_tag::spec_type_from_id;
use crate::nbt_tag::tag_kind;
use crate::nbt_tag::tag_name;
use crate::nbt_tag::upsert_entry;

verus! {

// ---------------------------------------------------------------------
// Two's-complement readings of the fixed-width integers.
// ---------------------------------------------------------------------

pub open spec fn u8_of_i8(x: i8) -> u8 {
    if x >= 0 {
        x as u8
    } else {
        (x + 0x100) as u8
    }
}

pub open spec fn i8_of_u8(x: u8) -> i8 {
    if x < 0x80 {
        x as i8
    } else {
        (x - 0x100) as i8
    }
}

pub open spec fn u16_of_i16(x: i16) -> u16 {
    if x >= 0 {
        x as u16
    } else {
        (x + 0x10000) as u16
    }
}

pub open spec fn i16_of_u16(x: u16) -> i16 {
    if x < 0x8000 {
        x as i16
    } else {
        (x - 0x10000) as i16
    }
}

pub open spec fn u32_of_i32(x: i32) -> u32 {
    if x >= 0 {
        x as u32
    } else {
        (x + 0x100000000) as u32
    }
}

pub open spec fn i32_of_u32(x: u32) -> i32 {
    if x < 0x80000000 {
        x as i32
    } else {
        (x - 0x100000000) as i32
    }
}

pub open spec fn u64_of_i64(x: i64) -> u64 {
    if x >= 0 {
        x as u64
    } else {
        (x + 0x10000000000000000) as u64
    }
}

pub open spec fn i64_of_u64(x: u64) -> i64 {
    if x < 0x8000000000000000 {
        x as i64
    } else {
        (x - 0x10000000000000000) as i64
    }
}

// ---------------------------------------------------------------------
// Big-endian byte strings of the unsigned integers.
// ---------------------------------------------------------------------

/// The value of two big-endian bytes.
pub open spec fn be16_val(b0: u8, b1: u8) -> u16 {
    (b0 * 0x100 + b1) as u16
}

/// The value of four big-endian bytes.
pub open spec fn be32_val(b0: u8, b1: u8, b2: u8, b3: u8) -> u32 {
    (b0 * 0x1000000 + b1 * 0x10000 + b2 * 0x100 + b3) as u32
}

/// The value of eight big-endian bytes.
pub open spec fn be64_val(b0: u8, b1: u8, b2: u8, b3: u8, b4: u8, b5: u8, b6: u8, b7: u8) -> u64 {
    (b0 * 0x100000000000000 + b1 * 0x1000000000000 + b2 * 0x10000000000 + b3 * 0x100000000 + b4
        * 0x1000000 + b5 * 0x10000 + b6 * 0x100 + b7) as u64
}

/// The two big-endian bytes of a 16-bit value.
pub open spec fn be16_bytes(v: u16) -> Seq<u8> {
    seq![(v / 0x100) as u8, (v % 0x100) as u8]
}

/// The four big-endian bytes of a 32-bit value.
pub open spec fn be32_bytes(v: u32) -> Seq<u8> {
    seq![
        (v / 0x1000000) as u8,
        ((v / 0x10000) % 0x100) as u8,
        ((v / 0x100) % 0x100) as u8,
        (v % 0x100) as u8,
    ]
}

/// The eight big-endian bytes of a 64-bit value.
pub open spec fn be64_bytes(v: u64) -> Seq<u8> {
    seq![
        (v / 0x100000000000000) as u8,
        ((v / 0x1000000000000) % 0x100) as u8,
        ((v / 0x10000000000) % 0x100) as u8,
        ((v / 0x100000000) % 0x100) as u8,
        ((v / 0x1000000) % 0x100) as u8,
        ((v / 0x10000) % 0x100) as u8,
        ((v / 0x100) % 0x100) as u8,
        (v % 0x100) as u8,
    ]
}

/// Reading back the bytes of a 16-bit value gives the value.
pub proof fn lemma_be16_round_trip(v: u16)
    ensures
        be16_val(be16_bytes(v)[0], be16_bytes(v)[1]) == v,
{
}

/// The bytes of the value of two bytes are those two bytes.
pub proof fn lemma_be16_bytes_of_val(b0: u8, b1: u8)
    ensures
        be16_bytes(be16_val(b0, b1)) == seq![b0, b1],
{
    assert(be16_bytes(be16_val(b0, b1)) =~= seq![b0, b1]);
}

/// Reading back the bytes of a 32-bit value gives the value.
pub proof fn lemma_be32_round_trip(v: u32)
    ensures
        be32_val(be32_bytes(v)[0], be32_bytes(v)[1], be32_bytes(v)[2], be32_bytes(v)[3]) == v,
{
}

/// The bytes of the value of four bytes are those four bytes.
pub proof fn lemma_be32_bytes_of_val(b0: u8, b1: u8, b2: u8, b3: u8)
    ensures
        be32_bytes(be32_val(b0, b1, b2, b3)) == seq![b0, b1, b2, b3],
{
    let v = be32_val(b0, b1, b2, b3);
    assert(v / 0x1000000 == b0 as u32 && (v / 0x10000) % 0x100 == b1 as u32 && (v / 0x100) % 0x100
        == b2 as u32 && v % 0x100 == b3 as u32) by (bit_vector)
        requires
            v == b0 as u32 * 0x1000000 + b1 as u32 * 0x10000 + b2 as u32 * 0x100 + b3 as u32,
    ;
    assert(be32_bytes(v) =~= seq![b0, b1, b2, b3]);
}

/// Reading back the bytes of a 64-bit value gives the value.
pub proof fn lemma_be64_round_trip(v: u64)
    ensures
        be64_val(
            be64_bytes(v)[0],
            be64_bytes(v)[1],
            be64_bytes(v)[2],
            be64_bytes(v)[3],
            be64_bytes(v)[4],
            be64_bytes(v)[5],
            be64_bytes(v)[6],
            be64_bytes(v)[7],
        ) == v,
{
    assert((v / 0x100000000000000) * 0x100000000000000 + ((v / 0x1000000000000) % 0x100)
        * 0x1000000000000 + ((v / 0x10000000000) % 0x100) * 0x10000000000 + ((v / 0x100000000)
        % 0x100) * 0x100000000 + ((v / 0x1000000) % 0x100) * 0x1000000 + ((v / 0x10000) % 0x100)
        * 0x10000 + ((v / 0x100) % 0x100) * 0x100 + v % 0x100 == v && v / 0x100000000000000
        < 0x100) by (bit_vector);
}

/// The bytes of the value of eight bytes are those eight bytes.
pub proof fn lemma_be64_bytes_of_val(b0: u8, b1: u8, b2: u8, b3: u8, b4: u8, b5: u8, b6: u8, b7: u8)
    ensures
        be64_bytes(be64_val(b0, b1, b2, b3, b4, b5, b6, b7)) == seq![b0, b1, b2, b3, b4, b5, b6, b7],
{
    let v = be64_val(b0, b1, b2, b3, b4, b5, b6, b7);
    assert(v / 0x100000000000000 == b0 as u64 && (v / 0x1000000000000) % 0x100 == b1 as u64 && (v
        / 0x10000000000) % 0x100 == b2 as u64 && (v / 0x100000000) % 0x100 == b3 as u64 && (v
        / 0x1000000) % 0x100 == b4 as u64 && (v / 0x10000) % 0x100 == b5 as u64 && (v / 0x100)
        % 0x100 == b6 as u64 && v % 0x100 == b7 as u64) by (bit_vector)
        requires
            v == b0 as u64 * 0x100000000000000 + b1 as u64 * 0x1000000000000 + b2 as u64
                * 0x10000000000 + b3 as u64 * 0x100000000 + b4 as u64 * 0x1000000 + b5 as u64
                * 0x10000 + b6 as u64 * 0x100 + b7 as u64,
    ;
    assert(be64_bytes(v) =~= seq![b0, b1, b2, b3, b4, b5, b6, b7]);
}

// ---------------------------------------------------------------------
// Text: one byte per character, preserved verbatim.
// ---------------------------------------------------------------------

/// The character whose code is the given byte.  Text on the wire is a
/// plain byte sequence; each byte is surfaced as the character of the
/// same code, so that no input is ever rejected and equality of names
/// holds exactly when the bytes agree.
pub open spec fn char_of_byte(b: u8) -> char {
    b as char
}

/// The code of a character, reduced to a byte.
pub open spec fn byte_of_char(c: char) -> u8 {
    ((c as u32) % 0x100) as u8
}

/// A character whose code fits in one byte.
pub open spec fn low_char(c: char) -> bool {
    (c as u32) < 0x100
}

/// Text that the wire can carry: at most 65 535 one-byte characters.
pub open spec fn wf_text(s: Seq<char>) -> bool {
    s.len() <= 0xffff && forall|i: int| 0 <= i < s.len() ==> low_char(#[trigger] s[i])
}

/// The bytes of a character sequence.
pub open spec fn bytes_of_chars(s: Seq<char>) -> Seq<u8> {
    Seq::new(s.len(), |i: int| byte_of_char(s[i]))
}

// ---------------------------------------------------------------------
// Executable conversions, verified against the readings above.
// ---------------------------------------------------------------------

pub fn i8_from_u8(x: u8) -> (r: i8)
    ensures
        r == i8_of_u8(x),
{
    if x < 0x80 {
        x as i8
    } else {
        ((x as i16) - 0x100) as i8
    }
}

pub fn u8_from_i8(x: i8) -> (r: u8)
    ensures
        r == u8_of_i8(x),
{
    if x >= 0 {
        x as u8
    } else {
        ((x as i16) + 0x100) as u8
    }
}

pub fn i16_from_u16(x: u16) -> (r: i16)
    ensures
        r == i16_of_u16(x),
{
    if x < 0x8000 {
        x as i16
    } else {
        ((x as i32) - 0x10000) as i16
    }
}

pub fn u16_from_i16(x: i16) -> (r: u16)
    ensures
        r == u16_of_i16(x),
{
    if x >= 0 {
        x as u16
    } else {
        ((x as i32) + 0x10000) as u16
    }
}

pub fn i32_from_u32(x: u32) -> (r: i32)
    ensures
        r == i32_of_u32(x),
{
    if x < 0x80000000 {
        x as i32
    } else {
        ((x as i64) - 0x100000000) as i32
    }
}

pub fn u32_from_i32(x: i32) -> (r: u32)
    ensures
        r == u32_of_i32(x),
{
    if x >= 0 {
        x as u32
    } else {
        ((x as i64) + 0x100000000) as u32
    }
}

pub fn i64_from_u64(x: u64) -> (r: i64)
    ensures
        r == i64_of_u64(x),
{
    if x < 0x8000000000000000 {
        x as i64
    } else {
        ((x as i128) - 0x10000000000000000) as i64
    }
}

pub fn u64_from_i64(x: i64) -> (r: u64)
    ensures
        r == u64_of_i64(x),
{
    if x >= 0 {
        x as u64
    } else {
        ((x as i128) + 0x10000000000000000) as u64
    }
}

/// Reads one byte.
pub fn read_u8(b: &[u8], i: usize) -> (r: u8)
    requires
        i < b@.len(),
    ensures
        r == b@[i as int],
{
    b[i]
}

/// Reads a big-endian 16-bit value.
pub fn read_u16_be(b: &[u8], i: usize) -> (r: u16)
    requires
        i + 2 <= b@.len(),
    ensures
        r == be16_val(b@[i as int], b@[i as int + 1]),
{
    (b[i] as u16) * 0x100 + (b[i + 1] as u16)
}

/// Reads a big-endian 32-bit value.
pub fn read_u32_be(b: &[u8], i: usize) -> (r: u32)
    requires
        i + 4 <= b@.len(),
    ensures
        r == be32_val(b@[i as int], b@[i as int + 1], b@[i as int + 2], b@[i as int + 3]),
{
    (b[i] as u32) * 0x1000000 + (b[i + 1] as u32) * 0x10000 + (b[i + 2] as u32) * 0x100 + (b[i
        + 3] as u32)
}

/// Reads a big-endian 64-bit value.
pub fn read_u64_be(b: &[u8], i: usize) -> (r: u64)
    requires
        i + 8 <= b@.len(),
    ensures
        r == be64_val(
            b@[i as int],
            b@[i as int + 1],
            b@[i as int + 2],
            b@[i as int + 3],
            b@[i as int + 4],
            b@[i as int + 5],
            b@[i as int + 6],
            b@[i as int + 7],
        ),
{
    (b[i] as u64) * 0x100000000000000 + (b[i + 1] as u64) * 0x1000000000000 + (b[i + 2] as u64)
        * 0x10000000000 + (b[i + 3] as u64) * 0x100000000 + (b[i + 4] as u64) * 0x1000000 + (b[i
        + 5] as u64) * 0x10000 + (b[i + 6] as u64) * 0x100 + (b[i + 7] as u64)
}

/// Appends a big-endian 16-bit value.
pub fn push_u16_be(buf: &mut Vec<u8>, v: u16)
    ensures
        final(buf)@ == old(buf)@ + be16_bytes(v),
{
    buf.push((v / 0x100) as u8);
    buf.push((v % 0x100) as u8);
    proof {
        assert(buf@ =~= old(buf)@ + be16_bytes(v));
    }
}

/// Appends a big-endian 32-bit value.
pub fn push_u32_be(buf: &mut Vec<u8>, v: u32)
    ensures
        final(buf)@ == old(buf)@ + be32_bytes(v),
{
    buf.push((v / 0x1000000) as u8);
    buf.push(((v / 0x10000) % 0x100) as u8);
    buf.push(((v / 0x100) % 0x100) as u8);
    buf.push((v % 0x100) as u8);
    proof {
        assert(buf@ =~= old(buf)@ + be32_bytes(v));
    }
}

/// Appends a big-endian 64-bit value.
pub fn push_u64_be(buf: &mut Vec<u8>, v: u64)
    ensures
        final(buf)@ == old(buf)@ + be64_bytes(v),
{
    buf.push((v / 0x100000000000000) as u8);
    buf.push(((v / 0x1000000000000) % 0x100) as u8);
    buf.push(((v / 0x10000000000) % 0x100) as u8);
    buf.push(((v / 0x100000000) % 0x100) as u8);
    buf.push(((v / 0x1000000) % 0x100) as u8);
    buf.push(((v / 0x10000) % 0x100) as u8);
    buf.push(((v / 0x100) % 0x100) as u8);
    buf.push((v % 0x100) as u8);
    proof {
        assert(buf@ =~= old(buf)@ + be64_bytes(v));
    }
}

/// The character whose code is the given byte.
pub fn char_from_byte(b: u8) -> (c: char)
    ensures
        c == char_of_byte(b),
{
    b as char
}

/// The byte behind a one-byte character.
pub fn byte_from_char(c: char) -> (r: u8)
    requires
        low_char(c),
    ensures
        r == byte_of_char(c),
{
    (c as u32) as u8
}

// ---------------------------------------------------------------------
// Well-formed tag values: those the wire can carry.
// ---------------------------------------------------------------------

/// No two entries share a name.
pub open spec fn distinct_names(es: Seq<TagV>) -> bool {
    forall|i: int, j: int|
        0 <= i < j < es.len() ==> tag_name(#[trigger] es[i]) != tag_name(#[trigger] es[j])
}

/// A value the encoder can write and the decoder reads back: text fits
/// its length prefix, lengths respect the guard, list elements are
/// unnamed and of the declared kind, compound entries bear distinct
/// names.  The `End` sentinel is no value.
pub open spec fn wf_value(t: TagV) -> bool
    decreases t, 0int,
{
    match t {
        TagV::End => false,
        TagV::Byte { name, .. } => wf_text(name),
        TagV::Short { name, .. } => wf_text(name),
        TagV::Int { name, .. } => wf_text(name),
        TagV::Long { name, .. } => wf_text(name),
        TagV::Float { name, .. } => wf_text(name),
        TagV::Double { name, .. } => wf_text(name),
        TagV::ByteArray { name, vs } => wf_text(name) && vs.len() <= 65536,
        TagV::Str { name, v } => wf_text(name) && wf_text(v),
        TagV::List { name, ty, vs } => wf_text(name) && vs.len() <= 65536 && (ty == NbtTagType::End
            ==> vs.len() == 0) && wf_elems(vs, ty),
        TagV::Compound { name, entries } => wf_text(name) && wf_entries(entries) && distinct_names(
            entries,
        ),
        TagV::IntArray { name, vs } => wf_text(name) && vs.len() <= 65536,
        TagV::LongArray { name, vs } => wf_text(name) && vs.len() <= 65536,
    }
}

/// Every entry of a compound is a well-formed value.
pub open spec fn wf_entries(es: Seq<TagV>) -> bool
    decreases es, 1int,
{
    if es.len() == 0 {
        true
    } else {
        wf_value(es[0]) && wf_entries(es.skip(1))
    }
}

/// Every element of a list is well formed, unnamed, and of kind `ty`.
pub open spec fn wf_elems(es: Seq<TagV>, ty: NbtTagType) -> bool
    decreases es, 1int,
{
    if es.len() == 0 {
        true
    } else {
        wf_value(es[0]) && tag_kind(es[0]) == ty && tag_name(es[0]) == Seq::<char>::empty()
            && wf_elems(es.skip(1), ty)
    }
}

/// A well-formed root document.
pub open spec fn wf_compound(c: CompoundV) -> bool {
    wf_text(c.name) && wf_entries(c.entries) && distinct_names(c.entries)
}

/// Pointwise reading of `wf_entries`.
pub proof fn lemma_wf_entries_index(es: Seq<TagV>)
    ensures
        wf_entries(es) <==> (forall|i: int| 0 <= i < es.len() ==> wf_value(#[trigger] es[i])),
    decreases es.len(),
{
    if es.len() > 0 {
        lemma_wf_entries_index(es.skip(1));
        assert(forall|i: int| 0 <= i < es.skip(1).len() ==> es.skip(1)[i] == es[i + 1]);
        if wf_value(es[0]) && (forall|i: int|
            0 <= i < es.skip(1).len() ==> wf_value(#[trigger] es.skip(1)[i])) {
            assert forall|i: int| 0 <= i < es.len() implies wf_value(#[trigger] es[i]) by {
                if i > 0 {
                    assert(es[i] == es.skip(1)[i - 1]);
                }
            }
        }
    }
}

/// Pointwise reading of `wf_elems`.
pub proof fn lemma_wf_elems_index(es: Seq<TagV>, ty: NbtTagType)
    ensures
        wf_elems(es, ty) <==> (forall|i: int|
            0 <= i < es.len() ==> wf_value(#[trigger] es[i]) && tag_kind(es[i]) == ty && tag_name(
                es[i],
            ) == Seq::<char>::empty()),
    decreases es.len(),
{
    if es.len() > 0 {
        lemma_wf_elems_index(es.skip(1), ty);
        assert(forall|i: int| 0 <= i < es.skip(1).len() ==> es.skip(1)[i] == es[i + 1]);
        if wf_value(es[0]) && tag_kind(es[0]) == ty && tag_name(es[0]) == Seq::<char>::empty() && (
        forall|i: int|
            0 <= i < es.skip(1).len() ==> wf_value(#[trigger] es.skip(1)[i]) && tag_kind(
                es.skip(1)[i],
            ) == ty && tag_name(es.skip(1)[i]) == Seq::<char>::empty()) {
            assert forall|i: int| 0 <= i < es.len() implies wf_value(#[trigger] es[i]) && tag_kind(
                es[i],
            ) == ty && tag_name(es[i]) == Seq::<char>::empty() by {
                if i > 0 {
                    assert(es[i] == es.skip(1)[i - 1]);
                }
            }
        }
    }
}

// ---------------------------------------------------------------------
// The encoding of tag values as byte sequences.
// ---------------------------------------------------------------------

/// A length-prefixed name: two big-endian length bytes, then the text.
pub open spec fn enc_name(n: Seq<char>) -> Seq<u8> {
    be16_bytes(n.len() as u16) + bytes_of_chars(n)
}

/// The bytes of a sequence of 8-bit values.
pub open spec fn enc_i8s(vs: Seq<i8>) -> Seq<u8>
    decreases vs.len(),
{
    if vs.len() == 0 {
        Seq::empty()
    } else {
        seq![u8_of_i8(vs[0])] + enc_i8s(vs.skip(1))
    }
}

/// The bytes of a sequence of big-endian 32-bit values.
pub open spec fn enc_i32s(vs: Seq<i32>) -> Seq<u8>
    decreases vs.len(),
{
    if vs.len() == 0 {
        Seq::empty()
    } else {
        be32_bytes(u32_of_i32(vs[0])) + enc_i32s(vs.skip(1))
    }
}

/// The bytes of a sequence of big-endian 64-bit values.
pub open spec fn enc_i64s(vs: Seq<i64>) -> Seq<u8>
    decreases vs.len(),
{
    if vs.len() == 0 {
        Seq::empty()
    } else {
        be64_bytes(u64_of_i64(vs[0])) + enc_i64s(vs.skip(1))
    }
}

/// The payload bytes of a value: what follows its kind byte and name.
/// Kept opaque so that proofs open it only where a payload is in view.
#[verifier::opaque]
pub open spec fn enc_payload(t: TagV) -> Seq<u8>
    decreases t, 0int,
{
    match t {
        TagV::End => Seq::empty(),
        TagV::Byte { v, .. } => seq![u8_of_i8(v)],
        TagV::Short { v, .. } => be16_bytes(u16_of_i16(v)),
        TagV::Int { v, .. } => be32_bytes(u32_of_i32(v)),
        TagV::Long { v, .. } => be64_bytes(u64_of_i64(v)),
        TagV::Float { bits, .. } => be32_bytes(bits),
        TagV::Double { bits, .. } => be64_bytes(bits),
        TagV::ByteArray { vs, .. } => be32_bytes(vs.len() as u32) + enc_i8s(vs),
        TagV::Str { v, .. } => be16_bytes(v.len() as u16) + bytes_of_chars(v),
        TagV::List { ty, vs, .. } => seq![spec_type_id(ty)] + be32_bytes(vs.len() as u32)
            + enc_elems(vs),
        TagV::Compound { entries, .. } => enc_entries(entries) + seq![0u8],
        TagV::IntArray { vs, .. } => be32_bytes(vs.len() as u32) + enc_i32s(vs),
        TagV::LongArray { vs, .. } => be32_bytes(vs.len() as u32) + enc_i64s(vs),
    }
}

/// A named value: kind byte, name, payload.
pub open spec fn enc_named(t: TagV) -> Seq<u8>
    decreases t, 1int,
{
    seq![spec_type_id(tag_kind(t))] + enc_name(tag_name(t)) + enc_payload(t)
}

/// The entries of a compound body, in order (without the closing `End`).
pub open spec fn enc_entries(es: Seq<TagV>) -> Seq<u8>
    decreases es, 0int,
{
    if es.len() == 0 {
        Seq::empty()
    } else {
        enc_named(es[0]) + enc_entries(es.skip(1))
    }
}

/// The elements of a list, in order, without names.
pub open spec fn enc_elems(es: Seq<TagV>) -> Seq<u8>
    decreases es, 0int,
{
    if es.len() == 0 {
        Seq::empty()
    } else {
        enc_payload(es[0]) + enc_elems(es.skip(1))
    }
}

/// A whole document: a named root compound.
pub open spec fn enc_doc(c: CompoundV) -> Seq<u8> {
    enc_named(TagV::Compound { name: c.name, entries: c.entries })
}

/// Appending an entry appends its bytes.
pub proof fn lemma_enc_entries_snoc(s: Seq<TagV>, t: TagV)
    ensures
        enc_entries(s.push(t)) == enc_entries(s) + enc_named(t),
    decreases s.len(),
{
    if s.len() == 0 {
        assert(s.push(t)[0] == t);
        assert(s.push(t).skip(1) =~= Seq::<TagV>::empty());
        assert(enc_entries(s.push(t).skip(1)) == Seq::<u8>::empty());
        assert(enc_entries(s.push(t)) =~= enc_entries(s) + enc_named(t));
    } else {
        assert(s.push(t)[0] == s[0]);
        assert(s.push(t).skip(1) =~= s.skip(1).push(t));
        lemma_enc_entries_snoc(s.skip(1), t);
        assert(enc_entries(s.push(t)) == enc_named(s[0]) + enc_entries(s.skip(1).push(t)));
        assert(enc_entries(s) == enc_named(s[0]) + enc_entries(s.skip(1)));
        assert(enc_named(s[0]) + (enc_entries(s.skip(1)) + enc_named(t)) =~= (enc_named(s[0])
            + enc_entries(s.skip(1))) + enc_named(t));
    }
}

/// Appending an element appends its payload bytes.
pub proof fn lemma_enc_elems_snoc(s: Seq<TagV>, t: TagV)
    ensures
        enc_elems(s.push(t)) == enc_elems(s) + enc_payload(t),
    decreases s.len(),
{
    reveal(crate::wire::enc_payload);
    if s.len() == 0 {
        assert(s.push(t)[0] == t);
        assert(s.push(t).skip(1) =~= Seq::<TagV>::empty());
        assert(enc_elems(s.push(t).skip(1)) == Seq::<u8>::empty());
        assert(enc_elems(s.push(t)) =~= enc_elems(s) + enc_payload(t));
    } else {
        assert(s.push(t)[0] == s[0]);
        assert(s.push(t).skip(1) =~= s.skip(1).push(t));
        lemma_enc_elems_snoc(s.skip(1), t);
        assert(enc_elems(s.push(t)) == enc_payload(s[0]) + enc_elems(s.skip(1).push(t)));
        assert(enc_elems(s) == enc_payload(s[0]) + enc_elems(s.skip(1)));
        assert(enc_payload(s[0]) + (enc_elems(s.skip(1)) + enc_payload(t)) =~= (enc_payload(s[0])
            + enc_elems(s.skip(1))) + enc_payload(t));
    }
}

/// Appending an 8-bit value appends its byte.
pub proof fn lemma_enc_i8s_snoc(s: Seq<i8>, x: i8)
    ensures
        enc_i8s(s.push(x)) == enc_i8s(s) + seq![u8_of_i8(x)],
    decreases s.len(),
{
    if s.len() == 0 {
        assert(s.push(x)[0] == x);
        assert(s.push(x).skip(1) =~= Seq::<i8>::empty());
        assert(enc_i8s(s.push(x).skip(1)) == Seq::<u8>::empty());
        assert(enc_i8s(s.push(x)) =~= enc_i8s(s) + seq![u8_of_i8(x)]);
    } else {
        assert(s.push(x)[0] == s[0]);
        assert(s.push(x).skip(1) =~= s.skip(1).push(x));
        lemma_enc_i8s_snoc(s.skip(1), x);
        assert(enc_i8s(s.push(x)) == seq![u8_of_i8(s[0])] + enc_i8s(s.skip(1).push(x)));
        assert(enc_i8s(s) == seq![u8_of_i8(s[0])] + enc_i8s(s.skip(1)));
        assert(seq![u8_of_i8(s[0])] + (enc_i8s(s.skip(1)) + seq![u8_of_i8(x)]) =~= (seq![
            u8_of_i8(s[0]),
        ] + enc_i8s(s.skip(1))) + seq![u8_of_i8(x)]);
    }
}

/// Appending a 32-bit value appends its four bytes.
pub proof fn lemma_enc_i32s_snoc(s: Seq<i32>, x: i32)
    ensures
        enc_i32s(s.push(x)) == enc_i32s(s) + be32_bytes(u32_of_i32(x)),
    decreases s.len(),
{
    if s.len() == 0 {
        assert(s.push(x)[0] == x);
        assert(s.push(x).skip(1) =~= Seq::<i32>::empty());
        assert(enc_i32s(s.push(x).skip(1)) == Seq::<u8>::empty());
        assert(enc_i32s(s.push(x)) =~= enc_i32s(s) + be32_bytes(u32_of_i32(x)));
    } else {
        assert(s.push(x)[0] == s[0]);
        assert(s.push(x).skip(1) =~= s.skip(1).push(x));
        lemma_enc_i32s_snoc(s.skip(1), x);
        assert(enc_i32s(s.push(x)) == be32_bytes(u32_of_i32(s[0])) + enc_i32s(s.skip(1).push(x)));
        assert(enc_i32s(s) == be32_bytes(u32_of_i32(s[0])) + enc_i32s(s.skip(1)));
        assert(be32_bytes(u32_of_i32(s[0])) + (enc_i32s(s.skip(1)) + be32_bytes(u32_of_i32(x)))
            =~= (be32_bytes(u32_of_i32(s[0])) + enc_i32s(s.skip(1))) + be32_bytes(u32_of_i32(x)));
    }
}

/// Appending a 64-bit value appends its eight bytes.
pub proof fn lemma_enc_i64s_snoc(s: Seq<i64>, x: i64)
    ensures
        enc_i64s(s.push(x)) == enc_i64s(s) + be64_bytes(u64_of_i64(x)),
    decreases s.len(),
{
    if s.len() == 0 {
        assert(s.push(x)[0] == x);
        assert(s.push(x).skip(1) =~= Seq::<i64>::empty());
        assert(enc_i64s(s.push(x).skip(1)) == Seq::<u8>::empty());
        assert(enc_i64s(s.push(x)) =~= enc_i64s(s) + be64_bytes(u64_of_i64(x)));
    } else {
        assert(s.push(x)[0] == s[0]);
        assert(s.push(x).skip(1) =~= s.skip(1).push(x));
        lemma_enc_i64s_snoc(s.skip(1), x);
        assert(enc_i64s(s.push(x)) == be64_bytes(u64_of_i64(s[0])) + enc_i64s(s.skip(1).push(x)));
        assert(enc_i64s(s) == be64_bytes(u64_of_i64(s[0])) + enc_i64s(s.skip(1)));
        assert(be64_bytes(u64_of_i64(s[0])) + (enc_i64s(s.skip(1)) + be64_bytes(u64_of_i64(x)))
            =~= (be64_bytes(u64_of_i64(s[0])) + enc_i64s(s.skip(1))) + be64_bytes(u64_of_i64(x)));
    }
}

// ---------------------------------------------------------------------
// The decoding of byte sequences as tag values.
// ---------------------------------------------------------------------

/// Bytes remaining at position `i` of `b`.
pub open spec fn rem_len(b: Seq<u8>, i: nat) -> nat {
    if i <= b.len() {
        (b.len() - i) as nat
    } else {
        0
    }
}

/// Decodes the payload of a value of kind `ty` at position `i`,
/// attaching the given name.  On success the result carries the number
/// of bytes consumed.
pub open spec fn dec_value(b: Seq<u8>, i: nat, ty: NbtTagType, name: Seq<char>) -> Result<
    (TagV, nat),
    NbtTagError,
>
    decreases rem_len(b, i), 0nat, 1nat,
{
    match ty {
        NbtTagType::End => Err(NbtTagError::InvalidTagType(0)),
        NbtTagType::Byte => if i + 1 <= b.len() {
            Ok((TagV::Byte { name, v: i8_of_u8(b[i as int]) }, 1))
        } else {
            Err(NbtTagError::UnexpectedEof)
        },
        NbtTagType::Short => if i + 2 <= b.len() {
            Ok(
                (
                    TagV::Short { name, v: i16_of_u16(be16_val(b[i as int], b[i as int + 1])) },
                    2,
                ),
            )
        } else {
            Err(NbtTagError::UnexpectedEof)
        },
        NbtTagType::Int => if i + 4 <= b.len() {
            Ok(
                (
                    TagV::Int {
                        name,
                        v: i32_of_u32(
                            be32_val(b[i as int], b[i as int + 1], b[i as int + 2], b[i as int + 3]),
                        ),
                    },
                    4,
                ),
            )
        } else {
            Err(NbtTagError::UnexpectedEof)
        },
        NbtTagType::Long => if i + 8 <= b.len() {
            Ok(
                (
                    TagV::Long {
                        name,
                        v: i64_of_u64(
                            be64_val(
                                b[i as int],
                                b[i as int + 1],
                                b[i as int + 2],
                                b[i as int + 3],
                                b[i as int + 4],
                                b[i as int + 5],
                                b[i as int + 6],
                                b[i as int + 7],
                            ),
                        ),
                    },
                    8,
                ),
            )
        } else {
            Err(NbtTagError::UnexpectedEof)
        },
        NbtTagType::Float => if i + 4 <= b.len() {
            Ok(
                (
                    TagV::Float {
                        name,
                        bits: be32_val(b[i as int], b[i as int + 1], b[i as int + 2], b[i as int + 3]),
                    },
                    4,
                ),
            )
        } else {
            Err(NbtTagError::UnexpectedEof)
        },
        NbtTagType::Double => if i + 8 <= b.len() {
            Ok(
                (
                    TagV::Double {
                        name,
                        bits: be64_val(
                            b[i as int],
                            b[i as int + 1],
                            b[i as int + 2],
                            b[i as int + 3],
                            b[i as int + 4],
                            b[i as int + 5],
                            b[i as int + 6],
                            b[i as int + 7],
                        ),
                    },
                    8,
                ),
            )
        } else {
            Err(NbtTagError::UnexpectedEof)
        },
        NbtTagType::ByteArray => if i + 4 <= b.len() {
            let alen = i32_of_u32(
                be32_val(b[i as int], b[i as int + 1], b[i as int + 2], b[i as int + 3]),
            );
            if alen < 0 || alen > 65536 {
                Err(NbtTagError::MaxNbtListLengthExceeded)
            } else if i + 4 + alen <= b.len() {
                Ok(
                    (
                        TagV::ByteArray {
                            name,
                            vs: Seq::new(alen as nat, |k: int| i8_of_u8(b[i + 4 + k])),
                        },
                        (4 + alen) as nat,
                    ),
                )
            } else {
                Err(NbtTagError::UnexpectedEof)
            }
        } else {
            Err(NbtTagError::UnexpectedEof)
        },
        NbtTagType::String => if i + 2 <= b.len() {
            let sl = be16_val(b[i as int], b[i as int + 1]) as nat;
            if i + 2 + sl <= b.len() {
                Ok(
                    (
                        TagV::Str {
                            name,
                            v: Seq::new(sl, |k: int| char_of_byte(b[i + 2 + k])),
                        },
                        2 + sl,
                    ),
                )
            } else {
                Err(NbtTagError::UnexpectedEof)
            }
        } else {
            Err(NbtTagError::UnexpectedEof)
        },
        NbtTagType::List => if i + 1 <= b.len() {
            match spec_type_from_id(b[i as int]) {
                Err(e) => Err(e),
                Ok(ety) => if i + 5 <= b.len() {
                    let ll = i32_of_u32(
                        be32_val(b[i as int + 1], b[i as int + 2], b[i as int + 3], b[i as int + 4]),
                    );
                    if ll < 0 || ll > 65536 {
                        Err(NbtTagError::MaxNbtListLengthExceeded)
                    } else {
                        match dec_elems(b, i + 5, ety, ll as nat) {
                            Err(e) => Err(e),
                            Ok((vs, c)) => Ok((TagV::List { name, ty: ety, vs }, 5 + c)),
                        }
                    }
                } else {
                    Err(NbtTagError::UnexpectedEof)
                },
            }
        } else {
            Err(NbtTagError::UnexpectedEof)
        },
        NbtTagType::Compound => match dec_entries(b, i) {
            Err(e) => Err(e),
            Ok((es, c)) => Ok((TagV::Compound { name, entries: es }, c)),
        },
        NbtTagType::IntArray => if i + 4 <= b.len() {
            let alen = i32_of_u32(
                be32_val(b[i as int], b[i as int + 1], b[i as int + 2], b[i as int + 3]),
            );
            if alen < 0 || alen > 65536 {
                Err(NbtTagError::MaxNbtListLengthExceeded)
            } else if i + 4 + 4 * alen <= b.len() {
                Ok(
                    (
                        TagV::IntArray {
                            name,
                            vs: Seq::new(
                                alen as nat,
                                |k: int| i32_of_u32(
                                    be32_val(
                                        b[i + 4 + 4 * k],
                                        b[i + 4 + 4 * k + 1],
                                        b[i + 4 + 4 * k + 2],
                                        b[i + 4 + 4 * k + 3],
                                    ),
                                ),
                            ),
                        },
                        (4 + 4 * alen) as nat,
                    ),
                )
            } else {
                Err(NbtTagError::UnexpectedEof)
            }
        } else {
            Err(NbtTagError::UnexpectedEof)
        },
        NbtTagType::LongArray => if i + 4 <= b.len() {
            let alen = i32_of_u32(
                be32_val(b[i as int], b[i as int + 1], b[i as int + 2], b[i as int + 3]),
            );
            if alen < 0 || alen > 65536 {
                Err(NbtTagError::MaxNbtListLengthExceeded)
            } else if i + 4 + 8 * alen <= b.len() {
                Ok(
                    (
                        TagV::LongArray {
                            name,
                            vs: Seq::new(
                                alen as nat,
                                |k: int| i64_of_u64(
                                    be64_val(
                                        b[i + 4 + 8 * k],
                                        b[i + 4 + 8 * k + 1],
                                        b[i + 4 + 8 * k + 2],
                                        b[i + 4 + 8 * k + 3],
                                        b[i + 4 + 8 * k + 4],
                                        b[i + 4 + 8 * k + 5],
                                        b[i + 4 + 8 * k + 6],
                                        b[i + 4 + 8 * k + 7],
                                    ),
                                ),
                            ),
                        },
                        (4 + 8 * alen) as nat,
                    ),
                )
            } else {
                Err(NbtTagError::UnexpectedEof)
            }
        } else {
            Err(NbtTagError::UnexpectedEof)
        },
    }
}

/// Decodes the body of a compound at position `i`: named entries up to
/// and including the closing `End` byte.  The entries are returned as
/// read, duplicates included.
pub open spec fn dec_entries(b: Seq<u8>, i: nat) -> Result<(Seq<TagV>, nat), NbtTagError>
    decreases rem_len(b, i), 0nat, 0nat,
{
    if i + 1 <= b.len() {
        match spec_type_from_id(b[i as int]) {
            Err(e) => Err(e),
            Ok(ty) => if ty == NbtTagType::End {
                Ok((Seq::empty(), 1))
            } else if i + 3 <= b.len() {
                let nl = be16_val(b[i as int + 1], b[i as int + 2]) as nat;
                if i + 3 + nl <= b.len() {
                    let nm = Seq::new(nl, |k: int| char_of_byte(b[i + 3 + k]));
                    match dec_value(b, i + 3 + nl, ty, nm) {
                        Err(e) => Err(e),
                        Ok((t, c)) => match dec_entries(b, i + 3 + nl + c) {
                            Err(e) => Err(e),
                            Ok((rest, c2)) => Ok((seq![t] + rest, 3 + nl + c + c2)),
                        },
                    }
                } else {
                    Err(NbtTagError::UnexpectedEof)
                }
            } else {
                Err(NbtTagError::UnexpectedEof)
            },
        }
    } else {
        Err(NbtTagError::UnexpectedEof)
    }
}

/// Decodes `n` unnamed elements of kind `ty` starting at position `i`.
pub open spec fn dec_elems(b: Seq<u8>, i: nat, ty: NbtTagType, n: nat) -> Result<
    (Seq<TagV>, nat),
    NbtTagError,
>
    decreases rem_len(b, i), n, 2nat,
{
    if n == 0 {
        Ok((Seq::empty(), 0))
    } else {
        match dec_value(b, i, ty, Seq::empty()) {
            Err(e) => Err(e),
            Ok((t, c)) => match dec_elems(b, i + c, ty, (n - 1) as nat) {
                Err(e) => Err(e),
                Ok((rest, c2)) => Ok((seq![t] + rest, c + c2)),
            },
        }
    }
}

/// A successfully decoded value carries the name it was given and is
/// of the kind that was asked for.
pub proof fn lemma_dec_value_name(b: Seq<u8>, i: nat, ty: NbtTagType, name: Seq<char>)
    ensures
        dec_value(b, i, ty, name) matches Ok(p) ==> tag_name(p.0) == name && tag_kind(p.0) == ty,
{
}

/// A decoded value with duplicate compound keys resolved: within every
/// compound, of entries sharing a name the last read wins, standing at
/// the position of the first.
pub open spec fn dedup_value(t: TagV) -> TagV
    decreases t, 0int,
{
    match t {
        TagV::List { name, ty, vs } => TagV::List { name, ty, vs: dedup_elems(vs) },
        TagV::Compound { name, entries } => TagV::Compound {
            name,
            entries: dedup_entries(entries),
        },
        _ => t,
    }
}

/// Entries as read, folded by name: each entry is upserted in order.
pub open spec fn dedup_entries(es: Seq<TagV>) -> Seq<TagV>
    decreases es, 1int,
{
    if es.len() == 0 {
        Seq::empty()
    } else {
        upsert_entry(dedup_entries(es.drop_last()), dedup_value(es.last()))
    }
}

/// List elements with their nested compounds resolved.
pub open spec fn dedup_elems(es: Seq<TagV>) -> Seq<TagV>
    decreases es, 1int,
{
    if es.len() == 0 {
        Seq::empty()
    } else {
        dedup_elems(es.drop_last()).push(dedup_value(es.last()))
    }
}

/// Resolving keeps a value's name.
pub proof fn lemma_dedup_keeps_name(t: TagV)
    ensures
        tag_name(dedup_value(t)) == tag_name(t),
        tag_kind(dedup_value(t)) == tag_kind(t),
{
}

/// Relies on `String::push` of std: appends the given character to the
/// end of the string.
pub assume_specification[ std::string::String::push ](s: &mut std::string::String, c: char)
    ensures
        final(s)@ == old(s)@.push(c),
;

/// The bytes of an 8-bit sequence, read pointwise.
pub proof fn lemma_enc_i8s_index(vs: Seq<i8>)
    ensures
        enc_i8s(vs).len() == vs.len(),
        forall|k: int| 0 <= k < vs.len() ==> #[trigger] enc_i8s(vs)[k] == u8_of_i8(vs[k]),
    decreases vs.len(),
{
    if vs.len() > 0 {
        lemma_enc_i8s_index(vs.skip(1));
        assert(forall|k: int| 0 <= k < vs.skip(1).len() ==> vs.skip(1)[k] == vs[k + 1]);
        assert forall|k: int| 0 <= k < vs.len() implies #[trigger] enc_i8s(vs)[k] == u8_of_i8(
            vs[k],
        ) by {
            if k > 0 {
                assert(enc_i8s(vs)[k] == enc_i8s(vs.skip(1))[k - 1]);
            }
        }
    }
}

/// The bytes of a 32-bit sequence, read four at a time.
pub proof fn lemma_enc_i32s_index(vs: Seq<i32>)
    ensures
        enc_i32s(vs).len() == 4 * vs.len(),
        forall|j: int|
            0 <= j < 4 * vs.len() ==> #[trigger] enc_i32s(vs)[j] == be32_bytes(
                u32_of_i32(vs[j / 4]),
            )[j % 4],
    decreases vs.len(),
{
    if vs.len() > 0 {
        lemma_enc_i32s_index(vs.skip(1));
        assert(forall|k: int| 0 <= k < vs.skip(1).len() ==> vs.skip(1)[k] == vs[k + 1]);
        assert forall|j: int| 0 <= j < 4 * vs.len() implies #[trigger] enc_i32s(vs)[j]
            == be32_bytes(u32_of_i32(vs[j / 4]))[j % 4] by {
            if j < 4 {
                assert(enc_i32s(vs)[j] == be32_bytes(u32_of_i32(vs[0]))[j]);
            } else {
                assert(enc_i32s(vs)[j] == enc_i32s(vs.skip(1))[j - 4]);
                assert((j - 4) / 4 == j / 4 - 1 && (j - 4) % 4 == j % 4);
            }
        }
    }
}

/// The bytes of a 64-bit sequence, read eight at a time.
pub proof fn lemma_enc_i64s_index(vs: Seq<i64>)
    ensures
        enc_i64s(vs).len() == 8 * vs.len(),
        forall|j: int|
            0 <= j < 8 * vs.len() ==> #[trigger] enc_i64s(vs)[j] == be64_bytes(
                u64_of_i64(vs[j / 8]),
            )[j % 8],
    decreases vs.len(),
{
    if vs.len() > 0 {
        lemma_enc_i64s_index(vs.skip(1));
        assert(forall|k: int| 0 <= k < vs.skip(1).len() ==> vs.skip(1)[k] == vs[k + 1]);
        assert forall|j: int| 0 <= j < 8 * vs.len() implies #[trigger] enc_i64s(vs)[j]
            == be64_bytes(u64_of_i64(vs[j / 8]))[j % 8] by {
            if j < 8 {
                assert(enc_i64s(vs)[j] == be64_bytes(u64_of_i64(vs[0]))[j]);
            } else {
                assert(enc_i64s(vs)[j] == enc_i64s(vs.skip(1))[j - 8]);
                assert((j - 8) / 8 == j / 8 - 1 && (j - 8) % 8 == j % 8);
            }
        }
    }
}

/// Decoding an encoded byte array recovers it.
#[verifier::rlimit(100)]
#[verifier::spinoff_prover]
proof fn lemma_dec_payload_bytearray(b: Seq<u8>, i: nat, name: Seq<char>, vs: Seq<i8>)
    requires
        wf_value(TagV::ByteArray { name, vs }),
        i + enc_payload(TagV::ByteArray { name, vs }).len() <= b.len(),
        b.subrange(i as int, (i + enc_payload(TagV::ByteArray { name, vs }).len()) as int)
            == enc_payload(TagV::ByteArray { name, vs }),
    ensures
        dec_value(b, i, NbtTagType::ByteArray, name) == Ok::<(TagV, nat), NbtTagError>(
            (TagV::ByteArray { name, vs }, enc_payload(TagV::ByteArray { name, vs }).len()),
        ),
{
    let pl = enc_payload(TagV::ByteArray { name, vs });
    assert(forall|k: int| 0 <= k < pl.len() ==> b[i + k] == #[trigger] pl[k]);
    assert(pl == be32_bytes(vs.len() as u32) + enc_i8s(vs)) by {
        reveal(crate::wire::enc_payload);
    }
    lemma_enc_i8s_index(vs);
    assert(b[i as int] == pl[0] && b[i as int + 1] == pl[1] && b[i as int + 2] == pl[2] && b[i
        as int + 3] == pl[3]);
    lemma_be32_round_trip(vs.len() as u32);
    let alen = i32_of_u32(be32_val(b[i as int], b[i as int + 1], b[i as int + 2], b[i as int + 3]));
    assert(alen == vs.len());
    assert forall|k: int| 0 <= k < vs.len() implies i8_of_u8(b[i + 4 + k]) == vs[k] by {
        assert(b[i + 4 + k] == pl[4 + k]);
        assert(pl[4 + k] == enc_i8s(vs)[k]);
    }
    assert(Seq::new(alen as nat, |k: int| i8_of_u8(b[i + 4 + k])) =~= vs);
}

/// Decoding an encoded int array recovers it.
#[verifier::rlimit(100)]
#[verifier::spinoff_prover]
proof fn lemma_dec_payload_intarray(b: Seq<u8>, i: nat, name: Seq<char>, vs: Seq<i32>)
    requires
        wf_value(TagV::IntArray { name, vs }),
        i + enc_payload(TagV::IntArray { name, vs }).len() <= b.len(),
        b.subrange(i as int, (i + enc_payload(TagV::IntArray { name, vs }).len()) as int)
            == enc_payload(TagV::IntArray { name, vs }),
    ensures
        dec_value(b, i, NbtTagType::IntArray, name) == Ok::<(TagV, nat), NbtTagError>(
            (TagV::IntArray { name, vs }, enc_payload(TagV::IntArray { name, vs }).len()),
        ),
{
    let pl = enc_payload(TagV::IntArray { name, vs });
    assert(forall|k: int| 0 <= k < pl.len() ==> b[i + k] == #[trigger] pl[k]);
    assert(pl == be32_bytes(vs.len() as u32) + enc_i32s(vs)) by {
        reveal(crate::wire::enc_payload);
    }
    lemma_enc_i32s_index(vs);
    assert(b[i as int] == pl[0] && b[i as int + 1] == pl[1] && b[i as int + 2] == pl[2] && b[i
        as int + 3] == pl[3]);
    lemma_be32_round_trip(vs.len() as u32);
    let alen = i32_of_u32(be32_val(b[i as int], b[i as int + 1], b[i as int + 2], b[i as int + 3]));
    assert(alen == vs.len());
    assert forall|k: int| 0 <= k < vs.len() implies i32_of_u32(
        be32_val(b[i + 4 + 4 * k], b[i + 4 + 4 * k + 1], b[i + 4 + 4 * k + 2], b[i + 4 + 4 * k + 3]),
    ) == vs[k] by {
        assert((4 * k) / 4 == k && (4 * k) % 4 == 0 && (4 * k + 1) / 4 == k && (4 * k + 1) % 4 == 1
            && (4 * k + 2) / 4 == k && (4 * k + 2) % 4 == 2 && (4 * k + 3) / 4 == k && (4 * k + 3)
            % 4 == 3) by (nonlinear_arith)
            requires
                0 <= k,
        ;
        assert(b[i + 4 + 4 * k] == pl[4 + 4 * k] && pl[4 + 4 * k] == enc_i32s(vs)[4 * k]);
        assert(b[i + 4 + 4 * k + 1] == pl[4 + 4 * k + 1] && pl[4 + 4 * k + 1] == enc_i32s(vs)[4 * k
            + 1]);
        assert(b[i + 4 + 4 * k + 2] == pl[4 + 4 * k + 2] && pl[4 + 4 * k + 2] == enc_i32s(vs)[4 * k
            + 2]);
        assert(b[i + 4 + 4 * k + 3] == pl[4 + 4 * k + 3] && pl[4 + 4 * k + 3] == enc_i32s(vs)[4 * k
            + 3]);
        lemma_be32_round_trip(u32_of_i32(vs[k]));
    }
    assert(Seq::new(
        alen as nat,
        |k: int| i32_of_u32(
            be32_val(
                b[i + 4 + 4 * k],
                b[i + 4 + 4 * k + 1],
                b[i + 4 + 4 * k + 2],
                b[i + 4 + 4 * k + 3],
            ),
        ),
    ) =~= vs);
}

/// Decoding an encoded long array recovers it.
#[verifier::rlimit(100)]
#[verifier::spinoff_prover]
proof fn lemma_dec_payload_longarray(b: Seq<u8>, i: nat, name: Seq<char>, vs: Seq<i64>)
    requires
        wf_value(TagV::LongArray { name, vs }),
        i + enc_payload(TagV::LongArray { name, vs }).len() <= b.len(),
        b.subrange(i as int, (i + enc_payload(TagV::LongArray { name, vs }).len()) as int)
            == enc_payload(TagV::LongArray { name, vs }),
    ensures
        dec_value(b, i, NbtTagType::LongArray, name) == Ok::<(TagV, nat), NbtTagError>(
            (TagV::LongArray { name, vs }, enc_payload(TagV::LongArray { name, vs }).len()),
        ),
{
    let pl = enc_payload(TagV::LongArray { name, vs });
    assert(forall|k: int| 0 <= k < pl.len() ==> b[i + k] == #[trigger] pl[k]);
    assert(pl == be32_bytes(vs.len() as u32) + enc_i64s(vs)) by {
        reveal(crate::wire::enc_payload);
    }
    lemma_enc_i64s_index(vs);
    assert(b[i as int] == pl[0] && b[i as int + 1] == pl[1] && b[i as int + 2] == pl[2] && b[i
        as int + 3] == pl[3]);
    lemma_be32_round_trip(vs.len() as u32);
    let alen = i32_of_u32(be32_val(b[i as int], b[i as int + 1], b[i as int + 2], b[i as int + 3]));
    assert(alen == vs.len());
    assert forall|k: int| 0 <= k < vs.len() implies i64_of_u64(
        be64_val(
            b[i + 4 + 8 * k],
            b[i + 4 + 8 * k + 1],
            b[i + 4 + 8 * k + 2],
            b[i + 4 + 8 * k + 3],
            b[i + 4 + 8 * k + 4],
            b[i + 4 + 8 * k + 5],
            b[i + 4 + 8 * k + 6],
            b[i + 4 + 8 * k + 7],
        ),
    ) == vs[k] by {
        assert forall|r: int| 0 <= r < 8 implies b[i + 4 + 8 * k + r] == be64_bytes(
            u64_of_i64(vs[k]),
        )[r] by {
            assert((8 * k + r) / 8 == k && (8 * k + r) % 8 == r) by (nonlinear_arith)
                requires
                    0 <= k && 0 <= r < 8,
            ;
            assert(b[i + 4 + 8 * k + r] == pl[4 + 8 * k + r]);
            assert(pl[4 + 8 * k + r] == enc_i64s(vs)[8 * k + r]);
        }
        lemma_be64_round_trip(u64_of_i64(vs[k]));
    }
    assert(Seq::new(
        alen as nat,
        |k: int| i64_of_u64(
            be64_val(
                b[i + 4 + 8 * k],
                b[i + 4 + 8 * k + 1],
                b[i + 4 + 8 * k + 2],
                b[i + 4 + 8 * k + 3],
                b[i + 4 + 8 * k + 4],
                b[i + 4 + 8 * k + 5],
                b[i + 4 + 8 * k + 6],
                b[i + 4 + 8 * k + 7],
            ),
        ),
    ) =~= vs);
}

/// Decoding the payload of an encoded well-formed value at its place
/// in a larger buffer recovers the value exactly.
#[verifier::rlimit(100)]
#[verifier::spinoff_prover]
pub proof fn lemma_dec_value_of_enc(b: Seq<u8>, i: nat, t: TagV)
    requires
        wf_value(t),
        i + enc_payload(t).len() <= b.len(),
        b.subrange(i as int, (i + enc_payload(t).len()) as int) == enc_payload(t),
    ensures
        dec_value(b, i, tag_kind(t), tag_name(t)) == Ok::<(TagV, nat), NbtTagError>(
            (t, enc_payload(t).len()),
        ),
    decreases t,
{
    let pl = enc_payload(t);
    assert(forall|k: int| 0 <= k < pl.len() ==> b[i + k] == #[trigger] pl[k]);
    match t {
        TagV::End => {},
        TagV::Byte { name, v } => {
            assert(pl == seq![u8_of_i8(v)]) by {
                reveal(crate::wire::enc_payload);
            }
            assert(b[i as int] == pl[0]);
            assert(i8_of_u8(u8_of_i8(v)) == v);
        },
        TagV::Short { name, v } => {
            assert(pl == be16_bytes(u16_of_i16(v))) by {
                reveal(crate::wire::enc_payload);
            }
            assert(b[i as int] == pl[0] && b[i as int + 1] == pl[1]);
            lemma_be16_round_trip(u16_of_i16(v));
        },
        TagV::Int { name, v } => {
            assert(pl == be32_bytes(u32_of_i32(v))) by {
                reveal(crate::wire::enc_payload);
            }
            assert(b[i as int] == pl[0] && b[i as int + 1] == pl[1] && b[i as int + 2] == pl[2]
                && b[i as int + 3] == pl[3]);
            lemma_be32_round_trip(u32_of_i32(v));
        },
        TagV::Long { name, v } => {
            assert(pl == be64_bytes(u64_of_i64(v))) by {
                reveal(crate::wire::enc_payload);
            }
            assert(b[i as int] == pl[0] && b[i as int + 1] == pl[1] && b[i as int + 2] == pl[2]
                && b[i as int + 3] == pl[3] && b[i as int + 4] == pl[4] && b[i as int + 5] == pl[5]
                && b[i as int + 6] == pl[6] && b[i as int + 7] == pl[7]);
            lemma_be64_round_trip(u64_of_i64(v));
        },
        TagV::Float { name, bits } => {
            assert(pl == be32_bytes(bits)) by {
                reveal(crate::wire::enc_payload);
            }
            assert(b[i as int] == pl[0] && b[i as int + 1] == pl[1] && b[i as int + 2] == pl[2]
                && b[i as int + 3] == pl[3]);
            lemma_be32_round_trip(bits);
        },
        TagV::Double { name, bits } => {
            assert(pl == be64_bytes(bits)) by {
                reveal(crate::wire::enc_payload);
            }
            assert(b[i as int] == pl[0] && b[i as int + 1] == pl[1] && b[i as int + 2] == pl[2]
                && b[i as int + 3] == pl[3] && b[i as int + 4] == pl[4] && b[i as int + 5] == pl[5]
                && b[i as int + 6] == pl[6] && b[i as int + 7] == pl[7]);
            lemma_be64_round_trip(bits);
        },
        TagV::ByteArray { name, vs } => {
            lemma_dec_payload_bytearray(b, i, name, vs);
        },
        TagV::Str { name, v } => {
            assert(pl == be16_bytes(v.len() as u16) + bytes_of_chars(v)) by {
                reveal(crate::wire::enc_payload);
            }
            assert(b[i as int] == pl[0] && b[i as int + 1] == pl[1]);
            lemma_be16_round_trip(v.len() as u16);
            let sl = be16_val(b[i as int], b[i as int + 1]) as nat;
            assert(sl == v.len());
            assert forall|k: int| 0 <= k < v.len() implies char_of_byte(b[i + 2 + k]) == v[k] by {
                assert(b[i + 2 + k] == pl[2 + k]);
                assert(pl[2 + k] == byte_of_char(v[k]));
                vstd::utf8::char_u32_cast(v[k], v[k] as u32);
            }
            assert(Seq::new(sl, |k: int| char_of_byte(b[i + 2 + k])) =~= v);
        },
        TagV::List { name, ty, vs } => {
            assert(pl == seq![spec_type_id(ty)] + be32_bytes(vs.len() as u32) + enc_elems(vs)) by {
                reveal(crate::wire::enc_payload);
            }
            assert(b[i as int] == pl[0] && b[i as int + 1] == pl[1] && b[i as int + 2] == pl[2]
                && b[i as int + 3] == pl[3] && b[i as int + 4] == pl[4]);
            crate::nbt_tag::lemma_tag_type_id_round_trip();
            lemma_be32_round_trip(vs.len() as u32);
            let ll = i32_of_u32(
                be32_val(b[i as int + 1], b[i as int + 2], b[i as int + 3], b[i as int + 4]),
            );
            assert(ll == vs.len());
            assert forall|k: int| 0 <= k < enc_elems(vs).len() implies b[i + 5 + k] == enc_elems(
                vs,
            )[k] by {
                assert(b[i + (5 + k)] == pl[5 + k]);
                assert(pl[5 + k] == enc_elems(vs)[k]);
            }
            assert(b.subrange((i + 5) as int, (i + 5 + enc_elems(vs).len()) as int) =~= enc_elems(
                vs,
            ));
            lemma_dec_elems_of_enc(b, i + 5, vs, ty);
        },
        TagV::Compound { name, entries } => {
            assert(pl == enc_entries(entries) + seq![0u8]) by {
                reveal(crate::wire::enc_payload);
            }
            assert(b.subrange(i as int, (i + enc_entries(entries).len()) as int) =~= enc_entries(
                entries,
            ));
            assert(b[(i + enc_entries(entries).len()) as int] == pl[pl.len() - 1]);
            lemma_dec_entries_of_enc(b, i, entries);
        },
        TagV::IntArray { name, vs } => {
            lemma_dec_payload_intarray(b, i, name, vs);
        },
        TagV::LongArray { name, vs } => {
            lemma_dec_payload_longarray(b, i, name, vs);
        },
    }
}

/// Decoding the encoded body of a compound, up to and including its
/// closing `End` byte, recovers its entries exactly.
#[verifier::rlimit(100)]
#[verifier::spinoff_prover]
pub proof fn lemma_dec_entries_of_enc(b: Seq<u8>, i: nat, es: Seq<TagV>)
    requires
        wf_entries(es),
        i + enc_entries(es).len() + 1 <= b.len(),
        b.subrange(i as int, (i + enc_entries(es).len()) as int) == enc_entries(es),
        b[(i + enc_entries(es).len()) as int] == 0u8,
    ensures
        dec_entries(b, i) == Ok::<(Seq<TagV>, nat), NbtTagError>(
            (es, enc_entries(es).len() + 1),
        ),
    decreases es,
{
    let eb = enc_entries(es);
    assert(forall|k: int| 0 <= k < eb.len() ==> b[i + k] == #[trigger] eb[k]);
    if es.len() == 0 {
        assert(eb == Seq::<u8>::empty()) by {
            reveal(crate::wire::enc_payload);
        }
        assert(b[i as int] == 0u8);
        assert(es =~= Seq::<TagV>::empty());
    } else {
        let e0 = es[0];
        let name = tag_name(e0);
        let nl = name.len();
        let named = enc_named(e0);
        assert(eb == named + enc_entries(es.skip(1))) by {
            reveal(crate::wire::enc_payload);
        }
        assert(named == seq![spec_type_id(tag_kind(e0))] + enc_name(name) + enc_payload(e0)) by {
            reveal(crate::wire::enc_payload);
        }
        crate::nbt_tag::lemma_tag_type_id_round_trip();
        assert(forall|k: int| 0 <= k < named.len() ==> eb[k] == #[trigger] named[k]);
        assert(wf_value(e0));
        assert(b[i as int] == eb[0] && eb[0] == named[0]);
        assert(named[0] == spec_type_id(tag_kind(e0)));
        assert(!(e0 is End));
        assert(tag_kind(e0) != NbtTagType::End);
        lemma_be16_round_trip(nl as u16);
        assert(b[i as int + 1] == eb[1] && eb[1] == named[1]);
        assert(b[i as int + 2] == eb[2] && eb[2] == named[2]);
        assert(named[1] == be16_bytes(nl as u16)[0] && named[2] == be16_bytes(nl as u16)[1]);
        assert(be16_val(b[i as int + 1], b[i as int + 2]) as nat == nl);
        assert forall|k: int| 0 <= k < nl implies char_of_byte(b[i + 3 + k]) == name[k] by {
            assert(b[i + 3 + k] == eb[3 + k]);
            assert(eb[3 + k] == named[3 + k]);
            assert(named[3 + k] == byte_of_char(name[k]));
            vstd::utf8::char_u32_cast(name[k], name[k] as u32);
        }
        assert(Seq::new(nl, |k: int| char_of_byte(b[i + 3 + k])) =~= name);
        let p = i + 3 + nl;
        let c = enc_payload(e0).len();
        assert(named.len() == 3 + nl + c);
        assert forall|k: int| 0 <= k < c implies b[p + k] == enc_payload(e0)[k] by {
            assert(b[i + (3 + nl + k)] == eb[3 + nl + k]);
            assert(eb[3 + nl + k] == named[3 + nl + k]);
            assert(named[3 + nl + k] == enc_payload(e0)[k]);
        }
        assert(b.subrange(p as int, (p + c) as int) =~= enc_payload(e0));
        lemma_dec_value_of_enc(b, p, e0);
        let q = p + c;
        let tail = enc_entries(es.skip(1));
        assert forall|k: int| 0 <= k < tail.len() implies b[q + k] == tail[k] by {
            assert(b[i + (3 + nl + c + k)] == eb[3 + nl + c + k]);
            assert(eb[3 + nl + c + k] == tail[k]);
        }
        assert(b.subrange(q as int, (q + tail.len()) as int) =~= tail);
        assert(q + tail.len() == i + eb.len());
        assert(b[(q + tail.len()) as int] == 0u8);
        lemma_dec_entries_of_enc(b, q, es.skip(1));
        assert(dec_value(b, p, tag_kind(e0), Seq::new(nl, |k: int| char_of_byte(b[i + 3 + k])))
            == Ok::<(TagV, nat), NbtTagError>((e0, c)));
        assert(dec_entries(b, q) == Ok::<(Seq<TagV>, nat), NbtTagError>(
            (es.skip(1), tail.len() + 1),
        ));
        assert(dec_entries(b, i) == Ok::<(Seq<TagV>, nat), NbtTagError>(
            (seq![e0] + es.skip(1), 3 + nl + c + (tail.len() + 1)),
        ));
        assert(seq![e0] + es.skip(1) =~= es);
        assert(3 + nl + c + (tail.len() + 1) == eb.len() + 1);
        assert(dec_entries(b, i) == Ok::<(Seq<TagV>, nat), NbtTagError>((es, eb.len() + 1)));
    }
}

/// Decoding the encoded elements of a list recovers them exactly.
#[verifier::rlimit(100)]
#[verifier::spinoff_prover]
pub proof fn lemma_dec_elems_of_enc(b: Seq<u8>, i: nat, vs: Seq<TagV>, ty: NbtTagType)
    requires
        wf_elems(vs, ty),
        i + enc_elems(vs).len() <= b.len(),
        b.subrange(i as int, (i + enc_elems(vs).len()) as int) == enc_elems(vs),
    ensures
        dec_elems(b, i, ty, vs.len()) == Ok::<(Seq<TagV>, nat), NbtTagError>(
            (vs, enc_elems(vs).len()),
        ),
    decreases vs,
{
    if vs.len() == 0 {
        assert(enc_elems(vs) == Seq::<u8>::empty()) by {
            reveal(crate::wire::enc_payload);
        }
        assert(vs =~= Seq::<TagV>::empty());
    } else {
        let eb = enc_elems(vs);
        let e0 = vs[0];
        assert(eb == enc_payload(e0) + enc_elems(vs.skip(1))) by {
            reveal(crate::wire::enc_payload);
        }
        assert(forall|k: int| 0 <= k < eb.len() ==> b[i + k] == #[trigger] eb[k]);
        let c = enc_payload(e0).len();
        assert forall|k: int| 0 <= k < c implies b[i + k] == enc_payload(e0)[k] by {
            assert(b[i + k] == eb[k]);
            assert(eb[k] == enc_payload(e0)[k]);
        }
        assert(b.subrange(i as int, (i + c) as int) =~= enc_payload(e0));
        lemma_dec_value_of_enc(b, i, e0);
        let tail = enc_elems(vs.skip(1));
        assert forall|k: int| 0 <= k < tail.len() implies b[i + c + k] == tail[k] by {
            assert(b[i + (c + k)] == eb[c + k]);
            assert(eb[c + k] == tail[k]);
        }
        assert(b.subrange((i + c) as int, (i + c + tail.len()) as int) =~= tail);
        lemma_dec_elems_of_enc(b, i + c, vs.skip(1), ty);
        assert(wf_value(e0) && tag_kind(e0) == ty && tag_name(e0) == Seq::<char>::empty());
        assert(dec_value(b, i, ty, Seq::<char>::empty()) == Ok::<(TagV, nat), NbtTagError>(
            (e0, c),
        ));
        assert(vs.skip(1).len() == vs.len() - 1);
        assert(dec_elems(b, i + c, ty, (vs.len() - 1) as nat) == Ok::<
            (Seq<TagV>, nat),
            NbtTagError,
        >((vs.skip(1), tail.len())));
        assert(dec_elems(b, i, ty, vs.len()) == Ok::<(Seq<TagV>, nat), NbtTagError>(
            (seq![e0] + vs.skip(1), c + tail.len()),
        ));
        assert(seq![e0] + vs.skip(1) =~= vs);
        assert((seq![e0] + vs.skip(1)) =~= vs);
        assert(dec_elems(b, i, ty, vs.len()) == Ok::<(Seq<TagV>, nat), NbtTagError>(
            (vs, c + tail.len()),
        ));
    }
}

/// Decoding an encoded well-formed document recovers it exactly, byte
/// count included: decode is a left inverse of encode.
#[verifier::rlimit(100)]
pub proof fn lemma_decode_encode_round_trip(c: CompoundV)
    requires
        wf_compound(c),
    ensures
        dec_root(enc_doc(c)) == Ok::<(CompoundV, nat), NbtTagError>((c, enc_doc(c).len())),
{
    let b = enc_doc(c);
    let t = TagV::Compound { name: c.name, entries: c.entries };
    assert(b == seq![10u8] + enc_name(c.name) + (enc_entries(c.entries) + seq![0u8])) by {
        reveal(crate::wire::enc_payload);
    }
    crate::nbt_tag::lemma_tag_type_id_round_trip();
    assert(b[0] == 10u8);
    let nl = c.name.len();
    lemma_be16_round_trip(nl as u16);
    assert(b[1] == enc_name(c.name)[0] && b[2] == enc_name(c.name)[1]);
    assert(enc_name(c.name)[0] == be16_bytes(nl as u16)[0] && enc_name(c.name)[1] == be16_bytes(
        nl as u16,
    )[1]);
    assert(be16_val(b[1], b[2]) as nat == nl);
    assert forall|k: int| 0 <= k < nl implies char_of_byte(b[3 + k]) == c.name[k] by {
        assert(b[3 + k] == enc_name(c.name)[2 + k]);
        assert(enc_name(c.name)[2 + k] == byte_of_char(c.name[k]));
        vstd::utf8::char_u32_cast(c.name[k], c.name[k] as u32);
    }
    assert(Seq::new(nl, |k: int| char_of_byte(b[3 + k])) =~= c.name);
    let p = 3 + nl;
    assert(b.subrange(p as int, (p + enc_entries(c.entries).len()) as int) =~= enc_entries(
        c.entries,
    ));
    assert(b[(p + enc_entries(c.entries).len()) as int] == 0u8);
    lemma_dec_entries_of_enc(b, p, c.entries);
}

/// Re-encoding a successfully decoded payload reproduces exactly the
/// bytes it was decoded from.
#[verifier::rlimit(100)]
#[verifier::spinoff_prover]
pub proof fn lemma_enc_of_dec_value(b: Seq<u8>, i: nat, ty: NbtTagType, name: Seq<char>)
    ensures
        dec_value(b, i, ty, name) matches Ok(p) ==> i + p.1 <= b.len() && enc_payload(p.0)
            == b.subrange(i as int, (i + p.1) as int),
    decreases rem_len(b, i), 0nat, 1nat,
{
    if dec_value(b, i, ty, name) is Ok {
        let p = dec_value(b, i, ty, name)->Ok_0;
        let t = p.0;
        let c = p.1;
        match ty {
            NbtTagType::End => {},
            NbtTagType::Byte => {
                assert(enc_payload(t) == seq![u8_of_i8(i8_of_u8(b[i as int]))]) by {
                    reveal(crate::wire::enc_payload);
                }
                assert(u8_of_i8(i8_of_u8(b[i as int])) == b[i as int]);
                assert(enc_payload(t) =~= b.subrange(i as int, (i + 1) as int));
            },
            NbtTagType::Short => {
                let v = be16_val(b[i as int], b[i as int + 1]);
                assert(enc_payload(t) == be16_bytes(u16_of_i16(i16_of_u16(v)))) by {
                    reveal(crate::wire::enc_payload);
                }
                assert(u16_of_i16(i16_of_u16(v)) == v);
                lemma_be16_bytes_of_val(b[i as int], b[i as int + 1]);
                assert(enc_payload(t) =~= b.subrange(i as int, (i + 2) as int));
            },
            NbtTagType::Int => {
                let v = be32_val(b[i as int], b[i as int + 1], b[i as int + 2], b[i as int + 3]);
                assert(enc_payload(t) == be32_bytes(u32_of_i32(i32_of_u32(v)))) by {
                    reveal(crate::wire::enc_payload);
                }
                assert(u32_of_i32(i32_of_u32(v)) == v);
                lemma_be32_bytes_of_val(
                    b[i as int],
                    b[i as int + 1],
                    b[i as int + 2],
                    b[i as int + 3],
                );
                assert(enc_payload(t) =~= b.subrange(i as int, (i + 4) as int));
            },
            NbtTagType::Long => {
                let v = be64_val(
                    b[i as int],
                    b[i as int + 1],
                    b[i as int + 2],
                    b[i as int + 3],
                    b[i as int + 4],
                    b[i as int + 5],
                    b[i as int + 6],
                    b[i as int + 7],
                );
                assert(enc_payload(t) == be64_bytes(u64_of_i64(i64_of_u64(v)))) by {
                    reveal(crate::wire::enc_payload);
                }
                assert(u64_of_i64(i64_of_u64(v)) == v);
                lemma_be64_bytes_of_val(
                    b[i as int],
                    b[i as int + 1],
                    b[i as int + 2],
                    b[i as int + 3],
                    b[i as int + 4],
                    b[i as int + 5],
                    b[i as int + 6],
                    b[i as int + 7],
                );
                assert(enc_payload(t) =~= b.subrange(i as int, (i + 8) as int));
            },
            NbtTagType::Float => {
                assert(enc_payload(t) == be32_bytes(
                    be32_val(b[i as int], b[i as int + 1], b[i as int + 2], b[i as int + 3]),
                )) by {
                    reveal(crate::wire::enc_payload);
                }
                lemma_be32_bytes_of_val(
                    b[i as int],
                    b[i as int + 1],
                    b[i as int + 2],
                    b[i as int + 3],
                );
                assert(enc_payload(t) =~= b.subrange(i as int, (i + 4) as int));
            },
            NbtTagType::Double => {
                assert(enc_payload(t) == be64_bytes(
                    be64_val(
                        b[i as int],
                        b[i as int + 1],
                        b[i as int + 2],
                        b[i as int + 3],
                        b[i as int + 4],
                        b[i as int + 5],
                        b[i as int + 6],
                        b[i as int + 7],
                    ),
                )) by {
                    reveal(crate::wire::enc_payload);
                }
                lemma_be64_bytes_of_val(
                    b[i as int],
                    b[i as int + 1],
                    b[i as int + 2],
                    b[i as int + 3],
                    b[i as int + 4],
                    b[i as int + 5],
                    b[i as int + 6],
                    b[i as int + 7],
                );
                assert(enc_payload(t) =~= b.subrange(i as int, (i + 8) as int));
            },
            NbtTagType::ByteArray => {
                let vs = t->ByteArray_vs;
                let u = be32_val(b[i as int], b[i as int + 1], b[i as int + 2], b[i as int + 3]);
                assert(u == vs.len());
                assert(enc_payload(t) == be32_bytes(vs.len() as u32) + enc_i8s(vs)) by {
                    reveal(crate::wire::enc_payload);
                }
                lemma_be32_bytes_of_val(
                    b[i as int],
                    b[i as int + 1],
                    b[i as int + 2],
                    b[i as int + 3],
                );
                lemma_enc_i8s_index(vs);
                assert forall|k: int| 0 <= k < vs.len() implies enc_i8s(vs)[k] == b[i + 4 + k] by {
                    assert(enc_i8s(vs)[k] == u8_of_i8(vs[k]));
                    assert(vs[k] == i8_of_u8(b[i + 4 + k]));
                }
                assert(enc_payload(t) =~= b.subrange(i as int, (i + c) as int));
            },
            NbtTagType::String => {
                let v = t->Str_v;
                let sl = be16_val(b[i as int], b[i as int + 1]) as nat;
                assert(v.len() == sl);
                assert(enc_payload(t) == be16_bytes(v.len() as u16) + bytes_of_chars(v)) by {
                    reveal(crate::wire::enc_payload);
                }
                lemma_be16_bytes_of_val(b[i as int], b[i as int + 1]);
                assert forall|k: int| 0 <= k < sl implies bytes_of_chars(v)[k] == b[i + 2 + k] by {
                    assert(v[k] == char_of_byte(b[i + 2 + k]));
                    assert(bytes_of_chars(v)[k] == byte_of_char(char_of_byte(b[i + 2 + k])));
                }
                assert(enc_payload(t) =~= b.subrange(i as int, (i + c) as int));
            },
            NbtTagType::List => {
                let ety = spec_type_from_id(b[i as int])->Ok_0;
                let vs = t->List_vs;
                crate::nbt_tag::lemma_tag_type_id_round_trip();
                assert(spec_type_id(ety) == b[i as int]);
                let u = be32_val(b[i as int + 1], b[i as int + 2], b[i as int + 3], b[i as int + 4]);
                lemma_enc_of_dec_elems(b, i + 5, ety, i32_of_u32(u) as nat);
                assert(vs.len() == i32_of_u32(u));
                assert(u == vs.len());
                assert(enc_payload(t) == seq![spec_type_id(ety)] + be32_bytes(vs.len() as u32)
                    + enc_elems(vs)) by {
                    reveal(crate::wire::enc_payload);
                }
                lemma_be32_bytes_of_val(
                    b[i as int + 1],
                    b[i as int + 2],
                    b[i as int + 3],
                    b[i as int + 4],
                );
                assert(enc_payload(t) =~= b.subrange(i as int, (i + c) as int));
            },
            NbtTagType::Compound => {
                lemma_enc_of_dec_entries(b, i);
                assert(enc_payload(t) == enc_entries(t->Compound_entries) + seq![0u8]) by {
                    reveal(crate::wire::enc_payload);
                }
                assert(enc_payload(t) =~= b.subrange(i as int, (i + c) as int));
            },
            NbtTagType::IntArray => {
                let vs = t->IntArray_vs;
                let u = be32_val(b[i as int], b[i as int + 1], b[i as int + 2], b[i as int + 3]);
                assert(u == vs.len());
                assert(enc_payload(t) == be32_bytes(vs.len() as u32) + enc_i32s(vs)) by {
                    reveal(crate::wire::enc_payload);
                }
                lemma_be32_bytes_of_val(
                    b[i as int],
                    b[i as int + 1],
                    b[i as int + 2],
                    b[i as int + 3],
                );
                lemma_enc_i32s_index(vs);
                assert forall|j: int| 0 <= j < 4 * vs.len() implies enc_i32s(vs)[j] == b[i + 4
                    + j] by {
                    let k = j / 4;
                    let r = j % 4;
                    assert(enc_i32s(vs)[j] == be32_bytes(u32_of_i32(vs[k]))[r]);
                    assert(vs[k] == i32_of_u32(
                        be32_val(
                            b[i + 4 + 4 * k],
                            b[i + 4 + 4 * k + 1],
                            b[i + 4 + 4 * k + 2],
                            b[i + 4 + 4 * k + 3],
                        ),
                    ));
                    lemma_be32_bytes_of_val(
                        b[i + 4 + 4 * k],
                        b[i + 4 + 4 * k + 1],
                        b[i + 4 + 4 * k + 2],
                        b[i + 4 + 4 * k + 3],
                    );
                    assert(j == 4 * k + r);
                }
                assert(enc_payload(t) =~= b.subrange(i as int, (i + c) as int));
            },
            NbtTagType::LongArray => {
                let vs = t->LongArray_vs;
                let u = be32_val(b[i as int], b[i as int + 1], b[i as int + 2], b[i as int + 3]);
                assert(u == vs.len());
                assert(enc_payload(t) == be32_bytes(vs.len() as u32) + enc_i64s(vs)) by {
                    reveal(crate::wire::enc_payload);
                }
                lemma_be32_bytes_of_val(
                    b[i as int],
                    b[i as int + 1],
                    b[i as int + 2],
                    b[i as int + 3],
                );
                lemma_enc_i64s_index(vs);
                assert forall|j: int| 0 <= j < 8 * vs.len() implies enc_i64s(vs)[j] == b[i + 4
                    + j] by {
                    let k = j / 8;
                    let r = j % 8;
                    assert(enc_i64s(vs)[j] == be64_bytes(u64_of_i64(vs[k]))[r]);
                    assert(vs[k] == i64_of_u64(
                        be64_val(
                            b[i + 4 + 8 * k],
                            b[i + 4 + 8 * k + 1],
                            b[i + 4 + 8 * k + 2],
                            b[i + 4 + 8 * k + 3],
                            b[i + 4 + 8 * k + 4],
                            b[i + 4 + 8 * k + 5],
                            b[i + 4 + 8 * k + 6],
                            b[i + 4 + 8 * k + 7],
                        ),
                    ));
                    lemma_be64_bytes_of_val(
                        b[i + 4 + 8 * k],
                        b[i + 4 + 8 * k + 1],
                        b[i + 4 + 8 * k + 2],
                        b[i + 4 + 8 * k + 3],
                        b[i + 4 + 8 * k + 4],
                        b[i + 4 + 8 * k + 5],
                        b[i + 4 + 8 * k + 6],
                        b[i + 4 + 8 * k + 7],
                    );
                    assert(j == 8 * k + r);
                }
                assert(enc_payload(t) =~= b.subrange(i as int, (i + c) as int));
            },
        }
    }
}

/// Re-encoding decoded compound entries, with the closing `End` byte,
/// reproduces the bytes they were decoded from.
#[verifier::rlimit(100)]
#[verifier::spinoff_prover]
pub proof fn lemma_enc_of_dec_entries(b: Seq<u8>, i: nat)
    ensures
        dec_entries(b, i) matches Ok(p) ==> i + p.1 <= b.len() && enc_entries(p.0) + seq![0u8]
            == b.subrange(i as int, (i + p.1) as int),
    decreases rem_len(b, i), 0nat, 0nat,
{
    if dec_entries(b, i) is Ok {
        let p = dec_entries(b, i)->Ok_0;
        let ty = spec_type_from_id(b[i as int])->Ok_0;
        crate::nbt_tag::lemma_tag_type_id_round_trip();
        assert(spec_type_id(ty) == b[i as int]);
        if ty == NbtTagType::End {
            assert(enc_entries(p.0) == Seq::<u8>::empty()) by {
                reveal(crate::wire::enc_payload);
            }
            assert(enc_entries(p.0) + seq![0u8] =~= b.subrange(i as int, (i + 1) as int));
        } else {
            let nl = be16_val(b[i as int + 1], b[i as int + 2]) as nat;
            let nm = Seq::new(nl, |k: int| char_of_byte(b[i + 3 + k]));
            let pv = dec_value(b, i + 3 + nl, ty, nm)->Ok_0;
            let t = pv.0;
            let c = pv.1;
            lemma_enc_of_dec_value(b, i + 3 + nl, ty, nm);
            let q = i + 3 + nl + c;
            lemma_enc_of_dec_entries(b, q);
            let pr = dec_entries(b, q)->Ok_0;
            let rest = pr.0;
            let c2 = pr.1;
            assert(p.0 == seq![t] + rest);
            assert(p.1 == 3 + nl + c + c2);
            lemma_dec_value_name(b, i + 3 + nl, ty, nm);
            assert(enc_entries(p.0) == enc_named(t) + enc_entries(rest)) by {
                reveal(crate::wire::enc_payload);
                assert((seq![t] + rest)[0] == t);
                assert((seq![t] + rest).skip(1) =~= rest);
            }
            assert(enc_named(t) == seq![spec_type_id(ty)] + enc_name(nm) + enc_payload(t)) by {
                reveal(crate::wire::enc_payload);
            }
            lemma_be16_bytes_of_val(b[i as int + 1], b[i as int + 2]);
            assert(nm.len() as u16 == be16_val(b[i as int + 1], b[i as int + 2]));
            assert forall|k: int| 0 <= k < nl implies bytes_of_chars(nm)[k] == b[i + 3 + k] by {
                assert(nm[k] == char_of_byte(b[i + 3 + k]));
                assert(bytes_of_chars(nm)[k] == byte_of_char(char_of_byte(b[i + 3 + k])));
            }
            assert(enc_payload(t) == b.subrange((i + 3 + nl) as int, q as int));
            assert(enc_entries(rest) + seq![0u8] == b.subrange(q as int, (q + c2) as int));
            let lhs = enc_entries(p.0) + seq![0u8];
            assert(enc_name(nm).len() == 2 + nl);
            assert(enc_named(t).len() == 3 + nl + c);
            assert(q + c2 <= b.len());
            assert(b.subrange(q as int, (q + c2) as int).len() == c2);
            assert((enc_entries(rest) + seq![0u8]).len() == c2);
            assert(enc_entries(rest).len() + 1 == c2);
            assert(lhs.len() == p.1);
            assert forall|j: int| 0 <= j < p.1 implies lhs[j] == b[i + j] by {
                if j < 3 + nl + c {
                    assert(lhs[j] == enc_entries(p.0)[j]);
                    assert(enc_entries(p.0)[j] == (enc_named(t) + enc_entries(rest))[j]);
                    assert((enc_named(t) + enc_entries(rest))[j] == enc_named(t)[j]);
                    assert(enc_named(t)[j] == (seq![spec_type_id(ty)] + enc_name(nm)
                        + enc_payload(t))[j]);
                    if j == 0 {
                        assert(enc_named(t)[0] == spec_type_id(ty));
                    } else if j < 3 + nl {
                        assert(enc_named(t)[j] == enc_name(nm)[j - 1]);
                        if j < 3 {
                            assert(enc_name(nm)[j - 1] == be16_bytes(nm.len() as u16)[j - 1]);
                        } else {
                            assert(enc_name(nm)[j - 1] == bytes_of_chars(nm)[j - 3]);
                        }
                    } else {
                        assert(enc_named(t)[j] == enc_payload(t)[j - (3 + nl)]);
                        assert(enc_payload(t)[j - (3 + nl)] == b.subrange(
                            (i + 3 + nl) as int,
                            q as int,
                        )[j - (3 + nl)]);
                    }
                } else {
                    let m = j - (3 + nl + c);
                    if m < enc_entries(rest).len() {
                        assert(lhs[j] == enc_entries(p.0)[j]);
                        assert(enc_entries(p.0)[j] == (enc_named(t) + enc_entries(rest))[j]);
                        assert((enc_named(t) + enc_entries(rest))[j] == enc_entries(rest)[m]);
                        assert(enc_entries(rest)[m] == (enc_entries(rest) + seq![0u8])[m]);
                    } else {
                        assert(lhs[j] == 0u8);
                        assert((enc_entries(rest) + seq![0u8])[m] == 0u8);
                    }
                    assert((enc_entries(rest) + seq![0u8])[m] == b.subrange(
                        q as int,
                        (q + c2) as int,
                    )[m]);
                }
            }
            assert(enc_entries(p.0) + seq![0u8] =~= b.subrange(i as int, (i + p.1) as int));
        }
    }
}

/// Re-encoding decoded list elements reproduces the bytes they were
/// decoded from.
#[verifier::rlimit(100)]
#[verifier::spinoff_prover]
pub proof fn lemma_enc_of_dec_elems(b: Seq<u8>, i: nat, ty: NbtTagType, n: nat)
    ensures
        i <= b.len() ==> (dec_elems(b, i, ty, n) matches Ok(p) ==> i + p.1 <= b.len()
            && p.0.len() == n && enc_elems(p.0) == b.subrange(i as int, (i + p.1) as int)),
    decreases rem_len(b, i), n, 2nat,
{
    if i <= b.len() && dec_elems(b, i, ty, n) is Ok {
        let p = dec_elems(b, i, ty, n)->Ok_0;
        if n == 0 {
            assert(enc_elems(p.0) == Seq::<u8>::empty()) by {
                reveal(crate::wire::enc_payload);
            }
            assert(enc_elems(p.0) =~= b.subrange(i as int, i as int));
        } else {
            let pv = dec_value(b, i, ty, Seq::empty())->Ok_0;
            let t = pv.0;
            let c = pv.1;
            lemma_enc_of_dec_value(b, i, ty, Seq::empty());
            lemma_enc_of_dec_elems(b, i + c, ty, (n - 1) as nat);
            let pr = dec_elems(b, i + c, ty, (n - 1) as nat)->Ok_0;
            let rest = pr.0;
            let c2 = pr.1;
            assert(p.0 == seq![t] + rest);
            assert(p.1 == c + c2);
            assert(enc_elems(p.0) == enc_payload(t) + enc_elems(rest)) by {
                reveal(crate::wire::enc_payload);
                assert((seq![t] + rest)[0] == t);
                assert((seq![t] + rest).skip(1) =~= rest);
            }
            assert(enc_payload(t) == b.subrange(i as int, (i + c) as int));
            assert(enc_elems(rest) == b.subrange((i + c) as int, (i + c + c2) as int));
            assert(enc_elems(p.0) =~= b.subrange(i as int, (i + p.1) as int));
        }
    }
}

/// Re-encoding a decoded document reproduces exactly the bytes the
/// decoder consumed: encode is a left inverse of decode, byte for
/// byte, up to the consumed prefix.
#[verifier::rlimit(100)]
pub proof fn lemma_encode_decode_round_trip(b: Seq<u8>)
    ensures
        dec_root(b) matches Ok(p) ==> p.1 <= b.len() && enc_doc(p.0) == b.subrange(0, p.1 as int),
{
    if dec_root(b) is Ok {
        let p = dec_root(b)->Ok_0;
        let c = p.0;
        crate::nbt_tag::lemma_tag_type_id_round_trip();
        assert(b[0] == 10u8);
        let nl = be16_val(b[1], b[2]) as nat;
        let q = 3 + nl;
        lemma_enc_of_dec_entries(b, q);
        let pr = dec_entries(b, q)->Ok_0;
        assert(enc_doc(c) == seq![10u8] + enc_name(c.name) + (enc_entries(c.entries) + seq![
            0u8,
        ])) by {
            reveal(crate::wire::enc_payload);
        }
        lemma_be16_bytes_of_val(b[1], b[2]);
        assert(c.name.len() as u16 == be16_val(b[1], b[2]));
        assert forall|k: int| 0 <= k < nl implies bytes_of_chars(c.name)[k] == b[3 + k] by {
            assert(c.name[k] == char_of_byte(b[3 + k]));
            assert(bytes_of_chars(c.name)[k] == byte_of_char(char_of_byte(b[3 + k])));
        }
        assert(enc_entries(c.entries) + seq![0u8] == b.subrange(q as int, (q + pr.1) as int));
        assert(enc_doc(c) =~= b.subrange(0, p.1 as int));
    }
}

/// Decodes a whole document: a root that must be a compound, its name,
/// its entries.  On success the result carries the number of bytes
/// consumed; trailing bytes are not an error.
pub open spec fn dec_root(b: Seq<u8>) -> Result<(CompoundV, nat), NbtTagError> {
    if 1 <= b.len() {
        match spec_type_from_id(b[0]) {
            Err(e) => Err(e),
            Ok(ty) => if ty != NbtTagType::Compound {
                Err(NbtTagError::InvalidTagType(0))
            } else if 3 <= b.len() {
                let nl = be16_val(b[1], b[2]) as nat;
                if 3 + nl <= b.len() {
                    let nm = Seq::new(nl, |k: int| char_of_byte(b[3 + k]));
                    match dec_entries(b, 3 + nl) {
                        Err(e) => Err(e),
                        Ok((es, c)) => Ok((CompoundV { name: nm, entries: es }, 3 + nl + c)),
                    }
                } else {
                    Err(NbtTagError::UnexpectedEof)
                }
            } else {
                Err(NbtTagError::UnexpectedEof)
            },
        }
    } else {
        Err(NbtTagError::UnexpectedEof)
    }
}

} // verus!
