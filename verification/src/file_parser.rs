//! The decoder: from a byte buffer to a tag tree.  Every function here
//! is proved to agree with the byte-level decoding relation of the wire
//! module, error for error and byte for byte.

use vstd::prelude::*;

use crate::generic_bin::FileType;
use crate::nbt_tag::NbtTag;
use crate::nbt_tag::NbtTagByte;
use crate::nbt_tag::NbtTagByteArray;
use crate::nbt_tag::NbtTagCompound;
use crate::nbt_tag::NbtTagDouble;
use crate::nbt_tag::NbtTagError;
use crate::nbt_tag::NbtTagFloat;
use crate::nbt_tag::NbtTagInt;
use crate::nbt_tag::NbtTagIntArray;
use crate::nbt_tag::NbtTagList;
use crate::nbt_tag::NbtTagLong;
use crate::nbt_tag::NbtTagLongArray;
use crate::nbt_tag::NbtTagShort;
use crate::nbt_tag::NbtTagString;
use crate::nbt_tag::NbtTagType;
use crate::nbt_tag::spec_type_from_id;
use crate::nbt_tag::TagV;
use crate::nbt_tag::lemma_seq_tag_views;
use crate::nbt_tag::seq_tag_views;
use crate::nbt_tag::tag_view;
use crate::wire::char_of_byte;
use crate::wire::char_from_byte;
use crate::wire::dec_elems;
use crate::wire::dec_entries;
use crate::wire::dec_root;
use crate::wire::dec_value;
use crate::wire::dedup_elems;
use crate::wire::dedup_entries;
use crate::wire::dedup_value;
use crate::wire::i16_from_u16;
use crate::wire::i32_from_u32;
use crate::wire::i64_from_u64;
use crate::wire::i8_from_u8;
use crate::wire::i8_of_u8;
use crate::wire::i32_of_u32;
use crate::wire::i64_of_u64;
use crate::wire::lemma_dec_value_name;
use crate::wire::read_u16_be;
use crate::wire::read_u32_be;
use crate::wire::read_u64_be;
use crate::wire::read_u8;
use crate::wire::rem_len;

verus! {

/// How a file is read before parsing.
pub enum ReadMode {
    EntireFile,
    Stream,
}

/// A parser bound to a file path; the reading itself is the caller's
/// affair, the parsing of the bytes happens in [`parse_bytes`].
pub struct FileParser {
    pub file_path: String,
    pub read_mode: ReadMode,
    pub file_type: FileType,
}

impl FileParser {
    /// Binds a parser to a path, a read mode and a file type.
    pub fn new(file_path: String, read_mode: ReadMode, file_type: FileType) -> (r: Self)
        ensures
            r.file_path@ == file_path@,
            r.read_mode == read_mode,
            r.file_type == file_type,
    {
        FileParser { file_path, read_mode, file_type }
    }
}

/// Builds the string of the `n` one-byte characters at `pos`.
fn read_chars(bytes: &[u8], pos: usize, n: usize) -> (s: String)
    requires
        pos + n <= bytes@.len(),
    ensures
        s@ == Seq::new(n as nat, |k: int| char_of_byte(bytes@[pos + k])),
{
    let total = bytes.len();
    let mut s = String::new();
    let mut k: usize = 0;
    proof {
        assert(s@ =~= Seq::new(0, |j: int| char_of_byte(bytes@[pos + j])));
    }
    while k < n
        invariant
            pos + n <= bytes@.len(),
            bytes@.len() == total,
            k <= n,
            s@ == Seq::new(k as nat, |j: int| char_of_byte(bytes@[pos + j])),
        decreases n - k,
    {
        s.push(char_from_byte(read_u8(bytes, pos + k)));
        proof {
            assert(s@ =~= Seq::new((k + 1) as nat, |j: int| char_of_byte(bytes@[pos + j])));
        }
        k += 1;
    }
    s
}

/// Parses one value of kind `ty` at `pos`, attaching `name`.  The
/// result agrees with the decoding relation: the same value (with
/// duplicate compound keys resolved), the same consumed bytes, the
/// same error.
#[verifier::rlimit(100)]
#[verifier::spinoff_prover]
pub fn parse_value(bytes: &[u8], pos: usize, ty: NbtTagType, name: String) -> (r: Result<
    (NbtTag, usize),
    NbtTagError,
>)
    requires
        pos <= bytes@.len(),
    ensures
        match dec_value(bytes@, pos as nat, ty, name@) {
            Ok(p) => r matches Ok(q) && q.0@ == dedup_value(p.0) && q.1 == pos + p.1 && pos < q.1
                <= bytes@.len(),
            Err(e) => r matches Err(e2) && e2 == e,
        },
    decreases rem_len(bytes@, pos as nat), 1int,
{
    match ty {
        NbtTagType::End => Err(NbtTagError::InvalidTagType(0)),
        NbtTagType::Byte => {
            if bytes.len() - pos < 1 {
                return Err(NbtTagError::UnexpectedEof);
            }
            let v = i8_from_u8(read_u8(bytes, pos));
            Ok((NbtTag::Byte(NbtTagByte { name, value: v }), pos + 1))
        },
        NbtTagType::Short => {
            if bytes.len() - pos < 2 {
                return Err(NbtTagError::UnexpectedEof);
            }
            let v = i16_from_u16(read_u16_be(bytes, pos));
            Ok((NbtTag::Short(NbtTagShort { name, value: v }), pos + 2))
        },
        NbtTagType::Int => {
            if bytes.len() - pos < 4 {
                return Err(NbtTagError::UnexpectedEof);
            }
            let v = i32_from_u32(read_u32_be(bytes, pos));
            Ok((NbtTag::Int(NbtTagInt { name, value: v }), pos + 4))
        },
        NbtTagType::Long => {
            if bytes.len() - pos < 8 {
                return Err(NbtTagError::UnexpectedEof);
            }
            let v = i64_from_u64(read_u64_be(bytes, pos));
            Ok((NbtTag::Long(NbtTagLong { name, value: v }), pos + 8))
        },
        NbtTagType::Float => {
            if bytes.len() - pos < 4 {
                return Err(NbtTagError::UnexpectedEof);
            }
            let bits = read_u32_be(bytes, pos);
            Ok((NbtTag::Float(NbtTagFloat { name, bits }), pos + 4))
        },
        NbtTagType::Double => {
            if bytes.len() - pos < 8 {
                return Err(NbtTagError::UnexpectedEof);
            }
            let bits = read_u64_be(bytes, pos);
            Ok((NbtTag::Double(NbtTagDouble { name, bits }), pos + 8))
        },
        NbtTagType::ByteArray => {
            if bytes.len() - pos < 4 {
                return Err(NbtTagError::UnexpectedEof);
            }
            let alen_signed = i32_from_u32(read_u32_be(bytes, pos));
            if alen_signed < 0 || alen_signed > 65536 {
                return Err(NbtTagError::MaxNbtListLengthExceeded);
            }
            let alen = alen_signed as usize;
            if bytes.len() - (pos + 4) < alen {
                return Err(NbtTagError::UnexpectedEof);
            }
            let total = bytes.len();
            let mut values: Vec<i8> = Vec::new();
            let mut k: usize = 0;
            while k < alen
                invariant
                    pos + 4 + alen <= bytes@.len(),
                    bytes@.len() == total,
                    k <= alen,
                    values@ == Seq::new(k as nat, |j: int| i8_of_u8(bytes@[pos + 4 + j])),
                decreases alen - k,
            {
                values.push(i8_from_u8(read_u8(bytes, pos + 4 + k)));
                proof {
                    assert(values@ =~= Seq::new(
                        (k + 1) as nat,
                        |j: int| i8_of_u8(bytes@[pos + 4 + j]),
                    ));
                }
                k += 1;
            }
            Ok((NbtTag::ByteArray(NbtTagByteArray { name, values }), pos + 4 + alen))
        },
        NbtTagType::String => {
            if bytes.len() - pos < 2 {
                return Err(NbtTagError::UnexpectedEof);
            }
            let sl = read_u16_be(bytes, pos) as usize;
            if bytes.len() - (pos + 2) < sl {
                return Err(NbtTagError::UnexpectedEof);
            }
            let v = read_chars(bytes, pos + 2, sl);
            Ok((NbtTag::String(NbtTagString { name, value: v }), pos + 2 + sl))
        },
        NbtTagType::List => {
            match parse_list(bytes, pos, name) {
                Err(e) => Err(e),
                Ok((l, np)) => Ok((NbtTag::List(l), np)),
            }
        },
        NbtTagType::Compound => {
            match parse_compound(bytes, pos, name) {
                Err(e) => Err(e),
                Ok((c, np)) => Ok((NbtTag::Compound(c), np)),
            }
        },
        NbtTagType::IntArray => {
            if bytes.len() - pos < 4 {
                return Err(NbtTagError::UnexpectedEof);
            }
            let alen_signed = i32_from_u32(read_u32_be(bytes, pos));
            if alen_signed < 0 || alen_signed > 65536 {
                return Err(NbtTagError::MaxNbtListLengthExceeded);
            }
            let alen = alen_signed as usize;
            if (bytes.len() - (pos + 4)) / 4 < alen {
                return Err(NbtTagError::UnexpectedEof);
            }
            let total = bytes.len();
            let mut values: Vec<i32> = Vec::new();
            let mut k: usize = 0;
            while k < alen
                invariant
                    pos + 4 + 4 * alen <= bytes@.len(),
                    bytes@.len() == total,
                    k <= alen,
                    values@ == Seq::new(
                        k as nat,
                        |j: int| i32_of_u32(
                            crate::wire::be32_val(
                                bytes@[pos + 4 + 4 * j],
                                bytes@[pos + 4 + 4 * j + 1],
                                bytes@[pos + 4 + 4 * j + 2],
                                bytes@[pos + 4 + 4 * j + 3],
                            ),
                        ),
                    ),
                decreases alen - k,
            {
                values.push(i32_from_u32(read_u32_be(bytes, pos + 4 + 4 * k)));
                proof {
                    assert(values@ =~= Seq::new(
                        (k + 1) as nat,
                        |j: int| i32_of_u32(
                            crate::wire::be32_val(
                                bytes@[pos + 4 + 4 * j],
                                bytes@[pos + 4 + 4 * j + 1],
                                bytes@[pos + 4 + 4 * j + 2],
                                bytes@[pos + 4 + 4 * j + 3],
                            ),
                        ),
                    ));
                }
                k += 1;
            }
            Ok((NbtTag::IntArray(NbtTagIntArray { name, values }), pos + 4 + 4 * alen))
        },
        NbtTagType::LongArray => {
            if bytes.len() - pos < 4 {
                return Err(NbtTagError::UnexpectedEof);
            }
            let alen_signed = i32_from_u32(read_u32_be(bytes, pos));
            if alen_signed < 0 || alen_signed > 65536 {
                return Err(NbtTagError::MaxNbtListLengthExceeded);
            }
            let alen = alen_signed as usize;
            if (bytes.len() - (pos + 4)) / 8 < alen {
                return Err(NbtTagError::UnexpectedEof);
            }
            let total = bytes.len();
            let mut values: Vec<i64> = Vec::new();
            let mut k: usize = 0;
            while k < alen
                invariant
                    pos + 4 + 8 * alen <= bytes@.len(),
                    bytes@.len() == total,
                    k <= alen,
                    values@ == Seq::new(
                        k as nat,
                        |j: int| i64_of_u64(
                            crate::wire::be64_val(
                                bytes@[pos + 4 + 8 * j],
                                bytes@[pos + 4 + 8 * j + 1],
                                bytes@[pos + 4 + 8 * j + 2],
                                bytes@[pos + 4 + 8 * j + 3],
                                bytes@[pos + 4 + 8 * j + 4],
                                bytes@[pos + 4 + 8 * j + 5],
                                bytes@[pos + 4 + 8 * j + 6],
                                bytes@[pos + 4 + 8 * j + 7],
                            ),
                        ),
                    ),
                decreases alen - k,
            {
                values.push(i64_from_u64(read_u64_be(bytes, pos + 4 + 8 * k)));
                proof {
                    assert(values@ =~= Seq::new(
                        (k + 1) as nat,
                        |j: int| i64_of_u64(
                            crate::wire::be64_val(
                                bytes@[pos + 4 + 8 * j],
                                bytes@[pos + 4 + 8 * j + 1],
                                bytes@[pos + 4 + 8 * j + 2],
                                bytes@[pos + 4 + 8 * j + 3],
                                bytes@[pos + 4 + 8 * j + 4],
                                bytes@[pos + 4 + 8 * j + 5],
                                bytes@[pos + 4 + 8 * j + 6],
                                bytes@[pos + 4 + 8 * j + 7],
                            ),
                        ),
                    ));
                }
                k += 1;
            }
            Ok((NbtTag::LongArray(NbtTagLongArray { name, values }), pos + 4 + 8 * alen))
        },
    }
}

/// Parses a list at `pos`: element kind, element count, then that many
/// unnamed values of that kind.
pub fn parse_list(bytes: &[u8], pos: usize, name: String) -> (r: Result<(NbtTagList, usize), NbtTagError>)
    requires
        pos <= bytes@.len(),
    ensures
        match dec_value(bytes@, pos as nat, NbtTagType::List, name@) {
            Ok(p) => r matches Ok(q) && tag_view(NbtTag::List(q.0)) == dedup_value(p.0) && q.1
                == pos + p.1 && pos < q.1 <= bytes@.len(),
            Err(e) => r matches Err(e2) && e2 == e,
        },
    decreases rem_len(bytes@, pos as nat), 0int,
{
    if bytes.len() - pos < 1 {
        return Err(NbtTagError::UnexpectedEof);
    }
    let ety = match NbtTagType::from_id(read_u8(bytes, pos)) {
        Err(e) => {
            return Err(e);
        },
        Ok(t) => t,
    };
    if bytes.len() - pos < 5 {
        return Err(NbtTagError::UnexpectedEof);
    }
    let ll_signed = i32_from_u32(read_u32_be(bytes, pos + 1));
    if ll_signed < 0 || ll_signed > 65536 {
        return Err(NbtTagError::MaxNbtListLengthExceeded);
    }
    let n = ll_signed as usize;
    let p5 = pos + 5;
    let total = bytes.len();
    let mut values: Vec<NbtTag> = Vec::new();
    let ghost mut raw: Seq<TagV> = Seq::empty();
    let mut cur: usize = p5;
    let mut k: usize = 0;
    proof {
        assert(seq_tag_views(values@) =~= dedup_elems(raw));
        assert(match dec_elems(bytes@, p5 as nat, ety, n as nat) {
            Ok(p) => Seq::<TagV>::empty() + p.0 =~= p.0,
            Err(_) => true,
        });
    }
    while k < n
        invariant
            p5 == pos + 5,
            p5 <= cur <= bytes@.len(),
            bytes@.len() == total,
            k <= n,
            n <= 65536,
            spec_type_from_id(bytes@[pos as int]) == Ok::<NbtTagType, NbtTagError>(ety),
            i32_of_u32(
                crate::wire::be32_val(
                    bytes@[pos as int + 1],
                    bytes@[pos as int + 2],
                    bytes@[pos as int + 3],
                    bytes@[pos as int + 4],
                ),
            ) == n as i32,
            raw.len() == k,
            seq_tag_views(values@) == dedup_elems(raw),
            values@.len() == k,
            match dec_elems(bytes@, cur as nat, ety, (n - k) as nat) {
                Ok(p) => dec_elems(bytes@, p5 as nat, ety, n as nat) == Ok::<
                    (Seq<TagV>, nat),
                    NbtTagError,
                >((raw + p.0, (cur - p5) as nat + p.1)),
                Err(e) => dec_elems(bytes@, p5 as nat, ety, n as nat) == Err::<
                    (Seq<TagV>, nat),
                    NbtTagError,
                >(e),
            },
        decreases n - k,
    {
        let nm = String::new();
        proof {
            assert(nm@ =~= Seq::<char>::empty());
        }
        match parse_value(bytes, cur, ety, nm) {
            Err(e) => {
                return Err(e);
            },
            Ok((tag, np)) => {
                let ghost t = match dec_value(bytes@, cur as nat, ety, Seq::empty()) {
                    Ok(p) => p.0,
                    Err(_) => TagV::End,
                };
                let ghost c = match dec_value(bytes@, cur as nat, ety, Seq::empty()) {
                    Ok(p) => p.1,
                    Err(_) => 0nat,
                };
                let ghost vpre = values@;
                values.push(tag);
                proof {
                    lemma_seq_tag_views(vpre);
                    lemma_seq_tag_views(values@);
                    assert(raw.push(t).drop_last() =~= raw);
                    assert(raw.push(t).last() == t);
                    assert(seq_tag_views(values@) =~= dedup_elems(raw.push(t)));
                    assert(raw.push(t) + (match dec_elems(
                        bytes@,
                        np as nat,
                        ety,
                        (n - (k + 1)) as nat,
                    ) {
                        Ok(p) => p.0,
                        Err(_) => Seq::empty(),
                    }) =~= raw + (seq![t] + (match dec_elems(
                        bytes@,
                        np as nat,
                        ety,
                        (n - (k + 1)) as nat,
                    ) {
                        Ok(p) => p.0,
                        Err(_) => Seq::empty(),
                    })));
                    raw = raw.push(t);
                }
                cur = np;
                k += 1;
            },
        }
    }
    proof {
        assert(dec_elems(bytes@, cur as nat, ety, 0) == Ok::<(Seq<TagV>, nat), NbtTagError>((
            Seq::empty(),
            0nat,
        )));
        assert(raw + Seq::<TagV>::empty() =~= raw);
    }
    let l = NbtTagList { name, ty: ety, values };
    proof {
        assert(tag_view(NbtTag::List(l)) == TagV::List {
            name: l.name@,
            ty: ety,
            vs: seq_tag_views(l.values@),
        });
    }
    Ok((l, cur))
}

/// Parses the body of a compound at `pos`: named entries up to and
/// including the closing `End` byte.  Entries read under an existing
/// name replace the earlier entry; the last occurrence wins.
pub fn parse_compound(bytes: &[u8], pos: usize, name: String) -> (r: Result<
    (NbtTagCompound, usize),
    NbtTagError,
>)
    requires
        pos <= bytes@.len(),
    ensures
        match dec_entries(bytes@, pos as nat) {
            Ok(p) => r matches Ok(q) && q.0@.name == name@ && q.0@.entries == dedup_entries(p.0)
                && q.1 == pos + p.1 && pos < q.1 <= bytes@.len(),
            Err(e) => r matches Err(e2) && e2 == e,
        },
    decreases rem_len(bytes@, pos as nat), 0int,
{
    let mut compound = NbtTagCompound::new(name.as_str());
    let ghost mut raw: Seq<TagV> = Seq::empty();
    let mut cur: usize = pos;
    let ghost total = bytes@.len();
    proof {
        assert(compound@.entries =~= dedup_entries(raw));
        assert(match dec_entries(bytes@, pos as nat) {
            Ok(p) => Seq::<TagV>::empty() + p.0 =~= p.0,
            Err(_) => true,
        });
    }
    loop
        invariant
            pos <= cur <= bytes@.len(),
            bytes@.len() == total,
            compound@.name == name@,
            compound@.entries == dedup_entries(raw),
            match dec_entries(bytes@, cur as nat) {
                Ok(p) => dec_entries(bytes@, pos as nat) == Ok::<(Seq<TagV>, nat), NbtTagError>((
                    raw + p.0,
                    (cur - pos) as nat + p.1,
                )),
                Err(e) => dec_entries(bytes@, pos as nat) == Err::<(Seq<TagV>, nat), NbtTagError>(
                    e,
                ),
            },
        decreases bytes@.len() - cur,
    {
        if bytes.len() - cur < 1 {
            return Err(NbtTagError::UnexpectedEof);
        }
        let id = read_u8(bytes, cur);
        let ty = match NbtTagType::from_id(id) {
            Err(e) => {
                return Err(e);
            },
            Ok(t) => t,
        };
        if ty == NbtTagType::End {
            proof {
                assert(raw + Seq::<TagV>::empty() =~= raw);
            }
            return Ok((compound, cur + 1));
        }
        if bytes.len() - cur < 3 {
            return Err(NbtTagError::UnexpectedEof);
        }
        let nl = read_u16_be(bytes, cur + 1) as usize;
        if bytes.len() - (cur + 3) < nl {
            return Err(NbtTagError::UnexpectedEof);
        }
        let nm = read_chars(bytes, cur + 3, nl);
        let nm2 = nm.clone();
        match parse_value(bytes, cur + 3 + nl, ty, nm) {
            Err(e) => {
                return Err(e);
            },
            Ok((tag, np)) => {
                let ghost nmv = Seq::new(nl as nat, |j: int| char_of_byte(bytes@[cur + 3 + j]));
                let ghost t = match dec_value(bytes@, (cur + 3 + nl) as nat, ty, nmv) {
                    Ok(p) => p.0,
                    Err(_) => TagV::End,
                };
                proof {
                    lemma_dec_value_name(bytes@, (cur + 3 + nl) as nat, ty, nmv);
                    crate::wire::lemma_dedup_keeps_name(t);
                }
                compound.insert(nm2, tag);
                proof {
                    assert(raw.push(t).drop_last() =~= raw);
                    assert(raw.push(t).last() == t);
                    assert(compound@.entries =~= dedup_entries(raw.push(t)));
                    assert(raw.push(t) + (match dec_entries(bytes@, np as nat) {
                        Ok(p) => p.0,
                        Err(_) => Seq::empty(),
                    }) =~= raw + (seq![t] + (match dec_entries(bytes@, np as nat) {
                        Ok(p) => p.0,
                        Err(_) => Seq::empty(),
                    })));
                    raw = raw.push(t);
                }
                cur = np;
            },
        }
    }
}

/// Parses a whole document.  The root must be a compound; its name and
/// entries are read, trailing bytes are ignored, and every error of the
/// decoding relation is surfaced unchanged.
pub fn parse_bytes(bytes: &[u8]) -> (r: Result<NbtTag, NbtTagError>)
    ensures
        match dec_root(bytes@) {
            Ok(p) => r matches Ok(t) && t@ == TagV::Compound {
                name: p.0.name,
                entries: dedup_entries(p.0.entries),
            },
            Err(e) => r matches Err(e2) && e2 == e,
        },
{
    if bytes.len() < 1 {
        return Err(NbtTagError::UnexpectedEof);
    }
    let ty = match NbtTagType::from_id(read_u8(bytes, 0)) {
        Err(e) => {
            return Err(e);
        },
        Ok(t) => t,
    };
    if !(ty == NbtTagType::Compound) {
        return Err(NbtTagError::InvalidTagType(0));
    }
    if bytes.len() < 3 {
        return Err(NbtTagError::UnexpectedEof);
    }
    let nl = read_u16_be(bytes, 1) as usize;
    if bytes.len() - 3 < nl {
        return Err(NbtTagError::UnexpectedEof);
    }
    let name = read_chars(bytes, 3, nl);
    match parse_compound(bytes, 3 + nl, name) {
        Err(e) => Err(e),
        Ok((compound, _end)) => Ok(NbtTag::Compound(compound)),
    }
}

} // verus!
