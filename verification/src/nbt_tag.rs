//! The tagged binary tree: a self-describing recursive format with twelve
//! value kinds plus the `End` sentinel.  This module holds the in-memory
//! model of a tag tree, its mathematical view, and the typed accessors.

use vstd::prelude::*;

use crate::wire::be16_bytes;
use crate::wire::be32_bytes;
use crate::wire::bytes_of_chars;
use crate::wire::enc_doc;
use crate::wire::enc_elems;
use crate::wire::enc_entries;
use crate::wire::enc_i32s;
use crate::wire::enc_i64s;
use crate::wire::enc_i8s;
use crate::wire::enc_name;
use crate::wire::enc_named;
use crate::wire::enc_payload;
use crate::wire::lemma_enc_i32s_snoc;
use crate::wire::lemma_enc_i64s_snoc;
use crate::wire::lemma_enc_i8s_snoc;
use crate::wire::lemma_wf_elems_index;
use crate::wire::lemma_wf_entries_index;
use crate::wire::low_char;
use crate::wire::push_u16_be;
use crate::wire::push_u32_be;
use crate::wire::push_u64_be;
use crate::wire::byte_from_char;
use crate::wire::u16_from_i16;
use crate::wire::u32_from_i32;
use crate::wire::u64_from_i64;
use crate::wire::u8_from_i8;
use crate::wire::wf_compound;
use crate::wire::wf_elems;
use crate::wire::wf_entries;
use crate::wire::wf_text;
use crate::wire::wf_value;
use vstd::string::StrSliceExecFns;

verus! {

/// Errors of the tag codec.
#[derive(Clone, Copy, Debug, PartialEq, Eq, Structural)]
pub enum NbtTagError {
    /// The input ended before the value it promises.
    UnexpectedEof,
    /// A kind byte outside `0..=12`, or a root that is not a compound,
    /// or an `End` value where a real value is required.
    InvalidTagType(u8),
    /// A list or array length that is negative or exceeds the guard.
    MaxNbtListLengthExceeded,
}

/// The kind of a tag, one for each wire id `0..=12`.
#[derive(Clone, Copy, Debug, PartialEq, Eq, Hash, Structural)]
pub enum NbtTagType {
    End,
    Byte,
    Short,
    Int,
    Long,
    Float,
    Double,
    ByteArray,
    String,
    List,
    Compound,
    IntArray,
    LongArray,
}

impl Default for NbtTagType {
    fn default() -> (r: Self)
        ensures
            r == NbtTagType::End,
    {
        NbtTagType::End
    }
}

/// The wire id of each tag kind.
pub open spec fn spec_type_id(t: NbtTagType) -> u8 {
    match t {
        NbtTagType::End => 0,
        NbtTagType::Byte => 1,
        NbtTagType::Short => 2,
        NbtTagType::Int => 3,
        NbtTagType::Long => 4,
        NbtTagType::Float => 5,
        NbtTagType::Double => 6,
        NbtTagType::ByteArray => 7,
        NbtTagType::String => 8,
        NbtTagType::List => 9,
        NbtTagType::Compound => 10,
        NbtTagType::IntArray => 11,
        NbtTagType::LongArray => 12,
    }
}

/// The tag kind denoted by a wire id, if the id is one.
pub open spec fn spec_type_from_id(id: u8) -> Result<NbtTagType, NbtTagError> {
    if id == 0 {
        Ok(NbtTagType::End)
    } else if id == 1 {
        Ok(NbtTagType::Byte)
    } else if id == 2 {
        Ok(NbtTagType::Short)
    } else if id == 3 {
        Ok(NbtTagType::Int)
    } else if id == 4 {
        Ok(NbtTagType::Long)
    } else if id == 5 {
        Ok(NbtTagType::Float)
    } else if id == 6 {
        Ok(NbtTagType::Double)
    } else if id == 7 {
        Ok(NbtTagType::ByteArray)
    } else if id == 8 {
        Ok(NbtTagType::String)
    } else if id == 9 {
        Ok(NbtTagType::List)
    } else if id == 10 {
        Ok(NbtTagType::Compound)
    } else if id == 11 {
        Ok(NbtTagType::IntArray)
    } else if id == 12 {
        Ok(NbtTagType::LongArray)
    } else {
        Err(NbtTagError::InvalidTagType(id))
    }
}

impl NbtTagType {
    /// The wire id of this kind.
    pub fn id(&self) -> (r: u8)
        ensures
            r == spec_type_id(*self),
    {
        match self {
            NbtTagType::End => 0,
            NbtTagType::Byte => 1,
            NbtTagType::Short => 2,
            NbtTagType::Int => 3,
            NbtTagType::Long => 4,
            NbtTagType::Float => 5,
            NbtTagType::Double => 6,
            NbtTagType::ByteArray => 7,
            NbtTagType::String => 8,
            NbtTagType::List => 9,
            NbtTagType::Compound => 10,
            NbtTagType::IntArray => 11,
            NbtTagType::LongArray => 12,
        }
    }

    /// Constructs a tag kind from its wire id; ids outside `0..=12` are
    /// rejected with `InvalidTagType`.
    pub fn from_id(id: u8) -> (r: Result<Self, NbtTagError>)
        ensures
            r == spec_type_from_id(id),
    {
        match id {
            0 => Ok(NbtTagType::End),
            1 => Ok(NbtTagType::Byte),
            2 => Ok(NbtTagType::Short),
            3 => Ok(NbtTagType::Int),
            4 => Ok(NbtTagType::Long),
            5 => Ok(NbtTagType::Float),
            6 => Ok(NbtTagType::Double),
            7 => Ok(NbtTagType::ByteArray),
            8 => Ok(NbtTagType::String),
            9 => Ok(NbtTagType::List),
            10 => Ok(NbtTagType::Compound),
            11 => Ok(NbtTagType::IntArray),
            12 => Ok(NbtTagType::LongArray),
            _ => Err(NbtTagError::InvalidTagType(id)),
        }
    }
}

/// Round trip of kinds and wire ids: every kind is recovered from its own
/// id, and an id outside `0..=12` names no kind.
pub proof fn lemma_tag_type_id_round_trip()
    ensures
        forall|t: NbtTagType| spec_type_from_id(spec_type_id(t)) == Ok::<NbtTagType, NbtTagError>(t),
        forall|id: u8|
            (#[trigger] spec_type_from_id(id)) matches Ok(t) ==> spec_type_id(t) == id,
        forall|id: u8|
            id > 12 ==> #[trigger] spec_type_from_id(id) == Err::<NbtTagType, NbtTagError>(
                NbtTagError::InvalidTagType(id),
            ),
{
}

/// Mathematical value of a tag tree: names and text as character
/// sequences, floating-point payloads as their raw big-endian bit
/// patterns, children as sequences.
pub ghost enum TagV {
    End,
    Byte { name: Seq<char>, v: i8 },
    Short { name: Seq<char>, v: i16 },
    Int { name: Seq<char>, v: i32 },
    Long { name: Seq<char>, v: i64 },
    Float { name: Seq<char>, bits: u32 },
    Double { name: Seq<char>, bits: u64 },
    ByteArray { name: Seq<char>, vs: Seq<i8> },
    Str { name: Seq<char>, v: Seq<char> },
    List { name: Seq<char>, ty: NbtTagType, vs: Seq<TagV> },
    Compound { name: Seq<char>, entries: Seq<TagV> },
    IntArray { name: Seq<char>, vs: Seq<i32> },
    LongArray { name: Seq<char>, vs: Seq<i64> },
}

/// Mathematical value of a compound: its name and its entries in order.
pub ghost struct CompoundV {
    pub name: Seq<char>,
    pub entries: Seq<TagV>,
}

/// The name a tag carries (the `End` sentinel carries none).
pub open spec fn tag_name(t: TagV) -> Seq<char> {
    match t {
        TagV::End => Seq::empty(),
        TagV::Byte { name, .. } => name,
        TagV::Short { name, .. } => name,
        TagV::Int { name, .. } => name,
        TagV::Long { name, .. } => name,
        TagV::Float { name, .. } => name,
        TagV::Double { name, .. } => name,
        TagV::ByteArray { name, .. } => name,
        TagV::Str { name, .. } => name,
        TagV::List { name, .. } => name,
        TagV::Compound { name, .. } => name,
        TagV::IntArray { name, .. } => name,
        TagV::LongArray { name, .. } => name,
    }
}

/// The kind of a tag value.
pub open spec fn tag_kind(t: TagV) -> NbtTagType {
    match t {
        TagV::End => NbtTagType::End,
        TagV::Byte { .. } => NbtTagType::Byte,
        TagV::Short { .. } => NbtTagType::Short,
        TagV::Int { .. } => NbtTagType::Int,
        TagV::Long { .. } => NbtTagType::Long,
        TagV::Float { .. } => NbtTagType::Float,
        TagV::Double { .. } => NbtTagType::Double,
        TagV::ByteArray { .. } => NbtTagType::ByteArray,
        TagV::Str { .. } => NbtTagType::String,
        TagV::List { .. } => NbtTagType::List,
        TagV::Compound { .. } => NbtTagType::Compound,
        TagV::IntArray { .. } => NbtTagType::IntArray,
        TagV::LongArray { .. } => NbtTagType::LongArray,
    }
}

/// An NBT tag: a discriminated value, one of thirteen variants.
#[derive(Debug)]
pub enum NbtTag {
    End,
    Byte(NbtTagByte),
    Short(NbtTagShort),
    Int(NbtTagInt),
    Long(NbtTagLong),
    Float(NbtTagFloat),
    Double(NbtTagDouble),
    ByteArray(NbtTagByteArray),
    String(NbtTagString),
    List(NbtTagList),
    Compound(NbtTagCompound),
    IntArray(NbtTagIntArray),
    LongArray(NbtTagLongArray),
}

impl Default for NbtTag {
    fn default() -> (r: Self)
        ensures
            r == NbtTag::End,
    {
        NbtTag::End
    }
}

#[derive(Debug, Default)]
pub struct NbtTagByte {
    pub name: String,
    pub value: i8,
}

#[derive(Debug, Default)]
pub struct NbtTagShort {
    pub name: String,
    pub value: i16,
}

#[derive(Debug, Default)]
pub struct NbtTagInt {
    pub name: String,
    pub value: i32,
}

#[derive(Debug, Default)]
pub struct NbtTagLong {
    pub name: String,
    pub value: i64,
}

/// A 32-bit floating-point payload, carried as its raw bit pattern so
/// that the codec is bit-exact.
#[derive(Debug, Default)]
pub struct NbtTagFloat {
    pub name: String,
    pub bits: u32,
}

/// A 64-bit floating-point payload, carried as its raw bit pattern.
#[derive(Debug, Default)]
pub struct NbtTagDouble {
    pub name: String,
    pub bits: u64,
}

#[derive(Debug, Default)]
pub struct NbtTagByteArray {
    pub name: String,
    pub values: Vec<i8>,
}

#[derive(Debug, Default)]
pub struct NbtTagString {
    pub name: String,
    pub value: String,
}

#[derive(Debug, Default)]
pub struct NbtTagList {
    pub name: String,
    pub ty: NbtTagType,
    pub values: Vec<NbtTag>,
}

/// A compound: a mapping from names to tags.  The entries are kept in
/// first-insertion order; names are unique, and inserting under an
/// existing name replaces that entry (the last occurrence wins).
#[derive(Debug, Default)]
pub struct NbtTagCompound {
    pub name: String,
    pub values: Vec<NbtTag>,
}

#[derive(Debug, Default)]
pub struct NbtTagIntArray {
    pub name: String,
    pub values: Vec<i32>,
}

#[derive(Debug, Default)]
pub struct NbtTagLongArray {
    pub name: String,
    pub values: Vec<i64>,
}

/// The views of each tag of a sequence, in order.
pub open spec fn seq_tag_views(s: Seq<NbtTag>) -> Seq<TagV>
    decreases s,
{
    if s.len() == 0 {
        Seq::empty()
    } else {
        seq![tag_view(s[0])] + seq_tag_views(s.skip(1))
    }
}

/// Pointwise reading of `seq_tag_views`.
pub broadcast proof fn lemma_seq_tag_views(s: Seq<NbtTag>)
    ensures
        (#[trigger] seq_tag_views(s)).len() == s.len(),
        forall|i: int| 0 <= i < s.len() ==> seq_tag_views(s)[i] == tag_view(s[i]),
    decreases s,
{
    if s.len() > 0 {
        lemma_seq_tag_views(s.skip(1));
    }
}


/// The mathematical value of a tag tree.
pub open spec fn tag_view(t: NbtTag) -> TagV
    decreases t,
{
    match t {
        NbtTag::End => TagV::End,
        NbtTag::Byte(x) => TagV::Byte { name: x.name@, v: x.value },
        NbtTag::Short(x) => TagV::Short { name: x.name@, v: x.value },
        NbtTag::Int(x) => TagV::Int { name: x.name@, v: x.value },
        NbtTag::Long(x) => TagV::Long { name: x.name@, v: x.value },
        NbtTag::Float(x) => TagV::Float { name: x.name@, bits: x.bits },
        NbtTag::Double(x) => TagV::Double { name: x.name@, bits: x.bits },
        NbtTag::ByteArray(x) => TagV::ByteArray { name: x.name@, vs: x.values@ },
        NbtTag::String(x) => TagV::Str { name: x.name@, v: x.value@ },
        NbtTag::List(x) => TagV::List { name: x.name@, ty: x.ty, vs: seq_tag_views(x.values@) },
        NbtTag::Compound(x) => TagV::Compound {
            name: x.name@,
            entries: seq_tag_views(x.values@),
        },
        NbtTag::IntArray(x) => TagV::IntArray { name: x.name@, vs: x.values@ },
        NbtTag::LongArray(x) => TagV::LongArray { name: x.name@, vs: x.values@ },
    }
}

impl View for NbtTag {
    type V = TagV;

    open spec fn view(&self) -> TagV {
        tag_view(*self)
    }
}

impl View for NbtTagCompound {
    type V = CompoundV;

    open spec fn view(&self) -> CompoundV {
        CompoundV { name: self.name@, entries: seq_tag_views(self.values@) }
    }
}

/// The first entry of `es` named `n`, if any.
pub open spec fn lookup_entry(es: Seq<TagV>, n: Seq<char>) -> Option<TagV>
    decreases es.len(),
{
    if es.len() == 0 {
        None
    } else if tag_name(es[0]) == n {
        Some(es[0])
    } else {
        lookup_entry(es.skip(1), n)
    }
}

/// `es` with `t` put in place of the first entry of the same name, or
/// appended when no entry has that name.
pub open spec fn upsert_entry(es: Seq<TagV>, t: TagV) -> Seq<TagV>
    decreases es.len(),
{
    if es.len() == 0 {
        seq![t]
    } else if tag_name(es[0]) == tag_name(t) {
        seq![t] + es.skip(1)
    } else {
        seq![es[0]] + upsert_entry(es.skip(1), t)
    }
}

impl NbtTagCompound {
    /// An empty compound with the given name.
    pub fn new(name: &str) -> (r: Self)
        ensures
            r@.name == name@,
            r@.entries == Seq::<TagV>::empty(),
    {
        let r = Self { name: name.to_owned(), values: Vec::new() };
        proof {
            assert(r@.entries =~= Seq::<TagV>::empty());
        }
        r
    }

    /// The entry named `name`, if the compound holds one.
    pub fn get(&self, name: &str) -> (r: Option<&NbtTag>)
        ensures
            match lookup_entry(self@.entries, name@) {
                Some(t) => r matches Some(rt) && rt@ == t,
                None => r is None,
            },
    {
        proof {
            lemma_seq_tag_views(self.values@);
            assert(self@.entries.skip(0) =~= self@.entries);
        }
        let n = self.values.len();
        let mut i: usize = 0;
        while i < n
            invariant
                n == self.values.len(),
                i <= n,
                self@.entries.len() == n,
                lookup_entry(self@.entries, name@) == lookup_entry(
                    self@.entries.skip(i as int),
                    name@,
                ),
            decreases n - i,
        {
            proof {
                lemma_seq_tag_views(self.values@);
                assert(self@.entries.skip(i as int)[0] == self@.entries[i as int]);
            }
            if str_eq(name, self.values[i].name_str()) {
                return Some(&self.values[i]);
            }
            proof {
                assert(self@.entries.skip(i as int).skip(1) =~= self@.entries.skip(i + 1));
            }
            i += 1;
        }
        proof {
            assert(self@.entries.skip(n as int) =~= Seq::<TagV>::empty());
        }
        None
    }

    /// Inserts `value` under `name`: replaces the entry of that name if
    /// one exists, appends otherwise.
    pub fn insert(&mut self, name: String, value: NbtTag)
        requires
            name@ == tag_name(value@),
        ensures
            final(self)@.name == old(self)@.name,
            final(self)@.entries == upsert_entry(old(self)@.entries, value@),
    {
        proof {
            lemma_seq_tag_views(self.values@);
        }
        let ghost entries0 = self@.entries;
        let n = self.values.len();
        let mut i: usize = 0;
        while i < n
            invariant
                n == self.values.len(),
                i <= n,
                entries0.len() == n,
                forall|k: int| 0 <= k < i ==> tag_name(entries0[k]) != name@,
                entries0 == self@.entries,
                entries0 == old(self)@.entries,
                self@.name == old(self)@.name,
                name@ == tag_name(value@),
            decreases n - i,
        {
            proof {
                lemma_seq_tag_views(self.values@);
            }
            if str_eq(name.as_str(), self.values[i].name_str()) {
                let ghost vpre = self.values@;
                self.values.set(i, value);
                proof {
                    lemma_seq_tag_views(vpre);
                    lemma_seq_tag_views(self.values@);
                    assert(self@.entries =~= entries0.update(i as int, value@));
                    lemma_upsert_at(entries0, value@, i as int);
                }
                return ;
            }
            i += 1;
        }
        let ghost vpre = self.values@;
        self.values.push(value);
        proof {
            lemma_seq_tag_views(vpre);
            lemma_seq_tag_views(self.values@);
            assert(self@.entries =~= entries0.push(value@));
            lemma_upsert_missing(entries0, value@);
        }
    }
}

/// When the first `i` entries have other names and entry `i` has the
/// name of `t`, upsert replaces entry `i` in place.
pub proof fn lemma_upsert_at(es: Seq<TagV>, t: TagV, i: int)
    requires
        0 <= i < es.len(),
        forall|k: int| 0 <= k < i ==> tag_name(es[k]) != tag_name(t),
        tag_name(es[i]) == tag_name(t),
    ensures
        upsert_entry(es, t) == es.update(i, t),
    decreases es.len(),
{
    if i == 0 {
        assert(upsert_entry(es, t) =~= es.update(0, t));
    } else {
        assert(es.skip(1)[i - 1] == es[i]);
        assert(forall|k: int| 0 <= k < i - 1 ==> es.skip(1)[k] == es[k + 1]);
        lemma_upsert_at(es.skip(1), t, i - 1);
        assert(upsert_entry(es, t) =~= es.update(i, t));
    }
}

/// When no entry bears the name of `t`, upsert appends `t`.
pub proof fn lemma_upsert_missing(es: Seq<TagV>, t: TagV)
    requires
        forall|k: int| 0 <= k < es.len() ==> tag_name(es[k]) != tag_name(t),
    ensures
        upsert_entry(es, t) == es.push(t),
    decreases es.len(),
{
    if es.len() == 0 {
        assert(upsert_entry(es, t) =~= es.push(t));
    } else {
        assert(forall|k: int| 0 <= k < es.skip(1).len() ==> es.skip(1)[k] == es[k + 1]);
        lemma_upsert_missing(es.skip(1), t);
        assert(upsert_entry(es, t) =~= es.push(t));
    }
}

/// Equality of two string slices, decided by their text.
pub fn str_eq(a: &str, b: &str) -> (r: bool)
    ensures
        r == (a@ == b@),
{
    let ao = a.to_owned();
    let bo = b.to_owned();
    ao.eq(&bo)
}

impl NbtTag {
    /// The name this tag carries (the `End` sentinel carries none).
    pub fn name_str(&self) -> (r: &str)
        ensures
            r@ == tag_name(self@),
    {
        match self {
            NbtTag::End => {
                let r = "";
                proof {
                    reveal_strlit("");
                    assert(r@ =~= Seq::<char>::empty());
                }
                r
            },
            NbtTag::Byte(x) => x.name.as_str(),
            NbtTag::Short(x) => x.name.as_str(),
            NbtTag::Int(x) => x.name.as_str(),
            NbtTag::Long(x) => x.name.as_str(),
            NbtTag::Float(x) => x.name.as_str(),
            NbtTag::Double(x) => x.name.as_str(),
            NbtTag::ByteArray(x) => x.name.as_str(),
            NbtTag::String(x) => x.name.as_str(),
            NbtTag::List(x) => x.name.as_str(),
            NbtTag::Compound(x) => x.name.as_str(),
            NbtTag::IntArray(x) => x.name.as_str(),
            NbtTag::LongArray(x) => x.name.as_str(),
        }
    }

    /// The kind of this tag.
    pub fn ty(&self) -> (r: NbtTagType)
        ensures
            r == tag_kind(self@),
    {
        match self {
            NbtTag::End => NbtTagType::End,
            NbtTag::Byte(_) => NbtTagType::Byte,
            NbtTag::Short(_) => NbtTagType::Short,
            NbtTag::Int(_) => NbtTagType::Int,
            NbtTag::Long(_) => NbtTagType::Long,
            NbtTag::Float(_) => NbtTagType::Float,
            NbtTag::Double(_) => NbtTagType::Double,
            NbtTag::ByteArray(_) => NbtTagType::ByteArray,
            NbtTag::String(_) => NbtTagType::String,
            NbtTag::List(_) => NbtTagType::List,
            NbtTag::Compound(_) => NbtTagType::Compound,
            NbtTag::IntArray(_) => NbtTagType::IntArray,
            NbtTag::LongArray(_) => NbtTagType::LongArray,
        }
    }
}

/// A fresh vector holding the same elements as `v`.
pub fn copy_vec<T: Copy>(v: &Vec<T>) -> (r: Vec<T>)
    ensures
        r@ == v@,
{
    let mut r: Vec<T> = Vec::new();
    let n = v.len();
    let mut i: usize = 0;
    while i < n
        invariant
            n == v.len(),
            i <= n,
            r@ =~= v@.take(i as int),
        decreases n - i,
    {
        r.push(v[i]);
        i += 1;
    }
    proof {
        assert(v@.take(n as int) =~= v@);
    }
    r
}

impl Clone for NbtTagByte {
    fn clone(&self) -> (r: Self)
        ensures
            r.name@ == self.name@,
            r.value == self.value,
    {
        NbtTagByte { name: self.name.clone(), value: self.value }
    }
}

impl Clone for NbtTagShort {
    fn clone(&self) -> (r: Self)
        ensures
            r.name@ == self.name@,
            r.value == self.value,
    {
        NbtTagShort { name: self.name.clone(), value: self.value }
    }
}

impl Clone for NbtTagInt {
    fn clone(&self) -> (r: Self)
        ensures
            r.name@ == self.name@,
            r.value == self.value,
    {
        NbtTagInt { name: self.name.clone(), value: self.value }
    }
}

impl Clone for NbtTagLong {
    fn clone(&self) -> (r: Self)
        ensures
            r.name@ == self.name@,
            r.value == self.value,
    {
        NbtTagLong { name: self.name.clone(), value: self.value }
    }
}

impl Clone for NbtTagFloat {
    fn clone(&self) -> (r: Self)
        ensures
            r.name@ == self.name@,
            r.bits == self.bits,
    {
        NbtTagFloat { name: self.name.clone(), bits: self.bits }
    }
}

impl Clone for NbtTagDouble {
    fn clone(&self) -> (r: Self)
        ensures
            r.name@ == self.name@,
            r.bits == self.bits,
    {
        NbtTagDouble { name: self.name.clone(), bits: self.bits }
    }
}

impl Clone for NbtTagByteArray {
    fn clone(&self) -> (r: Self)
        ensures
            r.name@ == self.name@,
            r.values@ == self.values@,
    {
        NbtTagByteArray { name: self.name.clone(), values: copy_vec(&self.values) }
    }
}

impl Clone for NbtTagString {
    fn clone(&self) -> (r: Self)
        ensures
            r.name@ == self.name@,
            r.value@ == self.value@,
    {
        NbtTagString { name: self.name.clone(), value: self.value.clone() }
    }
}

impl Clone for NbtTagIntArray {
    fn clone(&self) -> (r: Self)
        ensures
            r.name@ == self.name@,
            r.values@ == self.values@,
    {
        NbtTagIntArray { name: self.name.clone(), values: copy_vec(&self.values) }
    }
}

impl Clone for NbtTagLongArray {
    fn clone(&self) -> (r: Self)
        ensures
            r.name@ == self.name@,
            r.values@ == self.values@,
    {
        NbtTagLongArray { name: self.name.clone(), values: copy_vec(&self.values) }
    }
}

impl Clone for NbtTagList {
    /// A deep copy: the copy denotes the same tag value.
    fn clone(&self) -> (r: Self)
        ensures
            r.name@ == self.name@,
            r.ty == self.ty,
            seq_tag_views(r.values@) == seq_tag_views(self.values@),
        decreases *self,
    {
        broadcast use lemma_seq_tag_views;

        let mut values: Vec<NbtTag> = Vec::new();
        let n = self.values.len();
        let mut i: usize = 0;
        while i < n
            invariant
                n == self.values.len(),
                i <= n,
                values@.len() == i,
                forall|k: int|
                    0 <= k < i ==> tag_view(#[trigger] values@[k]) == tag_view(self.values@[k]),
            decreases n - i,
        {
            proof {
                assert(decreases_to!(*self => self.values));
                assert(decreases_to!(self.values => self.values@[i as int]));
            }
            let t = self.values[i].clone();
            values.push(t);
            i += 1;
        }
        let r = NbtTagList { name: self.name.clone(), ty: self.ty, values };
        proof {
            assert(seq_tag_views(r.values@) =~= seq_tag_views(self.values@));
        }
        r
    }
}

impl Clone for NbtTagCompound {
    /// A deep copy: the copy denotes the same compound value.
    fn clone(&self) -> (r: Self)
        ensures
            r@ == self@,
        decreases *self,
    {
        broadcast use lemma_seq_tag_views;

        let mut values: Vec<NbtTag> = Vec::new();
        let n = self.values.len();
        let mut i: usize = 0;
        while i < n
            invariant
                n == self.values.len(),
                i <= n,
                values@.len() == i,
                forall|k: int|
                    0 <= k < i ==> tag_view(#[trigger] values@[k]) == tag_view(self.values@[k]),
            decreases n - i,
        {
            proof {
                assert(decreases_to!(*self => self.values));
                assert(decreases_to!(self.values => self.values@[i as int]));
            }
            let t = self.values[i].clone();
            values.push(t);
            i += 1;
        }
        let r = NbtTagCompound { name: self.name.clone(), values };
        proof {
            assert(seq_tag_views(r.values@) =~= seq_tag_views(self.values@));
        }
        r
    }
}

impl Clone for NbtTag {
    /// A deep copy: the copy denotes the same tag value.
    fn clone(&self) -> (r: Self)
        ensures
            r@ == self@,
        decreases *self,
    {
        match self {
            NbtTag::End => NbtTag::End,
            NbtTag::Byte(x) => NbtTag::Byte(x.clone()),
            NbtTag::Short(x) => NbtTag::Short(x.clone()),
            NbtTag::Int(x) => NbtTag::Int(x.clone()),
            NbtTag::Long(x) => NbtTag::Long(x.clone()),
            NbtTag::Float(x) => NbtTag::Float(x.clone()),
            NbtTag::Double(x) => NbtTag::Double(x.clone()),
            NbtTag::ByteArray(x) => NbtTag::ByteArray(x.clone()),
            NbtTag::String(x) => NbtTag::String(x.clone()),
            NbtTag::List(x) => NbtTag::List(x.clone()),
            NbtTag::Compound(x) => NbtTag::Compound(x.clone()),
            NbtTag::IntArray(x) => NbtTag::IntArray(x.clone()),
            NbtTag::LongArray(x) => NbtTag::LongArray(x.clone()),
        }
    }
}

impl NbtTag {
    /// The byte payload, when this tag is a byte.
    pub fn byte(&self) -> (r: Option<NbtTagByte>)
        ensures
            match self@ {
                TagV::Byte { name, v } => r matches Some(b) && b.name@ == name && b.value == v,
                _ => r is None,
            },
    {
        if let NbtTag::Byte(x) = self {
            Some(x.clone())
        } else {
            None
        }
    }

    /// The short payload, when this tag is a short.
    pub fn short(&self) -> (r: Option<NbtTagShort>)
        ensures
            match self@ {
                TagV::Short { name, v } => r matches Some(b) && b.name@ == name && b.value == v,
                _ => r is None,
            },
    {
        if let NbtTag::Short(x) = self {
            Some(x.clone())
        } else {
            None
        }
    }

    /// The int payload, when this tag is an int.
    pub fn int_tag(&self) -> (r: Option<NbtTagInt>)
        ensures
            match self@ {
                TagV::Int { name, v } => r matches Some(b) && b.name@ == name && b.value == v,
                _ => r is None,
            },
    {
        if let NbtTag::Int(x) = self {
            Some(x.clone())
        } else {
            None
        }
    }

    /// The long payload, when this tag is a long.
    pub fn long(&self) -> (r: Option<NbtTagLong>)
        ensures
            match self@ {
                TagV::Long { name, v } => r matches Some(b) && b.name@ == name && b.value == v,
                _ => r is None,
            },
    {
        if let NbtTag::Long(x) = self {
            Some(x.clone())
        } else {
            None
        }
    }

    /// The float payload (its raw bits), when this tag is a float.
    pub fn float(&self) -> (r: Option<NbtTagFloat>)
        ensures
            match self@ {
                TagV::Float { name, bits } => r matches Some(b) && b.name@ == name && b.bits
                    == bits,
                _ => r is None,
            },
    {
        if let NbtTag::Float(x) = self {
            Some(x.clone())
        } else {
            None
        }
    }

    /// The double payload (its raw bits), when this tag is a double.
    pub fn double(&self) -> (r: Option<NbtTagDouble>)
        ensures
            match self@ {
                TagV::Double { name, bits } => r matches Some(b) && b.name@ == name && b.bits
                    == bits,
                _ => r is None,
            },
    {
        if let NbtTag::Double(x) = self {
            Some(x.clone())
        } else {
            None
        }
    }

    /// The byte-array payload, when this tag is a byte array.
    pub fn byte_array(&self) -> (r: Option<NbtTagByteArray>)
        ensures
            match self@ {
                TagV::ByteArray { name, vs } => r matches Some(b) && b.name@ == name && b.values@
                    == vs,
                _ => r is None,
            },
    {
        if let NbtTag::ByteArray(x) = self {
            Some(x.clone())
        } else {
            None
        }
    }

    /// The string payload, when this tag is a string.
    pub fn string(&self) -> (r: Option<NbtTagString>)
        ensures
            match self@ {
                TagV::Str { name, v } => r matches Some(b) && b.name@ == name && b.value@ == v,
                _ => r is None,
            },
    {
        if let NbtTag::String(x) = self {
            Some(x.clone())
        } else {
            None
        }
    }

    /// The list payload, when this tag is a list.
    pub fn list(&self) -> (r: Option<NbtTagList>)
        ensures
            match self@ {
                TagV::List { name, ty, vs } => r matches Some(l) && l.name@ == name && l.ty == ty
                    && seq_tag_views(l.values@) == vs,
                _ => r is None,
            },
    {
        if let NbtTag::List(x) = self {
            Some(x.clone())
        } else {
            None
        }
    }

    /// A reference to the list payload, when this tag is a list.
    pub fn list_as_ref(&self) -> (r: Option<&NbtTagList>)
        ensures
            match self@ {
                TagV::List { name, ty, vs } => r matches Some(l) && l.name@ == name && l.ty == ty
                    && seq_tag_views(l.values@) == vs,
                _ => r is None,
            },
    {
        if let NbtTag::List(x) = self {
            Some(x)
        } else {
            None
        }
    }

    /// The compound payload, when this tag is a compound.
    pub fn compound(&self) -> (r: Option<NbtTagCompound>)
        ensures
            match self@ {
                TagV::Compound { name, entries } => r matches Some(c) && c@.name == name
                    && c@.entries == entries,
                _ => r is None,
            },
    {
        if let NbtTag::Compound(x) = self {
            Some(x.clone())
        } else {
            None
        }
    }

    /// A reference to the compound payload, when this tag is a compound.
    pub fn compound_as_ref(&self) -> (r: Option<&NbtTagCompound>)
        ensures
            match self@ {
                TagV::Compound { name, entries } => r matches Some(c) && c@.name == name
                    && c@.entries == entries,
                _ => r is None,
            },
    {
        if let NbtTag::Compound(x) = self {
            Some(x)
        } else {
            None
        }
    }

    /// The int-array payload, when this tag is an int array.
    pub fn int_array(&self) -> (r: Option<NbtTagIntArray>)
        ensures
            match self@ {
                TagV::IntArray { name, vs } => r matches Some(b) && b.name@ == name && b.values@
                    == vs,
                _ => r is None,
            },
    {
        if let NbtTag::IntArray(x) = self {
            Some(x.clone())
        } else {
            None
        }
    }

    /// The long-array payload, when this tag is a long array.
    pub fn long_array(&self) -> (r: Option<NbtTagLongArray>)
        ensures
            match self@ {
                TagV::LongArray { name, vs } => r matches Some(b) && b.name@ == name && b.values@
                    == vs,
                _ => r is None,
            },
    {
        if let NbtTag::LongArray(x) = self {
            Some(x.clone())
        } else {
            None
        }
    }

    /// A reference to the long-array payload, when this tag is a long array.
    pub fn long_array_as_ref(&self) -> (r: Option<&NbtTagLongArray>)
        ensures
            match self@ {
                TagV::LongArray { name, vs } => r matches Some(b) && b.name@ == name && b.values@
                    == vs,
                _ => r is None,
            },
    {
        if let NbtTag::LongArray(x) = self {
            Some(x)
        } else {
            None
        }
    }
}


impl NbtTagByte {
    pub fn new(name: String, value: i8) -> (r: Self)
        ensures
            r.name@ == name@,
            r.value == value,
    {
        Self { name, value }
    }
}

impl NbtTagShort {
    pub fn new(name: String, value: i16) -> (r: Self)
        ensures
            r.name@ == name@,
            r.value == value,
    {
        Self { name, value }
    }
}

impl NbtTagInt {
    pub fn new(name: String, value: i32) -> (r: Self)
        ensures
            r.name@ == name@,
            r.value == value,
    {
        Self { name, value }
    }
}

impl NbtTagLong {
    pub fn new(name: String, value: i64) -> (r: Self)
        ensures
            r.name@ == name@,
            r.value == value,
    {
        Self { name, value }
    }
}

impl NbtTagFloat {
    pub fn new(name: String, bits: u32) -> (r: Self)
        ensures
            r.name@ == name@,
            r.bits == bits,
    {
        Self { name, bits }
    }
}

impl NbtTagDouble {
    pub fn new(name: String, bits: u64) -> (r: Self)
        ensures
            r.name@ == name@,
            r.bits == bits,
    {
        Self { name, bits }
    }
}

impl NbtTagByteArray {
    pub fn new(name: String, values: Vec<i8>) -> (r: Self)
        ensures
            r.name@ == name@,
            r.values@ == values@,
    {
        Self { name, values }
    }
}

impl NbtTagString {
    pub fn new(name: String, value: String) -> (r: Self)
        ensures
            r.name@ == name@,
            r.value@ == value@,
    {
        Self { name, value }
    }
}

impl NbtTagList {
    pub fn new(name: String, ty: NbtTagType, values: Vec<NbtTag>) -> (r: Self)
        ensures
            r.name@ == name@,
            r.ty == ty,
            seq_tag_views(r.values@) == seq_tag_views(values@),
    {
        Self { name, ty, values }
    }
}

impl NbtTagIntArray {
    pub fn new(name: String, values: Vec<i32>) -> (r: Self)
        ensures
            r.name@ == name@,
            r.values@ == values@,
    {
        Self { name, values }
    }
}

impl NbtTagLongArray {
    pub fn new(name: String, values: Vec<i64>) -> (r: Self)
        ensures
            r.name@ == name@,
            r.values@ == values@,
    {
        Self { name, values }
    }
}

// ---------------------------------------------------------------------
// The encoder: a tag tree to its wire bytes.
// ---------------------------------------------------------------------

/// Appends the kind byte of `ty`.
pub fn write_tag_type(buf: &mut Vec<u8>, ty: NbtTagType) -> (r: Result<(), NbtTagError>)
    ensures
        r is Ok,
        final(buf)@ == old(buf)@ + seq![spec_type_id(ty)],
{
    buf.push(ty.id());
    proof {
        assert(buf@ =~= old(buf)@ + seq![spec_type_id(ty)]);
    }
    Ok(())
}

/// Appends a length-prefixed name.
pub fn write_tag_name(buf: &mut Vec<u8>, s: &str) -> (r: Result<(), NbtTagError>)
    requires
        wf_text(s@),
    ensures
        r is Ok,
        final(buf)@ == old(buf)@ + enc_name(s@),
{
    let n = s.unicode_len();
    push_u16_be(buf, n as u16);
    let ghost buf1 = buf@;
    let mut k: usize = 0;
    while k < n
        invariant
            n == s@.len(),
            wf_text(s@),
            k <= n,
            buf@ == buf1 + bytes_of_chars(s@).take(k as int),
        decreases n - k,
    {
        let c = s.get_char(k);
        buf.push(byte_from_char(c));
        proof {
            assert(buf@ =~= buf1 + bytes_of_chars(s@).take(k + 1));
        }
        k += 1;
    }
    proof {
        assert(bytes_of_chars(s@).take(n as int) =~= bytes_of_chars(s@));
        assert(buf@ =~= old(buf)@ + enc_name(s@));
    }
    Ok(())
}

/// Appends the named entries of `values` from `idx` on, in order.
fn write_entries(buf: &mut Vec<u8>, values: &Vec<NbtTag>, idx: usize) -> (r: Result<
    (),
    NbtTagError,
>)
    requires
        idx <= values@.len(),
        wf_entries(seq_tag_views(values@)),
    ensures
        r is Ok,
        final(buf)@ == old(buf)@ + enc_entries(seq_tag_views(values@).skip(idx as int)),
    decreases seq_tag_views(values@), values@.len() - idx, 0int,
{
    let ghost sv = seq_tag_views(values@);
    if idx < values.len() {
        proof {
            lemma_seq_tag_views(values@);
            lemma_wf_entries_index(sv);
            assert(sv.skip(idx as int)[0] == sv[idx as int]);
            assert(decreases_to!(sv => sv[idx as int]));
        }
        match write_value(buf, &values[idx], true) {
            Err(e) => Err(e),
            Ok(_) => {
                let ghost buf1 = buf@;
                match write_entries(buf, values, idx + 1) {
                    Err(e) => Err(e),
                    Ok(_) => {
                        proof {
                            assert(sv.skip(idx as int).skip(1) =~= sv.skip(idx + 1));
                            assert(buf@ =~= old(buf)@ + enc_entries(sv.skip(idx as int)));
                        }
                        Ok(())
                    },
                }
            },
        }
    } else {
        proof {
            lemma_seq_tag_views(values@);
            assert(sv.skip(idx as int) =~= Seq::<TagV>::empty());
            assert(buf@ =~= old(buf)@ + enc_entries(sv.skip(idx as int)));
        }
        Ok(())
    }
}

/// Appends the unnamed elements of `values` from `idx` on, in order.
fn write_elems(buf: &mut Vec<u8>, values: &Vec<NbtTag>, idx: usize, ty: NbtTagType) -> (r: Result<
    (),
    NbtTagError,
>)
    requires
        idx <= values@.len(),
        wf_elems(seq_tag_views(values@), ty),
    ensures
        r is Ok,
        final(buf)@ == old(buf)@ + enc_elems(seq_tag_views(values@).skip(idx as int)),
    decreases seq_tag_views(values@), values@.len() - idx, 0int,
{
    let ghost sv = seq_tag_views(values@);
    if idx < values.len() {
        proof {
            lemma_seq_tag_views(values@);
            lemma_wf_elems_index(sv, ty);
            assert(sv.skip(idx as int)[0] == sv[idx as int]);
            assert(decreases_to!(sv => sv[idx as int]));
        }
        match write_value(buf, &values[idx], false) {
            Err(e) => Err(e),
            Ok(_) => {
                match write_elems(buf, values, idx + 1, ty) {
                    Err(e) => Err(e),
                    Ok(_) => {
                        proof {
                            reveal(crate::wire::enc_payload);
                            assert(sv.skip(idx as int).skip(1) =~= sv.skip(idx + 1));
                            assert(buf@ =~= old(buf)@ + enc_elems(sv.skip(idx as int)));
                        }
                        Ok(())
                    },
                }
            },
        }
    } else {
        proof {
            lemma_seq_tag_views(values@);
            reveal(crate::wire::enc_payload);
            assert(sv.skip(idx as int) =~= Seq::<TagV>::empty());
            assert(buf@ =~= old(buf)@ + enc_elems(sv.skip(idx as int)));
        }
        Ok(())
    }
}

/// Appends one value: with `write_name`, its kind byte and name come
/// first; without, only its payload (as list elements are stored).
#[verifier::rlimit(100)]
#[verifier::spinoff_prover]
pub fn write_value(buf: &mut Vec<u8>, value: &NbtTag, write_name: bool) -> (r: Result<(), NbtTagError>)
    requires
        wf_value(value@),
    ensures
        r is Ok,
        final(buf)@ == old(buf)@ + if write_name {
            enc_named(value@)
        } else {
            enc_payload(value@)
        },
    decreases value@, 0int, 1int,
{
    if write_name {
        let ty = value.ty();
        let _ = write_tag_type(buf, ty);
        let _ = write_tag_name(buf, value.name_str());
    }
    let ghost buf1 = buf@;
    proof {
        assert(buf1 == if write_name {
            old(buf)@ + seq![spec_type_id(tag_kind(value@))] + enc_name(tag_name(value@))
        } else {
            old(buf)@
        });
    }
    match value {
        NbtTag::End => Err(NbtTagError::InvalidTagType(0)),
        NbtTag::Byte(x) => {
            buf.push(u8_from_i8(x.value));
            proof {
                reveal(crate::wire::enc_payload);
                assert(buf@ =~= buf1 + enc_payload(value@));
            }
            proof {
                lemma_write_value_stitch(old(buf)@, buf@, value@, write_name);
            }
            Ok(())
        },
        NbtTag::Short(x) => {
            push_u16_be(buf, u16_from_i16(x.value));
            proof {
                reveal(crate::wire::enc_payload);
                assert(buf@ =~= buf1 + enc_payload(value@));
                lemma_write_value_stitch(old(buf)@, buf@, value@, write_name);
            }
            Ok(())
        },
        NbtTag::Int(x) => {
            push_u32_be(buf, u32_from_i32(x.value));
            proof {
                reveal(crate::wire::enc_payload);
                assert(buf@ =~= buf1 + enc_payload(value@));
                lemma_write_value_stitch(old(buf)@, buf@, value@, write_name);
            }
            Ok(())
        },
        NbtTag::Long(x) => {
            push_u64_be(buf, u64_from_i64(x.value));
            proof {
                reveal(crate::wire::enc_payload);
                assert(buf@ =~= buf1 + enc_payload(value@));
                lemma_write_value_stitch(old(buf)@, buf@, value@, write_name);
            }
            Ok(())
        },
        NbtTag::Float(x) => {
            push_u32_be(buf, x.bits);
            proof {
                reveal(crate::wire::enc_payload);
                assert(buf@ =~= buf1 + enc_payload(value@));
                lemma_write_value_stitch(old(buf)@, buf@, value@, write_name);
            }
            Ok(())
        },
        NbtTag::Double(x) => {
            push_u64_be(buf, x.bits);
            proof {
                reveal(crate::wire::enc_payload);
                assert(buf@ =~= buf1 + enc_payload(value@));
                lemma_write_value_stitch(old(buf)@, buf@, value@, write_name);
            }
            Ok(())
        },
        NbtTag::ByteArray(x) => {
            let n = x.values.len();
            push_u32_be(buf, n as u32);
            let ghost buf2 = buf@;
            let mut k: usize = 0;
            while k < n
                invariant
                    n == x.values@.len(),
                    k <= n,
                    buf@ == buf2 + enc_i8s(x.values@.take(k as int)),
                decreases n - k,
            {
                let ghost pre = x.values@.take(k as int);
                buf.push(u8_from_i8(x.values[k]));
                proof {
                    lemma_enc_i8s_snoc(pre, x.values@[k as int]);
                    assert(x.values@.take(k + 1) =~= pre.push(x.values@[k as int]));
                    assert(buf@ =~= buf2 + enc_i8s(x.values@.take(k + 1)));
                }
                k += 1;
            }
            proof {
                reveal(crate::wire::enc_payload);
                assert(x.values@.take(n as int) =~= x.values@);
                assert(buf@ =~= buf1 + enc_payload(value@));
                lemma_write_value_stitch(old(buf)@, buf@, value@, write_name);
            }
            Ok(())
        },
        NbtTag::String(x) => {
            let _ = write_tag_name(buf, x.value.as_str());
            proof {
                reveal(crate::wire::enc_payload);
                assert(buf@ =~= buf1 + enc_payload(value@));
                lemma_write_value_stitch(old(buf)@, buf@, value@, write_name);
            }
            Ok(())
        },
        NbtTag::List(x) => {
            let _ = write_tag_type(buf, x.ty);
            let n = x.values.len();
            proof {
                lemma_seq_tag_views(x.values@);
            }
            push_u32_be(buf, n as u32);
            match write_elems(buf, &x.values, 0, x.ty) {
                Err(e) => Err(e),
                Ok(_) => {
                    proof {
                        reveal(crate::wire::enc_payload);
                        assert(seq_tag_views(x.values@).skip(0) =~= seq_tag_views(x.values@));
                        assert(buf@ =~= buf1 + enc_payload(value@));
                        lemma_write_value_stitch(old(buf)@, buf@, value@, write_name);
                    }
                    Ok(())
                },
            }
        },
        NbtTag::Compound(x) => {
            match write_entries(buf, &x.values, 0) {
                Err(e) => Err(e),
                Ok(_) => {
                    buf.push(0u8);
                    proof {
                        reveal(crate::wire::enc_payload);
                        assert(seq_tag_views(x.values@).skip(0) =~= seq_tag_views(x.values@));
                        assert(buf@ =~= buf1 + enc_payload(value@));
                        lemma_write_value_stitch(old(buf)@, buf@, value@, write_name);
                    }
                    Ok(())
                },
            }
        },
        NbtTag::IntArray(x) => {
            let n = x.values.len();
            push_u32_be(buf, n as u32);
            let ghost buf2 = buf@;
            let mut k: usize = 0;
            while k < n
                invariant
                    n == x.values@.len(),
                    k <= n,
                    buf@ == buf2 + enc_i32s(x.values@.take(k as int)),
                decreases n - k,
            {
                let ghost pre = x.values@.take(k as int);
                push_u32_be(buf, u32_from_i32(x.values[k]));
                proof {
                    lemma_enc_i32s_snoc(pre, x.values@[k as int]);
                    assert(x.values@.take(k + 1) =~= pre.push(x.values@[k as int]));
                    assert(buf@ =~= buf2 + enc_i32s(x.values@.take(k + 1)));
                }
                k += 1;
            }
            proof {
                reveal(crate::wire::enc_payload);
                assert(x.values@.take(n as int) =~= x.values@);
                assert(buf@ =~= buf1 + enc_payload(value@));
                lemma_write_value_stitch(old(buf)@, buf@, value@, write_name);
            }
            Ok(())
        },
        NbtTag::LongArray(x) => {
            let n = x.values.len();
            push_u32_be(buf, n as u32);
            let ghost buf2 = buf@;
            let mut k: usize = 0;
            while k < n
                invariant
                    n == x.values@.len(),
                    k <= n,
                    buf@ == buf2 + enc_i64s(x.values@.take(k as int)),
                decreases n - k,
            {
                let ghost pre = x.values@.take(k as int);
                push_u64_be(buf, u64_from_i64(x.values[k]));
                proof {
                    lemma_enc_i64s_snoc(pre, x.values@[k as int]);
                    assert(x.values@.take(k + 1) =~= pre.push(x.values@[k as int]));
                    assert(buf@ =~= buf2 + enc_i64s(x.values@.take(k + 1)));
                }
                k += 1;
            }
            proof {
                reveal(crate::wire::enc_payload);
                assert(x.values@.take(n as int) =~= x.values@);
                assert(buf@ =~= buf1 + enc_payload(value@));
                lemma_write_value_stitch(old(buf)@, buf@, value@, write_name);
            }
            Ok(())
        },
    }
}

/// Splices the name prefix and the payload of one written value.
proof fn lemma_write_value_stitch(buf0: Seq<u8>, bufn: Seq<u8>, t: TagV, write_name: bool)
    requires
        bufn == (if write_name {
            buf0 + seq![spec_type_id(tag_kind(t))] + enc_name(tag_name(t))
        } else {
            buf0
        }) + enc_payload(t),
    ensures
        bufn == buf0 + if write_name {
            enc_named(t)
        } else {
            enc_payload(t)
        },
{
    reveal(crate::wire::enc_payload);
    if write_name {
        assert((buf0 + seq![spec_type_id(tag_kind(t))] + enc_name(tag_name(t))) + enc_payload(t)
            =~= buf0 + enc_named(t));
    } else {
        assert(buf0 + enc_payload(t) =~= buf0 + enc_payload(t));
    }
}

/// Writes the entries of a compound and the closing `End` byte.
fn write_compound(buf: &mut Vec<u8>, compound: &NbtTagCompound) -> (r: Result<(), NbtTagError>)
    requires
        wf_entries(compound@.entries),
    ensures
        r is Ok,
        final(buf)@ == old(buf)@ + enc_entries(compound@.entries) + seq![0u8],
{
    match write_entries(buf, &compound.values, 0) {
        Err(e) => Err(e),
        Ok(_) => {
            buf.push(0u8);
            proof {
                assert(seq_tag_views(compound.values@).skip(0) =~= compound@.entries);
                assert(buf@ =~= old(buf)@ + enc_entries(compound@.entries) + seq![0u8]);
            }
            Ok(())
        },
    }
}

/// Writes a whole document: the root compound with its name, kind byte
/// first, `End`-terminated.  The bytes written are exactly the encoding
/// of the compound's value.
pub fn write(buf: &mut Vec<u8>, compound: &NbtTagCompound) -> (r: Result<(), NbtTagError>)
    requires
        wf_compound(compound@),
    ensures
        r is Ok,
        final(buf)@ == old(buf)@ + enc_doc(compound@),
{
    let _ = write_tag_type(buf, NbtTagType::Compound);
    let _ = write_tag_name(buf, compound.name.as_str());
    match write_compound(buf, compound) {
        Err(e) => Err(e),
        Ok(_) => {
            proof {
                reveal(crate::wire::enc_payload);
                assert(buf@ =~= old(buf)@ + enc_doc(compound@));
            }
            Ok(())
        },
    }
}

} // verus!
