//! Binary payloads as they arrive from disk: the compression identifier,
//! the three framings (none, gzip, zlib), and the decoding of a payload
//! into a tag tree.

use vstd::prelude::*;

use crate::file_parser::parse_bytes;
use crate::nbt_tag::NbtTag;
use crate::nbt_tag::CompoundV;
use crate::nbt_tag::NbtTagCompound;
use crate::nbt_tag::NbtTagError;
use crate::nbt_tag::TagV;
use crate::wire::dec_root;
use crate::wire::dedup_entries;

verus! {

/// What kind of file a binary payload came from.
#[derive(Clone, Copy, Debug, PartialEq, Eq, Hash, Structural)]
pub enum FileType {
    Nbt,
    Region,
}

/// The compression framing of a payload, as the chunk header names it.
#[derive(Clone, Copy, Debug, PartialEq, Eq, Hash, Structural)]
pub enum CompressionType {
    Uncompressed,
    Gzip,
    Zlib,
}

/// Errors of the compression layer.
#[derive(Clone, Copy, Debug, PartialEq, Eq, Structural)]
pub enum CompressionError {
    /// A compression identifier other than `0`, `1` or `2`.
    UnknownCompression(u8),
}

/// The compression framing named by a wire identifier.
pub open spec fn spec_compression_from_u8(value: u8) -> Result<CompressionType, CompressionError> {
    if value == 0 {
        Ok(CompressionType::Uncompressed)
    } else if value == 1 {
        Ok(CompressionType::Gzip)
    } else if value == 2 {
        Ok(CompressionType::Zlib)
    } else {
        Err(CompressionError::UnknownCompression(value))
    }
}

/// The wire identifier of a compression framing.
pub open spec fn spec_compression_to_u8(c: CompressionType) -> u8 {
    match c {
        CompressionType::Uncompressed => 0,
        CompressionType::Gzip => 1,
        CompressionType::Zlib => 2,
    }
}

impl CompressionType {
    /// Constructs a compression framing from its byte identifier;
    /// identifiers other than `0`, `1` and `2` are rejected.
    pub fn from_u8(value: u8) -> (r: Result<Self, CompressionError>)
        ensures
            r == spec_compression_from_u8(value),
    {
        match value {
            0 => Ok(CompressionType::Uncompressed),
            1 => Ok(CompressionType::Gzip),
            2 => Ok(CompressionType::Zlib),
            _ => Err(CompressionError::UnknownCompression(value)),
        }
    }

    /// The byte identifier of this compression framing.
    pub fn to_u8(self) -> (r: u8)
        ensures
            r == spec_compression_to_u8(self),
    {
        match self {
            CompressionType::Uncompressed => 0,
            CompressionType::Gzip => 1,
            CompressionType::Zlib => 2,
        }
    }
}

/// Identifiers and framings are each other's inverses.
pub proof fn lemma_compression_round_trip()
    ensures
        forall|c: CompressionType| spec_compression_from_u8(spec_compression_to_u8(c)) == Ok::<
            CompressionType,
            CompressionError,
        >(c),
        forall|v: u8|
            (#[trigger] spec_compression_from_u8(v)) matches Ok(c) ==> spec_compression_to_u8(c)
                == v,
{
}

/// Errors of reading a binary payload.
#[derive(Clone, Copy, Debug, PartialEq, Eq, Structural)]
pub enum GenericBinError {
    /// An unknown compression identifier.
    Compression(CompressionError),
    /// No framing (gzip, zlib, raw) yielded a plausible tag document.
    DecompressionFailed,
    /// The uncompressed bytes are not a well-formed tag document.
    ParseError(NbtTagError),
}

/// What inflating a gzip-framed stream yields, or nothing when the
/// stream is not gzip-framed deflate; a function of the bytes alone.
pub uninterp spec fn gzip_inflate(b: Seq<u8>) -> Option<Seq<u8>>;

/// What inflating a zlib-framed stream yields, or nothing when the
/// stream is not zlib-framed deflate; a function of the bytes alone.
pub uninterp spec fn zlib_inflate(b: Seq<u8>) -> Option<Seq<u8>>;

/// Relies on flate2's `read::GzDecoder` together with std's
/// `Read::read_to_end`: inflating a byte buffer is deterministic, so the
/// result (or the failure) is a function of the input bytes alone.
#[verifier::external_body]
fn gzip_decompress(data: &[u8]) -> (r: Option<Vec<u8>>)
    ensures
        match r {
            Some(v) => gzip_inflate(data@) == Some(v@),
            None => gzip_inflate(data@) is None,
        },
{
    let mut decoder = flate2::read::GzDecoder::new(data);
    let mut decompressed = Vec::new();
    match std::io::Read::read_to_end(&mut decoder, &mut decompressed) {
        Ok(_) => Some(decompressed),
        Err(_) => None,
    }
}

/// Relies on flate2's `read::ZlibDecoder` together with std's
/// `Read::read_to_end`: inflating a byte buffer is deterministic, so the
/// result (or the failure) is a function of the input bytes alone.
#[verifier::external_body]
fn zlib_decompress(data: &[u8]) -> (r: Option<Vec<u8>>)
    ensures
        match r {
            Some(v) => zlib_inflate(data@) == Some(v@),
            None => zlib_inflate(data@) is None,
        },
{
    let mut decoder = flate2::read::ZlibDecoder::new(data);
    let mut decompressed = Vec::new();
    match std::io::Read::read_to_end(&mut decoder, &mut decompressed) {
        Ok(_) => Some(decompressed),
        Err(_) => None,
    }
}

/// Decoding a payload under a given compression identifier.
pub open spec fn spec_decode_payload(payload: Seq<u8>, method: u8) -> Result<
    Seq<u8>,
    GenericBinError,
> {
    match spec_compression_from_u8(method) {
        Err(e) => Err(GenericBinError::Compression(e)),
        Ok(CompressionType::Gzip) => match gzip_inflate(payload) {
            Some(v) => Ok(v),
            None => Err(GenericBinError::DecompressionFailed),
        },
        Ok(CompressionType::Zlib) => match zlib_inflate(payload) {
            Some(v) => Ok(v),
            None => Err(GenericBinError::DecompressionFailed),
        },
        Ok(CompressionType::Uncompressed) => Ok(payload),
    }
}

/// A plausible tag document: nonempty, first byte a tag kind id.
pub open spec fn spec_plausible_doc(b: Seq<u8>) -> bool {
    b.len() > 0 && b[0] <= 12
}

/// The compression heuristic for standalone files that advertise no
/// method: gzip, then zlib, then the raw bytes, the first whose result
/// starts with a valid tag kind id; else nothing.
pub open spec fn spec_try_decode(b: Seq<u8>) -> Result<Seq<u8>, GenericBinError> {
    if gzip_inflate(b) matches Some(v) && spec_plausible_doc(v) {
        Ok(gzip_inflate(b)->0)
    } else if zlib_inflate(b) matches Some(v) && spec_plausible_doc(v) {
        Ok(zlib_inflate(b)->0)
    } else if spec_plausible_doc(b) {
        Ok(b)
    } else {
        Err(GenericBinError::DecompressionFailed)
    }
}

/// What a whole payload decodes to: the heuristic, then the tag codec.
pub open spec fn spec_bin_to_compound(b: Seq<u8>) -> Result<CompoundV, GenericBinError> {
    match spec_try_decode(b) {
        Err(e) => Err(e),
        Ok(v) => match dec_root(v) {
            Err(e) => Err(GenericBinError::ParseError(e)),
            Ok(p) => Ok(CompoundV { name: p.0.name, entries: dedup_entries(p.0.entries) }),
        },
    }
}

/// A binary payload, as read from disk by the caller.
pub struct GenericBinFile {
    raw_data: Vec<u8>,
}

impl View for GenericBinFile {
    type V = Seq<u8>;

    closed spec fn view(&self) -> Seq<u8> {
        self.raw_data@
    }
}

/// Whether a buffer starts with a valid tag kind id.
fn plausible_doc(v: &Vec<u8>) -> (r: bool)
    ensures
        r == spec_plausible_doc(v@),
{
    v.len() > 0 && v[0] <= 12
}

impl GenericBinFile {
    /// Wraps a raw payload.
    pub fn new(raw_data: Vec<u8>) -> (r: Self)
        ensures
            r@ == raw_data@,
    {
        GenericBinFile { raw_data }
    }

    /// The raw payload.
    pub fn get_raw_data(&self) -> (r: &Vec<u8>)
        ensures
            r@ == self@,
    {
        &self.raw_data
    }

    /// Decodes a payload under the compression identifier named by the
    /// first byte of `chunk_compression_method`.
    pub fn decode_binary_data(&self, chunk_payload: &[u8], chunk_compression_method: &[u8]) -> (r:
        Result<Vec<u8>, GenericBinError>)
        requires
            chunk_compression_method@.len() >= 1,
        ensures
            match spec_decode_payload(chunk_payload@, chunk_compression_method@[0]) {
                Ok(v) => r matches Ok(rv) && rv@ == v,
                Err(e) => r matches Err(e2) && e2 == e,
            },
    {
        let method = chunk_compression_method[0];
        match CompressionType::from_u8(method) {
            Err(e) => Err(GenericBinError::Compression(e)),
            Ok(CompressionType::Gzip) => match gzip_decompress(chunk_payload) {
                Some(v) => Ok(v),
                None => Err(GenericBinError::DecompressionFailed),
            },
            Ok(CompressionType::Zlib) => match zlib_decompress(chunk_payload) {
                Some(v) => Ok(v),
                None => Err(GenericBinError::DecompressionFailed),
            },
            Ok(CompressionType::Uncompressed) => Ok(vstd::slice::slice_to_vec(chunk_payload)),
        }
    }

    /// Applies the compression heuristic to the raw payload: gzip, then
    /// zlib, then the bytes as they stand, accepting the first result
    /// that starts with a valid tag kind id.
    pub fn try_decode_data(&self) -> (r: Result<Vec<u8>, GenericBinError>)
        ensures
            match spec_try_decode(self@) {
                Ok(v) => r matches Ok(rv) && rv@ == v,
                Err(e) => r matches Err(e2) && e2 == e,
            },
    {
        match gzip_decompress(self.raw_data.as_slice()) {
            Some(v) => {
                if plausible_doc(&v) {
                    return Ok(v);
                }
            },
            None => {},
        }
        match zlib_decompress(self.raw_data.as_slice()) {
            Some(v) => {
                if plausible_doc(&v) {
                    return Ok(v);
                }
            },
            None => {},
        }
        let raw = vstd::slice::slice_to_vec(self.raw_data.as_slice());
        if plausible_doc(&raw) {
            Ok(raw)
        } else {
            Err(GenericBinError::DecompressionFailed)
        }
    }

    /// Decodes the raw payload into a tag document: the heuristic, then
    /// the tag codec; the root is always a compound.
    pub fn to_tag(&self) -> (r: Result<NbtTag, GenericBinError>)
        ensures
            match spec_bin_to_compound(self@) {
                Ok(c) => r matches Ok(t) && t@ == TagV::Compound { name: c.name, entries: c.entries },
                Err(e) => r matches Err(e2) && e2 == e,
            },
    {
        let uncompressed_data = match self.try_decode_data() {
            Err(e) => {
                return Err(e);
            },
            Ok(v) => v,
        };
        match parse_bytes(uncompressed_data.as_slice()) {
            Err(e) => Err(GenericBinError::ParseError(e)),
            Ok(root) => Ok(root),
        }
    }

    /// Decodes the raw payload into its root compound.
    pub fn to_tag_compound(&self) -> (r: Result<NbtTagCompound, GenericBinError>)
        ensures
            match spec_bin_to_compound(self@) {
                Ok(c) => r matches Ok(comp) && comp@ == c,
                Err(e) => r matches Err(e2) && e2 == e,
            },
    {
        let tag = match self.to_tag() {
            Err(e) => {
                return Err(e);
            },
            Ok(t) => t,
        };
        match tag.compound() {
            Some(c) => Ok(c),
            None => Err(GenericBinError::ParseError(NbtTagError::InvalidTagType(0))),
        }
    }

    /// Decodes the raw payload into a list holding its one root
    /// compound.
    pub fn to_compounds_list(&self) -> (r: Result<Vec<NbtTagCompound>, GenericBinError>)
        ensures
            match spec_bin_to_compound(self@) {
                Ok(c) => r matches Ok(v) && v@.len() == 1 && v@[0]@ == c,
                Err(e) => r matches Err(e2) && e2 == e,
            },
    {
        let compound = match self.to_tag_compound() {
            Err(e) => {
                return Err(e);
            },
            Ok(c) => c,
        };
        let mut list: Vec<NbtTagCompound> = Vec::new();
        list.push(compound);
        Ok(list)
    }
}

} // verus!
