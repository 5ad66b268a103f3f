//! The region container: a fixed 4 KiB offset table addressing up to
//! 1024 sector-aligned chunk payloads, each with a length-and-compression
//! header, decompressed and decoded into root compounds.

use vstd::prelude::*;

use crate::file_parser::parse_bytes;
use crate::generic_bin::GenericBinError;
use crate::generic_bin::GenericBinFile;
use crate::generic_bin::spec_decode_payload;
use crate::nbt_tag::CompoundV;
use crate::nbt_tag::NbtTagCompound;
use crate::nbt_tag::NbtTagError;
use crate::wire::be32_val;
use crate::wire::dec_root;
use crate::wire::dedup_entries;
use crate::wire::read_u32_be;
use crate::wire::read_u8;

verus! {

/// Errors of the region container.  Each chunk-level error carries the
/// index of the chunk it arose in.
#[derive(Clone, Copy, Debug, PartialEq, Eq, Structural)]
pub enum RegionError {
    /// The buffer is shorter than the 4 KiB offset table.
    InvalidRegionFile,
    /// A chunk index at or past the end of the offset table.
    ChunkIndexOutOfBounds,
    /// A chunk whose sector range does not lie within the file.
    InvalidChunkOffsetSize(usize),
    /// A chunk whose length header does not fit its sector range.
    InvalidChunkHeaderLength(usize),
    /// A chunk whose payload would not decompress.
    Decompression(usize, GenericBinError),
    /// A chunk whose payload is not a well-formed tag document.
    ParseError(usize, NbtTagError),
}

/// The length of the offset table in bytes.
pub open spec fn header_length() -> nat {
    4096
}

/// The sector offset of entry `i` of the offset table: three big-endian
/// bytes.
pub open spec fn spec_entry_sector(header: Seq<u8>, i: int) -> u32 {
    (header[4 * i] * 0x10000 + header[4 * i + 1] * 0x100 + header[4 * i + 2]) as u32
}

/// The sector count of entry `i` of the offset table: one byte.
pub open spec fn spec_entry_count(header: Seq<u8>, i: int) -> u32 {
    header[4 * i + 3] as u32
}

/// The parsed offset table: 1024 entries of (sector offset, sector
/// count), each sector 4096 bytes long.
pub open spec fn spec_chunk_offsets(header: Seq<u8>) -> Seq<(u32, u32)> {
    Seq::new(
        header.len() / 4,
        |i: int| (spec_entry_sector(header, i), spec_entry_count(header, i)),
    )
}

/// What reading one chunk yields: its decompressed tag bytes, or the
/// error that stops it.  The sector range must lie within the file, the
/// chunk header must announce at least one byte, and the announced
/// payload must fit the range.
pub open spec fn spec_read_chunk(data: Seq<u8>, offsets: Seq<(u32, u32)>, index: int) -> Result<
    Seq<u8>,
    RegionError,
> {
    if !(0 <= index < offsets.len()) {
        Err(RegionError::ChunkIndexOutOfBounds)
    } else {
        let off = offsets[index].0 * 4096;
        let size = offsets[index].1 * 4096;
        if off >= data.len() || off + size > data.len() {
            Err(RegionError::InvalidChunkOffsetSize(index as usize))
        } else {
            let chunk = data.subrange(off as int, off + size);
            if chunk.len() < 5 {
                Err(RegionError::InvalidChunkHeaderLength(index as usize))
            } else {
                let real_len = be32_val(chunk[0], chunk[1], chunk[2], chunk[3]) as int;
                if real_len < 1 || 4 + real_len > chunk.len() {
                    Err(RegionError::InvalidChunkHeaderLength(index as usize))
                } else {
                    let method = chunk[4];
                    let payload = chunk.subrange(5, 4 + real_len);
                    match spec_decode_payload(payload, method) {
                        Err(e) => Err(RegionError::Decompression(index as usize, e)),
                        Ok(v) => Ok(v),
                    }
                }
            }
        }
    }
}

/// The compounds of all present chunks from `index` on, in index order;
/// absent chunks (sector offset zero) are skipped, and the first failing
/// chunk stops the whole read with its error.
pub open spec fn spec_region_compounds(
    data: Seq<u8>,
    offsets: Seq<(u32, u32)>,
    index: int,
) -> Result<Seq<CompoundV>, RegionError>
    decreases offsets.len() - index,
{
    if !(0 <= index < offsets.len()) {
        Ok(Seq::empty())
    } else if offsets[index].0 == 0 {
        spec_region_compounds(data, offsets, index + 1)
    } else {
        match spec_read_chunk(data, offsets, index) {
            Err(e) => Err(e),
            Ok(bytes) => match dec_root(bytes) {
                Err(e) => Err(RegionError::ParseError(index as usize, e)),
                Ok(p) => match spec_region_compounds(data, offsets, index + 1) {
                    Err(e) => Err(e),
                    Ok(rest) => Ok(
                        seq![
                            CompoundV { name: p.0.name, entries: dedup_entries(p.0.entries) },
                        ] + rest,
                    ),
                },
            },
        }
    }
}

/// Whenever a chunk with a nonzero sector count is accepted, its whole
/// sector range lies within the file.
pub proof fn lemma_chunk_payload_in_bounds(data: Seq<u8>, offsets: Seq<(u32, u32)>, index: int)
    ensures
        spec_read_chunk(data, offsets, index) is Ok ==> 0 <= index < offsets.len() && 4096
            * offsets[index].0 + 4096 * offsets[index].1 <= data.len(),
{
}

/// A region file: its raw bytes and its parsed offset table.
pub struct RegionFile {
    bin_content: GenericBinFile,
    num_chunks: usize,
    chunk_offsets: Vec<(u32, u32)>,
}

/// The mathematical content of a region file.
pub ghost struct RegionV {
    pub data: Seq<u8>,
    pub offsets: Seq<(u32, u32)>,
}

impl View for RegionFile {
    type V = RegionV;

    closed spec fn view(&self) -> RegionV {
        RegionV { data: self.bin_content@, offsets: self.chunk_offsets@ }
    }
}

impl RegionFile {
    /// Wraps a region file's bytes, parsing the offset table.  Buffers
    /// shorter than the table are rejected.
    pub fn new(bin_content: Vec<u8>) -> (r: Result<Self, RegionError>)
        ensures
            bin_content@.len() < header_length() ==> r matches Err(
                RegionError::InvalidRegionFile,
            ),
            bin_content@.len() >= header_length() ==> (r matches Ok(rf) && rf@.data == bin_content@
                && rf@.offsets == spec_chunk_offsets(bin_content@.take(header_length() as int))
                && rf@.offsets.len() == 1024),
    {
        if bin_content.len() < 4096 {
            return Err(RegionError::InvalidRegionFile);
        }
        let ghost data = bin_content@;
        let mut chunk_offsets: Vec<(u32, u32)> = Vec::new();
        let mut i: usize = 0;
        while i < 1024
            invariant
                i <= 1024,
                data == bin_content@,
                data.len() >= 4096,
                chunk_offsets@.len() == i,
                forall|k: int|
                    0 <= k < i ==> #[trigger] chunk_offsets@[k] == (
                    spec_entry_sector(data.take(4096), k),
                    spec_entry_count(data.take(4096), k),
                ),
            decreases 1024 - i,
        {
            let b0 = read_u8(bin_content.as_slice(), 4 * i);
            let b1 = read_u8(bin_content.as_slice(), 4 * i + 1);
            let b2 = read_u8(bin_content.as_slice(), 4 * i + 2);
            let b3 = read_u8(bin_content.as_slice(), 4 * i + 3);
            let sector: u32 = (b0 as u32) * 0x10000 + (b1 as u32) * 0x100 + (b2 as u32);
            chunk_offsets.push((sector, b3 as u32));
            proof {
                assert(data.take(4096)[4 * i as int] == data[4 * i as int]);
                assert(data.take(4096)[4 * i as int + 1] == data[4 * i as int + 1]);
                assert(data.take(4096)[4 * i as int + 2] == data[4 * i as int + 2]);
                assert(data.take(4096)[4 * i as int + 3] == data[4 * i as int + 3]);
            }
            i += 1;
        }
        let num_chunks = chunk_offsets.len();
        let r = RegionFile {
            bin_content: GenericBinFile::new(bin_content),
            num_chunks,
            chunk_offsets,
        };
        proof {
            assert(r@.offsets =~= spec_chunk_offsets(data.take(header_length() as int)));
        }
        Ok(r)
    }

    /// The number of entries of the offset table.
    pub fn get_chunks_num(&self) -> (r: usize)
        ensures
            r == self@.offsets.len(),
    {
        self.chunk_offsets.len()
    }

    /// Reads, bounds-checks and decompresses the chunk at `index`,
    /// yielding its uncompressed tag bytes.
    pub fn read_and_decompress_chunk(&self, index: usize) -> (r: Result<Vec<u8>, RegionError>)
        ensures
            match spec_read_chunk(self@.data, self@.offsets, index as int) {
                Ok(v) => r matches Ok(rv) && rv@ == v,
                Err(e) => r matches Err(e2) && e2 == e,
            },
    {
        if index >= self.chunk_offsets.len() {
            return Err(RegionError::ChunkIndexOutOfBounds);
        }
        let (sector, count) = self.chunk_offsets[index];
        let raw_data = self.bin_content.get_raw_data();
        let off64 = (sector as u64) * 4096;
        let size64 = (count as u64) * 4096;
        if off64 >= raw_data.len() as u64 || off64 + size64 > raw_data.len() as u64 {
            return Err(RegionError::InvalidChunkOffsetSize(index));
        }
        let offset = off64 as usize;
        let size = size64 as usize;
        if size < 5 {
            return Err(RegionError::InvalidChunkHeaderLength(index));
        }
        let ghost chunk = self@.data.subrange(offset as int, offset + size);
        let real_chunk_len = read_u32_be(raw_data.as_slice(), offset) as usize;
        proof {
            assert(chunk[0] == self@.data[offset as int]);
            assert(chunk[1] == self@.data[offset as int + 1]);
            assert(chunk[2] == self@.data[offset as int + 2]);
            assert(chunk[3] == self@.data[offset as int + 3]);
            assert(chunk[4] == self@.data[offset as int + 4]);
        }
        if real_chunk_len < 1 || real_chunk_len > size - 4 {
            return Err(RegionError::InvalidChunkHeaderLength(index));
        }
        let compression_method = read_u8(raw_data.as_slice(), offset + 4);
        let payload = vstd::slice::slice_subrange(
            raw_data.as_slice(),
            offset + 5,
            offset + 4 + real_chunk_len,
        );
        proof {
            assert(payload@ =~= chunk.subrange(5, 4 + real_chunk_len as int));
        }
        let method_arr = [compression_method];
        proof {
            assert(method_arr@[0] == compression_method);
        }
        match self.bin_content.decode_binary_data(payload, method_arr.as_slice()) {
            Ok(v) => Ok(v),
            Err(e) => Err(RegionError::Decompression(index, e)),
        }
    }

    /// Decodes every present chunk into its root compound, in index
    /// order; absent chunks are skipped, and the first failing chunk
    /// stops the read with its error.
    pub fn to_compounds_list(&self) -> (r: Result<Vec<NbtTagCompound>, RegionError>)
        ensures
            match spec_region_compounds(self@.data, self@.offsets, 0) {
                Ok(cs) => r matches Ok(v) && v@.len() == cs.len() && (forall|i: int|
                    0 <= i < cs.len() ==> #[trigger] v@[i]@ == cs[i]),
                Err(e) => r matches Err(e2) && e2 == e,
            },
    {
        self.process_all_chunks()
    }

    /// The worker behind [`Self::to_compounds_list`].
    fn process_all_chunks(&self) -> (r: Result<Vec<NbtTagCompound>, RegionError>)
        ensures
            match spec_region_compounds(self@.data, self@.offsets, 0) {
                Ok(cs) => r matches Ok(v) && v@.len() == cs.len() && (forall|i: int|
                    0 <= i < cs.len() ==> #[trigger] v@[i]@ == cs[i]),
                Err(e) => r matches Err(e2) && e2 == e,
            },
    {
        let ghost data = self@.data;
        let ghost offsets = self@.offsets;
        let n = self.chunk_offsets.len();
        let mut processed: Vec<NbtTagCompound> = Vec::new();
        let ghost acc: Seq<CompoundV> = Seq::empty();
        let mut index: usize = 0;
        proof {
            assert(match spec_region_compounds(data, offsets, 0) {
                Ok(cs) => Seq::new(
                    processed@.len(),
                    |i: int| processed@[i]@,
                ) + cs =~= cs,
                Err(_) => true,
            });
        }
        while index < n
            invariant
                n == self.chunk_offsets@.len(),
                data == self@.data,
                offsets == self@.offsets,
                index <= n,
                match spec_region_compounds(data, offsets, index as int) {
                    Ok(cs) => spec_region_compounds(data, offsets, 0) == Ok::<
                        Seq<CompoundV>,
                        RegionError,
                    >(Seq::new(processed@.len(), |i: int| processed@[i]@) + cs),
                    Err(e) => spec_region_compounds(data, offsets, 0) == Err::<
                        Seq<CompoundV>,
                        RegionError,
                    >(e),
                },
            decreases n - index,
        {
            let (sector, _count) = self.chunk_offsets[index];
            if sector != 0 {
                let chunk_data = match self.read_and_decompress_chunk(index) {
                    Err(e) => {
                        return Err(e);
                    },
                    Ok(v) => v,
                };
                let chunk_nbt = match parse_bytes(chunk_data.as_slice()) {
                    Err(e) => {
                        return Err(RegionError::ParseError(index, e));
                    },
                    Ok(t) => t,
                };
                match chunk_nbt.compound() {
                    Some(compound) => {
                        let ghost vpre = processed@;
                        processed.push(compound);
                        proof {
                            assert(Seq::new(processed@.len(), |i: int| processed@[i]@) =~= Seq::new(
                                vpre.len(),
                                |i: int| vpre[i]@,
                            ).push(processed@[vpre.len() as int]@));
                            assert(match spec_region_compounds(data, offsets, index + 1) {
                                Ok(rest) => Seq::new(processed@.len(), |i: int| processed@[i]@)
                                    + rest =~= Seq::new(vpre.len(), |i: int| vpre[i]@) + (seq![
                                    processed@[vpre.len() as int]@,
                                ] + rest),
                                Err(_) => true,
                            });
                        }
                    },
                    None => {
                        proof {
                            assert(false);
                        }
                        return Err(RegionError::ParseError(index, NbtTagError::InvalidTagType(0)));
                    },
                }
            }
            index += 1;
        }
        proof {
            assert(match spec_region_compounds(data, offsets, n as int) {
                Ok(cs) => Seq::new(processed@.len(), |i: int| processed@[i]@) + cs =~= Seq::new(
                    processed@.len(),
                    |i: int| processed@[i]@,
                ),
                Err(_) => true,
            });
        }
        Ok(processed)
    }
}

} // verus!
