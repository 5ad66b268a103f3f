//! Tests of the compression layer and the region container, with real
//! gzip and zlib streams.

use rnbt::generic_bin::CompressionError;
use rnbt::generic_bin::CompressionType;
use rnbt::generic_bin::GenericBinError;
use rnbt::generic_bin::GenericBinFile;
use rnbt::nbt_tag::NbtTag;
use rnbt::nbt_tag::NbtTagCompound;
use rnbt::nbt_tag::NbtTagInt;
use rnbt::region::RegionError;
use rnbt::region::RegionFile;
use std::io::Write as IoWrite;

fn sample_doc() -> (NbtTagCompound, Vec<u8>) {
    let mut compound = NbtTagCompound::new("root");
    compound.insert(
        "int".to_string(),
        NbtTag::Int(NbtTagInt::new("int".to_string(), 42)),
    );
    let mut buf = Vec::new();
    rnbt::nbt_tag::write(&mut buf, &compound).unwrap();
    (compound, buf)
}

fn gzip_bytes(data: &[u8]) -> Vec<u8> {
    let mut encoder =
        flate2::write::GzEncoder::new(Vec::new(), flate2::Compression::default());
    encoder.write_all(data).unwrap();
    encoder.finish().unwrap()
}

fn zlib_bytes(data: &[u8]) -> Vec<u8> {
    let mut encoder =
        flate2::write::ZlibEncoder::new(Vec::new(), flate2::Compression::default());
    encoder.write_all(data).unwrap();
    encoder.finish().unwrap()
}

#[test]
fn test_compression_type_round_trip() {
    for c in [
        CompressionType::Uncompressed,
        CompressionType::Gzip,
        CompressionType::Zlib,
    ] {
        assert_eq!(CompressionType::from_u8(c.to_u8()).unwrap(), c);
    }
    assert_eq!(
        CompressionType::from_u8(3),
        Err(CompressionError::UnknownCompression(3))
    );
}

#[test]
fn test_gzip_decode_restores_bytes() {
    let (_, doc) = sample_doc();
    let gz = gzip_bytes(&doc);
    // The compressed bytes differ from the document, so an identity
    // "decompression" would fail this comparison.
    assert_ne!(gz, doc);
    let bin = GenericBinFile::new(Vec::new());
    let decoded = bin.decode_binary_data(&gz, &[1]).unwrap();
    assert_eq!(decoded, doc);
}

#[test]
fn test_zlib_decode_restores_bytes() {
    let (_, doc) = sample_doc();
    let z = zlib_bytes(&doc);
    assert_ne!(z, doc);
    let bin = GenericBinFile::new(Vec::new());
    let decoded = bin.decode_binary_data(&z, &[2]).unwrap();
    assert_eq!(decoded, doc);
}

#[test]
fn test_unknown_compression_id() {
    let bin = GenericBinFile::new(Vec::new());
    let r = bin.decode_binary_data(&[1, 2, 3], &[7]);
    assert_eq!(
        r,
        Err(GenericBinError::Compression(CompressionError::UnknownCompression(7)))
    );
}

#[test]
fn test_compression_heuristic_zlib_blob() {
    // A standalone file that is zlib-framed without an on-disk
    // compression byte: the heuristic finds the right framing.
    let (compound, doc) = sample_doc();
    let bin = GenericBinFile::new(zlib_bytes(&doc));
    let compounds = bin.to_compounds_list().unwrap();
    assert_eq!(compounds.len(), 1);
    assert_eq!(compounds[0].name, compound.name);
}

#[test]
fn test_compression_heuristic_gzip_blob() {
    let (compound, doc) = sample_doc();
    let bin = GenericBinFile::new(gzip_bytes(&doc));
    let compounds = bin.to_compounds_list().unwrap();
    assert_eq!(compounds.len(), 1);
    assert_eq!(compounds[0].name, compound.name);
}

#[test]
fn test_compression_heuristic_rejects_garbage() {
    // Neither gzip nor zlib, and the first byte is no tag kind id.
    let bin = GenericBinFile::new(vec![0xFF, 0x13, 0x99]);
    let r = bin.try_decode_data();
    assert_eq!(r, Err(GenericBinError::DecompressionFailed));
}

/// Builds a region buffer holding one chunk at the given sector with
/// an uncompressed payload.
fn region_with_chunk(sector: u32, doc: &[u8]) -> Vec<u8> {
    let total = (sector as usize + 1) * 4096;
    let mut region = vec![0u8; total];
    // Offset table entry 1: three sector bytes and one count byte.
    region[4] = ((sector >> 16) & 0xFF) as u8;
    region[5] = ((sector >> 8) & 0xFF) as u8;
    region[6] = (sector & 0xFF) as u8;
    region[7] = 1;
    // Chunk header: payload length (compression byte plus data), then
    // the compression identifier, then the tag bytes.
    let base = sector as usize * 4096;
    let chunk_len = (doc.len() + 1) as u32;
    region[base..base + 4].copy_from_slice(&chunk_len.to_be_bytes());
    region[base + 4] = 0;
    region[base + 5..base + 5 + doc.len()].copy_from_slice(doc);
    region
}

#[test]
fn test_absent_chunk_skipped() {
    // Offset entries [(0,0), (2,1), ...]: only the chunk at sector 2
    // is present, so the compound list has length 1, not 1024.
    let (compound, doc) = sample_doc();
    let region_bytes = region_with_chunk(2, &doc);
    let region = RegionFile::new(region_bytes).unwrap();
    assert_eq!(region.get_chunks_num(), 1024);
    let compounds = region.to_compounds_list().unwrap();
    assert_eq!(compounds.len(), 1);
    assert_eq!(compounds[0].name, compound.name);
}

#[test]
fn test_region_shorter_than_header() {
    let r = RegionFile::new(vec![0u8; 100]);
    assert!(matches!(r, Err(RegionError::InvalidRegionFile)));
}

#[test]
fn test_region_chunk_out_of_range() {
    // An offset table pointing past the end of the buffer.
    let mut region_bytes = vec![0u8; 8192];
    region_bytes[4] = 0;
    region_bytes[5] = 0;
    region_bytes[6] = 9;  // sector 9, far beyond the buffer
    region_bytes[7] = 1;
    let region = RegionFile::new(region_bytes).unwrap();
    let r = region.to_compounds_list();
    assert!(matches!(r, Err(RegionError::InvalidChunkOffsetSize(1))));
}

#[test]
fn test_region_chunk_decodes_through_pipeline() {
    // A zlib-compressed chunk travels through the whole pipeline:
    // offset table, chunk header, decompression, tag codec.
    let (compound, doc) = sample_doc();
    let z = zlib_bytes(&doc);
    let sector = 2usize;
    let total = (sector + 1) * 4096;
    let mut region_bytes = vec![0u8; total];
    region_bytes[4] = 0;
    region_bytes[5] = 0;
    region_bytes[6] = sector as u8;
    region_bytes[7] = 1;
    let base = sector * 4096;
    let chunk_len = (z.len() + 1) as u32;
    region_bytes[base..base + 4].copy_from_slice(&chunk_len.to_be_bytes());
    region_bytes[base + 4] = 2;
    region_bytes[base + 5..base + 5 + z.len()].copy_from_slice(&z);
    let region = RegionFile::new(region_bytes).unwrap();
    let compounds = region.to_compounds_list().unwrap();
    assert_eq!(compounds.len(), 1);
    assert_eq!(compounds[0].name, compound.name);
    assert_eq!(
        compounds[0].get("int").unwrap().int_tag().unwrap().value,
        42
    );
}
