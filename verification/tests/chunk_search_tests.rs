//! Tests of the palette decoder and the block and compound searches.

use rnbt::McWorldDescriptor;
use rnbt::WorldFileKind;
use rnbt::classify_extension;
use rnbt::blocks::Coordinates;
use rnbt::chunk_format::get_palette_id_size_in_bit;
use rnbt::chunk_format::get_palette_ids_from_data_array_element;
use rnbt::chunk_format::advance_block_position;
use rnbt::nbt_tag::NbtTag;
use rnbt::nbt_tag::NbtTagByte;
use rnbt::nbt_tag::NbtTagCompound;
use rnbt::nbt_tag::NbtTagInt;
use rnbt::nbt_tag::NbtTagList;
use rnbt::nbt_tag::NbtTagLongArray;
use rnbt::nbt_tag::NbtTagString;
use rnbt::nbt_tag::NbtTagType;

/// A palette entry compound carrying a `Name` string.
fn palette_entry(name: &str) -> NbtTag {
    let mut c = NbtTagCompound::new("");
    c.insert(
        "Name".to_string(),
        NbtTag::String(NbtTagString::new("Name".to_string(), name.to_string())),
    );
    NbtTag::Compound(c)
}

/// A palette list of entries named `prefix0`, `prefix1`, ...
fn palette_list(prefix: &str, n: usize) -> NbtTagList {
    let mut entries = Vec::new();
    let mut i: usize = 0;
    while i < n {
        entries.push(palette_entry(&format!("{}{}", prefix, i)));
        i += 1;
    }
    NbtTagList::new("palette".to_string(), NbtTagType::Compound, entries)
}

/// A section compound with the given vertical index, palette and data.
fn section(sy: i8, palette: NbtTagList, data: Option<Vec<i64>>) -> NbtTag {
    let mut block_states = NbtTagCompound::new("block_states");
    block_states.insert("palette".to_string(), NbtTag::List(palette));
    if let Some(d) = data {
        block_states.insert(
            "data".to_string(),
            NbtTag::LongArray(NbtTagLongArray::new("data".to_string(), d)),
        );
    }
    let mut sec = NbtTagCompound::new("");
    sec.insert(
        "Y".to_string(),
        NbtTag::Byte(NbtTagByte::new("Y".to_string(), sy)),
    );
    sec.insert("block_states".to_string(), NbtTag::Compound(block_states));
    NbtTag::Compound(sec)
}

/// A chunk compound at the given chunk coordinates with the given
/// sections.
fn chunk(cx: i32, cz: i32, sections: Vec<NbtTag>) -> NbtTagCompound {
    let mut c = NbtTagCompound::new("chunk");
    c.insert(
        "xPos".to_string(),
        NbtTag::Int(NbtTagInt::new("xPos".to_string(), cx)),
    );
    c.insert(
        "zPos".to_string(),
        NbtTag::Int(NbtTagInt::new("zPos".to_string(), cz)),
    );
    c.insert(
        "sections".to_string(),
        NbtTag::List(NbtTagList::new(
            "sections".to_string(),
            NbtTagType::Compound,
            sections,
        )),
    );
    c
}

#[test]
fn test_palette_width_boundaries() {
    // Widths at the boundary palette sizes, and the indices one word
    // holds at each width.
    assert_eq!(get_palette_id_size_in_bit(&palette_list("b", 1)), 4);
    assert_eq!(get_palette_id_size_in_bit(&palette_list("b", 16)), 4);
    assert_eq!(get_palette_id_size_in_bit(&palette_list("b", 17)), 5);
    assert_eq!(get_palette_id_size_in_bit(&palette_list("b", 32)), 5);
    assert_eq!(get_palette_id_size_in_bit(&palette_list("b", 33)), 6);
    assert_eq!(get_palette_id_size_in_bit(&palette_list("b", 64)), 6);

    // 16 indices per word at width 4 (no unused bits), 12 at width 5,
    // 10 at width 6 (4 unused bits each).
    assert_eq!(get_palette_ids_from_data_array_element(0, 4).len(), 16);
    assert_eq!(get_palette_ids_from_data_array_element(0, 5).len(), 12);
    assert_eq!(get_palette_ids_from_data_array_element(0, 6).len(), 10);
}

#[test]
fn test_palette_id_extraction() {
    // Pack the indices 0..16 into one word at width 4 and read them
    // back, low bits first.
    let mut word: u64 = 0;
    for s in 0..16u64 {
        word |= s << (4 * s);
    }
    let ids = get_palette_ids_from_data_array_element(word as i64, 4);
    for s in 0..16usize {
        assert_eq!(ids[s], s as u32);
    }
}

#[test]
fn test_palette_width_five_pattern() {
    // Palette size 20: width 5, 12 indices per word, 4 unused top
    // bits.  Each word packs the indices 0..12 and sets the unused top
    // bits, which must be ignored.
    let mut word: u64 = 0xF << 60;
    for s in 0..12u64 {
        word |= s << (5 * s);
    }
    let ids = get_palette_ids_from_data_array_element(word as i64, 5);
    assert_eq!(ids.len(), 12);
    for s in 0..12usize {
        assert_eq!(ids[s], s as u32);
    }

    // Run the whole section through the search: a data array of 342
    // such words covers 4096 positions; palette entry 1 appears at
    // every position whose stream index is 1 modulo 12.
    let data = vec![word as i64; 342];
    let world = McWorldDescriptor::new(
        "world".to_string(),
        vec![chunk(0, 0, vec![section(0, palette_list("b", 20), Some(data))])],
    );
    let found = world.search_blocks(vec!["b1".to_string()]).unwrap();
    assert_eq!(found.len(), 1);
    assert_eq!(found[0].0, "b1");
    let positions = &found[0].1;
    assert_eq!(positions.len(), 342);
    assert_eq!(positions[0], Coordinates { x: 1, y: 0, z: 0 });
    // Stream index 13 is the second match: local (13, 0, 0).
    assert_eq!(positions[1], Coordinates { x: 13, y: 0, z: 0 });
}

#[test]
fn test_block_search_across_sub_chunks() {
    // Three sections at Y = -2, 0, 3, the target block once at local
    // (3, 7, 5) in each, chunk at (-1, 2): the world positions come in
    // section order.
    let j = 7 * 256 + 5 * 16 + 3;
    let mut data = vec![0i64; 256];
    data[j / 16] = 1i64 << (4 * (j % 16));
    let palette = || {
        NbtTagList::new(
            "palette".to_string(),
            NbtTagType::Compound,
            vec![palette_entry("minecraft:stone"), palette_entry("minecraft:target")],
        )
    };
    let sections = vec![
        section(-2, palette(), Some(data.clone())),
        section(0, palette(), Some(data.clone())),
        section(3, palette(), Some(data.clone())),
    ];
    let world = McWorldDescriptor::new("world".to_string(), vec![chunk(-1, 2, sections)]);
    let found = world.search_blocks(vec!["minecraft:target".to_string()]).unwrap();
    assert_eq!(found.len(), 1);
    let positions = &found[0].1;
    assert_eq!(positions.len(), 3);
    assert_eq!(positions[0], Coordinates { x: -13, y: -25, z: 37 });
    assert_eq!(positions[1], Coordinates { x: -13, y: 7, z: 37 });
    assert_eq!(positions[2], Coordinates { x: -13, y: 55, z: 37 });
}

#[test]
fn test_search_skips_sections_without_match() {
    // A queried name absent from the palette yields no entry at all.
    let data = vec![0i64; 256];
    let world = McWorldDescriptor::new(
        "world".to_string(),
        vec![chunk(0, 0, vec![section(0, palette_list("b", 2), Some(data))])],
    );
    let found = world.search_blocks(vec!["minecraft:absent".to_string()]).unwrap();
    assert_eq!(found.len(), 0);
}

#[test]
fn test_section_without_data_is_palette_entry_zero() {
    // With no data array every position is palette entry 0.
    let world = McWorldDescriptor::new(
        "world".to_string(),
        vec![chunk(0, 0, vec![section(0, palette_list("b", 1), None)])],
    );
    let found = world.search_blocks(vec!["b0".to_string()]).unwrap();
    assert_eq!(found.len(), 1);
    assert_eq!(found[0].1.len(), 4096);
    assert_eq!(found[0].1[0], Coordinates { x: 0, y: 0, z: 0 });
    assert_eq!(found[0].1[1], Coordinates { x: 1, y: 0, z: 0 });
    assert_eq!(found[0].1[16], Coordinates { x: 0, y: 0, z: 1 });
    assert_eq!(found[0].1[256], Coordinates { x: 0, y: 1, z: 0 });
}

#[test]
fn test_advance_block_position_order() {
    // x varies first, then z every 16 steps, then y every 256.
    let mut x: i32 = 0;
    let mut y: i32 = 0;
    let mut z: i32 = 0;
    advance_block_position(&mut x, &mut y, &mut z);
    assert_eq!((x, y, z), (1, 0, 0));
    x = 15;
    advance_block_position(&mut x, &mut y, &mut z);
    assert_eq!((x, y, z), (0, 0, 1));
    x = 15;
    z = 15;
    advance_block_position(&mut x, &mut y, &mut z);
    assert_eq!((x, y, z), (0, 1, 0));
}

#[test]
fn test_search_compound_by_name() {
    let world = McWorldDescriptor::new(
        "world".to_string(),
        vec![chunk(0, 0, vec![section(0, palette_list("b", 1), None)])],
    );
    let (found, compounds) = world.search_compound("block_states", false);
    assert_eq!(found, true);
    assert!(compounds.len() >= 1);
    assert_eq!(compounds[0].name, "block_states");

    let (found2, compounds2) = world.search_compound("blockstates", false);
    assert_eq!(found2, false);
    assert_eq!(compounds2.len(), 0);

    let (found3, first_only) = world.search_compound("block_states", true);
    assert_eq!(found3, true);
    assert_eq!(first_only.len(), 1);
}

#[test]
fn test_classify_extension() {
    assert_eq!(classify_extension("mca"), WorldFileKind::Region);
    assert_eq!(classify_extension("mcr"), WorldFileKind::Region);
    assert_eq!(classify_extension("nbt"), WorldFileKind::NbtBlob);
    assert_eq!(classify_extension("litematic"), WorldFileKind::NbtBlob);
    assert_eq!(classify_extension("json"), WorldFileKind::Json);
    assert_eq!(classify_extension("exe"), WorldFileKind::Unsupported);
}

#[test]
fn test_world_descriptor_version() {
    let world = McWorldDescriptor::new("somewhere".to_string(), Vec::new());
    assert_eq!(world.get_mc_version(), "0.0.0");
    assert_eq!(world.input_path, "somewhere");
}
