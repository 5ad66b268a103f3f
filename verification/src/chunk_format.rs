//! The block-palette decoder and the block search: unpacking
//! variable-width palette indices from 64-bit words, recovering
//! section-local positions in x-fastest order, and mapping queried
//! block names to absolute world coordinates.

use vstd::prelude::*;

use crate::blocks::Coordinates;
use crate::nbt_tag::CompoundV;
use crate::nbt_tag::NbtTag;
use crate::nbt_tag::NbtTagCompound;
use crate::nbt_tag::NbtTagList;
use crate::nbt_tag::TagV;
use crate::nbt_tag::lemma_seq_tag_views;
use crate::nbt_tag::lookup_entry;
use crate::nbt_tag::seq_tag_views;
use crate::nbt_tag::str_eq;
use crate::wire::u64_of_i64;
use crate::wire::u64_from_i64;

verus! {

/// Errors of the palette decoder.
#[derive(Clone, Copy, Debug, PartialEq, Eq, Structural)]
pub enum ChunkFormatError {
    /// A section whose packed index stream ends before all 4096
    /// positions are covered.
    TruncatedData,
}

/// Width in bits of a packed palette index for a palette of `p`
/// entries: the smallest number of bits that can address every entry,
/// but never fewer than four.
pub open spec fn spec_palette_width(p: nat) -> nat
    recommends
        p >= 1,
    decreases p,
{
    if p <= 16 {
        4
    } else {
        1 + spec_palette_width((p + 1) / 2)
    }
}

/// The palette width never exceeds `4 + k` for palettes of at most
/// `16 * 2^k` entries.
proof fn lemma_palette_width_bound(p: nat, k: nat)
    requires
        1 <= p,
        p <= vstd::arithmetic::power2::pow2(k) * 16,
    ensures
        spec_palette_width(p) <= 4 + k,
    decreases k,
{
    if p > 16 {
        assert(vstd::arithmetic::power2::pow2(0) == 1) by {
            vstd::arithmetic::power2::lemma2_to64();
        }
        assert(k >= 1);
        vstd::arithmetic::power2::lemma_pow2_unfold(k);
        lemma_palette_width_bound((p + 1) / 2, (k - 1) as nat);
    }
}

/// The worker behind [`get_palette_id_size_in_bit`], on the palette
/// size alone.
fn palette_width(p: usize) -> (r: u32)
    requires
        1 <= p <= 65536,
    ensures
        r == spec_palette_width(p as nat),
        4 <= r <= 16,
    decreases p,
{
    proof {
        vstd::arithmetic::power2::lemma2_to64();
        lemma_palette_width_bound(p as nat, 12);
    }
    if p <= 16 {
        4
    } else {
        let inner = palette_width((p + 1) / 2);
        1 + inner
    }
}

/// The boundary widths: palettes of at most 16 entries use 4 bits and
/// fill a word with 16 indices exactly; 17 to 32 entries use 5 bits,
/// 12 indices and 4 unused bits per word; 33 to 64 entries use 6 bits,
/// 10 indices and 4 unused bits per word.
pub proof fn lemma_palette_width_boundaries()
    ensures
        forall|p: nat| 1 <= p <= 16 ==> spec_palette_width(p) == 4,
        forall|p: nat| 17 <= p <= 32 ==> spec_palette_width(p) == 5,
        forall|p: nat| 33 <= p <= 64 ==> spec_palette_width(p) == 6,
        64nat / 4 == 16 && 64nat - 4 * (64nat / 4) == 0,
        64nat / 5 == 12 && 64nat - 5 * (64nat / 5) == 4,
        64nat / 6 == 10 && 64nat - 6 * (64nat / 6) == 4,
{
    assert forall|p: nat| 17 <= p <= 32 implies spec_palette_width(p) == 5 by {
        assert(9 <= (p + 1) / 2 <= 16);
        assert(spec_palette_width((p + 1) / 2) == 4);
    }
    assert forall|p: nat| 33 <= p <= 64 implies spec_palette_width(p) == 6 by {
        assert(17 <= (p + 1) / 2 <= 32);
        assert(9 <= ((p + 1) / 2 + 1) / 2 <= 16);
        assert(spec_palette_width(((p + 1) / 2 + 1) / 2) == 4);
        assert(spec_palette_width((p + 1) / 2) == 5);
    }
}

/// Width in bits of the packed palette indices for this palette list.
pub fn get_palette_id_size_in_bit(palette_list: &NbtTagList) -> (r: u32)
    requires
        1 <= palette_list.values@.len() <= 65536,
    ensures
        r == spec_palette_width(palette_list.values@.len() as nat),
        4 <= r <= 16,
{
    palette_width(palette_list.values.len())
}

/// The mask selecting the low `w` bits of a word.
pub open spec fn spec_index_mask(w: u32) -> u64
    recommends
        1 <= w <= 63,
{
    0xffffffffffffffffu64 >> ((64 - w) as u64)
}

/// The palette index in slot `k` of a packed word: `w` bits, packed
/// from the least-significant end, never straddling words.
pub open spec fn spec_extract_index(word: u64, w: u32, k: int) -> u32
    recommends
        4 <= w <= 32,
        0 <= k < 64int / (w as int),
{
    ((word >> ((k * w) as u64)) & spec_index_mask(w)) as u32
}

/// Splits one 64-bit word of the packed data array into its palette
/// indices: `64 / w` of them, low bits first, upper bits unused when
/// `w` does not divide 64.
pub fn get_palette_ids_from_data_array_element(data_array_element: i64, index_size_in_bit: u32) -> (r:
    Vec<u32>)
    requires
        4 <= index_size_in_bit <= 32,
    ensures
        r@.len() == 64nat / (index_size_in_bit as nat),
        forall|k: int|
            0 <= k < r@.len() ==> #[trigger] r@[k] == spec_extract_index(
                u64_of_i64(data_array_element),
                index_size_in_bit,
                k,
            ),
{
    let w = index_size_in_bit;
    let word = u64_from_i64(data_array_element);
    let bit_mask: u64 = 0xffffffffffffffffu64 >> ((64 - w) as u64);
    proof {
        assert(0xffffffffffffffffu64 >> ((64 - w) as u64) < 0x100000000) by (bit_vector)
            requires
                4 <= w <= 32,
        ;
    }
    let indexes_in_data_element = 64 / w;
    let mut palette_id_array: Vec<u32> = Vec::new();
    let mut k: u32 = 0;
    while k < indexes_in_data_element
        invariant
            4 <= w <= 32,
            bit_mask == spec_index_mask(w),
            bit_mask < 0x100000000,
            word == u64_of_i64(data_array_element),
            indexes_in_data_element == 64u32 / w,
            k <= indexes_in_data_element,
            palette_id_array@.len() == k,
            forall|j: int|
                0 <= j < k ==> #[trigger] palette_id_array@[j] == spec_extract_index(
                    word,
                    w,
                    j,
                ),
        decreases indexes_in_data_element - k,
    {
        proof {
            assert(k * w < 64) by (nonlinear_arith)
                requires
                    k < 64u32 / w && 1 <= w,
            ;
        }
        let shift_amount = k * w;
        let block_palette_id = (word >> (shift_amount as u64)) & bit_mask;
        proof {
            assert((word >> (shift_amount as u64)) & bit_mask <= bit_mask) by (bit_vector);
        }
        palette_id_array.push(block_palette_id as u32);
        k += 1;
    }
    palette_id_array
}

/// Advances a section-local position by one in storage order: x first,
/// then z every 16 positions, then y every 256.
pub fn advance_block_position(x_pos: &mut i32, y_pos: &mut i32, z_pos: &mut i32)
    requires
        0 <= *old(x_pos) <= 15,
        0 <= *old(z_pos) <= 15,
        *old(y_pos) < 0x7fffffff,
    ensures
        0 <= *final(x_pos) <= 15,
        0 <= *final(z_pos) <= 15,
        *final(y_pos) * 256 + *final(z_pos) * 16 + *final(x_pos) == *old(y_pos) * 256 + *old(
            z_pos,
        ) * 16 + *old(x_pos) + 1,
{
    if *x_pos == 15 {
        if *z_pos == 15 {
            *y_pos += 1;
            *z_pos = 0;
            *x_pos = 0;
        } else {
            *z_pos += 1;
            *x_pos = 0;
        }
    } else {
        *x_pos += 1;
    }
}

/// The child of the given name, when the tag is a compound.
pub open spec fn spec_find_child(t: TagV, key: Seq<char>) -> Option<TagV> {
    match t {
        TagV::Compound { entries, .. } => lookup_entry(entries, key),
        _ => None,
    }
}

/// The `block_states` child of a section compound, if there is one.
pub fn find_block_states_in_section(block_states_tag: &NbtTag) -> (r: Option<&NbtTag>)
    ensures
        match spec_find_child(block_states_tag@, "block_states"@) {
            Some(c) => r matches Some(rt) && rt@ == c,
            None => r is None,
        },
{
    if let Some(block_states_compound) = block_states_tag.compound_as_ref() {
        block_states_compound.get("block_states")
    } else {
        None
    }
}

/// The palette list of a `block_states` compound, if it holds one.
pub open spec fn spec_palette_of(t: TagV) -> Option<TagV> {
    match spec_find_child(t, "palette"@) {
        Some(p) => if p is List {
            Some(p)
        } else {
            None
        },
        None => None,
    }
}

/// The packed data array of a `block_states` compound, if the compound
/// holds a palette and a long-array `data` child.
pub open spec fn spec_data_of(t: TagV) -> Option<Seq<i64>> {
    if spec_palette_of(t) is Some {
        match spec_find_child(t, "data"@) {
            Some(TagV::LongArray { vs, .. }) => Some(vs),
            _ => None,
        }
    } else {
        None
    }
}

/// The palette list and the packed data array of a `block_states`
/// compound: the palette when a `palette` list child exists, the data
/// when additionally a long-array `data` child exists.
pub fn find_palette_in_block_states<'a>(block_states_tag: &'a NbtTag) -> (r: (
    Option<&'a NbtTagList>,
    Option<&'a Vec<i64>>,
))
    ensures
        match spec_palette_of(block_states_tag@) {
            Some(p) => r.0 matches Some(l) && crate::nbt_tag::tag_view(NbtTag::List(*l)) == p,
            None => r.0 is None,
        },
        match spec_data_of(block_states_tag@) {
            Some(vs) => r.1 matches Some(d) && d@ == vs,
            None => r.1 is None,
        },
{
    if let Some(block_states_compound) = block_states_tag.compound_as_ref() {
        match block_states_compound.get("palette") {
            Some(palette_tag) => {
                match palette_tag.list_as_ref() {
                    Some(palette_list) => {
                        match block_states_compound.get("data") {
                            Some(data_values_tag) => {
                                match data_values_tag.long_array_as_ref() {
                                    Some(data_values_taglong) => (
                                        Some(palette_list),
                                        Some(&data_values_taglong.values),
                                    ),
                                    None => (Some(palette_list), None),
                                }
                            },
                            None => (Some(palette_list), None),
                        }
                    },
                    None => (None, None),
                }
            },
            None => (None, None),
        }
    } else {
        (None, None)
    }
}

/// Whether a palette entry carries a `Name` string equal to `key`.
pub open spec fn spec_block_name_matches(t: TagV, key: Seq<char>) -> bool {
    match spec_find_child(t, "Name"@) {
        Some(TagV::Str { v, .. }) => v == key,
        _ => false,
    }
}

/// Whether this palette entry names the given block.
pub fn find_block_name_in_palette(blocks_tag: &NbtTag, block_resouce_location: &str) -> (r: bool)
    ensures
        r == spec_block_name_matches(blocks_tag@, block_resouce_location@),
{
    if let Some(block_compound) = blocks_tag.compound_as_ref() {
        if let Some(block_name_tag) = block_compound.get("Name") {
            if let Some(block_name) = block_name_tag.string() {
                str_eq(block_name.value.as_str(), block_resouce_location)
            } else {
                false
            }
        } else {
            false
        }
    } else {
        false
    }
}

/// The full packed index stream of a data array: each word yields
/// `64 / w` indices, low bits first.
pub open spec fn spec_index_stream(data: Seq<i64>, w: u32) -> Seq<u32>
    recommends
        4 <= w <= 32,
{
    Seq::new(
        data.len() * (64nat / (w as nat)),
        |j: int| spec_extract_index(
            u64_of_i64(data[j / (64int / (w as int))]),
            w,
            j % (64int / (w as int)),
        ),
    )
}

/// The 4096 palette indices of one section: all zero when the data
/// array is absent; otherwise the first 4096 of the packed stream, or
/// `TruncatedData` when the stream is shorter.
pub open spec fn spec_section_indices(plen: nat, data: Option<Seq<i64>>) -> Result<
    Seq<u32>,
    ChunkFormatError,
>
    recommends
        1 <= plen <= 65536,
{
    match data {
        None => Ok(Seq::new(4096, |j: int| 0u32)),
        Some(d) => {
            let stream = spec_index_stream(d, spec_palette_width(plen) as u32);
            if stream.len() < 4096 {
                Err(ChunkFormatError::TruncatedData)
            } else {
                Ok(stream.take(4096))
            }
        },
    }
}

/// The number of positions a section emits: the data array's word
/// count times the indices per word, clipped to 4096; fewer than 4096
/// available positions is a truncation error.
pub proof fn lemma_section_emission_count(plen: nat, d: Seq<i64>)
    requires
        1 <= plen <= 65536,
    ensures
        d.len() * (64nat / spec_palette_width(plen)) >= 4096 ==> (spec_section_indices(
            plen,
            Some(d),
        ) matches Ok(s) && s.len() == 4096),
        d.len() * (64nat / spec_palette_width(plen)) < 4096 ==> spec_section_indices(plen, Some(d))
            == Err::<Seq<u32>, ChunkFormatError>(ChunkFormatError::TruncatedData),
{
    vstd::arithmetic::power2::lemma2_to64();
    lemma_palette_width_bound(plen, 12);
    assert(spec_palette_width(plen) as u32 as nat == spec_palette_width(plen));
}

/// A section without a data array emits palette index zero at every
/// one of its 4096 positions.
pub proof fn lemma_absent_data_emits_zero(plen: nat)
    requires
        1 <= plen <= 65536,
    ensures
        spec_section_indices(plen, None) matches Ok(s) && s.len() == 4096 && (forall|j: int|
            0 <= j < 4096 ==> #[trigger] spec_section_indices(plen, None)->Ok_0[j] == 0u32),
{
}

/// Whether coordinates are small enough that world positions fit a
/// 32-bit integer.
pub open spec fn coords_ok(cx: int, sy: int, cz: int) -> bool {
    -0x4000000 <= cx <= 0x4000000 && -0x4000000 <= sy <= 0x4000000 && -0x4000000 <= cz
        <= 0x4000000
}

/// The world position of section-local index `j`: x varies fastest,
/// then z every 16 positions, then y every 256.
pub open spec fn spec_world_coord(cx: int, sy: int, cz: int, j: int) -> Coordinates {
    Coordinates {
        x: (16 * cx + j % 16) as i32,
        y: (16 * sy + j / 256) as i32,
        z: (16 * cz + (j / 16) % 16) as i32,
    }
}

/// The world positions among the first `j` section-local indices whose
/// palette entry names `key`, in emission order.
pub open spec fn spec_positions_upto(
    indices: Seq<u32>,
    palette: Seq<TagV>,
    key: Seq<char>,
    cx: int,
    sy: int,
    cz: int,
    j: int,
) -> Seq<Coordinates>
    decreases j,
{
    if j <= 0 {
        Seq::empty()
    } else {
        let rest = spec_positions_upto(indices, palette, key, cx, sy, cz, j - 1);
        if indices[j - 1] < palette.len() && spec_block_name_matches(
            palette[indices[j - 1] as int],
            key,
        ) {
            rest.push(spec_world_coord(cx, sy, cz, j - 1))
        } else {
            rest
        }
    }
}

/// The positions a section emits for one queried name.
pub open spec fn spec_section_positions(
    indices: Seq<u32>,
    palette: Seq<TagV>,
    key: Seq<char>,
    cx: int,
    sy: int,
    cz: int,
) -> Seq<Coordinates> {
    spec_positions_upto(indices, palette, key, cx, sy, cz, indices.len() as int)
}

/// Soundness of the search: every returned position comes from a
/// section-local index whose palette entry carries the queried name.
pub proof fn lemma_positions_sound(
    indices: Seq<u32>,
    palette: Seq<TagV>,
    key: Seq<char>,
    cx: int,
    sy: int,
    cz: int,
    j: int,
)
    ensures
        forall|m: int|
            0 <= m < spec_positions_upto(indices, palette, key, cx, sy, cz, j).len()
                ==> exists|i: int|
                0 <= i < j && indices[i] < palette.len() && spec_block_name_matches(
                    palette[indices[i] as int],
                    key,
                ) && #[trigger] spec_positions_upto(indices, palette, key, cx, sy, cz, j)[m]
                == spec_world_coord(cx, sy, cz, i),
    decreases j,
{
    if j > 0 {
        lemma_positions_sound(indices, palette, key, cx, sy, cz, j - 1);
        let prev = spec_positions_upto(indices, palette, key, cx, sy, cz, j - 1);
        let cur = spec_positions_upto(indices, palette, key, cx, sy, cz, j);
        assert forall|m: int| 0 <= m < cur.len() implies exists|i: int|
            0 <= i < j && indices[i] < palette.len() && spec_block_name_matches(
                palette[indices[i] as int],
                key,
            ) && #[trigger] cur[m] == spec_world_coord(cx, sy, cz, i) by {
            if m < prev.len() {
                let i = choose|i: int|
                    0 <= i < j - 1 && indices[i] < palette.len() && spec_block_name_matches(
                        palette[indices[i] as int],
                        key,
                    ) && prev[m] == spec_world_coord(cx, sy, cz, i);
                assert(cur[m] == prev[m]);
                assert(indices[i] < palette.len() && spec_block_name_matches(
                    palette[indices[i] as int],
                    key,
                ) && cur[m] == spec_world_coord(cx, sy, cz, i));
            } else {
                assert(cur[m] == spec_world_coord(cx, sy, cz, j - 1));
                assert(indices[j - 1] < palette.len() && spec_block_name_matches(
                    palette[indices[j - 1] as int],
                    key,
                ) && cur[m] == spec_world_coord(cx, sy, cz, j - 1));
            }
        }
    }
}

/// Whether any queried name appears in the palette.
pub open spec fn spec_any_match(palette: Seq<TagV>, names: Seq<String>) -> bool {
    exists|pi: int, ni: int|
        0 <= pi < palette.len() && 0 <= ni < names.len() && spec_block_name_matches(
            #[trigger] palette[pi],
            #[trigger] names[ni]@,
        )
}

/// Whether a 32-bit value appears in a vector.
fn vec_contains_u32(v: &Vec<u32>, x: u32) -> (r: bool)
    ensures
        r == v@.contains(x),
{
    let n = v.len();
    let mut i: usize = 0;
    while i < n
        invariant
            n == v@.len(),
            i <= n,
            forall|k: int| 0 <= k < i ==> v@[k] != x,
        decreases n - i,
    {
        if v[i] == x {
            return true;
        }
        i += 1;
    }
    false
}

/// For each queried name, the set of palette indices whose entry
/// carries that name; and whether any queried name appears at all.
pub fn create_unique_palette_id_set(
    palette_list: &NbtTagList,
    block_resource_location: &Vec<String>,
) -> (r: (bool, Vec<(String, Vec<u32>)>))
    requires
        palette_list.values@.len() <= 65536,
    ensures
        r.1@.len() == block_resource_location@.len(),
        forall|i: int|
            0 <= i < r.1@.len() ==> #[trigger] r.1@[i].0 == block_resource_location@[i],
        forall|i: int, id: u32|
            0 <= i < r.1@.len() ==> (#[trigger] r.1@[i].1@.contains(id) <==> id
                < seq_tag_views(palette_list.values@).len() && spec_block_name_matches(
                seq_tag_views(palette_list.values@)[id as int],
                block_resource_location@[i]@,
            )),
        r.0 == spec_any_match(seq_tag_views(palette_list.values@), block_resource_location@),
{
    let ghost palette = seq_tag_views(palette_list.values@);
    proof {
        lemma_seq_tag_views(palette_list.values@);
    }
    let plen = palette_list.values.len();
    let nnames = block_resource_location.len();
    let mut searched_blocks_palette_ids: Vec<(String, Vec<u32>)> = Vec::new();
    let mut ni: usize = 0;
    while ni < nnames
        invariant
            nnames == block_resource_location@.len(),
            plen == palette_list.values@.len(),
            palette == seq_tag_views(palette_list.values@),
            palette.len() == plen,
            plen <= 65536,
            ni <= nnames,
            searched_blocks_palette_ids@.len() == ni,
            forall|i: int|
                0 <= i < ni ==> #[trigger] searched_blocks_palette_ids@[i].0
                    == block_resource_location@[i],
            forall|i: int, id: u32|
                0 <= i < ni ==> (#[trigger] searched_blocks_palette_ids@[i].1@.contains(id) <==> id
                    < palette.len() && spec_block_name_matches(
                    palette[id as int],
                    block_resource_location@[i]@,
                )),
        decreases nnames - ni,
    {
        let block_name = &block_resource_location[ni];
        let mut block_unique_set: Vec<u32> = Vec::new();
        let mut palette_current_index: usize = 0;
        while palette_current_index < plen
            invariant
                plen == palette_list.values@.len(),
                palette == seq_tag_views(palette_list.values@),
                palette.len() == plen,
                plen <= 65536,
                palette_current_index <= plen,
                block_name == block_resource_location@[ni as int],
                ni < block_resource_location@.len(),
                forall|id: u32|
                    (#[trigger] block_unique_set@.contains(id) <==> id < palette_current_index
                        && spec_block_name_matches(palette[id as int], block_name@)),
            decreases plen - palette_current_index,
        {
            proof {
                lemma_seq_tag_views(palette_list.values@);
            }
            if find_block_name_in_palette(
                &palette_list.values[palette_current_index],
                block_name.as_str(),
            ) {
                let ghost pre = block_unique_set@;
                block_unique_set.push(palette_current_index as u32);
                proof {
                    assert forall|id: u32|
                        #[trigger] block_unique_set@.contains(id) <==> id < palette_current_index
                            + 1 && spec_block_name_matches(palette[id as int], block_name@) by {
                        if block_unique_set@.contains(id) {
                            let k = choose|k: int|
                                0 <= k < block_unique_set@.len() && block_unique_set@[k] == id;
                            if k < pre.len() {
                                assert(pre[k] == id);
                                assert(pre.contains(id));
                            }
                        }
                        if id < palette_current_index && spec_block_name_matches(
                            palette[id as int],
                            block_name@,
                        ) {
                            assert(pre.contains(id));
                            let k = choose|k: int| 0 <= k < pre.len() && pre[k] == id;
                            assert(block_unique_set@[k] == id);
                        }
                        if id == palette_current_index as u32 {
                            assert(block_unique_set@[pre.len() as int] == id);
                        }
                    }
                }
            } else {
                proof {
                    assert forall|id: u32|
                        #[trigger] block_unique_set@.contains(id) <==> id < palette_current_index
                            + 1 && spec_block_name_matches(palette[id as int], block_name@) by {
                        if id == palette_current_index as u32 {
                            assert(!spec_block_name_matches(palette[id as int], block_name@));
                        }
                    }
                }
            }
            palette_current_index += 1;
        }
        searched_blocks_palette_ids.push((block_name.clone(), block_unique_set));
        ni += 1;
    }
    let mut unique_set_created = false;
    let mut i: usize = 0;
    while i < nnames
        invariant
            nnames == block_resource_location@.len(),
            palette == seq_tag_views(palette_list.values@),
            palette.len() <= 65536,
            i <= nnames,
            searched_blocks_palette_ids@.len() == nnames,
            forall|k: int|
                0 <= k < nnames ==> #[trigger] searched_blocks_palette_ids@[k].0
                    == block_resource_location@[k],
            forall|k: int, id: u32|
                0 <= k < nnames ==> (#[trigger] searched_blocks_palette_ids@[k].1@.contains(id)
                    <==> id < palette.len() && spec_block_name_matches(
                    palette[id as int],
                    block_resource_location@[k]@,
                )),
            unique_set_created ==> spec_any_match(palette, block_resource_location@),
            !unique_set_created ==> forall|pi: int, k: int|
                0 <= pi < palette.len() && 0 <= k < i ==> !spec_block_name_matches(
                    #[trigger] palette[pi],
                    #[trigger] block_resource_location@[k]@,
                ),
        decreases nnames - i,
    {
        if !searched_blocks_palette_ids[i].1.is_empty() {
            proof {
                let ids = searched_blocks_palette_ids@[i as int].1@;
                assert(ids.contains(ids[0]));
                assert(spec_block_name_matches(
                    palette[ids[0] as int],
                    block_resource_location@[i as int]@,
                ));
            }
            unique_set_created = true;
        } else {
            proof {
                let ids = searched_blocks_palette_ids@[i as int].1@;
                assert forall|pi: int|
                    0 <= pi < palette.len() implies !spec_block_name_matches(
                    #[trigger] palette[pi],
                    block_resource_location@[i as int]@,
                ) by {
                    if spec_block_name_matches(palette[pi], block_resource_location@[i as int]@) {
                        assert((pi as u32) as int == pi);
                        assert(ids.contains(pi as u32));
                        assert(ids.len() > 0);
                    }
                }
            }
        }
        i += 1;
    }
    (unique_set_created, searched_blocks_palette_ids)
}

/// Materialises the first 4096 indices of the packed stream, or
/// reports truncation when the stream is shorter.
fn decode_section_indices(w: u32, data: &Vec<i64>) -> (r: Result<Vec<u32>, ChunkFormatError>)
    requires
        4 <= w <= 32,
    ensures
        ({
            let stream = spec_index_stream(data@, w);
            if stream.len() < 4096 {
                r matches Err(e) && e == ChunkFormatError::TruncatedData
            } else {
                r matches Ok(v) && v@ == stream.take(4096)
            }
        }),
{
    let ghost stream = spec_index_stream(data@, w);
    proof {
        assert(2 <= 64u32 / w <= 16) by (nonlinear_arith)
            requires
                4 <= w <= 32,
        ;
        assert(data@.len() * (64nat / (w as nat)) == stream.len());
    }
    let ipw = (64 / w) as usize;
    let dlen = data.len();
    let mut indices: Vec<u32> = Vec::new();
    let mut cnt: usize = 0;
    let mut wi: usize = 0;
    while wi < dlen && cnt < 4096
        invariant
            4 <= w <= 32,
            ipw == 64u32 / w,
            2 <= ipw <= 16,
            dlen == data@.len(),
            stream == spec_index_stream(data@, w),
            stream.len() == dlen * ipw,
            cnt == indices@.len(),
            cnt <= 4096,
            cnt == wi * ipw || cnt == 4096,
            cnt <= wi * ipw,
            cnt <= stream.len(),
            wi <= dlen,
            indices@ == stream.take(cnt as int),
        decreases dlen - wi,
    {
        let ids = get_palette_ids_from_data_array_element(data[wi], w);
        let mut si: usize = 0;
        while si < ipw && cnt < 4096
            invariant
                4 <= w <= 32,
                ipw == 64u32 / w,
                2 <= ipw <= 16,
                dlen == data@.len(),
                wi < dlen,
                stream == spec_index_stream(data@, w),
                stream.len() == dlen * ipw,
                ids@.len() == ipw,
                forall|k: int|
                    0 <= k < ipw ==> #[trigger] ids@[k] == spec_extract_index(
                        u64_of_i64(data@[wi as int]),
                        w,
                        k,
                    ),
                si <= ipw,
                cnt == indices@.len(),
                cnt <= 4096,
                cnt == wi * ipw + si || cnt == 4096,
                cnt <= wi * ipw + si,
                cnt <= stream.len(),
                indices@ == stream.take(cnt as int),
            decreases ipw - si,
        {
            proof {
                let j = wi * ipw + si;
                assert(j / (ipw as int) == wi && j % (ipw as int) == si) by (nonlinear_arith)
                    requires
                        j == wi * ipw + si && 0 <= si < ipw && 0 <= wi,
                ;
                assert(j < stream.len()) by (nonlinear_arith)
                    requires
                        j == wi * ipw + si && 0 <= si < ipw && wi < dlen && stream.len() == dlen
                            * ipw,
                ;
                assert(stream[j as int] == ids@[si as int]);
            }
            proof {
                assert(cnt == wi * ipw + si);
                assert(cnt < stream.len());
            }
            indices.push(ids[si]);
            proof {
                assert(indices@ =~= stream.take(cnt + 1));
            }
            cnt += 1;
            si += 1;
        }
        proof {
            if cnt < 4096 {
                assert(cnt == wi * ipw + ipw);
                assert(cnt == (wi + 1) * ipw) by (nonlinear_arith)
                    requires
                        cnt == wi * ipw + ipw,
                ;
            }
            assert(cnt <= (wi + 1) * ipw) by (nonlinear_arith)
                requires
                    cnt <= wi * ipw + ipw,
            ;
        }
        wi += 1;
    }
    if cnt < 4096 {
        proof {
            assert(wi == dlen);
            assert(stream.len() == cnt);
        }
        Err(ChunkFormatError::TruncatedData)
    } else {
        proof {
            assert(stream.len() >= 4096);
        }
        Ok(indices)
    }
}

/// A vector of 4096 zero indices: the stream of a section without a
/// data array.
fn zero_indices() -> (r: Vec<u32>)
    ensures
        r@ == Seq::new(4096, |j: int| 0u32),
{
    let mut v: Vec<u32> = Vec::new();
    let mut i: usize = 0;
    while i < 4096
        invariant
            i <= 4096,
            v@ == Seq::new(i as nat, |j: int| 0u32),
        decreases 4096 - i,
    {
        v.push(0);
        proof {
            assert(v@ =~= Seq::new((i + 1) as nat, |j: int| 0u32));
        }
        i += 1;
    }
    v
}

/// What scanning one `block_states` compound yields for each queried
/// name: without a palette, with an empty or oversized palette, or
/// with no queried name in the palette, every name gets no positions
/// and the packed data is left untouched; otherwise the 4096 indices
/// are decoded (truncation is an error) and each name collects its
/// positions in emission order.
pub open spec fn spec_section_scan(
    bs: TagV,
    names: Seq<String>,
    cx: int,
    sy: int,
    cz: int,
) -> Result<Seq<Seq<Coordinates>>, ChunkFormatError> {
    match spec_palette_of(bs) {
        Some(TagV::List { vs: palette, .. }) => {
            if palette.len() == 0 || palette.len() > 65536 || !spec_any_match(palette, names) {
                Ok(Seq::new(names.len(), |i: int| Seq::<Coordinates>::empty()))
            } else {
                match spec_section_indices(palette.len(), spec_data_of(bs)) {
                    Err(e) => Err(e),
                    Ok(indices) => Ok(
                        Seq::new(
                            names.len(),
                            |i: int| spec_section_positions(indices, palette, names[i]@, cx, sy, cz),
                        ),
                    ),
                }
            }
        },
        _ => Ok(Seq::new(names.len(), |i: int| Seq::<Coordinates>::empty())),
    }
}

/// Scans one section's `block_states` for every queried name and
/// appends the positions found to each name's list.  Returns whether
/// any position was found; a truncated index stream is an error and
/// leaves the lists untouched.
#[verifier::rlimit(100)]
#[verifier::spinoff_prover]
pub fn get_absolute_blocks_positions(
    block_states_tag: &NbtTag,
    block_resource_location: &Vec<String>,
    chunk_pos: &Coordinates,
    blocks_positions_list: &mut Vec<(String, Vec<Coordinates>)>,
) -> (r: Result<bool, ChunkFormatError>)
    requires
        old(blocks_positions_list)@.len() == block_resource_location@.len(),
        forall|i: int|
            0 <= i < block_resource_location@.len() ==> #[trigger] old(
                blocks_positions_list,
            )@[i].0 == block_resource_location@[i],
        coords_ok(chunk_pos.x as int, chunk_pos.y as int, chunk_pos.z as int),
    ensures
        match spec_section_scan(
            block_states_tag@,
            block_resource_location@,
            chunk_pos.x as int,
            chunk_pos.y as int,
            chunk_pos.z as int,
        ) {
            Ok(adds) => r matches Ok(found) && final(blocks_positions_list)@.len() == old(
                blocks_positions_list,
            )@.len() && (forall|i: int|
                0 <= i < adds.len() ==> #[trigger] final(blocks_positions_list)@[i].0 == old(
                    blocks_positions_list,
                )@[i].0) && (forall|i: int|
                0 <= i < adds.len() ==> #[trigger] final(blocks_positions_list)@[i].1@ == old(
                    blocks_positions_list,
                )@[i].1@ + adds[i]) && found == (exists|i: int|
                0 <= i < adds.len() && #[trigger] adds[i].len() > 0),
            Err(e) => r matches Err(e2) && e2 == e && final(blocks_positions_list)@ == old(
                blocks_positions_list,
            )@,
        },
{
    let ghost names = block_resource_location@;
    let ghost cx = chunk_pos.x as int;
    let ghost sy = chunk_pos.y as int;
    let ghost cz = chunk_pos.z as int;
    let nnames = block_resource_location.len();
    let (palette_list_option, blocks_data_array_option) = find_palette_in_block_states(
        block_states_tag,
    );
    let palette_list = match palette_list_option {
        None => {
            proof {
                assert forall|i: int| 0 <= i < names.len() implies old(
                    blocks_positions_list,
                )@[i].1@ + Seq::<Coordinates>::empty() == old(blocks_positions_list)@[i].1@ by {
                    lemma_cat_empty(old(blocks_positions_list)@[i].1@);
                }
            }
            return Ok(false);
        },
        Some(p) => p,
    };
    let ghost palette = seq_tag_views(palette_list.values@);
    proof {
        lemma_seq_tag_views(palette_list.values@);
    }
    let plen = palette_list.values.len();
    if plen == 0 || plen > 65536 {
        proof {
            assert forall|i: int| 0 <= i < names.len() implies old(blocks_positions_list)@[i].1@
                + Seq::<Coordinates>::empty() == old(blocks_positions_list)@[i].1@ by {
                lemma_cat_empty(old(blocks_positions_list)@[i].1@);
            }
        }
        return Ok(false);
    }
    let (unique_set_created, searched_blocks_palette_ids) = create_unique_palette_id_set(
        palette_list,
        block_resource_location,
    );
    if !unique_set_created {
        proof {
            assert forall|i: int| 0 <= i < names.len() implies old(blocks_positions_list)@[i].1@
                + Seq::<Coordinates>::empty() == old(blocks_positions_list)@[i].1@ by {
                lemma_cat_empty(old(blocks_positions_list)@[i].1@);
            }
        }
        return Ok(false);
    }
    let data_index_bit_size = get_palette_id_size_in_bit(palette_list);
    proof {
        assert(spec_palette_width(palette.len()) as u32 == data_index_bit_size);
    }
    let indices: Vec<u32> = match blocks_data_array_option {
        None => zero_indices(),
        Some(d) => {
            match decode_section_indices(data_index_bit_size, d) {
                Err(e) => {
                    proof {
                        assert(spec_section_indices(palette.len(), spec_data_of(block_states_tag@))
                            == Err::<Seq<u32>, ChunkFormatError>(ChunkFormatError::TruncatedData));
                    }
                    return Err(e);
                },
                Ok(v) => v,
            }
        },
    };
    let ghost spec_indices = match spec_section_indices(
        palette.len(),
        spec_data_of(block_states_tag@),
    ) {
        Ok(s) => s,
        Err(_) => Seq::<u32>::empty(),
    };
    proof {
        assert(indices@ == spec_indices);
        assert(indices@.len() == 4096);
    }
    let mut staged: Vec<Vec<Coordinates>> = Vec::new();
    let mut found = false;
    let mut ni: usize = 0;
    while ni < nnames
        invariant
            nnames == names.len(),
            palette == seq_tag_views(palette_list.values@),
            1 <= palette.len() <= 65536,
            searched_blocks_palette_ids@.len() == nnames,
            forall|i: int, id: u32|
                0 <= i < nnames ==> (#[trigger] searched_blocks_palette_ids@[i].1@.contains(id)
                    <==> id < palette.len() && spec_block_name_matches(
                    palette[id as int],
                    names[i]@,
                )),
            indices@ == spec_indices,
            spec_indices.len() == 4096,
            coords_ok(cx, sy, cz),
            cx == chunk_pos.x as int && sy == chunk_pos.y as int && cz == chunk_pos.z as int,
            ni <= nnames,
            staged@.len() == ni,
            forall|i: int|
                0 <= i < ni ==> #[trigger] staged@[i]@ == spec_section_positions(
                    spec_indices,
                    palette,
                    names[i]@,
                    cx,
                    sy,
                    cz,
                ),
            found == (exists|i: int| 0 <= i < ni && #[trigger] staged@[i]@.len() > 0),
        decreases nnames - ni,
    {
        let ids = &searched_blocks_palette_ids[ni].1;
        let mut positions: Vec<Coordinates> = Vec::new();
        let mut j: usize = 0;
        while j < 4096
            invariant
                nnames == names.len(),
                ni < nnames,
                palette == seq_tag_views(palette_list.values@),
                1 <= palette.len() <= 65536,
                ids == searched_blocks_palette_ids@[ni as int].1,
                searched_blocks_palette_ids@.len() == nnames,
                forall|id: u32|
                    (#[trigger] ids@.contains(id) <==> id < palette.len()
                        && spec_block_name_matches(palette[id as int], names[ni as int]@)),
                indices@ == spec_indices,
                spec_indices.len() == 4096,
                coords_ok(cx, sy, cz),
                cx == chunk_pos.x as int && sy == chunk_pos.y as int && cz == chunk_pos.z as int,
                j <= 4096,
                positions@ == spec_positions_upto(
                    spec_indices,
                    palette,
                    names[ni as int]@,
                    cx,
                    sy,
                    cz,
                    j as int,
                ),
            decreases 4096 - j,
        {
            let id = indices[j];
            if vec_contains_u32(ids, id) {
                let jx = (j % 16) as i32;
                let jy = (j / 256) as i32;
                let jz = ((j / 16) % 16) as i32;
                let coord = Coordinates {
                    x: chunk_pos.x * 16 + jx,
                    y: chunk_pos.y * 16 + jy,
                    z: chunk_pos.z * 16 + jz,
                };
                positions.push(coord);
                proof {
                    assert(positions@ =~= spec_positions_upto(
                        spec_indices,
                        palette,
                        names[ni as int]@,
                        cx,
                        sy,
                        cz,
                        j + 1,
                    ));
                }
            }
            j += 1;
        }
        if !positions.is_empty() {
            found = true;
        }
        let ghost posv = positions@;
        let ghost staged_pre = staged@;
        staged.push(positions);
        proof {
            assert(staged@[ni as int]@ == posv);
            assert(forall|i: int| 0 <= i < ni ==> staged@[i] == staged_pre[i]);
            if exists|i: int| 0 <= i < ni && #[trigger] staged_pre[i]@.len() > 0 {
                let i0 = choose|i: int| 0 <= i < ni && #[trigger] staged_pre[i]@.len() > 0;
                assert(staged@[i0]@.len() > 0);
            }
            if posv.len() > 0 {
                assert(staged@[ni as int]@.len() > 0);
            }
            if exists|i: int| 0 <= i < ni + 1 && #[trigger] staged@[i]@.len() > 0 {
                let i1 = choose|i: int| 0 <= i < ni + 1 && #[trigger] staged@[i]@.len() > 0;
                if i1 < ni {
                    assert(staged_pre[i1]@.len() > 0);
                } else {
                    assert(posv.len() > 0);
                }
            }
        }
        ni += 1;
    }
    let mut rebuilt: Vec<(String, Vec<Coordinates>)> = Vec::new();
    let mut i: usize = 0;
    while i < nnames
        invariant
            nnames == names.len(),
            blocks_positions_list@.len() == nnames,
            blocks_positions_list@ == old(blocks_positions_list)@,
            staged@.len() == nnames,
            i <= nnames,
            rebuilt@.len() == i,
            forall|k: int|
                0 <= k < i ==> #[trigger] rebuilt@[k].0 == blocks_positions_list@[k].0,
            forall|k: int|
                0 <= k < i ==> #[trigger] rebuilt@[k].1@ == blocks_positions_list@[k].1@
                    + staged@[k]@,
        decreases nnames - i,
    {
        let name_copy = blocks_positions_list[i].0.clone();
        let mut combined = crate::nbt_tag::copy_vec(&blocks_positions_list[i].1);
        let ghost base = combined@;
        let m = staged[i].len();
        let mut k: usize = 0;
        while k < m
            invariant
                i < staged@.len(),
                m == staged@[i as int]@.len(),
                k <= m,
                combined@ == base + staged@[i as int]@.take(k as int),
            decreases m - k,
        {
            combined.push(staged[i][k]);
            proof {
                assert(combined@ =~= base + staged@[i as int]@.take(k + 1));
            }
            k += 1;
        }
        proof {
            assert(staged@[i as int]@.take(m as int) =~= staged@[i as int]@);
        }
        rebuilt.push((name_copy, combined));
        i += 1;
    }
    proof {
        let bs = block_states_tag@;
        let scan = spec_section_scan(bs, names, cx, sy, cz);
        assert(spec_palette_of(bs) matches Some(pp) && pp matches TagV::List { vs: pvs, .. }
            && pvs == palette);
        assert(spec_section_indices(palette.len(), spec_data_of(bs)) == Ok::<
            Seq<u32>,
            ChunkFormatError,
        >(spec_indices));
        assert(scan matches Ok(adds) && adds.len() == names.len() && (forall|i: int|
            0 <= i < names.len() ==> #[trigger] adds[i] == staged@[i]@));
        let adds = scan->Ok_0;
        if found {
            let i0 = choose|i: int| 0 <= i < names.len() && #[trigger] staged@[i]@.len() > 0;
            assert(adds[i0].len() > 0);
        }
        if exists|i: int| 0 <= i < adds.len() && #[trigger] adds[i].len() > 0 {
            let i1 = choose|i: int| 0 <= i < adds.len() && #[trigger] adds[i].len() > 0;
            assert(staged@[i1]@.len() > 0);
        }
    }
    *blocks_positions_list = rebuilt;
    proof {
        let scan2 = spec_section_scan(block_states_tag@, names, cx, sy, cz);
        let adds = scan2->Ok_0;
        assert(scan2 is Ok);
        assert(adds.len() == names.len());
        assert(blocks_positions_list@.len() == old(blocks_positions_list)@.len());
        assert(forall|i: int|
            0 <= i < adds.len() ==> #[trigger] blocks_positions_list@[i].0 == old(
                blocks_positions_list,
            )@[i].0);
        assert(forall|i: int| 0 <= i < names.len() ==> #[trigger] adds[i] == staged@[i]@);
        assert(forall|i: int|
            0 <= i < names.len() ==> #[trigger] blocks_positions_list@[i].1@ == old(
                blocks_positions_list,
            )@[i].1@ + staged@[i]@);
        assert forall|i: int|
            0 <= i < adds.len() implies #[trigger] blocks_positions_list@[i].1@ == old(
            blocks_positions_list,
        )@[i].1@ + adds[i] by {
            assert(adds[i] == staged@[i]@);
            assert(blocks_positions_list@[i].1@ == old(blocks_positions_list)@[i].1@
                + staged@[i]@);
        }
        assert(found == (exists|i: int| 0 <= i < adds.len() && #[trigger] adds[i].len() > 0));
    }
    Ok(found)
}

/// Appending nothing changes nothing.
proof fn lemma_cat_empty(a: Seq<Coordinates>)
    ensures
        a + Seq::<Coordinates>::empty() == a,
{
    assert(a + Seq::<Coordinates>::empty() =~= a);
}

/// The section list of a chunk: its `sections` list child, or nothing.
pub open spec fn spec_sections_of(chunk: CompoundV) -> Seq<TagV> {
    match lookup_entry(chunk.entries, "sections"@) {
        Some(TagV::List { vs, .. }) => vs,
        _ => Seq::empty(),
    }
}

/// One name's positions per queried name from one section element: the
/// section must be a compound with a `block_states` child and a `Y`
/// byte; anything else contributes nothing.
pub open spec fn spec_section_additions(
    section: TagV,
    names: Seq<String>,
    cx: int,
    cz: int,
) -> Result<Seq<Seq<Coordinates>>, ChunkFormatError> {
    match spec_find_child(section, "block_states"@) {
        Some(bs) => match spec_find_child(section, "Y"@) {
            Some(TagV::Byte { v: sy, .. }) => spec_section_scan(bs, names, cx, sy as int, cz),
            _ => Ok(Seq::new(names.len(), |i: int| Seq::<Coordinates>::empty())),
        },
        None => Ok(Seq::new(names.len(), |i: int| Seq::<Coordinates>::empty())),
    }
}

/// Concatenation of two parallel position tables, name by name.
pub open spec fn pointwise_cat(a: Seq<Seq<Coordinates>>, b: Seq<Seq<Coordinates>>) -> Seq<
    Seq<Coordinates>,
>
    recommends
        a.len() == b.len(),
{
    Seq::new(a.len(), |i: int| a[i] + b[i])
}

/// The empty position table.
pub open spec fn empty_table(n: nat) -> Seq<Seq<Coordinates>> {
    Seq::new(n, |i: int| Seq::<Coordinates>::empty())
}

/// Concatenating nothing on the left changes nothing.
pub proof fn lemma_pwc_unit_left(b: Seq<Seq<Coordinates>>)
    ensures
        pointwise_cat(empty_table(b.len()), b) == b,
{
    assert(pointwise_cat(empty_table(b.len()), b) =~~= b);
}

/// Concatenating nothing on the right changes nothing.
pub proof fn lemma_pwc_unit_right(a: Seq<Seq<Coordinates>>)
    ensures
        pointwise_cat(a, empty_table(a.len())) == a,
{
    assert(pointwise_cat(a, empty_table(a.len())) =~~= a);
}

/// Pointwise concatenation is associative.
pub proof fn lemma_pwc_assoc(
    a: Seq<Seq<Coordinates>>,
    b: Seq<Seq<Coordinates>>,
    c: Seq<Seq<Coordinates>>,
)
    requires
        a.len() == b.len(),
        b.len() == c.len(),
    ensures
        pointwise_cat(pointwise_cat(a, b), c) == pointwise_cat(a, pointwise_cat(b, c)),
{
    assert(pointwise_cat(pointwise_cat(a, b), c) =~~= pointwise_cat(a, pointwise_cat(b, c)));
}

/// The position table of one chunk, folded over its sections from
/// index `k` on, in section order.
pub open spec fn spec_chunk_scan(chunk: CompoundV, names: Seq<String>, k: int) -> Result<
    Seq<Seq<Coordinates>>,
    ChunkFormatError,
>
    decreases spec_sections_of(chunk).len() - k,
{
    let sections = spec_sections_of(chunk);
    let cx = spec_int_field(chunk.entries, "xPos"@) as int;
    let cz = spec_int_field(chunk.entries, "zPos"@) as int;
    if !(0 <= k < sections.len()) {
        Ok(empty_table(names.len()))
    } else {
        match spec_section_additions(sections[k], names, cx, cz) {
            Err(e) => Err(e),
            Ok(h) => match spec_chunk_scan(chunk, names, k + 1) {
                Err(e) => Err(e),
                Ok(rest) => Ok(pointwise_cat(h, rest)),
            },
        }
    }
}

/// Whether a chunk's stored coordinates are small enough for its world
/// positions to fit a 32-bit integer; chunks outside are skipped.
pub open spec fn spec_chunk_coords_ok(chunk: CompoundV) -> bool {
    let cx = spec_int_field(chunk.entries, "xPos"@) as int;
    let cz = spec_int_field(chunk.entries, "zPos"@) as int;
    -0x4000000 <= cx <= 0x4000000 && -0x4000000 <= cz <= 0x4000000
}

/// The position table of a whole world, folded over its chunks from
/// index `c` on, in chunk order.
pub open spec fn spec_world_scan(chunks: Seq<CompoundV>, names: Seq<String>, c: int) -> Result<
    Seq<Seq<Coordinates>>,
    ChunkFormatError,
>
    decreases chunks.len() - c,
{
    if !(0 <= c < chunks.len()) {
        Ok(empty_table(names.len()))
    } else {
        let head = if spec_chunk_coords_ok(chunks[c]) {
            spec_chunk_scan(chunks[c], names, 0)
        } else {
            Ok(empty_table(names.len()))
        };
        match head {
            Err(e) => Err(e),
            Ok(h) => match spec_world_scan(chunks, names, c + 1) {
                Err(e) => Err(e),
                Ok(rest) => Ok(pointwise_cat(h, rest)),
            },
        }
    }
}

/// The views of a sequence of compounds.
pub open spec fn seq_compound_views(s: Seq<NbtTagCompound>) -> Seq<CompoundV> {
    Seq::new(s.len(), |i: int| s[i]@)
}

/// The name-to-positions entries a search reports: the queried names in
/// query order, each with its positions, names without positions left
/// out.
pub open spec fn spec_result_entries(
    names: Seq<String>,
    adds: Seq<Seq<Coordinates>>,
    i: int,
) -> Seq<(Seq<char>, Seq<Coordinates>)>
    decreases names.len() - i,
{
    if !(0 <= i < names.len()) {
        Seq::empty()
    } else if adds[i].len() > 0 {
        seq![(names[i]@, adds[i])] + spec_result_entries(names, adds, i + 1)
    } else {
        spec_result_entries(names, adds, i + 1)
    }
}

/// The (name, positions) views of an entry vector.
pub open spec fn entries_views(v: Seq<(String, Vec<Coordinates>)>) -> Seq<
    (Seq<char>, Seq<Coordinates>),
> {
    Seq::new(v.len(), |k: int| (v[k].0@, v[k].1@))
}

/// The value of an integer child, or zero when absent or of another
/// kind.
pub open spec fn spec_int_field(entries: Seq<TagV>, key: Seq<char>) -> i32 {
    match lookup_entry(entries, key) {
        Some(TagV::Int { v, .. }) => v,
        _ => 0,
    }
}

/// The chunk's stored coordinates, from its `xPos`, `yPos` and `zPos`
/// integer fields; absent fields read as zero.
pub fn get_chunk_coordinates(chunk_compound: &NbtTagCompound) -> (r: Coordinates)
    ensures
        r.x == spec_int_field(chunk_compound@.entries, "xPos"@),
        r.y == spec_int_field(chunk_compound@.entries, "yPos"@),
        r.z == spec_int_field(chunk_compound@.entries, "zPos"@),
{
    let mut result = Coordinates { x: 0, y: 0, z: 0 };
    if let Some(x_coord_tag) = chunk_compound.get("xPos") {
        if let Some(x_coord) = x_coord_tag.int_tag() {
            result.x = x_coord.value;
        }
    }
    if let Some(y_coord_tag) = chunk_compound.get("yPos") {
        if let Some(y_coord) = y_coord_tag.int_tag() {
            result.y = y_coord.value;
        }
    }
    if let Some(z_coord_tag) = chunk_compound.get("zPos") {
        if let Some(z_coord) = z_coord_tag.int_tag() {
            result.z = z_coord.value;
        }
    }
    result
}

/// The table a section scan yields has one row per queried name.
proof fn lemma_section_scan_len(bs: TagV, names: Seq<String>, cx: int, sy: int, cz: int)
    ensures
        spec_section_scan(bs, names, cx, sy, cz) matches Ok(t) ==> t.len() == names.len(),
{
}

/// The table a section contributes has one row per queried name.
proof fn lemma_section_additions_len(section: TagV, names: Seq<String>, cx: int, cz: int)
    ensures
        spec_section_additions(section, names, cx, cz) matches Ok(t) ==> t.len() == names.len(),
{
    match spec_find_child(section, "block_states"@) {
        Some(bs) => {
            match spec_find_child(section, "Y"@) {
                Some(y) => {
                    match y {
                        TagV::Byte { v, .. } => {
                            lemma_section_scan_len(bs, names, cx, v as int, cz);
                        },
                        _ => {},
                    }
                },
                _ => {},
            }
        },
        None => {},
    }
}

/// The table a chunk yields has one row per queried name.
proof fn lemma_chunk_scan_len(chunk: CompoundV, names: Seq<String>, k: int)
    ensures
        spec_chunk_scan(chunk, names, k) matches Ok(t) ==> t.len() == names.len(),
    decreases spec_sections_of(chunk).len() - k,
{
    let sections = spec_sections_of(chunk);
    if 0 <= k < sections.len() {
        let cx = spec_int_field(chunk.entries, "xPos"@) as int;
        let cz = spec_int_field(chunk.entries, "zPos"@) as int;
        lemma_section_additions_len(sections[k], names, cx, cz);
        lemma_chunk_scan_len(chunk, names, k + 1);
    }
}

/// The table a world yields has one row per queried name.
proof fn lemma_world_scan_len(chunks: Seq<CompoundV>, names: Seq<String>, c: int)
    ensures
        spec_world_scan(chunks, names, c) matches Ok(t) ==> t.len() == names.len(),
    decreases chunks.len() - c,
{
    if 0 <= c < chunks.len() {
        lemma_chunk_scan_len(chunks[c], names, 0);
        lemma_world_scan_len(chunks, names, c + 1);
    }
}

/// Searches every chunk for the queried block names and reports, for
/// each name that appears, its absolute world positions: chunk by
/// chunk, section by section, positions in x-fastest order within each
/// section.  A section with a truncated index stream stops the search.
#[verifier::rlimit(100)]
#[verifier::spinoff_prover]
pub fn inspect_chunks(
    block_resource_location: Vec<String>,
    tag_compounds_list: &Vec<NbtTagCompound>,
) -> (r: Result<Vec<(String, Vec<Coordinates>)>, ChunkFormatError>)
    ensures
        match spec_world_scan(
            seq_compound_views(tag_compounds_list@),
            block_resource_location@,
            0,
        ) {
            Ok(adds) => r matches Ok(v) && entries_views(v@) == spec_result_entries(
                block_resource_location@,
                adds,
                0,
            ),
            Err(e) => r matches Err(e2) && e2 == e,
        },
{
    let ghost names = block_resource_location@;
    let ghost views = seq_compound_views(tag_compounds_list@);
    let nnames = block_resource_location.len();
    let nchunks = tag_compounds_list.len();
    let mut bpl: Vec<(String, Vec<Coordinates>)> = Vec::new();
    let mut i: usize = 0;
    while i < nnames
        invariant
            nnames == names.len(),
            names == block_resource_location@,
            i <= nnames,
            bpl@.len() == i,
            forall|k: int| 0 <= k < i ==> #[trigger] bpl@[k].0 == names[k],
            forall|k: int| 0 <= k < i ==> #[trigger] bpl@[k].1@ == Seq::<Coordinates>::empty(),
        decreases nnames - i,
    {
        let empty_positions: Vec<Coordinates> = Vec::new();
        proof {
            assert(empty_positions@ =~= Seq::<Coordinates>::empty());
        }
        bpl.push((block_resource_location[i].clone(), empty_positions));
        i += 1;
    }
    proof {
        lemma_world_scan_len(views, names, 0);
        assert(Seq::new(nnames as nat, |k: int| bpl@[k].1@) =~~= empty_table(names.len()));
        match spec_world_scan(views, names, 0) {
            Ok(rest) => {
                lemma_pwc_unit_left(rest);
            },
            Err(_) => {},
        }
    }
    let mut ci: usize = 0;
    while ci < nchunks
        invariant
            nnames == names.len(),
            names == block_resource_location@,
            nchunks == tag_compounds_list@.len(),
            views == seq_compound_views(tag_compounds_list@),
            ci <= nchunks,
            bpl@.len() == nnames,
            forall|k: int| 0 <= k < nnames ==> #[trigger] bpl@[k].0 == names[k],
            match spec_world_scan(views, names, ci as int) {
                Ok(rest) => spec_world_scan(views, names, 0) == Ok::<
                    Seq<Seq<Coordinates>>,
                    ChunkFormatError,
                >(pointwise_cat(Seq::new(nnames as nat, |k: int| bpl@[k].1@), rest)),
                Err(e) => spec_world_scan(views, names, 0) == Err::<
                    Seq<Seq<Coordinates>>,
                    ChunkFormatError,
                >(e),
            },
        decreases nchunks - ci,
    {
        let ghost cur0 = Seq::new(nnames as nat, |k: int| bpl@[k].1@);
        let ghost chunkv = views[ci as int];
        let tag_compound = &tag_compounds_list[ci];
        proof {
            assert(tag_compound@ == chunkv);
        }
        let mut chunk_pos = get_chunk_coordinates(tag_compound);
        let in_range = chunk_pos.x >= -0x4000000 && chunk_pos.x <= 0x4000000 && chunk_pos.z
            >= -0x4000000 && chunk_pos.z <= 0x4000000;
        if in_range {
            let sections_opt = tag_compound.get("sections");
            let mut handled_sections = false;
            match sections_opt {
                Some(sections_tag) => {
                    match sections_tag.list_as_ref() {
                        Some(sections_list) => {
                            let ghost sections = spec_sections_of(chunkv);
                            proof {
                                lemma_seq_tag_views(sections_list.values@);
                                assert(sections == seq_tag_views(sections_list.values@));
                            }
                            let nsec = sections_list.values.len();
                            let mut si: usize = 0;
                            while si < nsec
                                invariant
                                    nnames == names.len(),
                                    names == block_resource_location@,
                                    nchunks == tag_compounds_list@.len(),
                                    views == seq_compound_views(tag_compounds_list@),
                                    ci < nchunks,
                                    chunkv == views[ci as int],
                                    spec_chunk_coords_ok(chunkv),
                                    chunk_pos.x as int == spec_int_field(
                                        chunkv.entries,
                                        "xPos"@,
                                    ) as int,
                                    chunk_pos.z as int == spec_int_field(
                                        chunkv.entries,
                                        "zPos"@,
                                    ) as int,
                                    sections == spec_sections_of(chunkv),
                                    sections == seq_tag_views(sections_list.values@),
                                    nsec == sections_list.values@.len(),
                                    nsec == sections.len(),
                                    si <= nsec,
                                    bpl@.len() == nnames,
                                    forall|k: int|
                                        0 <= k < nnames ==> #[trigger] bpl@[k].0 == names[k],
                                    match spec_chunk_scan(chunkv, names, si as int) {
                                        Ok(rest) => match spec_world_scan(
                                            views,
                                            names,
                                            ci + 1,
                                        ) {
                                            Ok(wrest) => spec_world_scan(views, names, 0) == Ok::<
                                                Seq<Seq<Coordinates>>,
                                                ChunkFormatError,
                                            >(
                                                pointwise_cat(
                                                    Seq::new(
                                                        nnames as nat,
                                                        |k: int| bpl@[k].1@,
                                                    ),
                                                    pointwise_cat(rest, wrest),
                                                ),
                                            ),
                                            Err(e) => spec_world_scan(views, names, 0) == Err::<
                                                Seq<Seq<Coordinates>>,
                                                ChunkFormatError,
                                            >(e),
                                        },
                                        Err(e) => spec_world_scan(views, names, 0) == Err::<
                                            Seq<Seq<Coordinates>>,
                                            ChunkFormatError,
                                        >(e),
                                    },
                                decreases nsec - si,
                            {
                                let ghost cur_in = Seq::new(nnames as nat, |k: int| bpl@[k].1@);
                                let ghost cxi = spec_int_field(chunkv.entries, "xPos"@) as int;
                                let ghost czi = spec_int_field(chunkv.entries, "zPos"@) as int;
                                let section = &sections_list.values[si];
                                proof {
                                    lemma_seq_tag_views(sections_list.values@);
                                    assert(section@ == sections[si as int]);
                                    lemma_section_additions_len(sections[si as int], names, cxi, czi);
                                    lemma_chunk_scan_len(chunkv, names, si + 1);
                                    lemma_world_scan_len(views, names, ci + 1);
                                }
                                let ghost section_adds = spec_section_additions(
                                    sections[si as int],
                                    names,
                                    cxi,
                                    czi,
                                );
                                let mut did_scan = false;
                                match find_block_states_in_section(section) {
                                    None => {
                                        proof {
                                            assert(section_adds == Ok::<
                                                Seq<Seq<Coordinates>>,
                                                ChunkFormatError,
                                            >(empty_table(names.len())));
                                        }
                                    },
                                    Some(block_states_tag) => {
                                        let mut have_y = false;
                                        let mut sy_val: i8 = 0;
                                        match section.compound_as_ref() {
                                            None => {
                                                proof {
                                                    assert(false);
                                                }
                                            },
                                            Some(section_compound) => {
                                                match section_compound.get("Y") {
                                                    None => {},
                                                    Some(y_tag) => {
                                                        match y_tag.byte() {
                                                            None => {},
                                                            Some(yb) => {
                                                                have_y = true;
                                                                sy_val = yb.value;
                                                            },
                                                        }
                                                    },
                                                }
                                            },
                                        }
                                        if have_y {
                                            chunk_pos.y = sy_val as i32;
                                            proof {
                                                assert(section_adds == spec_section_scan(
                                                    block_states_tag@,
                                                    names,
                                                    cxi,
                                                    sy_val as int,
                                                    czi,
                                                ));
                                                assert(chunk_pos.x as int == cxi
                                                    && chunk_pos.y as int == sy_val as int
                                                    && chunk_pos.z as int == czi);
                                            }
                                            match get_absolute_blocks_positions(
                                                block_states_tag,
                                                &block_resource_location,
                                                &chunk_pos,
                                                &mut bpl,
                                            ) {
                                                Err(e) => {
                                                    proof {
                                                        assert(section_adds == Err::<
                                                            Seq<Seq<Coordinates>>,
                                                            ChunkFormatError,
                                                        >(e));
                                                    }
                                                    return Err(e);
                                                },
                                                Ok(_found) => {
                                                    did_scan = true;
                                                    proof {
                                                        let adds = section_adds->Ok_0;
                                                        assert(Seq::new(
                                                            nnames as nat,
                                                            |k: int| bpl@[k].1@,
                                                        ) =~~= pointwise_cat(cur_in, adds));
                                                    }
                                                },
                                            }
                                        } else {
                                            proof {
                                                assert(section_adds == Ok::<
                                                    Seq<Seq<Coordinates>>,
                                                    ChunkFormatError,
                                                >(empty_table(names.len())));
                                            }
                                        }
                                    },
                                }
                                proof {
                                    let curN = Seq::new(nnames as nat, |k: int| bpl@[k].1@);
                                    let adds = section_adds->Ok_0;
                                    if !did_scan {
                                        assert(curN =~~= cur_in);
                                        lemma_pwc_unit_right(cur_in);
                                        assert(curN =~~= pointwise_cat(cur_in, adds));
                                    }
                                    match spec_chunk_scan(chunkv, names, si + 1) {
                                        Ok(rest2) => {
                                            match spec_world_scan(views, names, ci + 1) {
                                                Ok(wrest) => {
                                                    lemma_pwc_assoc(adds, rest2, wrest);
                                                    lemma_pwc_assoc(
                                                        cur_in,
                                                        adds,
                                                        pointwise_cat(rest2, wrest),
                                                    );
                                                },
                                                Err(_) => {},
                                            }
                                        },
                                        Err(_) => {},
                                    }
                                }
                                si += 1;
                            }
                            handled_sections = true;
                            proof {
                                lemma_world_scan_len(views, names, ci + 1);
                                match spec_world_scan(views, names, ci + 1) {
                                    Ok(wrest) => {
                                        lemma_pwc_unit_left(wrest);
                                    },
                                    Err(_) => {},
                                }
                            }
                        },
                        None => {},
                    }
                },
                None => {},
            }
            if !handled_sections {
                proof {
                    assert(spec_sections_of(chunkv) =~= Seq::<TagV>::empty());
                    assert(spec_chunk_scan(chunkv, names, 0) == Ok::<
                        Seq<Seq<Coordinates>>,
                        ChunkFormatError,
                    >(empty_table(names.len())));
                    lemma_world_scan_len(views, names, ci + 1);
                    match spec_world_scan(views, names, ci + 1) {
                        Ok(wrest) => {
                            lemma_pwc_unit_left(wrest);
                        },
                        Err(_) => {},
                    }
                }
            }
        } else {
            proof {
                lemma_world_scan_len(views, names, ci + 1);
                match spec_world_scan(views, names, ci + 1) {
                    Ok(wrest) => {
                        lemma_pwc_unit_left(wrest);
                    },
                    Err(_) => {},
                }
            }
        }
        ci += 1;
    }
    proof {
        let cur = Seq::new(nnames as nat, |k: int| bpl@[k].1@);
        assert(cur.len() == names.len());
        lemma_pwc_unit_right(cur);
    }
    let ghost finaladds = Seq::new(nnames as nat, |k: int| bpl@[k].1@);
    let mut result: Vec<(String, Vec<Coordinates>)> = Vec::new();
    let mut ni: usize = 0;
    while ni < nnames
        invariant
            nnames == names.len(),
            bpl@.len() == nnames,
            forall|k: int| 0 <= k < nnames ==> #[trigger] bpl@[k].0 == names[k],
            finaladds == Seq::new(nnames as nat, |k: int| bpl@[k].1@),
            ni <= nnames,
            entries_views(result@) + spec_result_entries(names, finaladds, ni as int)
                == spec_result_entries(names, finaladds, 0),
        decreases nnames - ni,
    {
        let ghost res_pre = result@;
        if !bpl[ni].1.is_empty() {
            let name_copy = bpl[ni].0.clone();
            let positions_copy = crate::nbt_tag::copy_vec(&bpl[ni].1);
            result.push((name_copy, positions_copy));
            proof {
                assert(entries_views(result@) =~= entries_views(res_pre).push(
                    (names[ni as int]@, finaladds[ni as int]),
                ));
                assert(entries_views(res_pre).push((names[ni as int]@, finaladds[ni as int]))
                    + spec_result_entries(names, finaladds, ni + 1) =~= entries_views(res_pre) + (
                seq![(names[ni as int]@, finaladds[ni as int])] + spec_result_entries(
                    names,
                    finaladds,
                    ni + 1,
                )));
            }
        } else {
            proof {
                assert(finaladds[ni as int].len() == 0);
            }
        }
        ni += 1;
    }
    proof {
        assert(spec_result_entries(names, finaladds, nnames as int) =~= Seq::<
            (Seq<char>, Seq<Coordinates>),
        >::empty());
        assert(entries_views(result@) + Seq::<(Seq<char>, Seq<Coordinates>)>::empty()
            =~= entries_views(result@));
    }
    Ok(result)
}

} // verus!
