//! Reading the binary world-storage format of a voxel sandbox game:
//! the tagged binary tree codec, the region container, and the
//! block-palette decoder, with machine-checked contracts.

pub mod blocks;
pub mod chunk_format;
pub mod file_parser;
pub mod generic_bin;
pub mod nbt_tag;
pub mod region;
pub mod wire;

use vstd::prelude::*;

use crate::blocks::Coordinates;
use crate::chunk_format::ChunkFormatError;
use crate::chunk_format::entries_views;
use crate::chunk_format::inspect_chunks;
use crate::chunk_format::seq_compound_views;
use crate::chunk_format::spec_result_entries;
use crate::chunk_format::spec_world_scan;
use crate::nbt_tag::CompoundV;
use crate::nbt_tag::NbtTagCompound;
use crate::nbt_tag::TagV;
use crate::nbt_tag::lemma_seq_tag_views;
use crate::nbt_tag::seq_tag_views;
use crate::nbt_tag::str_eq;

verus! {

/// The compounds found by a depth-first pre-order walk of one tag: a
/// compound whose name equals the key is reported and not descended
/// into; any other compound is searched child by child, and compound
/// elements of list children are searched too.
pub open spec fn spec_search_tag(t: TagV, key: Seq<char>) -> Seq<CompoundV>
    decreases t, 1int,
{
    match t {
        TagV::Compound { name, entries } => if name == key {
            seq![CompoundV { name, entries }]
        } else {
            spec_search_vals(entries, key)
        },
        _ => Seq::empty(),
    }
}

/// The matches found among a compound's children, in order.
pub open spec fn spec_search_vals(es: Seq<TagV>, key: Seq<char>) -> Seq<CompoundV>
    decreases es, 0int,
{
    if es.len() == 0 {
        Seq::empty()
    } else {
        (match es[0] {
            TagV::Compound { .. } => spec_search_tag(es[0], key),
            TagV::List { vs, .. } => spec_search_list_elems(vs, key),
            _ => Seq::empty(),
        }) + spec_search_vals(es.skip(1), key)
    }
}

/// The matches found among a list's elements: only compound elements
/// are searched.
pub open spec fn spec_search_list_elems(vs: Seq<TagV>, key: Seq<char>) -> Seq<CompoundV>
    decreases vs, 0int,
{
    if vs.len() == 0 {
        Seq::empty()
    } else {
        (if vs[0] is Compound {
            spec_search_tag(vs[0], key)
        } else {
            Seq::empty()
        }) + spec_search_list_elems(vs.skip(1), key)
    }
}

/// The matches found across a list of root compounds, in order.
pub open spec fn spec_search_world(chunks: Seq<CompoundV>, key: Seq<char>, i: int) -> Seq<CompoundV>
    decreases chunks.len() - i,
{
    if !(0 <= i < chunks.len()) {
        Seq::empty()
    } else {
        spec_search_tag(
            TagV::Compound { name: chunks[i].name, entries: chunks[i].entries },
            key,
        ) + spec_search_world(chunks, key, i + 1)
    }
}

/// Searching one more child appends that child's matches.
proof fn lemma_search_vals_snoc(es: Seq<TagV>, t: TagV, key: Seq<char>)
    ensures
        spec_search_vals(es.push(t), key) == spec_search_vals(es, key) + (match t {
            TagV::Compound { .. } => spec_search_tag(t, key),
            TagV::List { vs, .. } => spec_search_list_elems(vs, key),
            _ => Seq::<CompoundV>::empty(),
        }),
    decreases es.len(),
{
    let h = |u: TagV|
        match u {
            TagV::Compound { .. } => spec_search_tag(u, key),
            TagV::List { vs, .. } => spec_search_list_elems(vs, key),
            _ => Seq::<CompoundV>::empty(),
        };
    if es.len() == 0 {
        assert(es.push(t)[0] == t);
        assert(es.push(t).skip(1) =~= Seq::<TagV>::empty());
        assert(spec_search_vals(es.push(t).skip(1), key) == Seq::<CompoundV>::empty());
        assert(spec_search_vals(es.push(t), key) =~= spec_search_vals(es, key) + h(t));
    } else {
        assert(es.push(t)[0] == es[0]);
        assert(es.push(t).skip(1) =~= es.skip(1).push(t));
        lemma_search_vals_snoc(es.skip(1), t, key);
        assert(spec_search_vals(es.push(t), key) == h(es[0]) + spec_search_vals(
            es.skip(1).push(t),
            key,
        ));
        assert(spec_search_vals(es, key) == h(es[0]) + spec_search_vals(es.skip(1), key));
        assert(h(es[0]) + (spec_search_vals(es.skip(1), key) + h(t)) =~= (h(es[0])
            + spec_search_vals(es.skip(1), key)) + h(t));
    }
}

/// Searching one more list element appends that element's matches.
proof fn lemma_search_elems_snoc(vs: Seq<TagV>, t: TagV, key: Seq<char>)
    ensures
        spec_search_list_elems(vs.push(t), key) == spec_search_list_elems(vs, key) + (if t
            is Compound {
            spec_search_tag(t, key)
        } else {
            Seq::<CompoundV>::empty()
        }),
    decreases vs.len(),
{
    let h = |u: TagV|
        if u is Compound {
            spec_search_tag(u, key)
        } else {
            Seq::<CompoundV>::empty()
        };
    if vs.len() == 0 {
        assert(vs.push(t)[0] == t);
        assert(vs.push(t).skip(1) =~= Seq::<TagV>::empty());
        assert(spec_search_list_elems(vs.push(t).skip(1), key) == Seq::<CompoundV>::empty());
        assert(spec_search_list_elems(vs.push(t), key) =~= spec_search_list_elems(vs, key) + h(t));
    } else {
        assert(vs.push(t)[0] == vs[0]);
        assert(vs.push(t).skip(1) =~= vs.skip(1).push(t));
        lemma_search_elems_snoc(vs.skip(1), t, key);
        assert(spec_search_list_elems(vs.push(t), key) == h(vs[0]) + spec_search_list_elems(
            vs.skip(1).push(t),
            key,
        ));
        assert(spec_search_list_elems(vs, key) == h(vs[0]) + spec_search_list_elems(
            vs.skip(1),
            key,
        ));
        assert(h(vs[0]) + (spec_search_list_elems(vs.skip(1), key) + h(t)) =~= (h(vs[0])
            + spec_search_list_elems(vs.skip(1), key)) + h(t));
    }
}

/// The compound views of a result vector.
pub open spec fn compound_views(v: Seq<NbtTagCompound>) -> Seq<CompoundV> {
    Seq::new(v.len(), |i: int| v[i]@)
}

/// Walks one compound, appending every match to `result_list`.
#[verifier::rlimit(100)]
fn recursive_compound_search(
    tag_compound: &NbtTagCompound,
    result_list: &mut Vec<NbtTagCompound>,
    key: &str,
) -> (found: bool)
    ensures
        compound_views(final(result_list)@) == compound_views(old(result_list)@)
            + spec_search_tag(
            TagV::Compound { name: tag_compound@.name, entries: tag_compound@.entries },
            key@,
        ),
        found == (spec_search_tag(
            TagV::Compound { name: tag_compound@.name, entries: tag_compound@.entries },
            key@,
        ).len() > 0),
    decreases *tag_compound,
{
    let ghost me = TagV::Compound {
        name: tag_compound@.name,
        entries: tag_compound@.entries,
    };
    let start_len = result_list.len();
    if str_eq(tag_compound.name.as_str(), key) {
        let copy = tag_compound.clone();
        result_list.push(copy);
        proof {
            assert(compound_views(result_list@) =~= compound_views(old(result_list)@)
                + spec_search_tag(me, key@));
        }
        return true;
    }
    proof {
        lemma_seq_tag_views(tag_compound.values@);
    }
    let n = tag_compound.values.len();
    let mut i: usize = 0;
    while i < n
        invariant
            n == tag_compound.values@.len(),
            i <= n,
            key@ != tag_compound@.name,
            compound_views(result_list@) == compound_views(old(result_list)@) + spec_search_vals(
                seq_tag_views(tag_compound.values@).take(i as int),
                key@,
            ),
        decreases n - i,
    {
        let ghost entries = seq_tag_views(tag_compound.values@);
        proof {
            lemma_seq_tag_views(tag_compound.values@);
            assert(decreases_to!(*tag_compound => tag_compound.values));
            assert(decreases_to!(tag_compound.values => tag_compound.values@[i as int]));
        }
        let ghost pre_list = result_list@;
        let value = &tag_compound.values[i];
        match value {
            crate::nbt_tag::NbtTag::Compound(inner) => {
                proof {
                    assert(tag_compound.values@[i as int] == crate::nbt_tag::NbtTag::Compound(
                        *inner,
                    ));
                    assert(decreases_to!(tag_compound.values@[i as int] => tag_compound.values@[
                        i as int
                    ]->Compound_0));
                    assert(tag_compound.values@[i as int]->Compound_0 == *inner);
                }
                let _ = recursive_compound_search(inner, result_list, key);
                proof {
                    lemma_search_vals_snoc(entries.take(i as int), entries[i as int], key@);
                    assert(entries.take(i + 1) =~= entries.take(i as int).push(
                        entries[i as int],
                    ));
                    assert(compound_views(result_list@) =~= compound_views(old(result_list)@)
                        + spec_search_vals(entries.take(i + 1), key@));
                }
            },
            crate::nbt_tag::NbtTag::List(inner) => {
                let m = inner.values.len();
                let ghost elems = seq_tag_views(inner.values@);
                proof {
                    lemma_seq_tag_views(inner.values@);
                    assert(tag_compound.values@[i as int] == crate::nbt_tag::NbtTag::List(*inner));
                    assert(decreases_to!(tag_compound.values@[i as int] => tag_compound.values@[
                        i as int
                    ]->List_0));
                    assert(tag_compound.values@[i as int]->List_0 == *inner);
                    assert(decreases_to!(*inner => inner.values));
                }
                let mut k: usize = 0;
                while k < m
                    invariant
                        m == inner.values@.len(),
                        k <= m,
                        n == tag_compound.values@.len(),
                        i < n,
                        tag_compound.values@[i as int] == crate::nbt_tag::NbtTag::List(*inner),
                        elems == seq_tag_views(inner.values@),
                        compound_views(result_list@) == compound_views(pre_list)
                            + spec_search_list_elems(elems.take(k as int), key@),
                    decreases m - k,
                {
                    proof {
                        lemma_seq_tag_views(inner.values@);
                        assert(decreases_to!(*tag_compound => tag_compound.values));
                        assert(decreases_to!(tag_compound.values => tag_compound.values@[
                            i as int
                        ]));
                        assert(tag_compound.values@[i as int] == crate::nbt_tag::NbtTag::List(
                            *inner,
                        ));
                        assert(decreases_to!(tag_compound.values@[i as int] => tag_compound.values@[
                            i as int
                        ]->List_0));
                        assert(tag_compound.values@[i as int]->List_0 == *inner);
                        assert(decreases_to!(*inner => inner.values));
                        assert(decreases_to!(inner.values => inner.values@[k as int]));
                    }
                    let item = &inner.values[k];
                    match item {
                        crate::nbt_tag::NbtTag::Compound(c) => {
                            proof {
                                assert(inner.values@[k as int] == crate::nbt_tag::NbtTag::Compound(
                                    *c,
                                ));
                                assert(decreases_to!(inner.values@[k as int] => inner.values@[
                                    k as int
                                ]->Compound_0));
                                assert(inner.values@[k as int]->Compound_0 == *c);
                            }
                            let _ = recursive_compound_search(c, result_list, key);
                        },
                        _ => {},
                    }
                    proof {
                        lemma_search_elems_snoc(elems.take(k as int), elems[k as int], key@);
                        assert(elems.take(k + 1) =~= elems.take(k as int).push(elems[k as int]));
                        assert(compound_views(result_list@) =~= compound_views(pre_list)
                            + spec_search_list_elems(elems.take(k + 1), key@));
                    }
                    k += 1;
                }
                proof {
                    assert(elems.take(m as int) =~= elems);
                    lemma_search_vals_snoc(entries.take(i as int), entries[i as int], key@);
                    assert(entries.take(i + 1) =~= entries.take(i as int).push(
                        entries[i as int],
                    ));
                    assert(compound_views(result_list@) =~= compound_views(old(result_list)@)
                        + spec_search_vals(entries.take(i + 1), key@));
                }
            },
            _ => {
                proof {
                    lemma_search_vals_snoc(entries.take(i as int), entries[i as int], key@);
                    assert(entries.take(i + 1) =~= entries.take(i as int).push(
                        entries[i as int],
                    ));
                    assert(compound_views(result_list@) =~= compound_views(old(result_list)@)
                        + spec_search_vals(entries.take(i + 1), key@));
                }
            },
        }
        i += 1;
    }
    proof {
        assert(seq_tag_views(tag_compound.values@).take(n as int) =~= seq_tag_views(
            tag_compound.values@,
        ));
    }
    result_list.len() > start_len
}

/// How a world file is to be read, judged by its file-name suffix.
#[derive(Clone, Copy, Debug, PartialEq, Eq, Structural)]
pub enum WorldFileKind {
    /// A region container of up to 1024 chunks.
    Region,
    /// A single compressed tag blob.
    NbtBlob,
    /// A JSON dump of one compound.
    Json,
    /// No treatment is known for this suffix.
    Unsupported,
}

/// The dispatch table on file-name suffixes.
pub open spec fn spec_classify_extension(ext: Seq<char>) -> WorldFileKind {
    if ext == "mca"@ || ext == "mcr"@ {
        WorldFileKind::Region
    } else if ext == "nbt"@ || ext == "litematic"@ {
        WorldFileKind::NbtBlob
    } else if ext == "json"@ {
        WorldFileKind::Json
    } else {
        WorldFileKind::Unsupported
    }
}

/// Judges a file-name suffix: region container, single blob, JSON
/// dump, or unsupported.
pub fn classify_extension(ext: &str) -> (r: WorldFileKind)
    ensures
        r == spec_classify_extension(ext@),
{
    if str_eq(ext, "mca") || str_eq(ext, "mcr") {
        WorldFileKind::Region
    } else if str_eq(ext, "nbt") || str_eq(ext, "litematic") {
        WorldFileKind::NbtBlob
    } else if str_eq(ext, "json") {
        WorldFileKind::Json
    } else {
        WorldFileKind::Unsupported
    }
}

/// A loaded world: the path it came from, its format version, and the
/// root compound of every chunk or file, in reading order.
pub struct McWorldDescriptor {
    pub input_path: String,
    pub version: String,
    pub tag_compounds_list: Vec<NbtTagCompound>,
}

impl McWorldDescriptor {
    /// Wraps the decoded root compounds of a world; the reading and
    /// decoding happen at the caller.
    pub fn new(input_path: String, tag_compounds_list: Vec<NbtTagCompound>) -> (r: Self)
        ensures
            r.input_path@ == input_path@,
            r.version@ == "0.0.0"@,
            compound_views(r.tag_compounds_list@) == compound_views(tag_compounds_list@),
    {
        McWorldDescriptor { input_path, version: "0.0.0".to_owned(), tag_compounds_list }
    }

    /// The stored format version.
    pub fn get_mc_version(&self) -> (r: String)
        ensures
            r@ == self.version@,
    {
        self.version.clone()
    }

    /// Searches every chunk for the queried block names; per name, the
    /// positions come chunk by chunk, section by section, x-fastest.
    pub fn search_blocks(&self, block_resource_locations: Vec<String>) -> (r: Result<
        Vec<(String, Vec<Coordinates>)>,
        ChunkFormatError,
    >)
        ensures
            match spec_world_scan(
                seq_compound_views(self.tag_compounds_list@),
                block_resource_locations@,
                0,
            ) {
                Ok(adds) => r matches Ok(v) && entries_views(v@) == spec_result_entries(
                    block_resource_locations@,
                    adds,
                    0,
                ),
                Err(e) => r matches Err(e2) && e2 == e,
            },
    {
        inspect_chunks(block_resource_locations, &self.tag_compounds_list)
    }

    /// Searches the whole world for compounds named `key`, depth-first
    /// and in chunk order; with `stop_at_first`, only the first match
    /// is reported.  The flag in the result says whether any compound
    /// matched.
    pub fn search_compound(&self, key: &str, stop_at_first: bool) -> (r: (
        bool,
        Vec<NbtTagCompound>,
    ))
        ensures
            ({
                let all = spec_search_world(
                    compound_views(self.tag_compounds_list@),
                    key@,
                    0,
                );
                r.0 == (all.len() > 0) && (!stop_at_first ==> compound_views(r.1@) == all) && (
                stop_at_first ==> compound_views(r.1@) == (if all.len() > 0 {
                    seq![all[0]]
                } else {
                    Seq::<CompoundV>::empty()
                }))
            }),
    {
        let ghost views = compound_views(self.tag_compounds_list@);
        let mut result_list: Vec<NbtTagCompound> = Vec::new();
        let n = self.tag_compounds_list.len();
        let mut ci: usize = 0;
        proof {
            assert(compound_views(result_list@) =~= Seq::<CompoundV>::empty());
        }
        while ci < n
            invariant
                n == self.tag_compounds_list@.len(),
                views == compound_views(self.tag_compounds_list@),
                ci <= n,
                compound_views(result_list@) == spec_search_world_upto(views, key@, ci as int),
            decreases n - ci,
        {
            let tag_compound = &self.tag_compounds_list[ci];
            let ghost pre = result_list@;
            let _ = recursive_compound_search(tag_compound, &mut result_list, key);
            proof {
                lemma_search_world_snoc(views, key@, ci as int);
                assert(compound_views(result_list@) =~= spec_search_world_upto(
                    views,
                    key@,
                    ci + 1,
                ));
            }
            ci += 1;
        }
        proof {
            lemma_search_world_upto_full(views, key@);
        }
        let found = !result_list.is_empty();
        if stop_at_first {
            let mut first: Vec<NbtTagCompound> = Vec::new();
            if !result_list.is_empty() {
                let mut drained = result_list;
                drained.truncate(1);
                proof {
                    assert(compound_views(drained@) =~= seq![spec_search_world(
                        views,
                        key@,
                        0,
                    )[0]]);
                }
                return (found, drained);
            }
            proof {
                assert(compound_views(first@) =~= Seq::<CompoundV>::empty());
            }
            (found, first)
        } else {
            (found, result_list)
        }
    }
}

/// The matches of the first `i` chunks, in order.
pub open spec fn spec_search_world_upto(chunks: Seq<CompoundV>, key: Seq<char>, i: int) -> Seq<
    CompoundV,
>
    decreases i,
{
    if i <= 0 {
        Seq::empty()
    } else {
        spec_search_world_upto(chunks, key, i - 1) + spec_search_tag(
            TagV::Compound { name: chunks[i - 1].name, entries: chunks[i - 1].entries },
            key,
        )
    }
}

/// Scanning one more chunk appends its matches.
proof fn lemma_search_world_snoc(chunks: Seq<CompoundV>, key: Seq<char>, i: int)
    requires
        0 <= i,
    ensures
        spec_search_world_upto(chunks, key, i + 1) == spec_search_world_upto(chunks, key, i)
            + spec_search_tag(
            TagV::Compound { name: chunks[i].name, entries: chunks[i].entries },
            key,
        ),
{
}

/// The prefix scan of all chunks is the whole scan.
proof fn lemma_search_world_upto_full(chunks: Seq<CompoundV>, key: Seq<char>)
    ensures
        spec_search_world_upto(chunks, key, chunks.len() as int) == spec_search_world(
            chunks,
            key,
            0,
        ),
{
    lemma_search_world_upto_general(chunks, key, chunks.len() as int);
    assert(spec_search_world(chunks, key, chunks.len() as int) =~= Seq::<CompoundV>::empty());
    assert(spec_search_world_upto(chunks, key, chunks.len() as int) + Seq::<
        CompoundV,
    >::empty() =~= spec_search_world_upto(chunks, key, chunks.len() as int));
}

/// Suffix and prefix readings of the world scan agree.
proof fn lemma_search_world_upto_general(chunks: Seq<CompoundV>, key: Seq<char>, i: int)
    requires
        0 <= i <= chunks.len(),
    ensures
        spec_search_world_upto(chunks, key, i) + spec_search_world(chunks, key, i)
            == spec_search_world(chunks, key, 0),
    decreases i,
{
    if i == 0 {
        assert(Seq::<CompoundV>::empty() + spec_search_world(chunks, key, 0) =~= spec_search_world(
            chunks,
            key,
            0,
        ));
    } else {
        lemma_search_world_upto_general(chunks, key, i - 1);
        lemma_search_world_snoc(chunks, key, i - 1);
        assert((spec_search_world_upto(chunks, key, i - 1) + spec_search_tag(
            TagV::Compound { name: chunks[i - 1].name, entries: chunks[i - 1].entries },
            key,
        )) + spec_search_world(chunks, key, i) =~= spec_search_world_upto(chunks, key, i - 1) + (
        spec_search_tag(
            TagV::Compound { name: chunks[i - 1].name, entries: chunks[i - 1].entries },
            key,
        ) + spec_search_world(chunks, key, i)));
    }
}

} // verus!
