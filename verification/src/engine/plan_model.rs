//! What the planner's output is, as mathematics over the listed files.

use vstd::prelude::*;

use crate::engine::plan::{
    Entry, FileId, Pair, Placement, Segment, SourceFile, PART_FLOOR, VIABILITY_MIN_TOTAL,
};
use crate::engine::zip_format::entry_len;

verus! {

/// The sum of the files' sizes.
pub open spec fn total_size(files: Seq<SourceFile>) -> nat
    decreases files.len(),
{
    if files.len() == 0 {
        0
    } else {
        total_size(files.drop_last()) + files.last().size as nat
    }
}

/// The files whose body is large enough to be a part of its own.
pub open spec fn copyables(files: Seq<SourceFile>) -> Seq<SourceFile> {
    files.filter(|f: SourceFile| f.size >= PART_FLOOR)
}

/// The files that have to be streamed.
pub open spec fn streamables(files: Seq<SourceFile>) -> Seq<SourceFile> {
    files.filter(|f: SourceFile| f.size < PART_FLOOR)
}

/// Each large file with the small file of the same rank, if there is one.
pub open spec fn pairs(files: Seq<SourceFile>) -> Seq<Pair> {
    let big = copyables(files);
    let small = streamables(files);
    Seq::new(
        big.len(),
        |i: int|
            (
                big[i],
                if i < small.len() {
                    Some(small[i])
                } else {
                    None
                },
            ),
    )
}

/// The small files that no large file is left for.
pub open spec fn leftover(files: Seq<SourceFile>) -> Seq<SourceFile> {
    let big = copyables(files);
    let small = streamables(files);
    if small.len() <= big.len() {
        Seq::empty()
    } else {
        small.skip(big.len() as int)
    }
}

/// The first of the pairs whose large file is smallest.
pub open spec fn smallest_pair(ps: Seq<Pair>) -> int
    decreases ps.len(),
{
    if ps.len() <= 1 {
        0
    } else {
        let k = smallest_pair(ps.drop_last());
        if ps.last().0.size < ps[k].0.size {
            ps.len() - 1
        } else {
            k
        }
    }
}

/// A pair's files in archive order.
pub open spec fn pair_files(p: Pair) -> Seq<SourceFile> {
    match p.1 {
        Some(small) => seq![p.0, small],
        None => seq![p.0],
    }
}

/// How the files are spread over the first chain and the normal chains.
#[verifier::ext_equal]
pub struct Split {
    /// The files of the first chain, all streamed.
    pub first: Seq<SourceFile>,
    /// One pair for each normal chain.
    pub normal: Seq<Pair>,
}

/// The first chain gets the leftover files. Where they are too few to fill a
/// part, it also gets the pair whose large file is smallest.
pub open spec fn split(files: Seq<SourceFile>) -> Split {
    let ps = pairs(files);
    let left = leftover(files);
    if total_size(left) < PART_FLOOR {
        let k = smallest_pair(ps);
        Split { first: left + pair_files(ps[k]), normal: ps.remove(k) }
    } else {
        Split { first: left, normal: ps }
    }
}

/// Whether the copy-part path is taken: at least two large files, and a total
/// that comfortably exceeds the part floor.
pub open spec fn viable(files: Seq<SourceFile>) -> bool {
    copyables(files).len() >= 2 && total_size(files) >= VIABILITY_MIN_TOTAL
}

/// A file's place in the archive.
pub open spec fn place(f: SourceFile, streamed: bool) -> Placement {
    Placement { id: f.id, name: f.name, size: f.size, streamed }
}

/// A normal chain's files in archive order: the large one is copied, the small
/// one streamed.
pub open spec fn place_pair(p: Pair) -> Seq<Placement> {
    match p.1 {
        Some(small) => seq![place(p.0, false), place(small, true)],
        None => seq![place(p.0, false)],
    }
}

pub open spec fn place_pairs(ps: Seq<Pair>) -> Seq<Placement>
    decreases ps.len(),
{
    if ps.len() == 0 {
        Seq::empty()
    } else {
        place_pairs(ps.drop_last()) + place_pair(ps.last())
    }
}

/// All files in archive order.
pub open spec fn placed(s: Split) -> Seq<Placement> {
    s.first.map_values(|f: SourceFile| place(f, true)) + place_pairs(s.normal)
}

pub open spec fn ids(ps: Seq<Placement>) -> Seq<FileId> {
    ps.map_values(|p: Placement| p.id)
}

/// Name and size by file, as the last placement of the file has them.
pub open spec fn size_table(ps: Seq<Placement>) -> Map<u32, (String, u64)>
    decreases ps.len(),
{
    if ps.len() == 0 {
        Map::empty()
    } else {
        size_table(ps.drop_last()).insert(ps.last().id.0, (ps.last().name, ps.last().size))
    }
}

/// Whether a file is streamed, as its last placement has it.
pub open spec fn streamed_table(ps: Seq<Placement>) -> Map<u32, bool>
    decreases ps.len(),
{
    if ps.len() == 0 {
        Map::empty()
    } else {
        streamed_table(ps.drop_last()).insert(ps.last().id.0, ps.last().streamed)
    }
}

/// The archive bytes that the file `id` takes.
pub open spec fn len_in(table: Map<u32, (String, u64)>, id: FileId) -> nat {
    entry_len(table[id.0].0@, table[id.0].1 as nat)
}

/// Where entry number `i` of `order` starts: after all entries before it.
pub open spec fn offset_in(order: Seq<FileId>, table: Map<u32, (String, u64)>, i: int) -> nat
    decreases i,
{
    if i <= 0 {
        0
    } else {
        offset_in(order, table, i - 1) + len_in(table, order[i - 1])
    }
}

/// The entry that placement `i` gives rise to.
pub open spec fn entry_at(ps: Seq<Placement>, i: int) -> Entry {
    let id = ps[i].id;
    Entry {
        id,
        name: size_table(ps)[id.0].0,
        size: size_table(ps)[id.0].1,
        local_header_offset: offset_in(ids(ps), size_table(ps), i) as u64,
        crc: None,
        streamed: streamed_table(ps)[id.0],
    }
}

/// The entries of the first `n` placements by file number. A file that is placed
/// twice has its last entry.
pub open spec fn entry_table(ps: Seq<Placement>, n: int) -> Map<u32, Entry>
    decreases n,
{
    if n <= 0 {
        Map::empty()
    } else {
        entry_table(ps, n - 1).insert(ps[n - 1].id.0, entry_at(ps, n - 1))
    }
}

/// The bin packing of the first chain's files.
#[verifier::ext_equal]
pub struct Packing {
    /// Parts that have reached the floor.
    pub closed: Seq<Seq<Segment>>,
    /// The part being filled, and how many bytes it holds.
    pub open: Seq<Segment>,
    pub open_bytes: nat,
}

/// Files go into the open part one after another. A part is closed as soon as it
/// reaches the floor.
pub open spec fn pack(files: Seq<SourceFile>, table: Map<u32, (String, u64)>) -> Packing
    decreases files.len(),
{
    if files.len() == 0 {
        Packing { closed: Seq::empty(), open: Seq::empty(), open_bytes: 0 }
    } else {
        let before = pack(files.drop_last(), table);
        let segments = before.open.push(Segment::StreamedFile { id: files.last().id });
        let bytes = before.open_bytes + len_in(table, files.last().id);
        if bytes >= PART_FLOOR {
            Packing { closed: before.closed.push(segments), open: Seq::empty(), open_bytes: 0 }
        } else {
            Packing { closed: before.closed, open: segments, open_bytes: bytes }
        }
    }
}

/// One part of a chain.
#[verifier::ext_equal]
pub enum PartModel {
    Copy { part_number: u32, id: FileId },
    Stream { part_number: u32, segments: Seq<Segment> },
}

#[verifier::ext_equal]
pub struct ChainModel {
    pub parts: Seq<PartModel>,
    pub final_merge_part_number: u32,
}

/// The first chain: the closed parts, then a last part that ends with the
/// header of the first copied file.
pub open spec fn first_chain(
    files: Seq<SourceFile>,
    table: Map<u32, (String, u64)>,
    first_big: FileId,
) -> ChainModel {
    let p = pack(files, table);
    ChainModel {
        parts: closed_parts(p.closed).push(
            PartModel::Stream {
                part_number: (p.closed.len() + 1) as u32,
                segments: p.open.push(Segment::CopiedFileHeader { id: first_big }),
            },
        ),
        final_merge_part_number: 1,
    }
}

/// The closed parts with their numbers, from 1 on.
pub open spec fn closed_parts(closed: Seq<Seq<Segment>>) -> Seq<PartModel> {
    Seq::new(
        closed.len(),
        |i: int| PartModel::Stream { part_number: (i + 1) as u32, segments: closed[i] },
    )
}

/// What the stream part of normal chain `k` holds: the chain's small file, and
/// the header of the file that the next chain copies.
pub open spec fn tail_segments(normal: Seq<Pair>, k: int) -> Seq<Segment> {
    (match normal[k].1 {
        Some(small) => seq![Segment::StreamedFile { id: small.id }],
        None => Seq::empty(),
    }) + if k + 1 < normal.len() {
        seq![Segment::CopiedFileHeader { id: normal[k + 1].0.id }]
    } else {
        Seq::empty()
    }
}

/// Normal chain `k`: the large file is copied, then the tail is streamed.
pub open spec fn normal_chain(normal: Seq<Pair>, k: int) -> ChainModel {
    ChainModel {
        parts: seq![
            PartModel::Copy { part_number: 1, id: normal[k].0.id },
            PartModel::Stream { part_number: 2, segments: tail_segments(normal, k) },
        ],
        final_merge_part_number: (k + 2) as u32,
    }
}

/// All chains in the order in which they are merged.
pub open spec fn chains(s: Split) -> Seq<ChainModel> {
    seq![first_chain(s.first, size_table(placed(s)), s.normal[0].0.id)] + Seq::new(
        s.normal.len(),
        |k: int| normal_chain(s.normal, k),
    )
}

/// The copied files, in chain order.
pub open spec fn copied_ids(normal: Seq<Pair>) -> Seq<FileId> {
    normal.map_values(|p: Pair| p.0.id)
}

/// The length of all entries together, which is where the central directory starts.
pub open spec fn entries_len(s: Split) -> nat {
    offset_in(ids(placed(s)), size_table(placed(s)), placed(s).len() as int)
}

} // verus!
