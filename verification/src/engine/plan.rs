//! Pure planning.
//!
//! [`plan`] turns a listing into a fully ordered, fully numbered [`Plan`], or routes
//! to plain streaming. Ordering, chain construction, part numbering and offsets
//! all follow from names and sizes alone. CRC values are filled in later and
//! affect none of them.

use std::collections::HashMap;

use vstd::prelude::*;

use crate::engine::plan_choices::is_plan_of;
use crate::engine::plan_laws::{every_file_is_placed_once, smallest_pair_is_first_minimum};
use crate::engine::plan_model::{
    chains, closed_parts, copied_ids, copyables, entries_len, entry_at, entry_table, first_chain,
    ids, leftover, normal_chain, offset_in, pack, pair_files, pairs, place, place_pairs, placed,
    size_table, smallest_pair, split, streamables, streamed_table, tail_segments, total_size,
    viable, ChainModel, PartModel, Split,
};
use crate::engine::zip_format::entry_total_len;

verus! {

/// S3 multipart upload minimum non-last part size (5 MiB).
pub const PART_FLOOR: u64 = 5 * 1024 * 1024;

/// The total below which the copy-part path is not taken.
pub const VIABILITY_MIN_TOTAL: u64 = 4 * PART_FLOOR;

/// Stable identity for a file, independent of its position in any collection.
#[derive(Debug, Clone, Copy, PartialEq, Eq, Hash, Structural)]
pub struct FileId(pub u32);

/// A source object from the listing, the planner's only input.
#[derive(Debug, Clone)]
pub struct SourceFile {
    pub id: FileId,
    pub key: String,
    /// ZIP entry name (key minus prefix).
    pub name: String,
    pub size: u64,
}

/// A large file and the small file that is streamed after it.
pub type Pair = (SourceFile, Option<SourceFile>);

/// A file's place in the archive: what the planner keeps of it.
#[derive(Debug, Clone)]
pub struct Placement {
    pub id: FileId,
    pub name: String,
    pub size: u64,
    pub streamed: bool,
}

/// One archive entry, in canonical order. `crc` is filled in later.
#[derive(Debug, Clone)]
pub struct Entry {
    pub id: FileId,
    pub name: String,
    pub size: u64,
    pub local_header_offset: u64,
    pub crc: Option<u32>,
    /// Whether a stream part writes the header and the body; otherwise the body is copied.
    pub streamed: bool,
}

/// A piece of a stream part.
#[derive(Debug, Clone, Copy, PartialEq, Eq, Structural)]
pub enum Segment {
    /// A streamed file: its header and its body.
    StreamedFile { id: FileId },
    /// The header of a copied file, whose body the next chain starts with.
    CopiedFileHeader { id: FileId },
}

/// One part of a chain's own multipart upload.
#[derive(Debug, Clone)]
pub enum PartSpec {
    /// A large body that is moved server-side.
    Copy { part_number: u32, id: FileId },
    /// Bytes that are built locally.
    Stream { part_number: u32, segments: Vec<Segment> },
}

impl View for PartSpec {
    type V = PartModel;

    open spec fn view(&self) -> PartModel {
        match *self {
            PartSpec::Copy { part_number, id } => PartModel::Copy { part_number, id },
            PartSpec::Stream { part_number, segments } => PartModel::Stream {
                part_number,
                segments: segments@,
            },
        }
    }
}

/// A chain is an object with its own multipart upload. A normal chain copies a
/// large file and streams a tail; the first chain is all stream parts.
#[derive(Debug, Clone)]
pub struct Chain {
    pub parts: Vec<PartSpec>,
    pub final_merge_part_number: u32,
}

pub open spec fn part_views(parts: Seq<PartSpec>) -> Seq<PartModel> {
    parts.map_values(|p: PartSpec| p@)
}

pub open spec fn chain_views(cs: Seq<Chain>) -> Seq<ChainModel> {
    cs.map_values(|c: Chain| c@)
}

impl View for Chain {
    type V = ChainModel;

    open spec fn view(&self) -> ChainModel {
        ChainModel {
            parts: part_views(self.parts@),
            final_merge_part_number: self.final_merge_part_number,
        }
    }
}

/// The planner's complete output for the copy-part path.
#[derive(Debug, Clone)]
pub struct Plan {
    /// Canonical archive order.
    pub order: Vec<FileId>,
    /// The entries by file number.
    pub entries: HashMap<u32, Entry>,
    pub chains: Vec<Chain>,
    /// The copied files in chain order, whose CRC has to be looked up.
    pub copyable: Vec<FileId>,
}

#[derive(Debug, Clone)]
pub enum Routing {
    CopyPart(Plan),
    Fallback,
}

/// Local-header offsets across `order`: each entry starts where the one before it ends.
fn compute_offsets(
    order: &Vec<FileId>,
    size_of: &HashMap<u32, (String, u64)>,
) -> (offsets: Vec<u64>)
    requires
        forall|i: int| 0 <= i < order@.len() ==> size_of@.contains_key(#[trigger] order@[i].0),
        offset_in(order@, size_of@, order@.len() as int) <= u64::MAX,
    ensures
        offsets@.len() == order@.len(),
        forall|i: int|
            0 <= i < order@.len() ==> #[trigger] offsets@[i] == offset_in(order@, size_of@, i),
{
    let mut offsets: Vec<u64> = Vec::new();
    let mut acc: u64 = 0;
    let mut i: usize = 0;
    while i < order.len()
        invariant
            i <= order@.len(),
            forall|j: int| 0 <= j < order@.len() ==> size_of@.contains_key(#[trigger] order@[j].0),
            offset_in(order@, size_of@, order@.len() as int) <= u64::MAX,
            acc == offset_in(order@, size_of@, i as int),
            offsets@.len() == i,
            forall|j: int|
                0 <= j < i ==> #[trigger] offsets@[j] == offset_in(order@, size_of@, j),
        decreases order.len() - i,
    {
        offsets.push(acc);
        proof {
            lemma_offset_monotonic(order@, size_of@, i + 1, order@.len() as int);
        }
        match size_of.get(&order[i].0) {
            Some(entry) => {
                acc = acc + entry_total_len(entry.0.as_str(), entry.1);
            },
            None => {
                assert(false);
            },
        }
        i = i + 1;
    }
    offsets
}

proof fn lemma_offset_monotonic(order: Seq<FileId>, table: Map<u32, (String, u64)>, i: int, j: int)
    requires
        i <= j,
    ensures
        offset_in(order, table, i) <= offset_in(order, table, j),
    decreases j - i,
{
    if i < j {
        lemma_offset_monotonic(order, table, i, j - 1);
    }
}

/// The sum of the files' sizes.
fn sum_sizes(files: &Vec<SourceFile>) -> (total: u64)
    requires
        total_size(files@) <= u64::MAX,
    ensures
        total == total_size(files@),
{
    let mut total: u64 = 0;
    let mut i: usize = 0;
    assert(files@.take(0) =~= Seq::empty());
    while i < files.len()
        invariant
            i <= files@.len(),
            total == total_size(files@.take(i as int)),
            total_size(files@) <= u64::MAX,
        decreases files.len() - i,
    {
        proof {
            assert(files@.take(i + 1).drop_last() =~= files@.take(i as int));
            lemma_total_size_take(files@, i + 1);
        }
        total = total + files[i].size;
        i = i + 1;
    }
    assert(files@.take(i as int) =~= files@);
    total
}

/// The files at the front weigh no more than all files.
proof fn lemma_total_size_take(files: Seq<SourceFile>, i: int)
    requires
        0 <= i <= files.len(),
    ensures
        total_size(files.take(i)) <= total_size(files),
    decreases files.len(),
{
    if i < files.len() {
        assert(files.drop_last().take(i) =~= files.take(i));
        lemma_total_size_take(files.drop_last(), i);
    } else {
        assert(files.take(i) =~= files);
    }
}

/// Splits the files into those of at least the part floor and the others,
/// keeping their order.
fn partition(files: Vec<SourceFile>) -> (r: (Vec<SourceFile>, Vec<SourceFile>))
    ensures
        r.0@ == copyables(files@),
        r.1@ == streamables(files@),
{
    let mut copyable: Vec<SourceFile> = Vec::new();
    let mut streamable: Vec<SourceFile> = Vec::new();
    let ghost all = files@;
    assert(all.take(0) =~= Seq::empty());
    for f in it: files
        invariant
            it.seq() == all,
            copyable@ == copyables(all.take(it.index())),
            streamable@ == streamables(all.take(it.index())),
    {
        proof {
            reveal(Seq::filter);
            let i = it.index();
            assert(all.take(i + 1).drop_last() =~= all.take(i));
        }
        if f.size >= PART_FLOOR {
            copyable.push(f);
        } else {
            streamable.push(f);
        }
    }
    assert(all.take(all.len() as int) =~= all);
    (copyable, streamable)
}

/// The elements of `v` from last to first.
fn reversed(v: Vec<SourceFile>) -> (r: Vec<SourceFile>)
    ensures
        r@ == v@.reverse(),
{
    let ghost all = v@;
    let mut v = v;
    let mut r: Vec<SourceFile> = Vec::new();
    while v.len() > 0
        invariant
            v@.len() <= all.len(),
            v@ == all.take(v@.len() as int),
            r@ == all.skip(v@.len() as int).reverse(),
        decreases v.len(),
    {
        let ghost n = v@.len();
        match v.pop() {
            Some(f) => {
                r.push(f);
            },
            None => {},
        }
        assert(r@ =~= all.skip(n - 1).reverse());
        assert(v@ =~= all.take(n - 1));
    }
    assert(all.skip(0) =~= all);
    r
}

/// Pairs each large file with the next small file. Also returns the small files
/// that are left over.
fn pair_up(copyable: Vec<SourceFile>, streamable: Vec<SourceFile>) -> (r: (
    Vec<Pair>,
    Vec<SourceFile>,
))
    ensures
        r.0@ == Seq::new(
            copyable@.len(),
            |i: int|
                (
                    copyable@[i],
                    if i < streamable@.len() {
                        Some(streamable@[i])
                    } else {
                        None
                    },
                ),
        ),
        r.1@ == if streamable@.len() <= copyable@.len() {
            Seq::empty()
        } else {
            streamable@.skip(copyable@.len() as int)
        },
{
    let ghost big = copyable@;
    let ghost small = streamable@;
    let ghost want = Seq::new(
        big.len(),
        |i: int|
            (
                big[i],
                if i < small.len() {
                    Some(small[i])
                } else {
                    None
                },
            ),
    );
    let mut queue = reversed(streamable);
    let mut normal_pairs: Vec<Pair> = Vec::new();
    assert(small.skip(0) =~= small);
    for f in it: copyable
        invariant
            it.seq() == big,
            want.len() == big.len(),
            forall|i: int|
                0 <= i < big.len() ==> #[trigger] want[i] == (
                    big[i],
                    if i < small.len() {
                        Some(small[i])
                    } else {
                        None
                    },
                ),
            normal_pairs@ == want.take(it.index()),
            it.index() <= small.len() ==> queue@ == small.skip(it.index()).reverse(),
            it.index() > small.len() ==> queue@.len() == 0,
    {
        let ghost i = it.index();
        match queue.pop() {
            Some(small_file) => {
                normal_pairs.push((f, Some(small_file)));
                assert(queue@ =~= small.skip(i + 1).reverse());
            },
            None => {
                normal_pairs.push((f, None));
            },
        }
        assert(normal_pairs@ =~= want.take(i + 1));
    }
    assert(normal_pairs@ =~= want);
    let leftover = reversed(queue);
    proof {
        if small.len() > big.len() {
            assert(leftover@ =~= small.skip(big.len() as int));
        } else {
            assert(leftover@ =~= Seq::<SourceFile>::empty());
        }
    }
    (normal_pairs, leftover)
}

/// The first of the pairs whose large file is smallest.
fn find_smallest_pair(normal_pairs: &Vec<Pair>) -> (k: usize)
    requires
        normal_pairs@.len() > 0,
    ensures
        k == smallest_pair(normal_pairs@),
        k < normal_pairs@.len(),
{
    let mut k: usize = 0;
    let mut i: usize = 1;
    while i < normal_pairs.len()
        invariant
            1 <= i <= normal_pairs@.len(),
            k < i,
            k == smallest_pair(normal_pairs@.take(i as int)),
        decreases normal_pairs.len() - i,
    {
        assert(normal_pairs@.take(i + 1).drop_last() =~= normal_pairs@.take(i as int));
        if normal_pairs[i].0.size < normal_pairs[k].0.size {
            k = i;
        }
        i = i + 1;
    }
    assert(normal_pairs@.take(i as int) =~= normal_pairs@);
    k
}

/// A copy of what the planner keeps of a file.
fn place_file(f: &SourceFile, streamed: bool) -> (p: Placement)
    ensures
        p == place(*f, streamed),
{
    Placement { id: f.id, name: f.name.clone(), size: f.size, streamed }
}

/// All files in archive order: the first chain's, then each normal chain's large
/// file and small file.
fn placements(first: &Vec<SourceFile>, normal: &Vec<Pair>) -> (r: Vec<Placement>)
    ensures
        r@ == placed(Split { first: first@, normal: normal@ }),
{
    let mut r: Vec<Placement> = Vec::new();
    let mut i: usize = 0;
    let ghost head = first@.map_values(|f: SourceFile| place(f, true));
    while i < first.len()
        invariant
            i <= first@.len(),
            head == first@.map_values(|f: SourceFile| place(f, true)),
            r@ == head.take(i as int),
        decreases first.len() - i,
    {
        r.push(place_file(&first[i], true));
        i = i + 1;
        assert(r@ =~= head.take(i as int));
    }
    let mut k: usize = 0;
    assert(r@ =~= head + place_pairs(normal@.take(0)));
    while k < normal.len()
        invariant
            k <= normal@.len(),
            r@ == head + place_pairs(normal@.take(k as int)),
        decreases normal.len() - k,
    {
        proof {
            assert(normal@.take(k + 1).drop_last() =~= normal@.take(k as int));
        }
        r.push(place_file(&normal[k].0, false));
        match &normal[k].1 {
            Some(small) => {
                r.push(place_file(small, true));
            },
            None => {},
        }
        k = k + 1;
        assert(r@ =~= head + place_pairs(normal@.take(k as int)));
    }
    assert(normal@.take(k as int) =~= normal@);
    r
}

/// Name and size by file number.
fn build_size_table(ps: &Vec<Placement>) -> (table: HashMap<u32, (String, u64)>)
    ensures
        table@ == size_table(ps@),
{
    let mut table: HashMap<u32, (String, u64)> = HashMap::new();
    let mut i: usize = 0;
    assert(ps@.take(0) =~= Seq::empty());
    while i < ps.len()
        invariant
            i <= ps@.len(),
            table@ == size_table(ps@.take(i as int)),
        decreases ps.len() - i,
    {
        assert(ps@.take(i + 1).drop_last() =~= ps@.take(i as int));
        table.insert(ps[i].id.0, (ps[i].name.clone(), ps[i].size));
        i = i + 1;
    }
    assert(ps@.take(i as int) =~= ps@);
    table
}

/// Whether a file is streamed, by file number.
fn build_streamed_table(ps: &Vec<Placement>) -> (table: HashMap<u32, bool>)
    ensures
        table@ == streamed_table(ps@),
{
    let mut table: HashMap<u32, bool> = HashMap::new();
    let mut i: usize = 0;
    assert(ps@.take(0) =~= Seq::empty());
    while i < ps.len()
        invariant
            i <= ps@.len(),
            table@ == streamed_table(ps@.take(i as int)),
        decreases ps.len() - i,
    {
        assert(ps@.take(i + 1).drop_last() =~= ps@.take(i as int));
        table.insert(ps[i].id.0, ps[i].streamed);
        i = i + 1;
    }
    assert(ps@.take(i as int) =~= ps@);
    table
}

/// The files' numbers, in order.
fn placement_ids(ps: &Vec<Placement>) -> (order: Vec<FileId>)
    ensures
        order@ == ids(ps@),
{
    let mut order: Vec<FileId> = Vec::new();
    let mut i: usize = 0;
    while i < ps.len()
        invariant
            i <= ps@.len(),
            order@ == ids(ps@).take(i as int),
        decreases ps.len() - i,
    {
        order.push(ps[i].id);
        i = i + 1;
        assert(order@ =~= ids(ps@).take(i as int));
    }
    assert(order@ =~= ids(ps@));
    order
}

/// The ids of the first chain's files.
pub open spec fn file_ids(files: Seq<SourceFile>) -> Seq<FileId> {
    files.map_values(|f: SourceFile| f.id)
}

/// The open part holds no more than all files packed so far, and there are no
/// more closed parts than files.
proof fn lemma_pack_bounds(files: Seq<SourceFile>, table: Map<u32, (String, u64)>, i: int)
    requires
        0 <= i <= files.len(),
    ensures
        pack(files.take(i), table).open_bytes <= offset_in(file_ids(files), table, i),
        pack(files.take(i), table).closed.len() <= i,
    decreases i,
{
    if i > 0 {
        assert(files.take(i).drop_last() =~= files.take(i - 1));
        lemma_pack_bounds(files, table, i - 1);
    }
}

/// First chain: all files streamed, bin-packed into parts of at least the floor
/// (the last part is exempt), with the header of the first copied file at the end.
fn build_first_chain(
    files: &Vec<SourceFile>,
    size_of: &HashMap<u32, (String, u64)>,
    first_big_id: FileId,
) -> (chain: Chain)
    requires
        forall|i: int| 0 <= i < files@.len() ==> size_of@.contains_key(#[trigger] files@[i].id.0),
        offset_in(file_ids(files@), size_of@, files@.len() as int) <= u64::MAX,
        files@.len() < u32::MAX,
    ensures
        chain@ == first_chain(files@, size_of@, first_big_id),
{
    let mut parts: Vec<PartSpec> = Vec::new();
    let mut cur: Vec<Segment> = Vec::new();
    let mut cur_bytes: u64 = 0;
    let mut part_number: u32 = 1;
    let mut i: usize = 0;
    assert(files@.take(0) =~= Seq::empty());
    assert(part_views(parts@) =~= closed_parts(Seq::empty()));
    while i < files.len()
        invariant
            i <= files@.len(),
            files@.len() < u32::MAX,
            forall|j: int|
                0 <= j < files@.len() ==> size_of@.contains_key(#[trigger] files@[j].id.0),
            offset_in(file_ids(files@), size_of@, files@.len() as int) <= u64::MAX,
            cur@ == pack(files@.take(i as int), size_of@).open,
            cur_bytes == pack(files@.take(i as int), size_of@).open_bytes,
            part_views(parts@) == closed_parts(
                pack(files@.take(i as int), size_of@).closed,
            ),
            part_number == pack(files@.take(i as int), size_of@).closed.len() + 1,
        decreases files.len() - i,
    {
        let ghost before = pack(files@.take(i as int), size_of@);
        let ghost old_parts = parts@;
        proof {
            assert(files@.take(i + 1).drop_last() =~= files@.take(i as int));
            lemma_pack_bounds(files@, size_of@, i as int);
            lemma_offset_monotonic(file_ids(files@), size_of@, i + 1, files@.len() as int);
        }
        cur.push(Segment::StreamedFile { id: files[i].id });
        match size_of.get(&files[i].id.0) {
            Some(entry) => {
                cur_bytes = cur_bytes + entry_total_len(entry.0.as_str(), entry.1);
            },
            None => {
                assert(false);
            },
        }
        if cur_bytes >= PART_FLOOR {
            let ghost segs = cur@;
            let mut segments: Vec<Segment> = Vec::new();
            std::mem::swap(&mut segments, &mut cur);
            parts.push(PartSpec::Stream { part_number, segments });
            part_number = part_number + 1;
            cur_bytes = 0;
            assert(cur@ =~= Seq::empty());
            assert(part_views(parts@) =~= part_views(old_parts).push(
                PartModel::Stream { part_number: (part_number - 1) as u32, segments: segs },
            ));
            assert(part_views(parts@) =~= closed_parts(before.closed.push(segs)));
        }
        i = i + 1;
    }
    proof {
        assert(files@.take(i as int) =~= files@);
    }
    let ghost closed = parts@;
    let ghost packed = pack(files@, size_of@);
    cur.push(Segment::CopiedFileHeader { id: first_big_id });
    parts.push(PartSpec::Stream { part_number, segments: cur });
    let chain = Chain { parts, final_merge_part_number: 1 };
    assert(chain@.parts =~= part_views(closed).push(
        PartModel::Stream {
            part_number,
            segments: packed.open.push(Segment::CopiedFileHeader { id: first_big_id }),
        },
    ));
    chain
}

/// Every placed file is in the tables.
proof fn lemma_tables_cover(ps: Seq<Placement>, i: int)
    requires
        0 <= i < ps.len(),
    ensures
        size_table(ps).contains_key(ps[i].id.0),
        streamed_table(ps).contains_key(ps[i].id.0),
    decreases ps.len(),
{
    if i < ps.len() - 1 {
        lemma_tables_cover(ps.drop_last(), i);
    }
}

/// The entries by file number, with offsets and without CRCs.
fn build_entries(
    Ghost(ps): Ghost<Seq<Placement>>,
    order: &Vec<FileId>,
    size_of: &HashMap<u32, (String, u64)>,
    streamed: &HashMap<u32, bool>,
    offs: &Vec<u64>,
) -> (entries: HashMap<u32, Entry>)
    requires
        order@ == ids(ps),
        size_of@ == size_table(ps),
        streamed@ == streamed_table(ps),
        offs@.len() == order@.len(),
        forall|i: int|
            0 <= i < order@.len() ==> #[trigger] offs@[i] == offset_in(order@, size_of@, i),
    ensures
        entries@ == entry_table(ps, ps.len() as int),
{
    let mut entries: HashMap<u32, Entry> = HashMap::new();
    let mut i: usize = 0;
    while i < order.len()
        invariant
            i <= order@.len(),
            order@ == ids(ps),
            size_of@ == size_table(ps),
            streamed@ == streamed_table(ps),
            offs@.len() == order@.len(),
            forall|j: int|
                0 <= j < order@.len() ==> #[trigger] offs@[j] == offset_in(order@, size_of@, j),
            entries@ == entry_table(ps, i as int),
        decreases order.len() - i,
    {
        let id: FileId = order[i];
        proof {
            lemma_tables_cover(ps, i as int);
        }
        match (size_of.get(&id.0), streamed.get(&id.0)) {
            (Some(known), Some(is_streamed)) => {
                let entry = Entry {
                    id,
                    name: known.0.clone(),
                    size: known.1,
                    local_header_offset: offs[i],
                    crc: None,
                    streamed: *is_streamed,
                };
                assert(entry == entry_at(ps, i as int));
                entries.insert(id.0, entry);
            },
            _ => {
                assert(false);
            },
        }
        i = i + 1;
    }
    entries
}

/// The normal chains: each copies its large file and streams its small file and
/// the header of the next chain's large file.
fn build_normal_chains(normal_pairs: &Vec<Pair>, chains: &mut Vec<Chain>)
    requires
        normal_pairs@.len() < u32::MAX,
    ensures
        chain_views(final(chains)@) == chain_views(old(chains)@) + Seq::new(
            normal_pairs@.len(),
            |k: int| normal_chain(normal_pairs@, k),
        ),
{
    let ghost start = chain_views(chains@);
    let ghost want = Seq::new(normal_pairs@.len(), |k: int| normal_chain(normal_pairs@, k));
    let mut k: usize = 0;
    assert(chain_views(chains@) =~= start + want.take(0));
    while k < normal_pairs.len()
        invariant
            k <= normal_pairs@.len(),
            normal_pairs@.len() < u32::MAX,
            want == Seq::new(normal_pairs@.len(), |k: int| normal_chain(normal_pairs@, k)),
            chain_views(chains@) == start + want.take(k as int),
        decreases normal_pairs.len() - k,
    {
        let ghost before = chains@;
        let mut segments: Vec<Segment> = Vec::new();
        match &normal_pairs[k].1 {
            Some(small) => {
                segments.push(Segment::StreamedFile { id: small.id });
            },
            None => {},
        }
        if k + 1 < normal_pairs.len() {
            segments.push(Segment::CopiedFileHeader { id: normal_pairs[k + 1].0.id });
        }
        assert(segments@ =~= tail_segments(normal_pairs@, k as int));
        let parts: Vec<PartSpec> = vec![
            PartSpec::Copy { part_number: 1, id: normal_pairs[k].0.id },
            PartSpec::Stream { part_number: 2, segments },
        ];
        let chain = Chain { parts, final_merge_part_number: (k as u32) + 2 };
        assert(chain@.parts =~= normal_chain(normal_pairs@, k as int).parts);
        chains.push(chain);
        assert(chain_views(chains@) =~= chain_views(before).push(chain@));
        k = k + 1;
        assert(chain_views(chains@) =~= start + want.take(k as int));
    }
    assert(want.take(k as int) =~= want);
}

/// The large files' numbers, in chain order.
fn build_copyable(normal_pairs: &Vec<Pair>) -> (r: Vec<FileId>)
    ensures
        r@ == copied_ids(normal_pairs@),
{
    let mut r: Vec<FileId> = Vec::new();
    let mut k: usize = 0;
    while k < normal_pairs.len()
        invariant
            k <= normal_pairs@.len(),
            r@ == copied_ids(normal_pairs@).take(k as int),
        decreases normal_pairs.len() - k,
    {
        r.push(normal_pairs[k].0.id);
        k = k + 1;
        assert(r@ =~= copied_ids(normal_pairs@).take(k as int));
    }
    assert(r@ =~= copied_ids(normal_pairs@));
    r
}

/// The first chain's files are the first placements.
proof fn lemma_first_offsets(s: Split, table: Map<u32, (String, u64)>, i: int)
    requires
        0 <= i <= s.first.len(),
    ensures
        offset_in(file_ids(s.first), table, i) == offset_in(ids(placed(s)), table, i),
    decreases i,
{
    if i > 0 {
        lemma_first_offsets(s, table, i - 1);
        assert(ids(placed(s))[i - 1] == s.first[i - 1].id);
    }
}

/// The planner: from a listing to a routing.
///
/// The result is [`Routing::Fallback`] exactly where the listing is not viable.
/// Otherwise the plan holds the archive order, the entries with their offsets and
/// the chains with their part numbers.
pub fn plan(files: Vec<SourceFile>) -> (routing: Routing)
    requires
        total_size(files@) <= u64::MAX,
        viable(files@) ==> entries_len(split(files@)) <= u64::MAX && files@.len() < u32::MAX,
    ensures
        match routing {
            Routing::Fallback => !viable(files@),
            Routing::CopyPart(p) => {
                let s = split(files@);
                &&& viable(files@)
                &&& p.order@ == ids(placed(s))
                &&& p.entries@ == entry_table(placed(s), placed(s).len() as int)
                &&& chain_views(p.chains@) == chains(s)
                &&& p.copyable@ == copied_ids(s.normal)
                &&& is_plan_of(p, files@)
            },
        },
{
    let ghost all = files@;
    let total = sum_sizes(&files);
    let (copyable, streamable) = partition(files);
    let (mut normal_pairs, leftover_files) = pair_up(copyable, streamable);
    assert(normal_pairs@ =~= pairs(all));
    assert(leftover_files@ =~= leftover(all));
    if normal_pairs.len() < 2 || total < VIABILITY_MIN_TOTAL {
        return Routing::Fallback;
    }
    let mut first_chain_files = leftover_files;
    proof {
        lemma_leftover_weight(all);
    }
    let first_sum = sum_sizes(&first_chain_files);
    if first_sum < PART_FLOOR {
        let idx = find_smallest_pair(&normal_pairs);
        let ghost left = first_chain_files@;
        let ghost borrowed = normal_pairs@[idx as int];
        let (big, small) = normal_pairs.remove(idx);
        first_chain_files.push(big);
        match small {
            Some(f) => {
                first_chain_files.push(f);
            },
            None => {},
        }
        assert(first_chain_files@ =~= left + pair_files(borrowed));
    }
    if normal_pairs.len() == 0 {
        return Routing::Fallback;
    }
    let ghost s = split(all);
    assert(s.first == first_chain_files@);
    assert(s.normal == normal_pairs@);

    let ps = placements(&first_chain_files, &normal_pairs);
    let order = placement_ids(&ps);
    let size_of = build_size_table(&ps);
    let streamed = build_streamed_table(&ps);
    proof {
        assert forall|i: int| 0 <= i < order@.len() implies size_of@.contains_key(
            #[trigger] order@[i].0,
        ) by {
            lemma_tables_cover(ps@, i);
        }
        assert forall|i: int| 0 <= i < first_chain_files@.len() implies size_of@.contains_key(
            #[trigger] first_chain_files@[i].id.0,
        ) by {
            lemma_tables_cover(ps@, i);
            assert(ps@[i] == place(first_chain_files@[i], true));
        }
        lemma_first_offsets(s, size_of@, s.first.len() as int);
        lemma_offset_monotonic(
            order@,
            size_of@,
            s.first.len() as int,
            order@.len() as int,
        );
        lemma_split_counts(all);
    }
    let offs = compute_offsets(&order, &size_of);
    let entries = build_entries(Ghost(ps@), &order, &size_of, &streamed, &offs);
    let copyable_ids = build_copyable(&normal_pairs);

    let mut chain_list: Vec<Chain> = Vec::new();
    let first_chain_built = build_first_chain(
        &first_chain_files,
        &size_of,
        normal_pairs[0].0.id,
    );
    chain_list.push(first_chain_built);
    let ghost head = chain_list@;
    build_normal_chains(&normal_pairs, &mut chain_list);
    assert(chain_views(head) =~= seq![first_chain_built@]);
    Routing::CopyPart(Plan { order, entries, chains: chain_list, copyable: copyable_ids })
}

/// The leftover files weigh no more than all files.
proof fn lemma_leftover_weight(files: Seq<SourceFile>)
    ensures
        total_size(leftover(files)) <= total_size(files),
{
    let small = streamables(files);
    lemma_filter_weight(files, |f: SourceFile| f.size < PART_FLOOR);
    if small.len() > copyables(files).len() {
        lemma_total_size_skip(small, copyables(files).len() as int);
    }
}

proof fn lemma_filter_weight(files: Seq<SourceFile>, pred: spec_fn(SourceFile) -> bool)
    ensures
        total_size(files.filter(pred)) <= total_size(files),
    decreases files.len(),
{
    reveal(Seq::filter);
    if files.len() > 0 {
        lemma_filter_weight(files.drop_last(), pred);
        let rest = files.drop_last().filter(pred);
        if pred(files.last()) {
            assert(rest.push(files.last()).drop_last() =~= rest);
        }
    }
}

proof fn lemma_total_size_skip(files: Seq<SourceFile>, n: int)
    requires
        0 <= n <= files.len(),
    ensures
        total_size(files.skip(n)) <= total_size(files),
    decreases files.len(),
{
    if n < files.len() {
        assert(files.skip(n).drop_last() =~= files.drop_last().skip(n));
        lemma_total_size_skip(files.drop_last(), n);
    }
}

/// No chain has more files than the listing.
proof fn lemma_split_counts(files: Seq<SourceFile>)
    requires
        viable(files),
    ensures
        split(files).first.len() <= files.len(),
        0 < split(files).normal.len() <= files.len(),
{
    every_file_is_placed_once(files);
    smallest_pair_is_first_minimum(pairs(files));
    lemma_place_pairs_len(split(files).normal);
}

proof fn lemma_place_pairs_len(ps: Seq<Pair>)
    ensures
        place_pairs(ps).len() >= ps.len(),
    decreases ps.len(),
{
    if ps.len() > 0 {
        lemma_place_pairs_len(ps.drop_last());
    }
}

} // verus!
