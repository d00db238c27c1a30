//! What holds of every plan.

use vstd::prelude::*;
use vstd::multiset::Multiset;
use vstd::seq_lib::lemma_multiset_commutative;

use crate::engine::plan::{
    file_ids, Entry, FileId, Pair, Placement, Segment, SourceFile, PART_FLOOR,
};
use crate::engine::plan_model::{
    chains, closed_parts, copied_ids, copyables, entries_len, entry_at, entry_table, first_chain,
    ids, leftover, len_in, normal_chain, offset_in, pack, pair_files, pairs, place, place_pair,
    place_pairs, placed, size_table, smallest_pair, split, streamables, streamed_table,
    tail_segments, total_size, viable, ChainModel, PartModel, Split,
};
use crate::engine::zip_format::entry_len;

verus! {

/// The files of the pairs, in archive order.
pub open spec fn pairs_files(ps: Seq<Pair>) -> Seq<SourceFile>
    decreases ps.len(),
{
    if ps.len() == 0 {
        Seq::empty()
    } else {
        pairs_files(ps.drop_last()) + pair_files(ps.last())
    }
}

/// All files of a split, in archive order.
pub open spec fn files_of(s: Split) -> Seq<SourceFile> {
    s.first + pairs_files(s.normal)
}

/// The pair that is lent to the first chain is one whose large file is smallest,
/// and the first such.
pub proof fn smallest_pair_is_first_minimum(ps: Seq<Pair>)
    requires
        ps.len() > 0,
    ensures
        0 <= smallest_pair(ps) < ps.len(),
        forall|i: int|
            0 <= i < ps.len() ==> ps[smallest_pair(ps)].0.size <= (#[trigger] ps[i]).0.size,
        forall|i: int|
            0 <= i < smallest_pair(ps) ==> ps[smallest_pair(ps)].0.size < (#[trigger] ps[i]).0.size,
    decreases ps.len(),
{
    if ps.len() > 1 {
        let front = ps.drop_last();
        smallest_pair_is_first_minimum(front);
        assert(forall|i: int| 0 <= i < front.len() ==> #[trigger] ps[i] == front[i]);
    }
}

/// Large and small files together are all files.
proof fn lemma_partition_multiset(files: Seq<SourceFile>)
    ensures
        files.to_multiset() == copyables(files).to_multiset().add(streamables(files).to_multiset()),
    decreases files.len(),
{
    broadcast use vstd::multiset::group_multiset_axioms;
    broadcast use vstd::seq_lib::group_to_multiset_ensures;

    reveal(Seq::filter);
    if files.len() == 0 {
        assert(files =~= Seq::empty());
    } else {
        let front = files.drop_last();
        lemma_partition_multiset(front);
        assert(files =~= front.push(files.last()));
        assert(files.to_multiset() =~= front.to_multiset().insert(files.last()));
    }
    assert(files.to_multiset() =~= copyables(files).to_multiset().add(
        streamables(files).to_multiset(),
    ));
}

/// The first `n` pairs hold the first `n` large files and as many small ones.
proof fn lemma_pairs_multiset(files: Seq<SourceFile>, n: int)
    requires
        0 <= n <= copyables(files).len(),
    ensures
        pairs_files(pairs(files).take(n)).to_multiset() == copyables(files).take(
            n,
        ).to_multiset().add(
            streamables(files).take(
                if n <= streamables(files).len() {
                    n
                } else {
                    streamables(files).len() as int
                },
            ).to_multiset(),
        ),
    decreases n,
{
    broadcast use vstd::multiset::group_multiset_axioms;
    broadcast use vstd::seq_lib::group_to_multiset_ensures;

    let ps = pairs(files);
    let big = copyables(files);
    let small = streamables(files);
    if n == 0 {
        assert(big.take(0) =~= Seq::empty());
        assert(small.take(0) =~= Seq::empty());
    } else {
        lemma_pairs_multiset(files, n - 1);
        assert(ps.take(n).drop_last() =~= ps.take(n - 1));
        assert(big.take(n) =~= big.take(n - 1).push(big[n - 1]));
        let before = pairs_files(ps.take(n - 1));
        let both = pair_files(ps[n - 1]);
        lemma_multiset_commutative(before, both);
        if n <= small.len() {
            assert(small.take(n) =~= small.take(n - 1).push(small[n - 1]));
            assert(both =~= Seq::empty().push(big[n - 1]).push(small[n - 1]));
        } else {
            assert(both =~= Seq::empty().push(big[n - 1]));
        }
    }
}

/// Taking out a pair takes out its files.
proof fn lemma_pairs_remove(ps: Seq<Pair>, k: int)
    requires
        0 <= k < ps.len(),
    ensures
        pairs_files(ps).to_multiset() == pairs_files(ps.remove(k)).to_multiset().add(
            pair_files(ps[k]).to_multiset(),
        ),
    decreases ps.len(),
{
    broadcast use vstd::multiset::group_multiset_axioms;

    lemma_multiset_commutative(pairs_files(ps.drop_last()), pair_files(ps.last()));
    if k == ps.len() - 1 {
        assert(ps.remove(k) =~= ps.drop_last());
    } else {
        lemma_pairs_remove(ps.drop_last(), k);
        assert(ps.remove(k).drop_last() =~= ps.drop_last().remove(k));
        lemma_multiset_commutative(
            pairs_files(ps.remove(k).drop_last()),
            pair_files(ps.remove(k).last()),
        );
    }
}

/// Every listed file is in the archive exactly as often as it is listed, and
/// nothing else is.
pub proof fn every_file_is_placed_once(files: Seq<SourceFile>)
    requires
        viable(files),
    ensures
        files_of(split(files)).to_multiset() == files.to_multiset(),
        placed(split(files)).len() == files.len(),
        forall|i: int|
            0 <= i < files.len() ==> #[trigger] placed(split(files))[i] == place(
                files_of(split(files))[i],
                placed(split(files))[i].streamed,
            ),
{
    broadcast use vstd::multiset::group_multiset_axioms;

    let s = split(files);
    let ps = pairs(files);
    let big = copyables(files);
    let small = streamables(files);
    let left = leftover(files);
    lemma_partition_multiset(files);
    lemma_pairs_multiset(files, big.len() as int);
    assert(ps.take(big.len() as int) =~= ps);
    assert(big.take(big.len() as int) =~= big);
    if small.len() <= big.len() {
        assert(small.take(small.len() as int) =~= small);
        assert(left.to_multiset() =~= Multiset::empty()) by {
            broadcast use vstd::seq_lib::group_to_multiset_ensures;

        }
    } else {
        assert(small =~= small.take(big.len() as int) + left);
        lemma_multiset_commutative(small.take(big.len() as int), left);
    }
    assert(left.to_multiset().add(pairs_files(ps).to_multiset()) =~= files.to_multiset());
    lemma_multiset_commutative(s.first, pairs_files(s.normal));
    smallest_pair_is_first_minimum(ps);
    let k = smallest_pair(ps);
    lemma_pairs_remove(ps, k);
    lemma_multiset_commutative(left, pair_files(ps[k]));
    assert(files_of(s).to_multiset() =~= files.to_multiset());
    files_of(s).to_multiset_ensures();
    files.to_multiset_ensures();
    lemma_place_pairs(s.normal);
}

/// The placements are those of the files, in order.
proof fn lemma_place_pairs(ps: Seq<Pair>)
    ensures
        place_pairs(ps).len() == pairs_files(ps).len(),
        forall|i: int|
            0 <= i < place_pairs(ps).len() ==> #[trigger] place_pairs(ps)[i] == place(
                pairs_files(ps)[i],
                place_pairs(ps)[i].streamed,
            ),
    decreases ps.len(),
{
    if ps.len() > 0 {
        lemma_place_pairs(ps.drop_last());
    }
}

/// No two listed files share a number.
pub open spec fn distinct_ids(files: Seq<SourceFile>) -> bool {
    forall|i: int, j: int|
        0 <= i < files.len() && 0 <= j < files.len() && i != j ==> (#[trigger] files[i]).id
            != (#[trigger] files[j]).id
}

/// Rearranged files have distinct numbers where the files have.
proof fn lemma_distinct_rearranged(files: Seq<SourceFile>, other: Seq<SourceFile>)
    requires
        distinct_ids(files),
        other.to_multiset() == files.to_multiset(),
    ensures
        distinct_ids(other),
{
    assert(files.no_duplicates());
    files.lemma_multiset_has_no_duplicates();
    files.to_multiset_ensures();
    other.to_multiset_ensures();
    assert forall|x: SourceFile| other.to_multiset().contains(x) implies other.to_multiset().count(
        x,
    ) == 1 by {
        assert(files.to_multiset().contains(x));
    }
    other.lemma_multiset_has_no_duplicates_conv();
    assert forall|i: int, j: int|
        0 <= i < other.len() && 0 <= j < other.len() && i != j implies (#[trigger] other[i]).id
        != (#[trigger] other[j]).id by {
        assert(other.contains(other[i]));
        assert(other.contains(other[j]));
        assert(files.to_multiset().count(other[i]) > 0);
        assert(files.to_multiset().count(other[j]) > 0);
        assert(files.contains(other[i]));
        assert(files.contains(other[j]));
    }
}

/// No two placements share a number.
pub open spec fn distinct_placements(ps: Seq<Placement>) -> bool {
    forall|i: int, j: int|
        0 <= i < ps.len() && 0 <= j < ps.len() && i != j ==> (#[trigger] ps[i]).id != (
        #[trigger] ps[j]).id
}

/// Without shared numbers the tables give each file's own name, size and kind.
proof fn lemma_tables_of_distinct(ps: Seq<Placement>, i: int)
    requires
        distinct_placements(ps),
        0 <= i < ps.len(),
    ensures
        size_table(ps)[ps[i].id.0] == (ps[i].name, ps[i].size),
        streamed_table(ps)[ps[i].id.0] == ps[i].streamed,
    decreases ps.len(),
{
    if i < ps.len() - 1 {
        let front = ps.drop_last();
        assert(distinct_placements(front)) by {
            assert(forall|k: int| 0 <= k < front.len() ==> #[trigger] front[k] == ps[k]);
        }
        lemma_tables_of_distinct(front, i);
        assert(ps[i].id != ps[ps.len() - 1].id);
    }
}

/// Without shared numbers each placement has its own entry.
proof fn lemma_entry_table_of_distinct(ps: Seq<Placement>, n: int, i: int)
    requires
        distinct_placements(ps),
        0 <= i < n <= ps.len(),
    ensures
        entry_table(ps, n).contains_key(ps[i].id.0),
        entry_table(ps, n)[ps[i].id.0] == entry_at(ps, i),
    decreases n,
{
    if i < n - 1 {
        lemma_entry_table_of_distinct(ps, n - 1, i);
        assert(ps[i].id != ps[n - 1].id);
    }
}

proof fn lemma_entry_table_dom(ps: Seq<Placement>, n: int)
    requires
        distinct_placements(ps),
        0 <= n <= ps.len(),
    ensures
        entry_table(ps, n).dom().finite(),
        entry_table(ps, n).len() == n,
        forall|key: u32| #[trigger]
            entry_table(ps, n).contains_key(key) ==> exists|i: int|
                0 <= i < n && (#[trigger] ps[i]).id.0 == key,
    decreases n,
{
    if n > 0 {
        lemma_entry_table_dom(ps, n - 1);
        let key = ps[n - 1].id.0;
        assert(!entry_table(ps, n - 1).contains_key(key)) by {
            if entry_table(ps, n - 1).contains_key(key) {
                let i = choose|i: int| 0 <= i < n - 1 && (#[trigger] ps[i]).id.0 == key;
                assert(ps[i].id != ps[n - 1].id);
            }
        }
        assert forall|k: u32| #[trigger] entry_table(ps, n).contains_key(k) implies exists|i: int|
            0 <= i < n && (#[trigger] ps[i]).id.0 == k by {
            if k == key {
                assert(ps[n - 1].id.0 == k);
            }
        }
    }
}

/// Where the listed files have distinct numbers, so has the archive order, and
/// every archived file has exactly one entry. The entry has the file's own name
/// and size, says whether the file is streamed, and starts where the entries
/// before it end.
pub proof fn every_file_has_its_entry(files: Seq<SourceFile>)
    requires
        viable(files),
        distinct_ids(files),
    ensures
        ({
            let ps = placed(split(files));
            let entries = entry_table(ps, ps.len() as int);
            &&& ids(ps).no_duplicates()
            &&& entries.len() == ps.len()
            &&& forall|i: int|
                0 <= i < ps.len() ==> entries.contains_key((#[trigger] ps[i]).id.0)
                    && entries[ps[i].id.0] == (Entry {
                    id: ps[i].id,
                    name: ps[i].name,
                    size: ps[i].size,
                    local_header_offset: bytes_before(ps, i) as u64,
                    crc: None,
                    streamed: ps[i].streamed,
                })
        }),
{
    let ps = placed(split(files));
    let n = ps.len() as int;
    lemma_placements_distinct(files);
    lemma_entry_table_dom(ps, n);
    assert forall|i: int| 0 <= i < ps.len() implies entry_table(ps, n).contains_key(
        (#[trigger] ps[i]).id.0,
    ) && entry_table(ps, n)[ps[i].id.0] == (Entry {
        id: ps[i].id,
        name: ps[i].name,
        size: ps[i].size,
        local_header_offset: bytes_before(ps, i) as u64,
        crc: None,
        streamed: ps[i].streamed,
    }) by {
        lemma_entry_table_of_distinct(ps, n, i);
        lemma_tables_of_distinct(ps, i);
        lemma_offset_is_bytes_before(ps, i);
    }
    assert forall|i: int, j: int|
        0 <= i < ps.len() && 0 <= j < ps.len() && i != j implies ids(ps)[i] != ids(ps)[j] by {
        assert(ps[i].id != ps[j].id);
    }
}

pub proof fn lemma_placements_distinct(files: Seq<SourceFile>)
    requires
        viable(files),
        distinct_ids(files),
    ensures
        distinct_placements(placed(split(files))),
{
    let fs = files_of(split(files));
    let ps = placed(split(files));
    every_file_is_placed_once(files);
    lemma_distinct_rearranged(files, fs);
    fs.to_multiset_ensures();
    files.to_multiset_ensures();
    assert forall|i: int, j: int|
        0 <= i < ps.len() && 0 <= j < ps.len() && i != j implies (#[trigger] ps[i]).id != (
    #[trigger] ps[j]).id by {
        assert(fs[i].id != fs[j].id);
    }
}

/// The bytes that the first `i` placed files take.
pub open spec fn bytes_before(ps: Seq<Placement>, i: int) -> nat
    decreases i,
{
    if i <= 0 {
        0
    } else {
        bytes_before(ps, i - 1) + entry_len(ps[i - 1].name@, ps[i - 1].size as nat)
    }
}

pub proof fn lemma_offset_is_bytes_before(ps: Seq<Placement>, i: int)
    requires
        distinct_placements(ps),
        0 <= i <= ps.len(),
    ensures
        offset_in(ids(ps), size_table(ps), i) == bytes_before(ps, i),
    decreases i,
{
    if i > 0 {
        lemma_offset_is_bytes_before(ps, i - 1);
        lemma_tables_of_distinct(ps, i - 1);
    }
}

/// The chains are numbered 1, 2, 3 and so on in the final merge, and so are the
/// parts of each chain in the chain's own upload.
pub proof fn part_numbers_are_consecutive(s: Split)
    requires
        s.normal.len() < u32::MAX,
        s.first.len() < u32::MAX,
    ensures
        chains(s).len() == s.normal.len() + 1,
        forall|c: int|
            0 <= c < chains(s).len() ==> (#[trigger] chains(s)[c]).final_merge_part_number == c + 1,
        forall|c: int, p: int|
            0 <= c < chains(s).len() && 0 <= p < chains(s)[c].parts.len() ==> part_number(
                #[trigger] chains(s)[c].parts[p],
            ) == p + 1,
{
    lemma_closed_count(s.first, size_table(placed(s)));
}

pub open spec fn part_number(part: PartModel) -> u32 {
    match part {
        PartModel::Copy { part_number, .. } => part_number,
        PartModel::Stream { part_number, .. } => part_number,
    }
}

proof fn lemma_closed_count(files: Seq<SourceFile>, table: Map<u32, (String, u64)>)
    ensures
        pack(files, table).closed.len() <= files.len(),
    decreases files.len(),
{
    if files.len() > 0 {
        lemma_closed_count(files.drop_last(), table);
    }
}

/// The bytes of a stream part, where `header` and `body` give the files' bytes.
pub open spec fn segments_bytes(
    segments: Seq<Segment>,
    header: spec_fn(FileId) -> Seq<u8>,
    body: spec_fn(FileId) -> Seq<u8>,
) -> Seq<u8>
    decreases segments.len(),
{
    if segments.len() == 0 {
        Seq::empty()
    } else {
        segments_bytes(segments.drop_last(), header, body) + match segments.last() {
            Segment::StreamedFile { id } => header(id) + body(id),
            Segment::CopiedFileHeader { id } => header(id),
        }
    }
}

/// The bytes of a part: a copied body or a stream part.
pub open spec fn part_bytes(
    part: PartModel,
    header: spec_fn(FileId) -> Seq<u8>,
    body: spec_fn(FileId) -> Seq<u8>,
) -> Seq<u8> {
    match part {
        PartModel::Copy { id, .. } => body(id),
        PartModel::Stream { segments, .. } => segments_bytes(segments, header, body),
    }
}

/// The object that a chain's upload completes to.
pub open spec fn parts_bytes(
    parts: Seq<PartModel>,
    header: spec_fn(FileId) -> Seq<u8>,
    body: spec_fn(FileId) -> Seq<u8>,
) -> Seq<u8>
    decreases parts.len(),
{
    if parts.len() == 0 {
        Seq::empty()
    } else {
        parts_bytes(parts.drop_last(), header, body) + part_bytes(parts.last(), header, body)
    }
}

/// The first `n` chains' objects one after another.
pub open spec fn merged_bytes(
    cs: Seq<ChainModel>,
    header: spec_fn(FileId) -> Seq<u8>,
    body: spec_fn(FileId) -> Seq<u8>,
) -> Seq<u8>
    decreases cs.len(),
{
    if cs.len() == 0 {
        Seq::empty()
    } else {
        merged_bytes(cs.drop_last(), header, body) + parts_bytes(cs.last().parts, header, body)
    }
}

/// The archive's entries: each file's header and body, in archive order.
pub open spec fn entries_bytes(
    order: Seq<FileId>,
    header: spec_fn(FileId) -> Seq<u8>,
    body: spec_fn(FileId) -> Seq<u8>,
) -> Seq<u8>
    decreases order.len(),
{
    if order.len() == 0 {
        Seq::empty()
    } else {
        entries_bytes(order.drop_last(), header, body) + header(order.last()) + body(order.last())
    }
}

proof fn lemma_entries_bytes_add(
    a: Seq<FileId>,
    b: Seq<FileId>,
    header: spec_fn(FileId) -> Seq<u8>,
    body: spec_fn(FileId) -> Seq<u8>,
)
    ensures
        entries_bytes(a + b, header, body) == entries_bytes(a, header, body) + entries_bytes(
            b,
            header,
            body,
        ),
    decreases b.len(),
{
    if b.len() == 0 {
        assert(a + b =~= a);
        assert(entries_bytes(a, header, body) + entries_bytes(b, header, body) =~= entries_bytes(
            a,
            header,
            body,
        ));
    } else {
        assert((a + b).drop_last() =~= a + b.drop_last());
        lemma_entries_bytes_add(a, b.drop_last(), header, body);
        assert(entries_bytes(a + b, header, body) =~= entries_bytes(a, header, body)
            + entries_bytes(b, header, body));
    }
}

/// The packed parts hold the files in order.
proof fn lemma_pack_bytes(
    files: Seq<SourceFile>,
    table: Map<u32, (String, u64)>,
    header: spec_fn(FileId) -> Seq<u8>,
    body: spec_fn(FileId) -> Seq<u8>,
)
    ensures
        ({
            let p = pack(files, table);
            parts_bytes(closed_parts(p.closed), header, body) + segments_bytes(
                p.open,
                header,
                body,
            ) == entries_bytes(file_ids(files), header, body)
        }),
    decreases files.len(),
{
    let p = pack(files, table);
    let all = entries_bytes(file_ids(files), header, body);
    if files.len() == 0 {
        assert(parts_bytes(closed_parts(p.closed), header, body) + segments_bytes(
            p.open,
            header,
            body,
        ) =~= all);
    } else {
        let front = files.drop_last();
        let before = pack(front, table);
        lemma_pack_bytes(front, table, header, body);
        assert(file_ids(files).drop_last() =~= file_ids(front));
        let segments = before.open.push(Segment::StreamedFile { id: files.last().id });
        assert(segments.drop_last() =~= before.open);
        let closed_before = parts_bytes(closed_parts(before.closed), header, body);
        assert(closed_before + segments_bytes(segments, header, body) =~= all);
        if p.closed.len() > before.closed.len() {
            assert(closed_parts(p.closed).drop_last() =~= closed_parts(before.closed));
            assert(parts_bytes(closed_parts(p.closed), header, body) =~= all);
            assert(parts_bytes(closed_parts(p.closed), header, body) + segments_bytes(
                p.open,
                header,
                body,
            ) =~= all);
        }
    }
}

/// The first chain's object: its files, and the header of the first copied file.
proof fn lemma_first_chain_bytes(
    files: Seq<SourceFile>,
    table: Map<u32, (String, u64)>,
    first_big: FileId,
    header: spec_fn(FileId) -> Seq<u8>,
    body: spec_fn(FileId) -> Seq<u8>,
)
    ensures
        parts_bytes(first_chain(files, table, first_big).parts, header, body) == entries_bytes(
            file_ids(files),
            header,
            body,
        ) + header(first_big),
{
    let p = pack(files, table);
    let parts = first_chain(files, table, first_big).parts;
    lemma_pack_bytes(files, table, header, body);
    assert(parts.drop_last() =~= closed_parts(p.closed));
    let last = p.open.push(Segment::CopiedFileHeader { id: first_big });
    assert(last.drop_last() =~= p.open);
    assert(parts_bytes(parts, header, body) =~= parts_bytes(closed_parts(p.closed), header, body) + (
    segments_bytes(p.open, header, body) + header(first_big)));
    assert(parts_bytes(parts, header, body) =~= entries_bytes(file_ids(files), header, body)
        + header(first_big));
}

/// The header of the file that normal chain `k + 1` copies, if there is one.
pub open spec fn next_header(
    normal: Seq<Pair>,
    k: int,
    header: spec_fn(FileId) -> Seq<u8>,
) -> Seq<u8> {
    if k + 1 < normal.len() {
        header(normal[k + 1].0.id)
    } else {
        Seq::empty()
    }
}

proof fn lemma_tail_bytes(
    normal: Seq<Pair>,
    k: int,
    header: spec_fn(FileId) -> Seq<u8>,
    body: spec_fn(FileId) -> Seq<u8>,
)
    requires
        0 <= k < normal.len(),
    ensures
        segments_bytes(tail_segments(normal, k), header, body) == (match normal[k].1 {
            Some(small) => header(small.id) + body(small.id),
            None => Seq::empty(),
        }) + next_header(normal, k, header),
{
    let tail = tail_segments(normal, k);
    let small_part = match normal[k].1 {
        Some(small) => seq![Segment::StreamedFile { id: small.id }],
        None => Seq::empty(),
    };
    let small_bytes = match normal[k].1 {
        Some(small) => header(small.id) + body(small.id),
        None => Seq::empty(),
    };
    assert(segments_bytes(small_part, header, body) =~= small_bytes) by {
        reveal_with_fuel(segments_bytes, 2);
        if small_part.len() > 0 {
            assert(small_part.drop_last() =~= Seq::empty());
        }
    }
    if k + 1 < normal.len() {
        assert(tail.drop_last() =~= small_part);
    } else {
        assert(tail =~= small_part);
        assert(small_bytes + next_header(normal, k, header) =~= small_bytes);
    }
}

proof fn lemma_pair_entries_bytes(
    pair: Pair,
    header: spec_fn(FileId) -> Seq<u8>,
    body: spec_fn(FileId) -> Seq<u8>,
)
    ensures
        entries_bytes(ids(place_pair(pair)), header, body) == header(pair.0.id) + body(pair.0.id)
            + match pair.1 {
            Some(small) => header(small.id) + body(small.id),
            None => Seq::empty(),
        },
{
    let here = ids(place_pair(pair));
    let one = seq![pair.0.id];
    assert(one.drop_last() =~= Seq::empty());
    assert(entries_bytes(one, header, body) =~= header(pair.0.id) + body(pair.0.id)) by {
        reveal_with_fuel(entries_bytes, 2);
    }
    match pair.1 {
        Some(small) => {
            assert(here.drop_last() =~= one);
            assert(entries_bytes(here, header, body) =~= header(pair.0.id) + body(pair.0.id) + (
            header(small.id) + body(small.id)));
        },
        None => {
            assert(here =~= one);
            assert(entries_bytes(here, header, body) =~= header(pair.0.id) + body(pair.0.id)
                + Seq::empty());
        },
    }
}

/// A normal chain's object behind the header of the file that it copies: the
/// chain's files, and the header of the file that the next chain copies.
proof fn lemma_normal_chain_bytes(
    normal: Seq<Pair>,
    k: int,
    header: spec_fn(FileId) -> Seq<u8>,
    body: spec_fn(FileId) -> Seq<u8>,
)
    requires
        0 <= k < normal.len(),
    ensures
        header(normal[k].0.id) + parts_bytes(normal_chain(normal, k).parts, header, body)
            == entries_bytes(ids(place_pair(normal[k])), header, body) + next_header(
            normal,
            k,
            header,
        ),
{
    let pair = normal[k];
    let parts = normal_chain(normal, k).parts;
    lemma_tail_bytes(normal, k, header, body);
    lemma_pair_entries_bytes(pair, header, body);
    let one = seq![PartModel::Copy { part_number: 1, id: pair.0.id }];
    assert(parts.drop_last() =~= one);
    assert(one.drop_last() =~= Seq::empty());
    assert(parts_bytes(one, header, body) =~= body(pair.0.id)) by {
        reveal_with_fuel(parts_bytes, 2);
    }
    assert(header(pair.0.id) + parts_bytes(parts, header, body) =~= entries_bytes(
        ids(place_pair(pair)),
        header,
        body,
    ) + next_header(normal, k, header));
}

/// What the archive holds when the first chain and the first `n` normal chains
/// have been merged: their files, and the header of the file that the next chain
/// copies.
proof fn lemma_merged_prefix(
    s: Split,
    n: int,
    header: spec_fn(FileId) -> Seq<u8>,
    body: spec_fn(FileId) -> Seq<u8>,
)
    requires
        s.normal.len() > 0,
        0 <= n <= s.normal.len(),
    ensures
        merged_bytes(chains(s).take(n + 1), header, body) == entries_bytes(
            file_ids(s.first) + ids(place_pairs(s.normal.take(n))),
            header,
            body,
        ) + next_header(s.normal, n - 1, header),
    decreases n,
{
    let merged = merged_bytes(chains(s).take(n + 1), header, body);
    if n == 0 {
        lemma_first_chain_bytes(
            s.first,
            size_table(placed(s)),
            s.normal[0].0.id,
            header,
            body,
        );
        assert(chains(s).take(1).drop_last() =~= Seq::empty());
        assert(file_ids(s.first) + ids(place_pairs(s.normal.take(0))) =~= file_ids(s.first));
        assert(merged =~= parts_bytes(chains(s)[0].parts, header, body)) by {
            reveal_with_fuel(merged_bytes, 2);
        }
    } else {
        let k = n - 1;
        lemma_merged_prefix(s, k, header, body);
        lemma_normal_chain_bytes(s.normal, k, header, body);
        assert(chains(s).take(n + 1).drop_last() =~= chains(s).take(n));
        assert(s.normal.take(n).drop_last() =~= s.normal.take(k));
        let before = file_ids(s.first) + ids(place_pairs(s.normal.take(k)));
        let here = ids(place_pair(s.normal[k]));
        assert(file_ids(s.first) + ids(place_pairs(s.normal.take(n))) =~= before + here);
        lemma_entries_bytes_add(before, here, header, body);
        assert(chains(s)[n] == normal_chain(s.normal, k));
        let e = entries_bytes(before, header, body);
        let object = parts_bytes(normal_chain(s.normal, k).parts, header, body);
        assert(merged == e + header(s.normal[k].0.id) + object);
        assert(merged =~= e + (header(s.normal[k].0.id) + object));
        assert(merged =~= entries_bytes(before + here, header, body) + next_header(
            s.normal,
            k,
            header,
        ));
    }
}

/// The chains' objects, merged in the order of their numbers, are the archive's
/// entries in archive order, each header directly before its body.
pub proof fn merged_chains_are_the_entries(
    s: Split,
    header: spec_fn(FileId) -> Seq<u8>,
    body: spec_fn(FileId) -> Seq<u8>,
)
    requires
        s.normal.len() > 0,
    ensures
        merged_bytes(chains(s), header, body) == entries_bytes(ids(placed(s)), header, body),
{
    let n = s.normal.len() as int;
    lemma_merged_prefix(s, n, header, body);
    assert(chains(s).take(n + 1) =~= chains(s));
    assert(s.normal.take(n) =~= s.normal);
    assert(file_ids(s.first) + ids(place_pairs(s.normal)) =~= ids(placed(s)));
    assert(merged_bytes(chains(s), header, body) =~= entries_bytes(ids(placed(s)), header, body));
}

/// Where every file's header and body take the planned number of bytes, the
/// header of entry `i` stands at its planned offset, its body follows, and the
/// entries end where the central directory is planned to start.
pub proof fn headers_stand_at_their_offsets(
    order: Seq<FileId>,
    table: Map<u32, (String, u64)>,
    header: spec_fn(FileId) -> Seq<u8>,
    body: spec_fn(FileId) -> Seq<u8>,
    i: int,
)
    requires
        0 <= i < order.len(),
        forall|k: int|
            0 <= k < order.len() ==> header(#[trigger] order[k]).len() + body(order[k]).len()
                == len_in(table, order[k]),
    ensures
        ({
            let all = entries_bytes(order, header, body);
            let at = offset_in(order, table, i) as int;
            let h = header(order[i]);
            let b = body(order[i]);
            &&& all.len() == offset_in(order, table, order.len() as int)
            &&& at + h.len() + b.len() <= all.len()
            &&& all.subrange(at, at + h.len()) == h
            &&& all.subrange(at + h.len(), at + h.len() + b.len()) == b
        }),
    decreases order.len(),
{
    let all = entries_bytes(order, header, body);
    let front = order.drop_last();
    let h = header(order[i]);
    let b = body(order[i]);
    lemma_offset_in_prefix(order, table, order.len() - 1, i);
    lemma_offset_in_prefix(order, table, order.len() - 1, order.len() - 1);
    lemma_entries_bytes_len(front, table, header, body);
    let before = entries_bytes(front, header, body);
    if i < order.len() - 1 {
        headers_stand_at_their_offsets(front, table, header, body, i);
        let at = offset_in(order, table, i) as int;
        assert(all.subrange(at, at + h.len()) =~= before.subrange(at, at + h.len()));
        assert(all.subrange(at + h.len(), at + h.len() + b.len()) =~= before.subrange(
            at + h.len(),
            at + h.len() + b.len(),
        ));
    } else {
        let at = before.len() as int;
        assert(all.subrange(at, at + h.len()) =~= h);
        assert(all.subrange(at + h.len(), at + h.len() + b.len()) =~= b);
    }
}

proof fn lemma_offset_in_prefix(order: Seq<FileId>, table: Map<u32, (String, u64)>, n: int, i: int)
    requires
        0 <= i <= n <= order.len(),
    ensures
        offset_in(order.take(n), table, i) == offset_in(order, table, i),
        order.take(order.len() - 1) == order.drop_last() || order.len() == 0,
    decreases i,
{
    if i > 0 {
        lemma_offset_in_prefix(order, table, n, i - 1);
    }
    if order.len() > 0 {
        assert(order.take(order.len() - 1) =~= order.drop_last());
    }
}

proof fn lemma_entries_bytes_len(
    order: Seq<FileId>,
    table: Map<u32, (String, u64)>,
    header: spec_fn(FileId) -> Seq<u8>,
    body: spec_fn(FileId) -> Seq<u8>,
)
    requires
        forall|k: int|
            0 <= k < order.len() ==> header(#[trigger] order[k]).len() + body(order[k]).len()
                == len_in(table, order[k]),
    ensures
        entries_bytes(order, header, body).len() == offset_in(order, table, order.len() as int),
    decreases order.len(),
{
    if order.len() > 0 {
        let front = order.drop_last();
        assert forall|k: int| 0 <= k < front.len() implies header(#[trigger] front[k]).len() + body(
            front[k],
        ).len() == len_in(table, front[k]) by {
            assert(front[k] == order[k]);
        }
        lemma_entries_bytes_len(front, table, header, body);
        lemma_offset_in_prefix(order, table, order.len() - 1, order.len() - 1);
        assert(order[order.len() - 1] == order.last());
    }
}

/// Whether `header` and `body` give each placed file as many bytes as planned.
pub open spec fn sized(
    ps: Seq<Placement>,
    header: spec_fn(FileId) -> Seq<u8>,
    body: spec_fn(FileId) -> Seq<u8>,
) -> bool {
    forall|i: int|
        0 <= i < ps.len() ==> body((#[trigger] ps[i]).id).len() == ps[i].size && header(
            ps[i].id,
        ).len() + ps[i].size == entry_len(ps[i].name@, ps[i].size as nat)
}

/// Every part but the last of each chain's upload reaches the part floor, and so
/// does every chain as a part of the final merge.
pub proof fn parts_reach_the_floor(
    files: Seq<SourceFile>,
    header: spec_fn(FileId) -> Seq<u8>,
    body: spec_fn(FileId) -> Seq<u8>,
)
    requires
        viable(files),
        distinct_ids(files),
        sized(placed(split(files)), header, body),
    ensures
        ({
            let cs = chains(split(files));
            &&& forall|c: int, p: int|
                0 <= c < cs.len() && 0 <= p < cs[c].parts.len() - 1 ==> part_bytes(
                    #[trigger] cs[c].parts[p],
                    header,
                    body,
                ).len() >= PART_FLOOR
            &&& forall|c: int|
                0 <= c < cs.len() ==> parts_bytes((#[trigger] cs[c]).parts, header, body).len()
                    >= PART_FLOOR
        }),
{
    let s = split(files);
    let cs = chains(s);
    let ps = placed(s);
    let table = size_table(ps);
    lemma_placements_distinct(files);
    assert forall|i: int| 0 <= i < s.first.len() implies header((#[trigger] s.first[i]).id).len()
        + body(s.first[i].id).len() == len_in(table, s.first[i].id) && body(s.first[i].id).len()
        == s.first[i].size by {
        assert(ps[i] == place(s.first[i], true));
        lemma_tables_of_distinct(ps, i);
    }
    lemma_closed_parts_reach(s.first, table, header, body);
    lemma_first_chain_weight(files);
    lemma_streamed_weight(s.first, header, body);
    lemma_first_chain_bytes(s.first, table, s.normal[0].0.id, header, body);
    assert forall|k: int| 0 <= k < s.normal.len() implies body(
        (#[trigger] s.normal[k]).0.id,
    ).len() >= PART_FLOOR by {
        lemma_normal_is_large(files, k);
        lemma_normal_is_placed(s.normal, k);
        let j = choose|j: int|
            0 <= j < place_pairs(s.normal).len() && #[trigger] place_pairs(s.normal)[j] == place(
                s.normal[k].0,
                false,
            );
        assert(ps[s.first.len() + j] == place(s.normal[k].0, false));
    }
    assert forall|c: int, p: int|
        0 <= c < cs.len() && 0 <= p < cs[c].parts.len() - 1 implies part_bytes(
        #[trigger] cs[c].parts[p],
        header,
        body,
    ).len() >= PART_FLOOR by {
        if c == 0 {
            let closed = pack(s.first, table).closed;
            assert(segments_bytes(closed[p], header, body).len() >= PART_FLOOR);
        } else {
            assert(cs[c] == normal_chain(s.normal, c - 1));
            assert(body(s.normal[c - 1].0.id).len() >= PART_FLOOR);
        }
    }
    assert forall|c: int| 0 <= c < cs.len() implies parts_bytes(
        (#[trigger] cs[c]).parts,
        header,
        body,
    ).len() >= PART_FLOOR by {
        if c > 0 {
            let parts = cs[c].parts;
            assert(cs[c] == normal_chain(s.normal, c - 1));
            assert(parts.drop_last() =~= seq![parts[0]]);
            assert(parts_bytes(seq![parts[0]], header, body) =~= body(s.normal[c - 1].0.id)) by {
                reveal_with_fuel(parts_bytes, 2);
                assert(seq![parts[0]].drop_last() =~= Seq::empty());
            }
            assert(body(s.normal[c - 1].0.id).len() >= PART_FLOOR);
        }
    }
}

proof fn lemma_closed_parts_reach(
    files: Seq<SourceFile>,
    table: Map<u32, (String, u64)>,
    header: spec_fn(FileId) -> Seq<u8>,
    body: spec_fn(FileId) -> Seq<u8>,
)
    requires
        forall|i: int|
            0 <= i < files.len() ==> header((#[trigger] files[i]).id).len() + body(
                files[i].id,
            ).len() == len_in(table, files[i].id),
    ensures
        segments_bytes(pack(files, table).open, header, body).len() == pack(
            files,
            table,
        ).open_bytes,
        forall|i: int|
            0 <= i < pack(files, table).closed.len() ==> segments_bytes(
                #[trigger] pack(files, table).closed[i],
                header,
                body,
            ).len() >= PART_FLOOR,
    decreases files.len(),
{
    if files.len() > 0 {
        let front = files.drop_last();
        assert forall|i: int| 0 <= i < front.len() implies header((#[trigger] front[i]).id).len()
            + body(front[i].id).len() == len_in(table, front[i].id) by {
            assert(front[i] == files[i]);
        }
        lemma_closed_parts_reach(front, table, header, body);
        let before = pack(front, table);
        let segments = before.open.push(Segment::StreamedFile { id: files.last().id });
        assert(segments.drop_last() =~= before.open);
        assert(files[files.len() - 1] == files.last());
        let after = pack(files, table);
        assert forall|i: int| 0 <= i < after.closed.len() implies segments_bytes(
            #[trigger] after.closed[i],
            header,
            body,
        ).len() >= PART_FLOOR by {
            if i < before.closed.len() {
                assert(after.closed[i] == before.closed[i]);
            }
        }
    }
}

proof fn lemma_streamed_weight(
    files: Seq<SourceFile>,
    header: spec_fn(FileId) -> Seq<u8>,
    body: spec_fn(FileId) -> Seq<u8>,
)
    requires
        forall|i: int|
            0 <= i < files.len() ==> body((#[trigger] files[i]).id).len() == files[i].size,
    ensures
        entries_bytes(file_ids(files), header, body).len() >= total_size(files),
    decreases files.len(),
{
    if files.len() > 0 {
        let front = files.drop_last();
        assert forall|i: int| 0 <= i < front.len() implies body((#[trigger] front[i]).id).len()
            == front[i].size by {
            assert(front[i] == files[i]);
        }
        lemma_streamed_weight(front, header, body);
        assert(file_ids(files).drop_last() =~= file_ids(front));
        assert(files[files.len() - 1] == files.last());
    }
}

proof fn lemma_total_size_add(a: Seq<SourceFile>, b: Seq<SourceFile>)
    ensures
        total_size(a + b) == total_size(a) + total_size(b),
    decreases b.len(),
{
    if b.len() == 0 {
        assert(a + b =~= a);
    } else {
        assert((a + b).drop_last() =~= a + b.drop_last());
        lemma_total_size_add(a, b.drop_last());
    }
}

/// The large files reach the floor.
proof fn lemma_copyables_large(files: Seq<SourceFile>, i: int)
    requires
        0 <= i < copyables(files).len(),
    ensures
        copyables(files)[i].size >= PART_FLOOR,
    decreases files.len(),
{
    reveal(Seq::filter);
    if files.len() > 0 && i < copyables(files.drop_last()).len() {
        lemma_copyables_large(files.drop_last(), i);
    }
}

proof fn lemma_first_chain_weight(files: Seq<SourceFile>)
    requires
        viable(files),
    ensures
        total_size(split(files).first) >= PART_FLOOR,
{
    let left = leftover(files);
    if total_size(left) < PART_FLOOR {
        let ps = pairs(files);
        let k = smallest_pair(ps);
        smallest_pair_is_first_minimum(ps);
        lemma_copyables_large(files, k);
        let lent = pair_files(ps[k]);
        lemma_total_size_add(left, lent);
        reveal_with_fuel(total_size, 3);
        assert(lent[0] == ps[k].0);
    }
}

proof fn lemma_normal_is_large(files: Seq<SourceFile>, k: int)
    requires
        viable(files),
        0 <= k < split(files).normal.len(),
    ensures
        split(files).normal[k].0.size >= PART_FLOOR,
{
    let ps = pairs(files);
    smallest_pair_is_first_minimum(ps);
    assert forall|i: int| 0 <= i < ps.len() implies (#[trigger] ps[i]).0.size >= PART_FLOOR by {
        lemma_copyables_large(files, i);
    }
}

proof fn lemma_normal_is_placed(normal: Seq<Pair>, k: int)
    requires
        0 <= k < normal.len(),
    ensures
        exists|j: int|
            0 <= j < place_pairs(normal).len() && #[trigger] place_pairs(normal)[j] == place(
                normal[k].0,
                false,
            ),
    decreases normal.len(),
{
    let front = normal.drop_last();
    if k < normal.len() - 1 {
        lemma_normal_is_placed(front, k);
        let j = choose|j: int|
            0 <= j < place_pairs(front).len() && #[trigger] place_pairs(front)[j] == place(
                front[k].0,
                false,
            );
        assert(place_pairs(normal)[j] == place(normal[k].0, false));
    } else {
        assert(place_pairs(normal)[place_pairs(front).len() as int] == place(normal[k].0, false));
    }
}

// ---------- The plan follows from numbers, names and sizes ----------

/// Whether two files have the same number, name and size. Their keys may differ.
pub open spec fn alike(a: SourceFile, b: SourceFile) -> bool {
    a.id == b.id && a.name@ == b.name@ && a.size == b.size
}

/// Whether two listings have the same numbers, names and sizes in the same order.
pub open spec fn listings_alike(a: Seq<SourceFile>, b: Seq<SourceFile>) -> bool {
    a.len() == b.len() && forall|i: int| 0 <= i < a.len() ==> alike(#[trigger] a[i], b[i])
}

/// Whether two entries say the same.
pub open spec fn entries_alike(a: Entry, b: Entry) -> bool {
    &&& a.id == b.id
    &&& a.name@ == b.name@
    &&& a.size == b.size
    &&& a.local_header_offset == b.local_header_offset
    &&& a.crc == b.crc
    &&& a.streamed == b.streamed
}

/// Whether two entry tables say the same of the same files.
pub open spec fn entry_tables_alike(a: Map<u32, Entry>, b: Map<u32, Entry>) -> bool {
    &&& a.dom() == b.dom()
    &&& forall|key: u32| #[trigger] a.contains_key(key) ==> entries_alike(a[key], b[key])
}

spec fn pairs_alike(a: Pair, b: Pair) -> bool {
    &&& alike(a.0, b.0)
    &&& a.1 is Some == b.1 is Some
    &&& a.1 is Some ==> alike(a.1->0, b.1->0)
}

spec fn pair_lists_alike(a: Seq<Pair>, b: Seq<Pair>) -> bool {
    a.len() == b.len() && forall|i: int| 0 <= i < a.len() ==> pairs_alike(#[trigger] a[i], b[i])
}

spec fn placements_alike(a: Placement, b: Placement) -> bool {
    a.id == b.id && a.name@ == b.name@ && a.size == b.size && a.streamed == b.streamed
}

spec fn orders_alike(a: Seq<Placement>, b: Seq<Placement>) -> bool {
    a.len() == b.len() && forall|i: int|
        0 <= i < a.len() ==> placements_alike(#[trigger] a[i], b[i])
}

spec fn tables_alike(a: Map<u32, (String, u64)>, b: Map<u32, (String, u64)>) -> bool {
    &&& a.dom() == b.dom()
    &&& forall|key: u32| #[trigger]
        a.contains_key(key) ==> a[key].0@ == b[key].0@ && a[key].1 == b[key].1
}

proof fn lemma_listings_drop_last(a: Seq<SourceFile>, b: Seq<SourceFile>)
    requires
        listings_alike(a, b),
        a.len() > 0,
    ensures
        listings_alike(a.drop_last(), b.drop_last()),
        alike(a.last(), b.last()),
{
    assert(alike(a[a.len() - 1], b[a.len() - 1]));
    assert forall|i: int| 0 <= i < a.len() - 1 implies alike(
        #[trigger] a.drop_last()[i],
        b.drop_last()[i],
    ) by {
        assert(alike(a[i], b[i]));
    }
}

proof fn lemma_listings_push(
    a: Seq<SourceFile>,
    b: Seq<SourceFile>,
    x: SourceFile,
    y: SourceFile,
)
    requires
        listings_alike(a, b),
        alike(x, y),
    ensures
        listings_alike(a.push(x), b.push(y)),
{
    assert forall|i: int| 0 <= i < a.len() + 1 implies alike(
        #[trigger] a.push(x)[i],
        b.push(y)[i],
    ) by {
        if i < a.len() {
            assert(alike(a[i], b[i]));
        }
    }
}

proof fn lemma_listings_join(
    a: Seq<SourceFile>,
    b: Seq<SourceFile>,
    x: Seq<SourceFile>,
    y: Seq<SourceFile>,
)
    requires
        listings_alike(a, b),
        listings_alike(x, y),
    ensures
        listings_alike(a + x, b + y),
{
    assert forall|i: int| 0 <= i < (a + x).len() implies alike(
        #[trigger] (a + x)[i],
        (b + y)[i],
    ) by {
        if i < a.len() {
            assert(alike(a[i], b[i]));
        } else {
            assert(alike(x[i - a.len()], y[i - a.len()]));
        }
    }
}

proof fn lemma_alike_partition(a: Seq<SourceFile>, b: Seq<SourceFile>)
    requires
        listings_alike(a, b),
    ensures
        total_size(a) == total_size(b),
        listings_alike(copyables(a), copyables(b)),
        listings_alike(streamables(a), streamables(b)),
    decreases a.len(),
{
    reveal(Seq::filter);
    if a.len() > 0 {
        lemma_listings_drop_last(a, b);
        let (fa, fb) = (a.drop_last(), b.drop_last());
        lemma_alike_partition(fa, fb);
        if a.last().size >= PART_FLOOR {
            lemma_listings_push(copyables(fa), copyables(fb), a.last(), b.last());
        } else {
            lemma_listings_push(streamables(fa), streamables(fb), a.last(), b.last());
        }
    }
}

proof fn lemma_alike_smallest(a: Seq<Pair>, b: Seq<Pair>)
    requires
        pair_lists_alike(a, b),
    ensures
        smallest_pair(a) == smallest_pair(b),
    decreases a.len(),
{
    if a.len() > 1 {
        let (fa, fb) = (a.drop_last(), b.drop_last());
        assert forall|i: int| 0 <= i < fa.len() implies pairs_alike(#[trigger] fa[i], fb[i]) by {
            assert(pairs_alike(a[i], b[i]));
        }
        lemma_alike_smallest(fa, fb);
        smallest_pair_is_first_minimum(fa);
        let k = smallest_pair(fa);
        assert(pairs_alike(a[k], b[k]));
        assert(pairs_alike(a[a.len() - 1], b[a.len() - 1]));
    }
}

/// Listings that are alike are split alike.
proof fn lemma_alike_split(a: Seq<SourceFile>, b: Seq<SourceFile>)
    requires
        listings_alike(a, b),
        viable(a),
    ensures
        viable(b),
        listings_alike(split(a).first, split(b).first),
        pair_lists_alike(split(a).normal, split(b).normal),
{
    lemma_alike_partition(a, b);
    let (ca, cb) = (copyables(a), copyables(b));
    let (sa, sb) = (streamables(a), streamables(b));
    let (pa, pb) = (pairs(a), pairs(b));
    let (la, lb) = (leftover(a), leftover(b));
    assert forall|i: int| 0 <= i < pa.len() implies pairs_alike(#[trigger] pa[i], pb[i]) by {
        assert(alike(ca[i], cb[i]));
        if i < sa.len() {
            assert(alike(sa[i], sb[i]));
        }
    }
    assert forall|i: int| 0 <= i < la.len() implies alike(#[trigger] la[i], lb[i]) by {
        assert(alike(sa[ca.len() + i], sb[ca.len() + i]));
    }
    lemma_alike_partition(la, lb);
    lemma_alike_smallest(pa, pb);
    smallest_pair_is_first_minimum(pa);
    let k = smallest_pair(pa);
    assert(pairs_alike(pa[k], pb[k]));
    let (xa, xb) = (pair_files(pa[k]), pair_files(pb[k]));
    assert(listings_alike(xa, xb));
    lemma_listings_join(la, lb, xa, xb);
    let (ra, rb) = (pa.remove(k), pb.remove(k));
    assert forall|i: int| 0 <= i < ra.len() implies pairs_alike(#[trigger] ra[i], rb[i]) by {
        let j = if i < k {
            i
        } else {
            i + 1
        };
        assert(pairs_alike(pa[j], pb[j]));
    }
}

proof fn lemma_orders_join(
    a: Seq<Placement>,
    b: Seq<Placement>,
    x: Seq<Placement>,
    y: Seq<Placement>,
)
    requires
        orders_alike(a, b),
        orders_alike(x, y),
    ensures
        orders_alike(a + x, b + y),
{
    assert forall|i: int| 0 <= i < (a + x).len() implies placements_alike(
        #[trigger] (a + x)[i],
        (b + y)[i],
    ) by {
        if i < a.len() {
            assert(placements_alike(a[i], b[i]));
        } else {
            assert(placements_alike(x[i - a.len()], y[i - a.len()]));
        }
    }
}

proof fn lemma_alike_place_pairs(a: Seq<Pair>, b: Seq<Pair>)
    requires
        pair_lists_alike(a, b),
    ensures
        orders_alike(place_pairs(a), place_pairs(b)),
    decreases a.len(),
{
    if a.len() > 0 {
        let (fa, fb) = (a.drop_last(), b.drop_last());
        assert forall|i: int| 0 <= i < fa.len() implies pairs_alike(#[trigger] fa[i], fb[i]) by {
            assert(pairs_alike(a[i], b[i]));
        }
        lemma_alike_place_pairs(fa, fb);
        assert(pairs_alike(a[a.len() - 1], b[a.len() - 1]));
        lemma_orders_join(
            place_pairs(fa),
            place_pairs(fb),
            place_pair(a.last()),
            place_pair(b.last()),
        );
    }
}

proof fn lemma_alike_placed(a: Split, b: Split)
    requires
        listings_alike(a.first, b.first),
        pair_lists_alike(a.normal, b.normal),
    ensures
        orders_alike(placed(a), placed(b)),
        ids(placed(a)) == ids(placed(b)),
{
    lemma_alike_place_pairs(a.normal, b.normal);
    let ha = a.first.map_values(|f: SourceFile| place(f, true));
    let hb = b.first.map_values(|f: SourceFile| place(f, true));
    assert forall|i: int| 0 <= i < ha.len() implies placements_alike(#[trigger] ha[i], hb[i]) by {
        assert(alike(a.first[i], b.first[i]));
    }
    lemma_orders_join(ha, hb, place_pairs(a.normal), place_pairs(b.normal));
    assert forall|i: int| 0 <= i < placed(a).len() implies ids(placed(a))[i] == ids(
        placed(b),
    )[i] by {
        assert(placements_alike(placed(a)[i], placed(b)[i]));
    }
    assert(ids(placed(a)) =~= ids(placed(b)));
}

proof fn lemma_alike_tables(a: Seq<Placement>, b: Seq<Placement>)
    requires
        orders_alike(a, b),
    ensures
        tables_alike(size_table(a), size_table(b)),
        streamed_table(a) == streamed_table(b),
    decreases a.len(),
{
    if a.len() > 0 {
        let (fa, fb) = (a.drop_last(), b.drop_last());
        assert forall|i: int| 0 <= i < fa.len() implies placements_alike(
            #[trigger] fa[i],
            fb[i],
        ) by {
            assert(placements_alike(a[i], b[i]));
        }
        lemma_alike_tables(fa, fb);
        assert(placements_alike(a[a.len() - 1], b[a.len() - 1]));
        let (ta, tb) = (size_table(a), size_table(b));
        assert(ta.dom() =~= tb.dom());
        assert forall|key: u32| #[trigger] ta.contains_key(key) implies ta[key].0@ == tb[key].0@
            && ta[key].1 == tb[key].1 by {
            if key != a.last().id.0 {
                assert(size_table(fa).contains_key(key));
            }
        }
    }
}

proof fn lemma_tables_have(ps: Seq<Placement>, i: int)
    requires
        0 <= i < ps.len(),
    ensures
        size_table(ps).contains_key(ps[i].id.0),
    decreases ps.len(),
{
    if i < ps.len() - 1 {
        lemma_tables_have(ps.drop_last(), i);
    }
}

proof fn lemma_alike_offsets(a: Seq<Placement>, b: Seq<Placement>, i: int)
    requires
        orders_alike(a, b),
        ids(a) == ids(b),
        0 <= i <= a.len(),
    ensures
        offset_in(ids(a), size_table(a), i) == offset_in(ids(b), size_table(b), i),
    decreases i,
{
    if i > 0 {
        lemma_alike_offsets(a, b, i - 1);
        lemma_alike_tables(a, b);
        lemma_tables_have(a, i - 1);
        assert(ids(a)[i - 1] == a[i - 1].id);
    }
}

proof fn lemma_alike_entries(a: Seq<Placement>, b: Seq<Placement>, n: int)
    requires
        orders_alike(a, b),
        ids(a) == ids(b),
        0 <= n <= a.len(),
    ensures
        entry_tables_alike(entry_table(a, n), entry_table(b, n)),
    decreases n,
{
    if n > 0 {
        lemma_alike_entries(a, b, n - 1);
        lemma_alike_tables(a, b);
        lemma_alike_offsets(a, b, n - 1);
        lemma_tables_have(a, n - 1);
        assert(placements_alike(a[n - 1], b[n - 1]));
        assert(entries_alike(entry_at(a, n - 1), entry_at(b, n - 1)));
        let (ta, tb) = (entry_table(a, n), entry_table(b, n));
        assert(ta.dom() =~= tb.dom());
        assert forall|key: u32| #[trigger] ta.contains_key(key) implies entries_alike(
            ta[key],
            tb[key],
        ) by {
            if key != a[n - 1].id.0 {
                assert(entry_table(a, n - 1).contains_key(key));
            }
        }
    }
}

proof fn lemma_alike_pack(
    a: Seq<SourceFile>,
    b: Seq<SourceFile>,
    ta: Map<u32, (String, u64)>,
    tb: Map<u32, (String, u64)>,
)
    requires
        listings_alike(a, b),
        tables_alike(ta, tb),
        forall|i: int| 0 <= i < a.len() ==> ta.contains_key((#[trigger] a[i]).id.0),
    ensures
        pack(a, ta) == pack(b, tb),
    decreases a.len(),
{
    if a.len() > 0 {
        lemma_listings_drop_last(a, b);
        let fa = a.drop_last();
        assert forall|i: int| 0 <= i < fa.len() implies ta.contains_key((#[trigger] fa[i]).id.0) by {
            assert(fa[i] == a[i]);
        }
        lemma_alike_pack(fa, b.drop_last(), ta, tb);
        assert(ta.contains_key(a[a.len() - 1].id.0));
        assert(len_in(ta, a.last().id) == len_in(tb, b.last().id));
    }
}

proof fn lemma_alike_chains(a: Split, b: Split)
    requires
        listings_alike(a.first, b.first),
        pair_lists_alike(a.normal, b.normal),
        a.normal.len() > 0,
    ensures
        chains(a) == chains(b),
        copied_ids(a.normal) == copied_ids(b.normal),
{
    let (ta, tb) = (size_table(placed(a)), size_table(placed(b)));
    lemma_alike_placed(a, b);
    lemma_alike_tables(placed(a), placed(b));
    assert forall|i: int| 0 <= i < a.first.len() implies ta.contains_key(
        (#[trigger] a.first[i]).id.0,
    ) by {
        lemma_tables_have(placed(a), i);
        assert(placed(a)[i] == place(a.first[i], true));
    }
    lemma_alike_pack(a.first, b.first, ta, tb);
    assert(pairs_alike(a.normal[0], b.normal[0]));
    assert forall|k: int| 0 <= k < a.normal.len() implies normal_chain(a.normal, k)
        == normal_chain(b.normal, k) by {
        assert(pairs_alike(a.normal[k], b.normal[k]));
        if k + 1 < a.normal.len() {
            assert(pairs_alike(a.normal[k + 1], b.normal[k + 1]));
        }
        assert(tail_segments(a.normal, k) =~= tail_segments(b.normal, k));
        assert(normal_chain(a.normal, k).parts =~= normal_chain(b.normal, k).parts);
    }
    assert(chains(a) =~= chains(b));
    assert forall|k: int| 0 <= k < a.normal.len() implies copied_ids(a.normal)[k] == copied_ids(
        b.normal,
    )[k] by {
        assert(pairs_alike(a.normal[k], b.normal[k]));
    }
    assert(copied_ids(a.normal) =~= copied_ids(b.normal));
}

/// The plan follows from the numbers, names and sizes of the listed files alone: listings that
/// have these in common, whatever their keys, are both viable or both not, weigh the same, and have
/// the same order, the same chains, the same copied files and entries that say the same.
pub proof fn plan_follows_from_numbers_names_and_sizes(a: Seq<SourceFile>, b: Seq<SourceFile>)
    requires
        listings_alike(a, b),
    ensures
        total_size(a) == total_size(b),
        viable(a) == viable(b),
        viable(a) ==> {
            let (pa, pb) = (placed(split(a)), placed(split(b)));
            &&& ids(pa) == ids(pb)
            &&& entries_len(split(a)) == entries_len(split(b))
            &&& chains(split(a)) == chains(split(b))
            &&& copied_ids(split(a).normal) == copied_ids(split(b).normal)
            &&& entry_tables_alike(
                entry_table(pa, pa.len() as int),
                entry_table(pb, pb.len() as int),
            )
        },
{
    lemma_alike_partition(a, b);
    if viable(a) {
        let (sa, sb) = (split(a), split(b));
        let (pa, pb) = (placed(sa), placed(sb));
        lemma_alike_split(a, b);
        smallest_pair_is_first_minimum(pairs(a));
        lemma_alike_placed(sa, sb);
        lemma_alike_chains(sa, sb);
        lemma_alike_offsets(pa, pb, pa.len() as int);
        lemma_alike_entries(pa, pb, pa.len() as int);
    }
}

} // verus!
