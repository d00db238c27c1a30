//! Which files a plan copies, which it streams, and in what order.

use vstd::prelude::*;
use vstd::utf8::encode_utf8;

use crate::engine::plan::{
    chain_views, part_views, Chain, Entry, FileId, Pair, PartSpec, Placement, Plan, Segment,
    SourceFile,
};
use crate::engine::plan_laws::{
    bytes_before, distinct_ids, every_file_has_its_entry, every_file_is_placed_once, files_of,
    lemma_offset_is_bytes_before, lemma_placements_distinct, part_number,
    part_numbers_are_consecutive, smallest_pair_is_first_minimum,
};
use crate::engine::plan_model::{
    chains, closed_parts, copied_ids, copyables, entries_len, entry_at, entry_table, first_chain,
    ids, leftover, normal_chain, offset_in, pack, pairs, place, place_pair, place_pairs, placed,
    size_table, smallest_pair, split, streamables, streamed_table, total_size, viable, ChainModel,
    PartModel, Split,
};

verus! {

// ---------- Weights ----------

/// Every file counts with its size, wherever it stands.
pub proof fn total_counts_every_file(
    before: Seq<SourceFile>,
    file: SourceFile,
    behind: Seq<SourceFile>,
)
    ensures
        total_size(Seq::empty()) == 0,
        total_size(before + seq![file] + behind) == total_size(before) + file.size + total_size(
            behind,
        ),
    decreases behind.len(),
{
    let all = before + seq![file] + behind;
    if behind.len() == 0 {
        assert(all.drop_last() =~= before);
    } else {
        total_counts_every_file(before, file, behind.drop_last());
        assert(all.drop_last() =~= before + seq![file] + behind.drop_last());
    }
}

// ---------- Large and small files ----------

/// Whether a file is large enough to be a part of its own: 5 MiB.
pub open spec fn is_large(file: SourceFile) -> bool {
    file.size >= 5_242_880
}

/// How many of the first `n` files are large.
pub open spec fn larges(files: Seq<SourceFile>, n: int) -> nat
    decreases n,
{
    if n <= 0 {
        0
    } else {
        larges(files, n - 1) + if is_large(files[n - 1]) {
            1nat
        } else {
            0
        }
    }
}

proof fn lemma_larges_prefix(files: Seq<SourceFile>, n: int)
    requires
        0 <= n < files.len(),
    ensures
        larges(files.drop_last(), n) == larges(files, n),
        larges(files, n) <= n,
    decreases n,
{
    if n > 0 {
        lemma_larges_prefix(files, n - 1);
    }
}

/// A file stands among the files of its kind behind those of its kind that are listed before it.
proof fn lemma_rank(files: Seq<SourceFile>, p: int)
    requires
        0 <= p < files.len(),
    ensures
        is_large(files[p]) ==> larges(files, p) < copyables(files).len() && copyables(
            files,
        )[larges(files, p) as int] == files[p],
        !is_large(files[p]) ==> 0 <= p - larges(files, p) < streamables(files).len()
            && streamables(files)[p - larges(files, p)] == files[p],
    decreases files.len(),
{
    reveal(Seq::filter);
    let front = files.drop_last();
    lemma_counts(front);
    lemma_larges_prefix(files, p);
    lemma_larges_prefix(files, files.len() - 1);
    if p < files.len() - 1 {
        lemma_rank(front, p);
    }
}

proof fn lemma_counts(files: Seq<SourceFile>)
    ensures
        copyables(files).len() == larges(files, files.len() as int),
        streamables(files).len() == files.len() - larges(files, files.len() as int),
    decreases files.len(),
{
    reveal(Seq::filter);
    if files.len() > 0 {
        lemma_counts(files.drop_last());
        lemma_larges_prefix(files, files.len() - 1);
    }
}

/// Large files and small files are paired in listing order: the large file with so many large files
/// before it, and the small file with as many small files before it. Small files for which there is
/// no large file are left over, in listing order too.
pub proof fn files_are_paired_by_rank(files: Seq<SourceFile>, p: int)
    requires
        0 <= p < files.len(),
    ensures
        ({
            let large = larges(files, files.len() as int) as int;
            let small = files.len() - large;
            let rank = if is_large(files[p]) {
                larges(files, p) as int
            } else {
                p - larges(files, p)
            };
            &&& pairs(files).len() == large
            &&& leftover(files).len() == if small > large {
                small - large
            } else {
                0
            }
            &&& is_large(files[p]) ==> {
                &&& 0 <= rank < large
                &&& pairs(files)[rank].0 == files[p]
                &&& pairs(files)[rank].1 is Some <==> rank < small
            }
            &&& !is_large(files[p]) && rank < large ==> pairs(files)[rank].1 == Some(files[p])
            &&& !is_large(files[p]) && rank >= large ==> leftover(files)[rank - large] == files[p]
        }),
{
    lemma_counts(files);
    lemma_rank(files, p);
}

/// The copy-part path is taken exactly where at least two files are large and all files together
/// have at least 20 MiB.
pub proof fn viability(files: Seq<SourceFile>)
    ensures
        viable(files) <==> (exists|i: int, j: int|
            0 <= i < j < files.len() && #[trigger] is_large(files[i]) && #[trigger] is_large(
                files[j],
            )) && total_size(files) >= 20_971_520,
{
    lemma_counts(files);
    if exists|i: int, j: int|
        0 <= i < j < files.len() && #[trigger] is_large(files[i]) && #[trigger] is_large(
            files[j],
        ) {
        let (i, j) = choose|i: int, j: int|
            0 <= i < j < files.len() && #[trigger] is_large(files[i]) && #[trigger] is_large(
                files[j],
            );
        lemma_larges_grow(files, i + 1, j);
        lemma_larges_grow(files, j + 1, files.len() as int);
    }
    if larges(files, files.len() as int) >= 2 {
        let j = lemma_last_large(files, files.len() as int);
        let i = lemma_last_large(files, j);
        assert(is_large(files[i]) && is_large(files[j]));
    }
}

proof fn lemma_larges_grow(files: Seq<SourceFile>, i: int, j: int)
    requires
        0 <= i <= j,
    ensures
        larges(files, i) <= larges(files, j),
    decreases j - i,
{
    if i < j {
        lemma_larges_grow(files, i, j - 1);
    }
}

proof fn lemma_last_large(files: Seq<SourceFile>, n: int) -> (p: int)
    requires
        0 <= n <= files.len(),
        larges(files, n) > 0,
    ensures
        0 <= p < n,
        is_large(files[p]),
        larges(files, p) == larges(files, n) - 1,
    decreases n,
{
    if is_large(files[n - 1]) {
        n - 1
    } else {
        lemma_last_large(files, n - 1)
    }
}

// ---------- The first chain and the normal chains ----------

/// The first chain has the files that are left over. Where they have less than 5 MiB it also has the
/// large and the small file of one pair, the first whose large file is smallest, behind them. All
/// other pairs make a normal chain each, in their order.
pub proof fn first_chain_borrows_when_it_must(files: Seq<SourceFile>)
    requires
        viable(files),
    ensures
        ({
            let s = split(files);
            let left = leftover(files);
            let ps = pairs(files);
            if total_size(left) >= 5_242_880 {
                s.first == left && s.normal == ps
            } else {
                exists|k: int| #[trigger] lends(ps, k) && {
                    &&& s.first.len() == left.len() + if ps[k].1 is Some {
                        2int
                    } else {
                        1
                    }
                    &&& s.first.take(left.len() as int) == left
                    &&& s.first[left.len() as int] == ps[k].0
                    &&& ps[k].1 is Some ==> s.first[left.len() as int + 1] == ps[k].1->0
                    &&& s.normal == ps.take(k) + ps.skip(k + 1)
                }
            }
        }),
{
    let s = split(files);
    let left = leftover(files);
    let ps = pairs(files);
    if total_size(left) < 5_242_880 {
        let k = smallest_pair(ps);
        smallest_pair_is_first_minimum(ps);
        assert(lends(ps, k));
        assert(s.first.take(left.len() as int) =~= left);
        assert(s.normal =~= ps.take(k) + ps.skip(k + 1));
    }
}

/// Whether pair `k` is the first of those whose large file is smallest.
pub open spec fn lends(ps: Seq<Pair>, k: int) -> bool {
    &&& 0 <= k < ps.len()
    &&& forall|i: int| 0 <= i < k ==> (#[trigger] ps[i]).0.size > ps[k].0.size
    &&& forall|i: int| k < i < ps.len() ==> (#[trigger] ps[i]).0.size >= ps[k].0.size
}

/// In the archive the first chain's files come first, all of them streamed. Then come the normal
/// chains' files, pair by pair: the large one, which is copied, and the small one, which is streamed.
pub proof fn files_are_placed_in_chain_order(s: Split, k: int)
    requires
        0 <= k < s.normal.len(),
    ensures
        ({
            let ps = placed(s);
            let at = place_of_pair(s, k);
            let (large, small) = s.normal[k];
            &&& forall|i: int|
                0 <= i < s.first.len() ==> #[trigger] ps[i] == (Placement {
                    id: s.first[i].id,
                    name: s.first[i].name,
                    size: s.first[i].size,
                    streamed: true,
                })
            &&& 0 <= at < ps.len()
            &&& ps[at] == (Placement {
                id: large.id,
                name: large.name,
                size: large.size,
                streamed: false,
            })
            &&& small is Some ==> at + 1 < ps.len() && ps[at + 1] == (Placement {
                id: small->0.id,
                name: small->0.name,
                size: small->0.size,
                streamed: true,
            })
            &&& k == s.normal.len() - 1 ==> ps.len() == at + if small is Some {
                2int
            } else {
                1
            }
        }),
{
    lemma_place_of_pair(s.normal, k);
    let ps = placed(s);
    assert forall|i: int| 0 <= i < s.first.len() implies #[trigger] ps[i] == (Placement {
        id: s.first[i].id,
        name: s.first[i].name,
        size: s.first[i].size,
        streamed: true,
    }) by {
        assert(ps[i] == place(s.first[i], true));
    }
    let at = place_of_pair(s, k) - s.first.len();
    assert(ps[s.first.len() + at] == place_pairs(s.normal)[at]);
    if s.normal[k].1 is Some {
        assert(ps[s.first.len() + at + 1] == place_pairs(s.normal)[at + 1]);
    }
}

/// Where pair `k` stands in the archive order: behind the first chain's files and the files of the
/// pairs before it.
pub open spec fn place_of_pair(s: Split, k: int) -> int {
    (s.first.len() + files_in(s.normal, k)) as int
}

/// How many files the first `k` pairs have.
pub open spec fn files_in(normal: Seq<Pair>, k: int) -> nat
    decreases k,
{
    if k <= 0 {
        0
    } else {
        files_in(normal, k - 1) + if normal[k - 1].1 is Some {
            2nat
        } else {
            1
        }
    }
}

proof fn lemma_files_in_prefix(normal: Seq<Pair>, k: int)
    requires
        0 <= k < normal.len(),
    ensures
        files_in(normal.drop_last(), k) == files_in(normal, k),
    decreases k,
{
    if k > 0 {
        lemma_files_in_prefix(normal, k - 1);
    }
}

proof fn lemma_place_pairs_len(normal: Seq<Pair>)
    ensures
        place_pairs(normal).len() == files_in(normal, normal.len() as int),
    decreases normal.len(),
{
    if normal.len() > 0 {
        lemma_place_pairs_len(normal.drop_last());
        lemma_files_in_prefix(normal, normal.len() - 1);
    }
}

proof fn lemma_place_of_pair(normal: Seq<Pair>, k: int)
    requires
        0 <= k < normal.len(),
    ensures
        ({
            let ps = place_pairs(normal);
            let at = files_in(normal, k) as int;
            &&& at < ps.len()
            &&& ps[at] == place(normal[k].0, false)
            &&& normal[k].1 is Some ==> at + 1 < ps.len() && ps[at + 1] == place(
                normal[k].1->0,
                true,
            )
            &&& k == normal.len() - 1 ==> ps.len() == at + if normal[k].1 is Some {
                2int
            } else {
                1
            }
        }),
    decreases normal.len(),
{
    let front = normal.drop_last();
    lemma_place_pairs_len(front);
    lemma_files_in_prefix(normal, normal.len() - 1);
    lemma_files_in_prefix(normal, k);
    if k < normal.len() - 1 {
        lemma_place_of_pair(front, k);
    }
}

// ---------- Copied files ----------

/// The files in the `Copy` parts of a chain, in order.
pub open spec fn copies_in(parts: Seq<PartModel>) -> Seq<FileId>
    decreases parts.len(),
{
    if parts.len() == 0 {
        Seq::empty()
    } else {
        copies_in(parts.drop_last()) + match parts.last() {
            PartModel::Copy { id, .. } => seq![id],
            PartModel::Stream { .. } => Seq::empty(),
        }
    }
}

/// The files in the `Copy` parts of all chains, in chain order.
pub open spec fn copies_of(cs: Seq<ChainModel>) -> Seq<FileId>
    decreases cs.len(),
{
    if cs.len() == 0 {
        Seq::empty()
    } else {
        copies_of(cs.drop_last()) + copies_in(cs.last().parts)
    }
}

/// The files that are placed without being streamed, in archive order.
pub open spec fn unstreamed(ps: Seq<Placement>) -> Seq<FileId>
    decreases ps.len(),
{
    if ps.len() == 0 {
        Seq::empty()
    } else {
        unstreamed(ps.drop_last()) + if ps.last().streamed {
            Seq::empty()
        } else {
            seq![ps.last().id]
        }
    }
}

proof fn lemma_no_copies(parts: Seq<PartModel>)
    requires
        forall|i: int| 0 <= i < parts.len() ==> (#[trigger] parts[i]) is Stream,
    ensures
        copies_in(parts) == Seq::<FileId>::empty(),
    decreases parts.len(),
{
    if parts.len() > 0 {
        let front = parts.drop_last();
        assert forall|i: int| 0 <= i < front.len() implies (#[trigger] front[i]) is Stream by {
            assert(front[i] == parts[i]);
        }
        lemma_no_copies(front);
        assert(parts[parts.len() - 1] is Stream);
        assert(copies_in(parts) =~= Seq::<FileId>::empty());
    }
}

proof fn lemma_copies_prefix(s: Split, n: int)
    requires
        0 <= n <= s.normal.len(),
    ensures
        copies_of(chains(s).take(n + 1)) == copied_ids(s.normal).take(n),
    decreases n,
{
    let cs = chains(s);
    if n == 0 {
        let parts = cs[0].parts;
        lemma_no_copies(parts);
        assert(cs.take(1).drop_last() =~= Seq::empty());
        assert(copies_of(cs.take(1)) =~= copied_ids(s.normal).take(0)) by {
            reveal_with_fuel(copies_of, 2);
        }
    } else {
        lemma_copies_prefix(s, n - 1);
        assert(cs.take(n + 1).drop_last() =~= cs.take(n));
        let parts = cs[n].parts;
        assert(cs[n] == normal_chain(s.normal, n - 1));
        assert(parts.drop_last().drop_last() =~= Seq::empty());
        assert(copies_in(parts) =~= seq![s.normal[n - 1].0.id]) by {
            reveal_with_fuel(copies_in, 3);
        }
        assert(copied_ids(s.normal).take(n) =~= copied_ids(s.normal).take(n - 1).push(
            s.normal[n - 1].0.id,
        ));
        assert(copies_of(cs.take(n + 1)) =~= copied_ids(s.normal).take(n));
    }
}

proof fn lemma_unstreamed_add(a: Seq<Placement>, b: Seq<Placement>)
    ensures
        unstreamed(a + b) == unstreamed(a) + unstreamed(b),
    decreases b.len(),
{
    if b.len() == 0 {
        assert(a + b =~= a);
        assert(unstreamed(a) + unstreamed(b) =~= unstreamed(a));
    } else {
        assert((a + b).drop_last() =~= a + b.drop_last());
        lemma_unstreamed_add(a, b.drop_last());
        assert(unstreamed(a + b) =~= unstreamed(a) + unstreamed(b));
    }
}

proof fn lemma_all_streamed(ps: Seq<Placement>)
    requires
        forall|i: int| 0 <= i < ps.len() ==> (#[trigger] ps[i]).streamed,
    ensures
        unstreamed(ps) == Seq::<FileId>::empty(),
    decreases ps.len(),
{
    if ps.len() > 0 {
        let front = ps.drop_last();
        assert forall|i: int| 0 <= i < front.len() implies (#[trigger] front[i]).streamed by {
            assert(front[i] == ps[i]);
        }
        lemma_all_streamed(front);
        assert(ps[ps.len() - 1].streamed);
        assert(unstreamed(ps) =~= Seq::<FileId>::empty());
    }
}

proof fn lemma_unstreamed_pairs(normal: Seq<Pair>)
    ensures
        unstreamed(place_pairs(normal)) == copied_ids(normal),
    decreases normal.len(),
{
    if normal.len() > 0 {
        let front = normal.drop_last();
        let last = place_pair(normal.last());
        lemma_unstreamed_pairs(front);
        lemma_unstreamed_add(place_pairs(front), last);
        assert(unstreamed(last) =~= seq![normal.last().0.id]) by {
            reveal_with_fuel(unstreamed, 3);
            if last.len() == 2 {
                assert(last.drop_last().drop_last() =~= Seq::empty());
            } else {
                assert(last.drop_last() =~= Seq::empty());
            }
        }
        assert(copied_ids(normal) =~= copied_ids(front).push(normal.last().0.id));
        assert(unstreamed(place_pairs(normal)) =~= copied_ids(normal));
    } else {
        assert(copied_ids(normal) =~= Seq::<FileId>::empty());
    }
}

/// The files whose checksum has to be looked up are, in chain order, exactly those in the `Copy`
/// parts of the chains, and exactly those that are placed without being streamed. The first chain
/// copies nothing; each other chain copies one file, in its first part, and streams the rest in its
/// second.
pub proof fn copied_files_are_looked_up(s: Split)
    requires
        s.normal.len() > 0,
    ensures
        copied_ids(s.normal) == copies_of(chains(s)),
        copied_ids(s.normal) == unstreamed(placed(s)),
        chains(s).len() == copied_ids(s.normal).len() + 1,
        forall|p: int| 0 <= p < chains(s)[0].parts.len() ==> (
        #[trigger] chains(s)[0].parts[p]) is Stream,
        forall|k: int|
            0 <= k < copied_ids(s.normal).len() ==> {
                let parts = chains(s)[k + 1].parts;
                &&& parts.len() == 2
                &&& parts[0] matches PartModel::Copy { id, .. }
                &&& id == #[trigger] copied_ids(s.normal)[k]
                &&& parts[1] is Stream
            },
{
    let n = s.normal.len() as int;
    lemma_copies_prefix(s, n);
    assert(chains(s).take(n + 1) =~= chains(s));
    assert(copied_ids(s.normal).take(n) =~= copied_ids(s.normal));
    let head = s.first.map_values(|f: SourceFile| place(f, true));
    lemma_all_streamed(head);
    lemma_unstreamed_pairs(s.normal);
    lemma_unstreamed_add(head, place_pairs(s.normal));
    assert(unstreamed(placed(s)) =~= copied_ids(s.normal));
    assert forall|k: int| 0 <= k < copied_ids(s.normal).len() implies {
        let parts = chains(s)[k + 1].parts;
        &&& parts.len() == 2
        &&& parts[0] matches PartModel::Copy { id, .. }
        &&& id == #[trigger] copied_ids(s.normal)[k]
        &&& parts[1] is Stream
    } by {
        assert(chains(s)[k + 1] == normal_chain(s.normal, k));
    }
}

// ---------- Packing ----------

/// The archive bytes that a file takes: a local header of 30 bytes and the name, 20 bytes more where
/// the size does not fit four bytes, and the body.
pub open spec fn taken(name: Seq<char>, size: nat) -> nat {
    30 + encode_utf8(name).len() + size + if size > 0xFFFF_FFFF {
        20nat
    } else {
        0
    }
}

/// The archive bytes of the files that are streamed in some segments.
pub open spec fn streamed_bytes(segments: Seq<Segment>, table: Map<u32, (String, u64)>) -> nat
    decreases segments.len(),
{
    if segments.len() == 0 {
        0
    } else {
        streamed_bytes(segments.drop_last(), table) + match segments.last() {
            Segment::StreamedFile { id } => taken(table[id.0].0@, table[id.0].1 as nat),
            Segment::CopiedFileHeader { .. } => 0,
        }
    }
}

/// The segments of stream parts, one after another.
pub open spec fn segments_of(parts: Seq<PartModel>) -> Seq<Segment>
    decreases parts.len(),
{
    if parts.len() == 0 {
        Seq::empty()
    } else {
        segments_of(parts.drop_last()) + match parts.last() {
            PartModel::Stream { segments, .. } => segments,
            PartModel::Copy { .. } => Seq::empty(),
        }
    }
}

/// Whether a part was closed as soon as its files reached 5 MiB, and not before.
pub open spec fn closed_in_time(part: PartModel, table: Map<u32, (String, u64)>) -> bool {
    &&& part matches PartModel::Stream { segments, .. }
    &&& segments.len() > 0
    &&& streamed_bytes(segments, table) >= 5_242_880
    &&& streamed_bytes(segments.drop_last(), table) < 5_242_880
}

proof fn lemma_pack(files: Seq<SourceFile>, table: Map<u32, (String, u64)>)
    ensures
        ({
            let p = pack(files, table);
            &&& forall|i: int|
                0 <= i < p.closed.len() ==> closed_in_time(
                    #[trigger] closed_parts(p.closed)[i],
                    table,
                )
            &&& streamed_bytes(p.open, table) == p.open_bytes
            &&& p.open_bytes < 5_242_880
            &&& segments_of(closed_parts(p.closed)) + p.open == files.map_values(
                |f: SourceFile| Segment::StreamedFile { id: f.id },
            )
        }),
    decreases files.len(),
{
    let p = pack(files, table);
    let wanted = files.map_values(|f: SourceFile| Segment::StreamedFile { id: f.id });
    if files.len() == 0 {
        assert(segments_of(closed_parts(p.closed)) + p.open =~= wanted);
    } else {
        let front = files.drop_last();
        let before = pack(front, table);
        lemma_pack(front, table);
        let segments = before.open.push(Segment::StreamedFile { id: files.last().id });
        let front_wanted = front.map_values(|f: SourceFile| Segment::StreamedFile { id: f.id });
        assert(segments.drop_last() =~= before.open);
        assert(wanted =~= front_wanted.push(Segment::StreamedFile { id: files.last().id }));
        let closed = segments_of(closed_parts(before.closed));
        assert(closed + segments =~= wanted);
        if p.closed.len() > before.closed.len() {
            let parts = closed_parts(p.closed);
            assert(parts.drop_last() =~= closed_parts(before.closed));
            assert(segments_of(parts) == closed + segments);
            assert(segments_of(parts) + p.open =~= wanted);
            assert forall|i: int| 0 <= i < p.closed.len() implies closed_in_time(
                #[trigger] parts[i],
                table,
            ) by {
                if i < before.closed.len() {
                    assert(parts[i] == closed_parts(before.closed)[i]);
                }
            }
        }
    }
}

/// The first chain streams its files in order. Each of its parts but the last ends with the file that
/// takes it to 5 MiB. The last part has the rest, less than 5 MiB, and ends with the header of the
/// first copied file.
pub proof fn first_chain_is_packed_in_order(
    files: Seq<SourceFile>,
    table: Map<u32, (String, u64)>,
    first_big: FileId,
)
    ensures
        ({
            let parts = first_chain(files, table, first_big).parts;
            let last = parts.last();
            &&& parts.len() > 0
            &&& forall|i: int|
                0 <= i < parts.len() - 1 ==> closed_in_time(#[trigger] parts[i], table)
            &&& last matches PartModel::Stream { segments, .. }
            &&& segments.len() > 0
            &&& segments.last() == (Segment::CopiedFileHeader { id: first_big })
            &&& streamed_bytes(segments.drop_last(), table) < 5_242_880
            &&& segments_of(parts) == files.map_values(
                |f: SourceFile| Segment::StreamedFile { id: f.id },
            ).push(Segment::CopiedFileHeader { id: first_big })
        }),
{
    let p = pack(files, table);
    let parts = first_chain(files, table, first_big).parts;
    lemma_pack(files, table);
    let header = Segment::CopiedFileHeader { id: first_big };
    assert(parts.drop_last() =~= closed_parts(p.closed));
    assert(p.open.push(header).drop_last() =~= p.open);
    let closed = segments_of(closed_parts(p.closed));
    assert(closed + p.open.push(header) =~= (closed + p.open).push(header));
    assert forall|i: int| 0 <= i < parts.len() - 1 implies closed_in_time(
        #[trigger] parts[i],
        table,
    ) by {
        assert(parts[i] == closed_parts(p.closed)[i]);
    }
}

/// A normal chain streams its small file, if it has one, and behind it the header of the file that
/// the next chain copies, if there is a next chain.
pub proof fn normal_chains_hand_on_the_header(s: Split, k: int)
    requires
        0 <= k < s.normal.len(),
    ensures
        ({
            let (large, small) = s.normal[k];
            let has_next = k + 1 < s.normal.len();
            &&& chains(s)[k + 1].parts[1] matches PartModel::Stream { segments, .. }
            &&& segments.len() == (if small is Some {
                1int
            } else {
                0
            }) + (if has_next {
                1int
            } else {
                0
            })
            &&& small is Some ==> segments[0] == (Segment::StreamedFile { id: small->0.id })
            &&& has_next ==> segments.last() == (Segment::CopiedFileHeader {
                id: s.normal[k + 1].0.id,
            })
        }),
{
    assert(chains(s)[k + 1] == normal_chain(s.normal, k));
}

// ---------- Whole plans ----------

/// Whether `p` is what the planner makes of the files.
pub open spec fn is_plan_of(p: Plan, files: Seq<SourceFile>) -> bool {
    let s = split(files);
    &&& p.order@ == ids(placed(s))
    &&& p.entries@ == entry_table(placed(s), placed(s).len() as int)
    &&& chain_views(p.chains@) == chains(s)
    &&& p.copyable@ == copied_ids(s.normal)
}

proof fn lemma_unstreamed_contains(ps: Seq<Placement>, id: FileId)
    ensures
        unstreamed(ps).contains(id) <==> exists|j: int|
            0 <= j < ps.len() && !(#[trigger] ps[j]).streamed && ps[j].id == id,
    decreases ps.len(),
{
    if ps.len() > 0 {
        let front = ps.drop_last();
        lemma_unstreamed_contains(front, id);
        let last = ps.len() - 1;
        let all = unstreamed(ps);
        if all.contains(id) {
            let k = choose|k: int| 0 <= k < all.len() && all[k] == id;
            if k < unstreamed(front).len() {
                assert(unstreamed(front)[k] == id);
                let j = choose|j: int|
                    0 <= j < front.len() && !(#[trigger] front[j]).streamed && front[j].id == id;
                assert(ps[j] == front[j]);
            } else {
                assert(!ps[last].streamed && ps[last].id == id);
            }
        }
        if exists|j: int| 0 <= j < ps.len() && !(#[trigger] ps[j]).streamed && ps[j].id == id {
            let j = choose|j: int|
                0 <= j < ps.len() && !(#[trigger] ps[j]).streamed && ps[j].id == id;
            if j < last {
                assert(front[j] == ps[j]);
                let k = choose|k: int|
                    0 <= k < unstreamed(front).len() && unstreamed(front)[k] == id;
                assert(all[k] == id);
            } else {
                assert(all[unstreamed(front).len() as int] == id);
            }
        }
    }
}

proof fn lemma_bytes_before_grow(ps: Seq<Placement>, i: int, j: int)
    requires
        i <= j,
    ensures
        bytes_before(ps, i) <= bytes_before(ps, j),
    decreases j - i,
{
    if i < j {
        lemma_bytes_before_grow(ps, i, j - 1);
    }
}

/// Whether entry `e` is that of a listed file: its name and its size, no checksum yet, and streamed
/// unless the file is one whose checksum is looked up.
pub open spec fn is_entry_of(e: Entry, file: SourceFile, copyable: Seq<FileId>) -> bool {
    &&& e.id == file.id
    &&& e.name@ == file.name@
    &&& e.size == file.size
    &&& e.crc is None
    &&& e.streamed == !copyable.contains(file.id)
}

/// Every listed file has its entry in the plan, and stands in the order exactly once. It is streamed
/// unless its checksum is looked up, which is done for large files only.
pub proof fn plan_has_every_file(p: Plan, files: Seq<SourceFile>, f: int)
    requires
        viable(files),
        distinct_ids(files),
        is_plan_of(p, files),
        0 <= f < files.len(),
    ensures
        p.order@.len() == files.len(),
        p.order@.no_duplicates(),
        p.entries@.len() == files.len(),
        p.order@.contains(files[f].id),
        p.entries@.contains_key(files[f].id.0),
        is_entry_of(p.entries@[files[f].id.0], files[f], p.copyable@),
        p.copyable@.contains(files[f].id) ==> files[f].size >= 5_242_880,
{
    let s = split(files);
    let ps = placed(s);
    let fs = files_of(s);
    let file = files[f];
    every_file_is_placed_once(files);
    every_file_has_its_entry(files);
    smallest_pair_is_first_minimum(pairs(files));
    copied_files_are_looked_up(s);
    files.to_multiset_ensures();
    fs.to_multiset_ensures();
    lemma_placements_distinct(files);
    assert(files.contains(file));
    assert(files.to_multiset().count(file) > 0);
    assert(fs.contains(file));
    let j = choose|j: int| 0 <= j < fs.len() && fs[j] == file;
    assert(ps[j] == place(fs[j], ps[j].streamed));
    assert(ids(ps)[j] == file.id);
    assert(p.entries@.contains_key(ps[j].id.0));
    lemma_unstreamed_contains(ps, file.id);
    if p.copyable@.contains(file.id) {
        let k = choose|k: int|
            0 <= k < ps.len() && !(#[trigger] ps[k]).streamed && ps[k].id == file.id;
        assert(ps[k].id == ps[j].id);
        assert(k == j);
        lemma_unstreamed_is_large(files, j);
    }
}

/// What is placed without being streamed is large.
proof fn lemma_unstreamed_is_large(files: Seq<SourceFile>, j: int)
    requires
        viable(files),
        0 <= j < placed(split(files)).len(),
        !placed(split(files))[j].streamed,
    ensures
        placed(split(files))[j].size >= 5_242_880,
{
    let s = split(files);
    let ps = placed(s);
    assert(j >= s.first.len()) by {
        if j < s.first.len() {
            assert(ps[j] == place(s.first[j], true));
        }
    }
    lemma_normal_pairs_large(files);
    lemma_unstreamed_pair_is_large(s.normal, j - s.first.len());
    assert(ps[j] == place_pairs(s.normal)[j - s.first.len()]);
}

proof fn lemma_normal_pairs_large(files: Seq<SourceFile>)
    requires
        viable(files),
    ensures
        forall|k: int|
            0 <= k < split(files).normal.len() ==> is_large(
                (#[trigger] split(files).normal[k]).0,
            ),
{
    let ps = pairs(files);
    smallest_pair_is_first_minimum(ps);
    assert forall|i: int| 0 <= i < ps.len() implies is_large((#[trigger] ps[i]).0) by {
        lemma_copyables_are_large(files, i);
    }
}

proof fn lemma_copyables_are_large(files: Seq<SourceFile>, i: int)
    requires
        0 <= i < copyables(files).len(),
    ensures
        is_large(copyables(files)[i]),
    decreases files.len(),
{
    reveal(Seq::filter);
    if files.len() > 0 && i < copyables(files.drop_last()).len() {
        lemma_copyables_are_large(files.drop_last(), i);
    }
}

proof fn lemma_unstreamed_pair_is_large(normal: Seq<Pair>, j: int)
    requires
        forall|k: int| 0 <= k < normal.len() ==> is_large((#[trigger] normal[k]).0),
        0 <= j < place_pairs(normal).len(),
        !place_pairs(normal)[j].streamed,
    ensures
        place_pairs(normal)[j].size >= 5_242_880,
    decreases normal.len(),
{
    if normal.len() > 0 {
        let front = normal.drop_last();
        assert forall|k: int| 0 <= k < front.len() implies is_large((#[trigger] front[k]).0) by {
            assert(front[k] == normal[k]);
        }
        if j < place_pairs(front).len() {
            lemma_unstreamed_pair_is_large(front, j);
        } else {
            assert(is_large(normal[normal.len() - 1].0));
        }
    }
}

/// In a plan's order the first entry stands at offset 0 and each other one where the one before it
/// ends, behind that one's header and body.
pub proof fn plan_offsets_follow_one_another(p: Plan, files: Seq<SourceFile>, i: int)
    requires
        viable(files),
        distinct_ids(files),
        entries_len(split(files)) <= u64::MAX,
        is_plan_of(p, files),
        0 <= i < p.order@.len(),
    ensures
        ({
            let here = p.entries@[p.order@[i].0];
            let before = p.entries@[p.order@[i - 1].0];
            &&& here.id == p.order@[i]
            &&& here.local_header_offset == if i == 0 {
                0
            } else {
                before.local_header_offset + taken(before.name@, before.size as nat)
            }
        }),
{
    let ps = placed(split(files));
    every_file_has_its_entry(files);
    lemma_placements_distinct(files);
    lemma_offset_is_bytes_before(ps, ps.len() as int);
    lemma_bytes_before_grow(ps, i, ps.len() as int);
    assert(p.order@[i] == ps[i].id);
    if i > 0 {
        lemma_bytes_before_grow(ps, i - 1, ps.len() as int);
        assert(p.order@[i - 1] == ps[i - 1].id);
    }
}

/// In a plan the checksums that are looked up are those of the copied files, chain by chain: the
/// first part of chain `k + 1` copies file number `k` of the list. The first chain copies nothing.
pub proof fn plan_looks_up_what_it_copies(p: Plan, files: Seq<SourceFile>)
    requires
        viable(files),
        files.len() < u32::MAX,
        is_plan_of(p, files),
    ensures
        p.copyable@.len() > 0,
        p.chains@.len() == p.copyable@.len() + 1,
        forall|c: int|
            0 <= c < p.chains@.len() ==> (#[trigger] p.chains@[c]).final_merge_part_number == c + 1,
        forall|i: int|
            0 <= i < p.chains@[0].parts@.len() ==> (
            #[trigger] p.chains@[0].parts@[i]) is Stream,
        forall|k: int|
            0 <= k < p.copyable@.len() ==> copies_first(p.chains@[k + 1], #[trigger] p.copyable@[k]),
{
    let s = split(files);
    every_file_is_placed_once(files);
    smallest_pair_is_first_minimum(pairs(files));
    lemma_place_pairs_len(s.normal);
    lemma_files_in_bound(s.normal, s.normal.len() as int);
    copied_files_are_looked_up(s);
    part_numbers_are_consecutive(s);
    let cs = p.chains@;
    assert(cs.len() == chain_views(cs).len());
    assert forall|c: int| 0 <= c < cs.len() implies (
    #[trigger] cs[c]).final_merge_part_number == c + 1 by {
        assert(chain_views(cs)[c] == cs[c]@);
    }
    assert(chain_views(cs)[0] == cs[0]@);
    assert forall|i: int| 0 <= i < cs[0].parts@.len() implies (
    #[trigger] cs[0].parts@[i]) is Stream by {
        assert(part_views(cs[0].parts@)[i] == cs[0].parts@[i]@);
        assert(chains(s)[0].parts[i] is Stream);
    }
    assert forall|k: int| 0 <= k < p.copyable@.len() implies copies_first(
        cs[k + 1],
        #[trigger] p.copyable@[k],
    ) by {
        assert(chain_views(cs)[k + 1] == cs[k + 1]@);
        assert(copied_ids(s.normal)[k] == p.copyable@[k]);
        let parts = chains(s)[k + 1].parts;
        assert(parts == part_views(cs[k + 1].parts@));
        assert(parts.len() == cs[k + 1].parts@.len());
        assert(part_number(chains(s)[k + 1].parts[0]) == 1);
        assert(part_number(chains(s)[k + 1].parts[1]) == 2);
        assert(part_views(cs[k + 1].parts@)[0] == cs[k + 1].parts@[0]@);
        assert(part_views(cs[k + 1].parts@)[1] == cs[k + 1].parts@[1]@);
    }
}

/// Whether a chain has two parts, of which the first copies the file and the second is streamed.
pub open spec fn copies_first(chain: Chain, file: FileId) -> bool {
    &&& chain.parts@.len() == 2
    &&& chain.parts@[0] matches PartSpec::Copy { part_number, id }
    &&& part_number == 1
    &&& id == file
    &&& chain.parts@[1] matches PartSpec::Stream { part_number: second, .. }
    &&& second == 2
}

proof fn lemma_files_in_bound(normal: Seq<Pair>, k: int)
    requires
        0 <= k,
    ensures
        k <= files_in(normal, k),
    decreases k,
{
    if k > 0 {
        lemma_files_in_bound(normal, k - 1);
    }
}

// ---------- Files with the same number ----------

proof fn lemma_last_in_tables(ps: Seq<Placement>, n: int, i: int)
    requires
        0 <= i < n <= ps.len(),
        forall|j: int| i < j < ps.len() ==> (#[trigger] ps[j]).id != ps[i].id,
    ensures
        size_table(ps.take(n))[ps[i].id.0] == (ps[i].name, ps[i].size),
        streamed_table(ps.take(n))[ps[i].id.0] == ps[i].streamed,
        entry_table(ps, n).contains_key(ps[i].id.0),
        entry_table(ps, n)[ps[i].id.0] == entry_at(ps, i),
    decreases n,
{
    assert(ps.take(n).drop_last() =~= ps.take(n - 1));
    if i < n - 1 {
        lemma_last_in_tables(ps, n - 1, i);
        assert(ps[n - 1].id != ps[i].id);
    }
}

/// Of files with the same number the last in archive order gives the entry: its name, its size,
/// whether it is streamed, and where it stands.
pub proof fn last_placement_gives_the_entry(ps: Seq<Placement>, i: int)
    requires
        0 <= i < ps.len(),
        forall|j: int| i < j < ps.len() ==> (#[trigger] ps[j]).id != ps[i].id,
    ensures
        ({
            let entries = entry_table(ps, ps.len() as int);
            &&& entries.contains_key(ps[i].id.0)
            &&& entries[ps[i].id.0] == (Entry {
                id: ps[i].id,
                name: ps[i].name,
                size: ps[i].size,
                local_header_offset: offset_in(ids(ps), size_table(ps), i) as u64,
                crc: None,
                streamed: ps[i].streamed,
            })
        }),
{
    lemma_last_in_tables(ps, ps.len() as int, i);
    assert(ps.take(ps.len() as int) =~= ps);
}

/// Each entry starts where the one before it in the order ends.
pub proof fn offsets_follow_one_another(
    order: Seq<FileId>,
    table: Map<u32, (String, u64)>,
    i: int,
)
    requires
        0 <= i,
    ensures
        offset_in(order, table, 0) == 0,
        offset_in(order, table, i + 1) == offset_in(order, table, i) + taken(
            table[order[i].0].0@,
            table[order[i].0].1 as nat,
        ),
{
}

/// The models of parts and chains show what these hold.
pub proof fn models_show_the_parts(chain: Chain, p: int)
    requires
        0 <= p < chain.parts@.len(),
    ensures
        chain@.final_merge_part_number == chain.final_merge_part_number,
        chain@.parts.len() == chain.parts@.len(),
        match chain.parts@[p] {
            PartSpec::Copy { part_number, id } => chain@.parts[p] == (PartModel::Copy {
                part_number,
                id,
            }),
            PartSpec::Stream { part_number, segments } => chain@.parts[p] == (PartModel::Stream {
                part_number,
                segments: segments@,
            }),
        },
{
    assert(part_views(chain.parts@)[p] == chain.parts@[p]@);
}

/// The order names the placed files one by one.
pub proof fn order_names_the_placed_files(ps: Seq<Placement>, i: int)
    requires
        0 <= i < ps.len(),
    ensures
        ids(ps).len() == ps.len(),
        ids(ps)[i] == ps[i].id,
{
}

/// The models of chains stand one for one.
pub proof fn models_stand_one_for_one(chains: Seq<Chain>, c: int)
    requires
        0 <= c < chains.len(),
    ensures
        chain_views(chains).len() == chains.len(),
        chain_views(chains)[c] == chains[c]@,
{
}

} // verus!
