//! The headers blob `H`: a single object that holds every entry's ZIP local header,
//! one after another, so that any header can be placed into a chain by a
//! server-side copy of a byte range.
//!
//! The header bytes are the same whether they are streamed or copied from `H`: both
//! come from [`local_header`]. `H` is the concatenation of those headers, with a
//! byte range for each file.

use std::collections::HashMap;

use vstd::prelude::*;

use crate::engine::plan::FileId;
use crate::engine::zip_format::{local_header, EntryMeta};
use crate::zip_format::{le32, loc_size_is_record_length};

verus! {

/// Layout of the headers blob: its length and each entry's byte range in it, by
/// file number.
#[derive(Debug, Clone)]
pub struct HeaderBlob {
    pub bytes_len: u64,
    pub ranges: HashMap<u32, HeaderRange>,
}

impl Default for HeaderBlob {
    fn default() -> (blob: Self)
        ensures
            blob.bytes_len == 0,
            blob.ranges@ == Map::<u32, HeaderRange>::empty(),
    {
        HeaderBlob { bytes_len: 0, ranges: HashMap::new() }
    }
}

/// A single header's place in `H`: `[offset, offset + len)`.
#[derive(Debug, Clone, Copy, PartialEq, Eq, Structural)]
pub struct HeaderRange {
    pub offset: u64,
    pub len: u64,
}

impl HeaderRange {
    /// The byte after the last.
    pub fn end(&self) -> (e: u64)
        requires
            self.offset + self.len <= u64::MAX,
        ensures
            e == self.offset + self.len,
    {
        self.offset + self.len
    }
}

/// The blob of some entries: their local headers one after another.
pub open spec fn blob_bytes(metas: Seq<(FileId, EntryMeta)>) -> Seq<u8>
    decreases metas.len(),
{
    if metas.len() == 0 {
        Seq::empty()
    } else {
        blob_bytes(metas.drop_last()) + metas.last().1.header()
    }
}

/// Where the header of entry `i` stands: after the headers of the entries before it.
pub open spec fn range_at(metas: Seq<(FileId, EntryMeta)>, i: int) -> HeaderRange {
    HeaderRange {
        offset: blob_bytes(metas.take(i)).len() as u64,
        len: metas[i].1.header().len() as u64,
    }
}

/// The ranges of the first `n` entries by file number. A file that comes twice
/// has the range of its last header.
pub open spec fn range_table(metas: Seq<(FileId, EntryMeta)>, n: int) -> Map<u32, HeaderRange>
    decreases n,
{
    if n <= 0 {
        Map::empty()
    } else {
        range_table(metas, n - 1).insert(metas[n - 1].0.0, range_at(metas, n - 1))
    }
}

/// Builds `H` for the given entries. Each entry contributes exactly its local
/// header.
pub fn build_header_blob(metas: Vec<(FileId, EntryMeta)>) -> (r: (Vec<u8>, HeaderBlob))
    requires
        blob_bytes(metas@).len() <= usize::MAX,
    ensures
        r.0@ == blob_bytes(metas@),
        r.1.bytes_len == blob_bytes(metas@).len(),
        r.1.ranges@ == range_table(metas@, metas@.len() as int),
{
    let mut bytes: Vec<u8> = Vec::new();
    let mut ranges: HashMap<u32, HeaderRange> = HashMap::new();
    let mut i: usize = 0;
    assert(metas@.take(0) =~= Seq::empty());
    while i < metas.len()
        invariant
            i <= metas@.len(),
            blob_bytes(metas@).len() <= usize::MAX,
            bytes@ == blob_bytes(metas@.take(i as int)),
            ranges@ == range_table(metas@, i as int),
        decreases metas.len() - i,
    {
        proof {
            assert(metas@.take(i + 1).drop_last() =~= metas@.take(i as int));
            lemma_blob_prefix(metas@, i + 1);
            loc_size_is_record_length(metas@[i as int].1.loc(), le32(metas@[i as int].1.crc));
        }
        let header = local_header(&metas[i].1);
        let offset: u64 = bytes.len() as u64;
        let len: u64 = header.len() as u64;
        bytes.extend_from_slice(header.as_slice());
        ranges.insert(metas[i].0.0, HeaderRange { offset, len });
        i = i + 1;
        assert(bytes@ =~= blob_bytes(metas@.take(i as int)));
    }
    assert(metas@.take(i as int) =~= metas@);
    let bytes_len: u64 = bytes.len() as u64;
    (bytes, HeaderBlob { bytes_len, ranges })
}

/// The blob of the first entries is a prefix of the blob.
proof fn lemma_blob_prefix(metas: Seq<(FileId, EntryMeta)>, n: int)
    requires
        0 <= n <= metas.len(),
    ensures
        blob_bytes(metas.take(n)).len() <= blob_bytes(metas).len(),
        blob_bytes(metas).take(blob_bytes(metas.take(n)).len() as int) == blob_bytes(metas.take(n)),
    decreases metas.len(),
{
    if n < metas.len() {
        lemma_blob_prefix(metas.drop_last(), n);
        assert(metas.drop_last().take(n) =~= metas.take(n));
        let k = blob_bytes(metas.take(n)).len() as int;
        assert(blob_bytes(metas).take(k) =~= blob_bytes(metas.drop_last()).take(k));
    } else {
        assert(metas.take(n) =~= metas);
        assert(blob_bytes(metas).take(blob_bytes(metas).len() as int) =~= blob_bytes(metas));
    }
}

/// The ranges cover the blob in order, without gaps: the first starts at 0, each
/// starts where the one before it ends, and the last ends with the blob.
pub proof fn ranges_are_contiguous(metas: Seq<(FileId, EntryMeta)>, i: int)
    requires
        blob_bytes(metas).len() <= u64::MAX,
        0 <= i < metas.len(),
    ensures
        range_at(metas, i).offset == if i == 0 {
            0
        } else {
            range_at(metas, i - 1).offset + range_at(metas, i - 1).len
        },
        i == metas.len() - 1 ==> range_at(metas, i).offset + range_at(metas, i).len == blob_bytes(
            metas,
        ).len(),
{
    if i == 0 {
        assert(metas.take(0) =~= Seq::empty());
    } else {
        assert(metas.take(i).drop_last() =~= metas.take(i - 1));
        lemma_blob_prefix(metas, i);
    }
    if i == metas.len() - 1 {
        assert(metas.take(i) =~= metas.drop_last());
    }
}

/// The bytes of the blob in an entry's range are the entry's local header.
pub proof fn range_holds_the_header(metas: Seq<(FileId, EntryMeta)>, i: int)
    requires
        blob_bytes(metas).len() <= u64::MAX,
        0 <= i < metas.len(),
    ensures
        range_at(metas, i).offset + range_at(metas, i).len <= blob_bytes(metas).len(),
        blob_bytes(metas).subrange(
            range_at(metas, i).offset as int,
            range_at(metas, i).offset + range_at(metas, i).len,
        ) == metas[i].1.header(),
{
    let start = blob_bytes(metas.take(i)).len() as int;
    let header = metas[i].1.header();
    assert(metas.take(i + 1).drop_last() =~= metas.take(i));
    lemma_blob_prefix(metas, i + 1);
    let upto = blob_bytes(metas.take(i + 1));
    assert(upto.subrange(start, start + header.len()) =~= header);
    assert(blob_bytes(metas).subrange(start, start + header.len()) =~= blob_bytes(metas).take(
        upto.len() as int,
    ).subrange(start, start + header.len()));
}

/// Where no file comes twice, the table has for every entry the range of its
/// header, and nothing else.
pub proof fn table_has_every_range(metas: Seq<(FileId, EntryMeta)>)
    requires
        forall|i: int, j: int|
            0 <= i < metas.len() && 0 <= j < metas.len() && i != j ==> (#[trigger] metas[i]).0 != (
            #[trigger] metas[j]).0,
    ensures
        forall|i: int|
            0 <= i < metas.len() ==> range_table(metas, metas.len() as int).contains_key(
                (#[trigger] metas[i]).0.0,
            ) && range_table(metas, metas.len() as int)[metas[i].0.0] == range_at(metas, i),
        forall|key: u32| #[trigger]
            range_table(metas, metas.len() as int).contains_key(key) ==> exists|i: int|
                0 <= i < metas.len() && (#[trigger] metas[i]).0.0 == key,
{
    let n = metas.len() as int;
    assert forall|i: int| 0 <= i < metas.len() implies range_table(metas, n).contains_key(
        (#[trigger] metas[i]).0.0,
    ) && range_table(metas, n)[metas[i].0.0] == range_at(metas, i) by {
        lemma_range_kept(metas, n, i);
    }
    lemma_table_keys(metas, n);
}

/// A file that comes more than once has the range of its last header.
pub proof fn last_range_stays(metas: Seq<(FileId, EntryMeta)>, i: int)
    requires
        0 <= i < metas.len(),
        forall|j: int| i < j < metas.len() ==> (#[trigger] metas[j]).0 != metas[i].0,
    ensures
        range_table(metas, metas.len() as int).contains_key(metas[i].0.0),
        range_table(metas, metas.len() as int)[metas[i].0.0] == range_at(metas, i),
{
    lemma_last_range(metas, metas.len() as int, i);
}

proof fn lemma_last_range(metas: Seq<(FileId, EntryMeta)>, n: int, i: int)
    requires
        0 <= i < n <= metas.len(),
        forall|j: int| i < j < metas.len() ==> (#[trigger] metas[j]).0 != metas[i].0,
    ensures
        range_table(metas, n).contains_key(metas[i].0.0),
        range_table(metas, n)[metas[i].0.0] == range_at(metas, i),
    decreases n,
{
    if i < n - 1 {
        lemma_last_range(metas, n - 1, i);
        assert(metas[n - 1].0 != metas[i].0);
    }
}

proof fn lemma_range_kept(metas: Seq<(FileId, EntryMeta)>, n: int, i: int)
    requires
        0 <= i < n <= metas.len(),
        forall|i: int, j: int|
            0 <= i < metas.len() && 0 <= j < metas.len() && i != j ==> (#[trigger] metas[i]).0 != (
            #[trigger] metas[j]).0,
    ensures
        range_table(metas, n).contains_key(metas[i].0.0),
        range_table(metas, n)[metas[i].0.0] == range_at(metas, i),
    decreases n,
{
    if i < n - 1 {
        lemma_range_kept(metas, n - 1, i);
        assert(metas[i].0 != metas[n - 1].0);
    }
}

proof fn lemma_table_keys(metas: Seq<(FileId, EntryMeta)>, n: int)
    requires
        0 <= n <= metas.len(),
    ensures
        forall|key: u32| #[trigger]
            range_table(metas, n).contains_key(key) ==> exists|i: int|
                0 <= i < n && (#[trigger] metas[i]).0.0 == key,
    decreases n,
{
    if n > 0 {
        lemma_table_keys(metas, n - 1);
        assert forall|key: u32| #[trigger] range_table(metas, n).contains_key(key) implies exists|
            i: int,
        |
            0 <= i < n && (#[trigger] metas[i]).0.0 == key by {
            if key == metas[n - 1].0.0 {
                assert(metas[n - 1].0.0 == key);
            } else {
                assert(range_table(metas, n - 1).contains_key(key));
            }
        }
    }
}

} // verus!
