//! From S3 responses to archive bytes: how an entry's header and the central directory
//! are written once the checksums are known.

use std::collections::BTreeMap;

use tokio::sync::mpsc::{unbounded_channel, UnboundedReceiver, UnboundedSender};
use vstd::prelude::*;
use vstd::std_specs::iter::IteratorSpec;
use vstd::string::StringExecFns;

use crate::byte_sink::{lemma_offer_fits, lemma_offer_twice, ByteSink, SinkState, SliceBuf};
use crate::error::Error;
use crate::text::{range_of, range_text};
use crate::zip_format::{
    base64_into_four, eocd_size_is_record_length, lemma_crc_len, loc_record,
    loc_size_is_record_length, CentralDirectoryFileHeader, EndOfCentralDirectory64, LocModel,
    LocalFileHeader, NoCRC, ZipSerialize, CRC32,
};

verus! {

// ---------- The channel of completed headers ----------

/// The sending half of `tokio::sync::mpsc`'s unbounded channel.
#[verifier::external_type_specification]
#[verifier::external_body]
#[verifier::reject_recursive_types(T)]
pub struct ExUnboundedSender<T>(UnboundedSender<T>);

/// The receiving half of `tokio::sync::mpsc`'s unbounded channel.
#[verifier::external_type_specification]
#[verifier::external_body]
#[verifier::reject_recursive_types(T)]
pub struct ExUnboundedReceiver<T>(UnboundedReceiver<T>);

/// Where entries deliver their central directory headers.
pub type HeaderSender = UnboundedSender<CentralDirectoryFileHeader>;

/// Where the central directory gets them from.
pub type HeaderReceiver = UnboundedReceiver<CentralDirectoryFileHeader>;

/// Whether the two are halves of one channel, as `tokio::sync::mpsc::unbounded_channel` hands them
/// out: what is sent through the one arrives at the other.
pub uninterp spec fn feeds(sender: HeaderSender, receiver: HeaderReceiver) -> bool;

/// Calls `tokio::sync::mpsc::unbounded_channel`, which hands out the two halves of one channel.
#[verifier::external_body]
pub(crate) fn header_channel() -> (halves: (HeaderSender, HeaderReceiver))
    ensures
        feeds(halves.0, halves.1),
{
    unbounded_channel()
}

/// Calls `UnboundedSender::clone`, which hands out the same channel again.
#[verifier::external_body]
pub(crate) fn share_sender(sender: &HeaderSender) -> (shared: HeaderSender)
    ensures
        shared == *sender,
{
    sender.clone()
}

/// The headers that the channel behind a sender accepts in its lifetime through
/// `UnboundedSender::send`, each with its checksum.
pub uninterp spec fn accepted(sender: HeaderSender) -> Set<(LocModel, Seq<u8>)>;

/// Calls `UnboundedSender::send`. Whether the channel is still open is up to the receiver: where it
/// is, the channel accepts the header; where it is not, the header comes back.
#[verifier::external_body]
fn send_header(sender: &HeaderSender, header: CentralDirectoryFileHeader) -> (sent: Result<
    (),
    CentralDirectoryFileHeader,
>)
    ensures
        sent is Ok ==> accepted(*sender).contains((header@, header.crc()@)),
        sent matches Err(back) ==> back == header,
{
    match sender.send(header) {
        Ok(()) => Ok(()),
        Err(unsent) => Err(unsent.0),
    }
}

// ---------- Responses ----------

/// Whether a result is the failure with the given message.
pub open spec fn fails_with<T>(r: Result<T, Error>, message: Seq<char>) -> bool {
    r matches Err(Error::Custom(m)) && m@ == message
}

/// A value that a response has to hold.
pub fn required(value: Option<String>, message: &str) -> (r: Result<String, Error>)
    ensures
        match value {
            Some(v) => r == Ok::<String, Error>(v),
            None => fails_with(r, message@),
        },
{
    match value {
        Some(v) => Ok(v),
        None => Err(Error::Custom(message.to_owned())),
    }
}

/// The S3 operation that gets a file's content and checksum for an upload part.
#[derive(Debug, Clone, Copy, PartialEq, Eq, Structural)]
pub enum S3ObjectOperation {
    /// Full `GetObject`: downloads the entire body.
    Get,
    /// Ranged `GetObject` for the first `size` bytes, and `HeadObject` for the checksum.
    PartialGet { size: usize },
    /// `HeadObject` only: the body is copied server-side.
    Head,
}

impl S3ObjectOperation {
    /// How many bytes of the body it downloads.
    pub open spec fn body_len(self, file_size: nat) -> nat {
        match self {
            S3ObjectOperation::Get => file_size,
            S3ObjectOperation::PartialGet { size } => size as nat,
            S3ObjectOperation::Head => 0,
        }
    }

    /// What is said where its response lacks the checksum.
    pub open spec fn no_crc_message(self) -> Seq<char> {
        match self {
            S3ObjectOperation::Get => "No CRC32 in the GetObject response"@,
            S3ObjectOperation::PartialGet { .. } => "No CRC32 in the (partial) GetObject response"@,
            S3ObjectOperation::Head => "No CRC32 in the HeadObject response"@,
        }
    }

    /// How many bytes of the body it downloads.
    pub fn download_size(&self, file_size: usize) -> (n: usize)
        ensures
            n == self.body_len(file_size as nat),
    {
        match self {
            S3ObjectOperation::Get => file_size,
            S3ObjectOperation::PartialGet { size } => *size,
            S3ObjectOperation::Head => 0,
        }
    }

    /// The checksum in its response.
    pub fn crc_of(&self, checksum: Option<String>) -> (r: Result<CRC32, Error>)
        ensures
            match checksum {
                None => fails_with(r, self.no_crc_message()),
                Some(text) => match base64_into_four(text@) {
                    Ok(b) => r matches Ok(crc) && crc@ == b.reverse(),
                    Err(e) => r == Err::<CRC32, Error>(Error::Crc32Parse(e)),
                },
            },
    {
        let message: &str = match self {
            S3ObjectOperation::Get => "No CRC32 in the GetObject response",
            S3ObjectOperation::PartialGet { .. } => "No CRC32 in the (partial) GetObject response",
            S3ObjectOperation::Head => "No CRC32 in the HeadObject response",
        };
        match required(checksum, message) {
            Ok(text) => CRC32::from_str(text.as_str()),
            Err(e) => Err(e),
        }
    }
}

/// The range of the first `size` bytes.
pub fn leading_range(size: usize) -> (text: String)
    requires
        size > 0,
    ensures
        text@ == range_of(0, (size - 1) as nat),
{
    range_text(0, (size - 1) as u64)
}

// ---------- Entries ----------

/// The bytes that an entry takes in its upload part: the header and what is downloaded.
pub open spec fn entry_part_len(loc: LocModel, operation: S3ObjectOperation) -> nat {
    loc.size() + operation.body_len(loc.file_size)
}

/// The bytes that an entry takes in its upload part.
pub fn entry_size(loc: &LocalFileHeader<NoCRC>, operation: &S3ObjectOperation) -> (n: usize)
    requires
        entry_part_len(loc@, *operation) <= usize::MAX,
    ensures
        n == entry_part_len(loc@, *operation),
{
    loc.size() + operation.download_size(loc.file_size())
}

/// Completes an entry: fills in the checksum, writes the local header into the entry's
/// buffer, and makes the central directory header. Where the checksum is missing or
/// malformed nothing is written.
pub fn complete_entry(
    loc: LocalFileHeader<NoCRC>,
    operation: &S3ObjectOperation,
    checksum: Option<String>,
    buf: &mut SliceBuf,
) -> (r: Result<(usize, CentralDirectoryFileHeader), Error>)
    requires
        loc@.size() <= usize::MAX,
    ensures
        match checksum {
            None => fails_with(r, operation.no_crc_message()) && final(buf).state() == old(
                buf,
            ).state(),
            Some(text) => match base64_into_four(text@) {
                Err(e) => r == Err::<(usize, CentralDirectoryFileHeader), Error>(
                    Error::Crc32Parse(e),
                ) && final(buf).state() == old(buf).state(),
                Ok(b) => {
                    let record = loc_record(loc@, b.reverse());
                    &&& r matches Ok((n, header))
                    &&& n == old(buf).state().accepts(record.len())
                    &&& header@ == loc@
                    &&& header.crc()@ == b.reverse()
                    &&& final(buf).state() == old(buf).state().offer(record)
                },
            },
        },
{
    let crc = match operation.crc_of(checksum) {
        Ok(crc) => crc,
        Err(e) => {
            return Err(e);
        },
    };
    let loc = loc.set_crc(crc);
    proof {
        lemma_crc_len(crc);
        loc_size_is_record_length(loc@, crc@);
    }
    match loc.dump(buf) {
        Ok(n) => Ok((n, CentralDirectoryFileHeader::from_loc(loc))),
        Err(e) => Err(e),
    }
}

/// What is said where the central directory no longer takes headers.
pub open spec fn channel_closed() -> Seq<char> {
    "Could not send the CentralDirectoryFileHeader: Channel closed"@
}

/// Delivers a header to the central directory. Whether the directory still takes headers is up to
/// the receiver of the channel; [`delivered`] says what is returned in either case.
pub fn deliver(sender: &HeaderSender, header: CentralDirectoryFileHeader) -> (r: Result<(), Error>)
    ensures
        r is Ok || fails_with(r, channel_closed()),
        r is Ok ==> accepted(*sender).contains((header@, header.crc()@)),
{
    delivered(send_header(sender, header))
}

/// What became of a delivery: an unsent header means that the channel is closed.
pub fn delivered(sent: Result<(), CentralDirectoryFileHeader>) -> (r: Result<(), Error>)
    ensures
        match sent {
            Ok(()) => r == Ok::<(), Error>(()),
            Err(_) => fails_with(r, channel_closed()),
        },
{
    match sent {
        Ok(()) => Ok(()),
        Err(_) => Err(
            Error::Custom(
                String::from_str("Could not send the CentralDirectoryFileHeader: Channel closed"),
            ),
        ),
    }
}

/// Delivers some headers in their order, up to the first that the channel does not take.
pub fn deliver_all(sender: &HeaderSender, headers: Vec<CentralDirectoryFileHeader>) -> (r: Result<
    (),
    Error,
>)
    ensures
        r is Ok || fails_with(r, channel_closed()),
        headers@.len() == 0 ==> r is Ok,
        r is Ok ==> forall|i: int|
            0 <= i < headers@.len() ==> accepted(*sender).contains(
                ((#[trigger] headers@[i])@, headers@[i].crc()@),
            ),
{
    let ghost all = headers@;
    for header in it: headers
        invariant
            it.seq() == all,
            all == headers@,
            forall|i: int|
                0 <= i < it.index() ==> accepted(*sender).contains(
                    ((#[trigger] all[i])@, all[i].crc()@),
                ),
    {
        match deliver(sender, header) {
            Ok(()) => {},
            Err(e) => {
                return Err(e);
            },
        }
    }
    Ok(())
}

/// Writes an entry's local header into its buffer and delivers its central directory
/// header. Returns the number of bytes written.
pub fn write_entry_header(
    loc: LocalFileHeader<NoCRC>,
    operation: &S3ObjectOperation,
    checksum: Option<String>,
    sender: &HeaderSender,
    buf: &mut SliceBuf,
) -> (r: Result<usize, Error>)
    requires
        loc@.size() <= usize::MAX,
    ensures
        match checksum {
            None => fails_with(r, operation.no_crc_message()) && final(buf).state() == old(
                buf,
            ).state(),
            Some(text) => match base64_into_four(text@) {
                Err(e) => r == Err::<usize, Error>(Error::Crc32Parse(e)) && final(buf).state()
                    == old(buf).state(),
                Ok(b) => {
                    let record = loc_record(loc@, b.reverse());
                    &&& r matches Ok(n) ==> n == old(buf).state().accepts(record.len())
                    &&& r is Ok ==> accepted(*sender).contains((loc@, b.reverse()))
                    &&& r is Err ==> fails_with(r, channel_closed())
                    &&& final(buf).state() == old(buf).state().offer(record)
                },
            },
        },
{
    match complete_entry(loc, operation, checksum, buf) {
        Ok((n, header)) => match deliver(sender, header) {
            Ok(()) => Ok(n),
            Err(e) => Err(e),
        },
        Err(e) => Err(e),
    }
}

/// Starts an entry: a buffer of the size that the entry takes in its part, with the local header
/// in it. The central directory header is delivered. The body follows chunk by chunk.
pub fn start_entry(
    loc: LocalFileHeader<NoCRC>,
    operation: &S3ObjectOperation,
    checksum: Option<String>,
    sender: &HeaderSender,
) -> (r: Result<SliceBuf, Error>)
    requires
        entry_part_len(loc@, *operation) <= usize::MAX,
    ensures
        match checksum {
            None => fails_with(r, operation.no_crc_message()),
            Some(text) => match base64_into_four(text@) {
                Err(e) => r == Err::<SliceBuf, Error>(Error::Crc32Parse(e)),
                Ok(b) => {
                    &&& r matches Ok(buf) ==> buf.state() == empty_buffer(
                        entry_part_len(loc@, *operation),
                    ).offer(loc_record(loc@, b.reverse()))
                    &&& r is Ok ==> accepted(*sender).contains((loc@, b.reverse()))
                    &&& r is Err ==> fails_with(r, channel_closed())
                },
            },
        },
{
    let mut buf = SliceBuf::with_size(entry_size(&loc, operation));
    match write_entry_header(loc, operation, checksum, sender, &mut buf) {
        Ok(_) => Ok(buf),
        Err(e) => Err(e),
    }
}

/// A buffer of the given size before anything is written.
pub open spec fn empty_buffer(size: nat) -> SinkState {
    SinkState { written: Seq::empty(), room: Some(size) }
}

/// All chunks of a body in the order in which they came.
pub open spec fn joined(chunks: Seq<Seq<u8>>) -> Seq<u8>
    decreases chunks.len(),
{
    if chunks.len() == 0 {
        Seq::empty()
    } else {
        joined(chunks.drop_last()) + chunks.last()
    }
}

/// A buffer after some chunks were offered to it one after another.
pub open spec fn after_chunks(start: SinkState, chunks: Seq<Seq<u8>>) -> SinkState
    decreases chunks.len(),
{
    if chunks.len() == 0 {
        start
    } else {
        after_chunks(start, chunks.drop_last()).offer(chunks.last())
    }
}

/// Writes a chunk of the body behind what is in the buffer already. Returns how many bytes
/// had room.
pub fn write_chunk(chunk: &[u8], buf: &mut SliceBuf) -> (r: Result<usize, Error>)
    ensures
        r == Ok::<usize, Error>(old(buf).state().accepts(chunk@.len()) as usize),
        final(buf).state() == old(buf).state().offer(chunk@),
{
    let offered: usize = chunk.len();
    assert(chunk@.len() == offered);
    chunk.dump(buf)
}

// ---------- Central directory ----------

/// Whether `keys` are the elements of `set` in increasing order.
pub open spec fn in_order(keys: Seq<usize>, set: Set<usize>) -> bool {
    &&& forall|i: int, j: int| 0 <= i < j < keys.len() ==> keys[i] < keys[j]
    &&& keys.to_set() == set
}

/// The records of the headers at `keys`, one after another.
pub open spec fn records_at(
    headers: Map<usize, CentralDirectoryFileHeader>,
    keys: Seq<usize>,
) -> Seq<u8>
    decreases keys.len(),
{
    if keys.len() == 0 {
        Seq::empty()
    } else {
        records_at(headers, keys.drop_last()) + headers[keys.last()].zip_bytes()
    }
}

/// The central directory of some headers: their records in the order of their offsets.
pub open spec fn directory_of(headers: Map<usize, CentralDirectoryFileHeader>) -> Seq<u8> {
    records_at(headers, choose|keys: Seq<usize>| in_order(keys, headers.dom()))
}

/// A set has only one increasing order.
pub proof fn order_is_unique(a: Seq<usize>, b: Seq<usize>, set: Set<usize>)
    requires
        in_order(a, set),
        in_order(b, set),
    ensures
        a == b,
    decreases a.len(),
{
    if a.len() == 0 {
        if b.len() > 0 {
            assert(b.to_set().contains(b[0]));
            assert(a.to_set().contains(b[0]));
        }
        assert(a =~= b);
    } else {
        assert(a.to_set().contains(a.last()));
        assert(b.to_set().contains(a.last()));
        assert(b.len() > 0);
        assert(b.to_set().contains(b.last()));
        assert(a.to_set().contains(b.last()));
        let i = choose|i: int| 0 <= i < a.len() && a[i] == b.last();
        let j = choose|j: int| 0 <= j < b.len() && b[j] == a.last();
        assert(a.last() == b.last());
        let fa = a.drop_last();
        let fb = b.drop_last();
        let rest = set.remove(a.last());
        assert(fa.to_set() =~= rest) by {
            assert forall|x: usize| #[trigger] fa.to_set().contains(x) implies rest.contains(x) by {
                let k = choose|k: int| 0 <= k < fa.len() && fa[k] == x;
                assert(a[k] == x);
                assert(a.to_set().contains(x));
            }
            assert forall|x: usize| #[trigger] rest.contains(x) implies fa.to_set().contains(x) by {
                assert(a.to_set().contains(x));
                let k = choose|k: int| 0 <= k < a.len() && a[k] == x;
                assert(fa[k] == x);
            }
        }
        assert(fb.to_set() =~= rest) by {
            assert forall|x: usize| #[trigger] fb.to_set().contains(x) implies rest.contains(x) by {
                let k = choose|k: int| 0 <= k < fb.len() && fb[k] == x;
                assert(b[k] == x);
                assert(b.to_set().contains(x));
            }
            assert forall|x: usize| #[trigger] rest.contains(x) implies fb.to_set().contains(x) by {
                assert(b.to_set().contains(x));
                let k = choose|k: int| 0 <= k < b.len() && b[k] == x;
                assert(fb[k] == x);
            }
        }
        order_is_unique(fa, fb, rest);
        assert(a =~= fa.push(a.last()));
        assert(b =~= fb.push(b.last()));
    }
}

/// Collects the headers that the entries deliver, in whatever order they come, and
/// writes the central directory.
#[derive(Debug)]
pub struct DirectoryAssembler {
    eocd64: EndOfCentralDirectory64,
    headers: BTreeMap<usize, CentralDirectoryFileHeader>,
}

impl DirectoryAssembler {
    /// The closing records.
    pub closed spec fn eocd(&self) -> EndOfCentralDirectory64 {
        self.eocd64
    }

    /// The headers so far, by archive offset.
    pub closed spec fn headers(&self) -> Map<usize, CentralDirectoryFileHeader> {
        self.headers@
    }

    pub fn new(eocd64: EndOfCentralDirectory64) -> (assembler: Self)
        ensures
            assembler.eocd() == eocd64,
            assembler.headers() == Map::<usize, CentralDirectoryFileHeader>::empty(),
    {
        DirectoryAssembler { eocd64, headers: BTreeMap::new() }
    }

    /// Takes a header. Of two headers for one offset the later one stays. Returns whether
    /// all expected headers are there.
    pub fn receive(&mut self, header: CentralDirectoryFileHeader) -> (complete: bool)
        ensures
            final(self).eocd() == old(self).eocd(),
            final(self).headers() == old(self).headers().insert(header@.offset as usize, header),
            complete == (final(self).headers().len() == old(self).eocd().record_count),
    {
        let offset: usize = header.loc_offset();
        self.headers.insert(offset, header);
        self.eocd64.record_count == self.headers.len()
    }

    /// Writes the headers in archive order, and the closing records behind them. Returns
    /// the number of bytes written.
    pub fn finish(self, buf: &mut SliceBuf) -> (r: Result<usize, Error>)
        requires
            forall|k: usize| #[trigger]
                self.headers().contains_key(k) ==> self.headers()[k].zip_bytes().len()
                    <= usize::MAX,
        ensures
            ({
                let bytes = directory_of(self.headers()) + self.eocd().zip_bytes();
                &&& r == Ok::<usize, Error>(old(buf).state().accepts(bytes.len()) as usize)
                &&& final(buf).state() == old(buf).state().offer(bytes)
            }),
    {
        let ghost start = buf.state();
        let ghost headers = self.headers@;
        let iter = self.headers.iter();
        let ghost pairs = iter.remaining();
        let ghost keys = pairs.map_values(
            |kv: (&usize, &CentralDirectoryFileHeader)| *kv.0,
        );
        proof {
            lemma_iter_order(headers, pairs, keys);
            assert(start.offer(Seq::empty()) =~= start);
            assert(keys.take(0) =~= Seq::empty());
            buf.lemma_room();
        }
        let mut written: usize = 0;
        for entry in it: iter
            invariant
                it.seq() == pairs,
                keys == pairs.map_values(|kv: (&usize, &CentralDirectoryFileHeader)| *kv.0),
                forall|i: int|
                    0 <= i < pairs.len() ==> headers.contains_key(*(#[trigger] pairs[i]).0)
                        && headers[*pairs[i].0] == *pairs[i].1,
                forall|k: usize| #[trigger]
                    headers.contains_key(k) ==> headers[k].zip_bytes().len() <= usize::MAX,
                start.room matches Some(room) && room <= usize::MAX,
                buf.state() == start.offer(records_at(headers, keys.take(it.index()))),
                written == start.accepts(records_at(headers, keys.take(it.index())).len()),
        {
            let ghost i = it.index();
            let ghost before = records_at(headers, keys.take(i));
            proof {
                assert(keys.take(i + 1).drop_last() =~= keys.take(i));
                lemma_offer_twice(start, before, headers[keys[i]].zip_bytes());
            }
            match entry.1.dump(buf) {
                Ok(n) => {
                    written = written + n;
                },
                Err(e) => {
                    return Err(e);
                },
            }
        }
        proof {
            assert(keys.take(keys.len() as int) =~= keys);
            let chosen = choose|ks: Seq<usize>| in_order(ks, headers.dom());
            order_is_unique(keys, chosen, headers.dom());
            lemma_offer_twice(start, directory_of(headers), self.eocd64.zip_bytes());
            eocd_size_is_record_length(self.eocd64);
        }
        match self.eocd64.dump(buf) {
            Ok(n) => Ok(written + n),
            Err(e) => Err(e),
        }
    }

    /// The central directory and the closing records in a buffer of the size that was planned for
    /// them.
    pub fn into_bytes(self, total_size: usize) -> (r: Result<Vec<u8>, Error>)
        requires
            forall|k: usize| #[trigger]
                self.headers().contains_key(k) ==> self.headers()[k].zip_bytes().len()
                    <= usize::MAX,
        ensures
            r matches Ok(bytes) && bytes@ == fitted(
                directory_of(self.headers()) + self.eocd().zip_bytes(),
                total_size as nat,
            ),
            ({
                let all = directory_of(self.headers()) + self.eocd().zip_bytes();
                all.len() == total_size ==> (r matches Ok(bytes) && bytes@ == all)
            }),
    {
        let ghost all = directory_of(self.headers()) + self.eocd().zip_bytes();
        let mut buf = SliceBuf::with_size(total_size);
        match self.finish(&mut buf) {
            Ok(_) => {
                let bytes = buf.into_bytes();
                assert(bytes@ =~= fitted(all, total_size as nat));
                assert(all.len() == total_size ==> bytes@ =~= all);
                Ok(bytes)
            },
            Err(e) => Err(e),
        }
    }
}

/// Bytes in a buffer of a fixed size: cut off where they are too long, followed by zeros where
/// they are too short.
pub open spec fn fitted(bytes: Seq<u8>, size: nat) -> Seq<u8> {
    Seq::new(
        size,
        |i: int|
            if i < bytes.len() {
                bytes[i]
            } else {
                0u8
            },
    )
}

/// The pairs of a map in key order, as its iterator gives them.
proof fn lemma_iter_order(
    headers: Map<usize, CentralDirectoryFileHeader>,
    pairs: Seq<(&usize, &CentralDirectoryFileHeader)>,
    keys: Seq<usize>,
)
    requires
        keys == pairs.map_values(|kv: (&usize, &CentralDirectoryFileHeader)| *kv.0),
        vstd::std_specs::btree::increasing_seq(keys),
        forall|i: int|
            0 <= i < pairs.len() ==> headers.contains_key(*(#[trigger] pairs[i]).0),
        forall|k: usize| #[trigger]
            headers.contains_key(k) ==> pairs.contains((&k, &headers[k])),
    ensures
        in_order(keys, headers.dom()),
{
    broadcast use vstd::laws_cmp::group_laws_cmp;
    broadcast use vstd::std_specs::btree::group_btree_axioms;

    assert(vstd::laws_cmp::obeys_cmp::<usize>());
    assert forall|i: int, j: int| 0 <= i < j < keys.len() implies keys[i] < keys[j] by {
        assert(vstd::std_specs::cmp::OrdSpec::cmp_spec(&keys[i], &keys[j]) is Less);
    }
    assert forall|k: usize| #[trigger] keys.to_set().contains(k) implies headers.dom().contains(
        k,
    ) by {
        let i = choose|i: int| 0 <= i < keys.len() && keys[i] == k;
        assert(headers.contains_key(*pairs[i].0));
    }
    assert forall|k: usize| #[trigger] headers.dom().contains(k) implies keys.to_set().contains(
        k,
    ) by {
        assert(headers.contains_key(k));
        assert(pairs.contains((&k, &headers[k])));
        let i = choose|i: int| 0 <= i < pairs.len() && pairs[i] == (&k, &headers[k]);
        assert(keys[i] == k);
    }
    assert(keys.to_set() =~= headers.dom());
}

// ---------- Upload parts ----------

pub open spec fn views(elements: Seq<Vec<u8>>) -> Seq<Seq<u8>> {
    elements.map_values(|e: Vec<u8>| e@)
}

/// Lays the elements of an upload part into one buffer of the part's size, one after
/// another. What they leave free is zero. Each element is given back as soon as it is laid out.
pub fn lay_out_part(part_size: usize, elements: Vec<Vec<u8>>) -> (buffer: Vec<u8>)
    requires
        joined(views(elements@)).len() <= part_size,
    ensures
        buffer@ == joined(views(elements@)) + Seq::new(
            (part_size - joined(views(elements@)).len()) as nat,
            |i: int| 0u8,
        ),
{
    let mut buffer = SliceBuf::with_size(part_size);
    let ghost start = buffer.state();
    let ghost given = elements@;
    let ghost all = views(given);
    assert(all.take(0) =~= Seq::empty());
    assert(start.offer(Seq::empty()) =~= start);
    for element in it: elements
        invariant
            it.seq() == given,
            all == views(given),
            buffer.state() == start.offer(joined(all.take(it.index()))),
    {
        proof {
            let i = it.index();
            assert(element == given[i]);
            assert(all[i] == element@);
            assert(all.take(i + 1).drop_last() =~= all.take(i));
            lemma_offer_twice(start, joined(all.take(i)), all[i]);
        }
        buffer.write(element.as_slice());
    }
    assert(all.take(all.len() as int) =~= all);
    proof {
        lemma_offer_fits(start, joined(all));
    }
    buffer.into_bytes()
}

// ---------- Laws ----------

/// Bytes that have exactly the room that is planned for them stay as they are. In general every byte
/// that fits is kept in its place, and only what the bytes leave free is zero.
pub proof fn fitted_keeps_what_fits(bytes: Seq<u8>, size: nat)
    ensures
        size == bytes.len() ==> fitted(bytes, size) == bytes,
        fitted(bytes, size).len() == size,
        size <= bytes.len() ==> fitted(bytes, size) == bytes.take(size as int),
        bytes.len() <= size ==> fitted(bytes, size).take(bytes.len() as int) == bytes,
        forall|i: int| bytes.len() <= i < size ==> #[trigger] fitted(bytes, size)[i] == 0,
{
    assert(size <= bytes.len() ==> fitted(bytes, size) =~= bytes.take(size as int));
    assert(bytes.len() <= size ==> fitted(bytes, size).take(bytes.len() as int) =~= bytes);
    assert(size == bytes.len() ==> fitted(bytes, size) =~= bytes);
}

/// Joined chunks hold every chunk as it is, between those before it and those behind it.
pub proof fn joined_holds_every_chunk(before: Seq<Seq<u8>>, chunk: Seq<u8>, behind: Seq<Seq<u8>>)
    ensures
        joined(Seq::empty()) == Seq::<u8>::empty(),
        joined(before + seq![chunk] + behind) == joined(before) + chunk + joined(behind),
    decreases behind.len(),
{
    let all = before + seq![chunk] + behind;
    if behind.len() == 0 {
        assert(all.drop_last() =~= before);
        assert(joined(before) + chunk + joined(behind) =~= joined(before) + chunk);
    } else {
        let front = behind.drop_last();
        joined_holds_every_chunk(before, chunk, front);
        assert(all.drop_last() =~= before + seq![chunk] + front);
        assert(joined(all) =~= joined(before) + chunk + joined(behind));
    }
}

/// A target that has room takes everything, one that has not takes what fits and is full then, and
/// what was written before stays.
pub proof fn targets_take_what_fits(s: SinkState, data: Seq<u8>)
    ensures
        s.accepts(data.len()) <= data.len(),
        s.offer(data).written == s.written + data.take(s.accepts(data.len()) as int),
        s.room is None ==> s.offer(data).room is None && s.accepts(data.len()) == data.len(),
        s.room matches Some(room) ==> {
            &&& s.offer(data).room == Some((room - s.accepts(data.len())) as nat)
            &&& data.len() <= room ==> s.accepts(data.len()) == data.len()
            &&& data.len() > room ==> s.accepts(data.len()) == room
        },
{
}

/// What an operation downloads: all of a file, its first bytes, or nothing.
pub proof fn operations_download(file_size: nat, size: usize)
    ensures
        S3ObjectOperation::Get.body_len(file_size) == file_size,
        (S3ObjectOperation::PartialGet { size }).body_len(file_size) == size,
        S3ObjectOperation::Head.body_len(file_size) == 0,
{
}

/// A missing checksum is reported by the request that should have had it.
pub proof fn missing_checksums_name_the_request(operation: S3ObjectOperation)
    ensures
        match operation {
            S3ObjectOperation::Get => operation.no_crc_message()
                == "No CRC32 in the GetObject response"@,
            S3ObjectOperation::PartialGet { .. } => operation.no_crc_message()
                == "No CRC32 in the (partial) GetObject response"@,
            S3ObjectOperation::Head => operation.no_crc_message()
                == "No CRC32 in the HeadObject response"@,
        },
        channel_closed() == "Could not send the CentralDirectoryFileHeader: Channel closed"@,
{
}

/// Offering chunks one after another is offering them joined.
pub proof fn chunks_join(start: SinkState, chunks: Seq<Seq<u8>>)
    ensures
        after_chunks(start, chunks) == start.offer(joined(chunks)),
    decreases chunks.len(),
{
    if chunks.len() == 0 {
        assert(start.offer(Seq::empty()) =~= start);
    } else {
        chunks_join(start, chunks.drop_last());
        lemma_offer_twice(start, joined(chunks.drop_last()), chunks.last());
    }
}

/// An entry fills its buffer exactly: in a buffer of the size that was planned for the
/// entry, the local header is followed by the downloaded bytes, however they were cut into
/// chunks, and no room is left.
pub proof fn entry_fills_its_buffer(
    loc: LocModel,
    operation: S3ObjectOperation,
    crc: Seq<u8>,
    chunks: Seq<Seq<u8>>,
)
    requires
        crc.len() == 4,
        joined(chunks).len() == operation.body_len(loc.file_size),
    ensures
        after_chunks(
            empty_buffer(entry_part_len(loc, operation)).offer(loc_record(loc, crc)),
            chunks,
        ) == (SinkState { written: loc_record(loc, crc) + joined(chunks), room: Some(0) }),
{
    let start = empty_buffer(entry_part_len(loc, operation));
    let record = loc_record(loc, crc);
    loc_size_is_record_length(loc, crc);
    chunks_join(start.offer(record), chunks);
    lemma_offer_twice(start, record, joined(chunks));
    lemma_offer_fits(start, record + joined(chunks));
    assert(start.offer(record + joined(chunks)) =~= (SinkState {
        written: record + joined(chunks),
        room: Some(0),
    }));
}

/// The headers that an assembler holds after some have arrived.
pub open spec fn collected(headers: Seq<CentralDirectoryFileHeader>) -> Map<
    usize,
    CentralDirectoryFileHeader,
>
    decreases headers.len(),
{
    if headers.len() == 0 {
        Map::empty()
    } else {
        collected(headers.drop_last()).insert(headers.last()@.offset as usize, headers.last())
    }
}

/// The records of some headers, one after another.
pub open spec fn records_of(headers: Seq<CentralDirectoryFileHeader>) -> Seq<u8>
    decreases headers.len(),
{
    if headers.len() == 0 {
        Seq::empty()
    } else {
        records_of(headers.drop_last()) + headers.last().zip_bytes()
    }
}

/// Whether the headers stand one behind another in the archive.
pub open spec fn offsets_increase(headers: Seq<CentralDirectoryFileHeader>) -> bool {
    &&& forall|i: int, j: int|
        0 <= i < j < headers.len() ==> (#[trigger] headers[i])@.offset < (
        #[trigger] headers[j])@.offset
    &&& forall|i: int| 0 <= i < headers.len() ==> (#[trigger] headers[i])@.offset <= usize::MAX
}

pub open spec fn offsets_of(headers: Seq<CentralDirectoryFileHeader>) -> Seq<usize> {
    headers.map_values(|h: CentralDirectoryFileHeader| h@.offset as usize)
}

proof fn lemma_collected(headers: Seq<CentralDirectoryFileHeader>)
    requires
        forall|i: int, j: int|
            0 <= i < headers.len() && 0 <= j < headers.len() && i != j ==> (
            #[trigger] headers[i])@.offset as usize != (#[trigger] headers[j])@.offset as usize,
    ensures
        forall|i: int|
            0 <= i < headers.len() ==> collected(headers).contains_key(
                (#[trigger] headers[i])@.offset as usize,
            ) && collected(headers)[headers[i]@.offset as usize] == headers[i],
        forall|k: usize| #[trigger]
            collected(headers).contains_key(k) ==> exists|i: int|
                0 <= i < headers.len() && (#[trigger] headers[i])@.offset as usize == k,
    decreases headers.len(),
{
    if headers.len() > 0 {
        let front = headers.drop_last();
        let last = headers.len() - 1;
        assert forall|i: int, j: int|
            0 <= i < front.len() && 0 <= j < front.len() && i != j implies (
        #[trigger] front[i])@.offset as usize != (#[trigger] front[j])@.offset as usize by {
            assert(front[i] == headers[i]);
            assert(front[j] == headers[j]);
        }
        lemma_collected(front);
        assert forall|i: int| 0 <= i < headers.len() implies collected(headers).contains_key(
            (#[trigger] headers[i])@.offset as usize,
        ) && collected(headers)[headers[i]@.offset as usize] == headers[i] by {
            if i < last {
                assert(front[i] == headers[i]);
                assert(headers[i]@.offset as usize != headers[last]@.offset as usize);
            }
        }
        assert forall|k: usize| #[trigger] collected(headers).contains_key(k) implies exists|
            i: int,
        |
            0 <= i < headers.len() && (#[trigger] headers[i])@.offset as usize == k by {
            if k == headers[last]@.offset as usize {
                assert(headers[last]@.offset as usize == k);
            } else {
                assert(collected(front).contains_key(k));
                let i = choose|i: int|
                    0 <= i < front.len() && (#[trigger] front[i])@.offset as usize == k;
                assert(headers[i]@.offset as usize == k);
            }
        }
    }
}

proof fn lemma_records_at(
    map: Map<usize, CentralDirectoryFileHeader>,
    ordered: Seq<CentralDirectoryFileHeader>,
)
    requires
        forall|i: int|
            0 <= i < ordered.len() ==> map[(#[trigger] ordered[i])@.offset as usize] == ordered[i],
    ensures
        records_at(map, offsets_of(ordered)) == records_of(ordered),
    decreases ordered.len(),
{
    if ordered.len() > 0 {
        let front = ordered.drop_last();
        assert forall|i: int| 0 <= i < front.len() implies map[(
        #[trigger] front[i])@.offset as usize] == front[i] by {
            assert(front[i] == ordered[i]);
        }
        lemma_records_at(map, front);
        assert(offsets_of(ordered).drop_last() =~= offsets_of(front));
        assert(ordered[ordered.len() - 1] == ordered.last());
    }
}

/// The central directory does not depend on the order in which the headers arrive: it
/// holds their records in archive order. Once all have arrived their number is that of the
/// entries.
pub proof fn directory_is_in_archive_order(
    arrived: Seq<CentralDirectoryFileHeader>,
    ordered: Seq<CentralDirectoryFileHeader>,
)
    requires
        offsets_increase(ordered),
        arrived.to_multiset() == ordered.to_multiset(),
    ensures
        directory_of(collected(arrived)) == records_of(ordered),
        collected(arrived).len() == ordered.len(),
{
    let map = collected(arrived);
    let keys = offsets_of(ordered);
    arrived.to_multiset_ensures();
    ordered.to_multiset_ensures();
    assert(ordered.no_duplicates());
    ordered.lemma_multiset_has_no_duplicates();
    assert forall|x: CentralDirectoryFileHeader|
        arrived.to_multiset().contains(x) implies arrived.to_multiset().count(x) == 1 by {
        assert(ordered.to_multiset().contains(x));
    }
    arrived.lemma_multiset_has_no_duplicates_conv();
    assert forall|i: int, j: int|
        0 <= i < arrived.len() && 0 <= j < arrived.len() && i != j implies (
    #[trigger] arrived[i])@.offset as usize != (#[trigger] arrived[j])@.offset as usize by {
        assert(arrived.contains(arrived[i]));
        assert(arrived.contains(arrived[j]));
        assert(ordered.to_multiset().count(arrived[i]) > 0);
        assert(ordered.to_multiset().count(arrived[j]) > 0);
        let a = choose|a: int| 0 <= a < ordered.len() && ordered[a] == arrived[i];
        let b = choose|b: int| 0 <= b < ordered.len() && ordered[b] == arrived[j];
        assert(a != b);
        if a < b {
            assert(ordered[a]@.offset < ordered[b]@.offset);
        } else {
            assert(ordered[b]@.offset < ordered[a]@.offset);
        }
    }
    lemma_collected(arrived);
    assert forall|i: int| 0 <= i < ordered.len() implies map.contains_key(
        (#[trigger] ordered[i])@.offset as usize,
    ) && map[ordered[i]@.offset as usize] == ordered[i] by {
        assert(ordered.contains(ordered[i]));
        assert(arrived.to_multiset().count(ordered[i]) > 0);
        let a = choose|a: int| 0 <= a < arrived.len() && arrived[a] == ordered[i];
        assert(map[arrived[a]@.offset as usize] == arrived[a]);
    }
    assert(in_order(keys, map.dom())) by {
        assert forall|k: usize| #[trigger] keys.to_set().contains(k) implies map.dom().contains(
            k,
        ) by {
            let i = choose|i: int| 0 <= i < keys.len() && keys[i] == k;
            assert(ordered[i]@.offset as usize == k);
        }
        assert forall|k: usize| #[trigger] map.dom().contains(k) implies keys.to_set().contains(
            k,
        ) by {
            assert(map.contains_key(k));
            let i = choose|i: int|
                0 <= i < arrived.len() && (#[trigger] arrived[i])@.offset as usize == k;
            assert(arrived.contains(arrived[i]));
            assert(ordered.to_multiset().count(arrived[i]) > 0);
            let a = choose|a: int| 0 <= a < ordered.len() && ordered[a] == arrived[i];
            assert(keys[a] == k);
        }
        assert(keys.to_set() =~= map.dom());
        assert forall|i: int, j: int| 0 <= i < j < keys.len() implies keys[i] < keys[j] by {
            assert(ordered[i]@.offset < ordered[j]@.offset);
            assert(ordered[i]@.offset <= usize::MAX && ordered[j]@.offset <= usize::MAX);
        }
    }
    let chosen = choose|ks: Seq<usize>| in_order(ks, map.dom());
    order_is_unique(keys, chosen, map.dom());
    lemma_records_at(map, ordered);
    assert(keys.no_duplicates());
    keys.unique_seq_to_set();
}

/// The elements of a part stand one for one, as they are.
pub proof fn views_stand_one_for_one(elements: Seq<Vec<u8>>, i: int)
    requires
        0 <= i < elements.len(),
    ensures
        views(elements).len() == elements.len(),
        views(elements)[i] == elements[i]@,
{
}

/// The records of some headers hold the record of each, between those of the headers before it and
/// those of the headers behind it.
pub proof fn records_hold_every_header(
    before: Seq<CentralDirectoryFileHeader>,
    header: CentralDirectoryFileHeader,
    behind: Seq<CentralDirectoryFileHeader>,
)
    ensures
        records_of(Seq::empty()) == Seq::<u8>::empty(),
        records_of(before + seq![header] + behind) == records_of(before) + header.zip_bytes()
            + records_of(behind),
    decreases behind.len(),
{
    let all = before + seq![header] + behind;
    if behind.len() == 0 {
        assert(all.drop_last() =~= before);
        assert(records_of(before) + header.zip_bytes() + records_of(behind) =~= records_of(before)
            + header.zip_bytes());
    } else {
        let front = behind.drop_last();
        records_hold_every_header(before, header, front);
        assert(all.drop_last() =~= before + seq![header] + front);
        assert(records_of(all) =~= records_of(before) + header.zip_bytes() + records_of(behind));
    }
}

/// Of two headers for one offset the one that arrives later stays.
pub proof fn later_header_stays(arrived: Seq<CentralDirectoryFileHeader>, i: int)
    requires
        0 <= i < arrived.len(),
        forall|j: int|
            i < j < arrived.len() ==> (#[trigger] arrived[j])@.offset as usize
                != arrived[i]@.offset as usize,
    ensures
        collected(arrived).contains_key(arrived[i]@.offset as usize),
        collected(arrived)[arrived[i]@.offset as usize] == arrived[i],
    decreases arrived.len(),
{
    let last = arrived.len() - 1;
    if i < last {
        let front = arrived.drop_last();
        assert forall|j: int| i < j < front.len() implies (
        #[trigger] front[j])@.offset as usize != front[i]@.offset as usize by {
            assert(front[j] == arrived[j]);
        }
        later_header_stays(front, i);
        assert(arrived[last]@.offset as usize != arrived[i]@.offset as usize);
    }
}

} // verus!
