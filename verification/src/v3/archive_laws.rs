//! What the part jobs of a layout add up to: the archive, byte by byte.

use vstd::prelude::*;
use vstd::utf8::encode_utf8;

use crate::text::{
    address, bounds_of, range_has_its_bounds, range_of, range_reads_back, reads_as_range,
};
use crate::transfer::{
    collected, directory_is_in_archive_order, directory_of, offsets_increase, records_of,
    HeaderReceiver, HeaderSender, S3ObjectOperation,
};
use crate::v3::part_executor::builder_model::{
    directory_len, directory_lens, elements_len, ends_with_upload, file_element, file_elements,
    file_offset, header_len, lemma_elements_len_add, lemma_file_elements_len,
    lemma_file_offset_grows, lemma_file_offset_prefix, lemma_with_elements, loc_at, parts_len, sum,
    with_elements, BuilderModel,
};
use crate::v3::part_executor::totals::{download_len, totals};
use crate::v3::part_executor::{ElementModel, JobKind, JobModel};
use crate::v3::s3_ops::FileModel;
use crate::v3::zip_layout::{
    add_files_is_consistent, buildable, buildable_at, built, copy_file_is_consistent, copy_start,
    countable, draft, layout_steps, lemma_built, lemma_file_offset_add, lemma_file_offset_shift,
    lemma_step_files_prefix, step_files, streamed_len, StepModel, MIN_PART_SIZE,
};
use crate::zip_format::{
    cdfh_record, cdfh_size_is_record_length, eocd_size_is_record_length, loc_record,
    loc_size_is_record_length, CentralDirectoryFileHeader, EndOfCentralDirectory64, ZipSerialize,
};
use crate::zip_reading::{
    cdfh_declared_offset, cdfh_declared_packed_size, cdfh_declared_size, cdfh_fields,
    cdfh_reads_back, declared_directory, eocd_reads_back, field, loc_declared_packed_size,
    loc_declared_size, loc_reads_back,
};

verus! {

/// What S3 holds: the bytes and the checksum of each object, by address.
pub struct Store {
    pub body: spec_fn(Seq<char>) -> Seq<u8>,
    pub crc: spec_fn(Seq<char>) -> Seq<u8>,
}

impl Store {
    pub open spec fn body_of(self, file: FileModel) -> Seq<u8> {
        (self.body)(address(file.bucket, file.key))
    }

    pub open spec fn crc_of(self, file: FileModel) -> Seq<u8> {
        (self.crc)(address(file.bucket, file.key))
    }

    /// Whether the files are there with the sizes that were listed.
    pub open spec fn has(self, files: Seq<FileModel>) -> bool {
        forall|i: int|
            0 <= i < files.len() ==> self.body_of(#[trigger] files[i]).len() == files[i].size
                && self.crc_of(files[i]).len() == 4
    }
}

/// What an element writes. The central directory is given.
pub open spec fn element_bytes(store: Store, element: ElementModel, directory: Seq<u8>) -> Seq<u8> {
    match element {
        ElementModel::Entry { entry, .. } => {
            let object = address(entry.bucket, entry.key);
            loc_record(entry.loc, (store.crc)(object)) + (store.body)(object).take(
                entry.operation.body_len(entry.loc.file_size) as int,
            )
        },
        ElementModel::Directory { eocd64, .. } => directory + eocd64.zip_bytes(),
    }
}

pub open spec fn elements_bytes(
    store: Store,
    elements: Seq<ElementModel>,
    directory: Seq<u8>,
) -> Seq<u8>
    decreases elements.len(),
{
    if elements.len() == 0 {
        Seq::empty()
    } else {
        elements_bytes(store, elements.drop_last(), directory) + element_bytes(
            store,
            elements.last(),
            directory,
        )
    }
}

/// The first and the last byte that a range names, as they are read from its text.
pub open spec fn range_bounds(range: Seq<char>) -> (nat, nat) {
    bounds_of(range)
}

/// The bytes of an object that a copy takes.
pub open spec fn copied_bytes(body: Seq<u8>, range: Option<Seq<char>>) -> Seq<u8> {
    match range {
        None => body,
        Some(text) => body.subrange(range_bounds(text).0 as int, range_bounds(text).1 as int + 1),
    }
}

/// The bytes of the part that a job makes.
pub open spec fn job_bytes(store: Store, job: JobModel, directory: Seq<u8>) -> Seq<u8> {
    match job.kind {
        JobKind::Upload(elements) => elements_bytes(store, elements, directory),
        JobKind::Copy { source, range } => copied_bytes((store.body)(source), range),
    }
}

/// The object that the parts complete to.
pub open spec fn jobs_bytes(store: Store, jobs: Seq<JobModel>, directory: Seq<u8>) -> Seq<u8>
    decreases jobs.len(),
{
    if jobs.len() == 0 {
        Seq::empty()
    } else {
        jobs_bytes(store, jobs.drop_last(), directory) + job_bytes(store, jobs.last(), directory)
    }
}

/// A file in the archive: its local header and its bytes.
pub open spec fn file_bytes(store: Store, offset: nat, file: FileModel) -> Seq<u8> {
    loc_record(loc_at(offset, file), store.crc_of(file)) + store.body_of(file)
}

/// The files one after another from `start` on.
pub open spec fn files_bytes(store: Store, start: nat, files: Seq<FileModel>) -> Seq<u8>
    decreases files.len(),
{
    if files.len() == 0 {
        Seq::empty()
    } else {
        files_bytes(store, start, files.drop_last()) + file_bytes(
            store,
            file_offset(start, files, files.len() - 1),
            files.last(),
        )
    }
}

/// The central directory of the files: their records in archive order.
pub open spec fn directory_bytes(store: Store, files: Seq<FileModel>) -> Seq<u8>
    decreases files.len(),
{
    if files.len() == 0 {
        Seq::empty()
    } else {
        directory_bytes(store, files.drop_last()) + cdfh_record(
            loc_at(file_offset(0, files, files.len() - 1), files.last()),
            store.crc_of(files.last()),
        )
    }
}

/// The records that close the archive of the files: how many entries it has, and where its central
/// directory is.
pub open spec fn closing_records(store: Store, files: Seq<FileModel>) -> EndOfCentralDirectory64 {
    let entries = files_bytes(store, 0, files);
    let directory = directory_bytes(store, files);
    EndOfCentralDirectory64 {
        record_count: files.len() as usize,
        central_directory_size: directory.len() as usize,
        central_directory_offset: entries.len() as usize,
        eocd64_offset: (entries.len() + directory.len()) as usize,
    }
}

/// The archive of the files.
pub open spec fn archive_bytes(store: Store, files: Seq<FileModel>) -> Seq<u8> {
    files_bytes(store, 0, files) + directory_bytes(store, files) + closing_records(
        store,
        files,
    ).zip_bytes()
}

/// Whether every partial copy leaves something to copy.
pub open spec fn copies_something(steps: Seq<StepModel>) -> bool {
    forall|i: int|
        0 <= i < steps.len() ==> match #[trigger] steps[i] {
            StepModel::Files(_) => true,
            StepModel::Copy { file, start_byte } => start_byte matches Some(start) ==> start
                < file.size,
        }
}

// ---------- Lemmas ----------

proof fn lemma_elements_bytes_add(
    store: Store,
    a: Seq<ElementModel>,
    b: Seq<ElementModel>,
    directory: Seq<u8>,
)
    ensures
        elements_bytes(store, a + b, directory) == elements_bytes(store, a, directory)
            + elements_bytes(store, b, directory),
    decreases b.len(),
{
    let left = elements_bytes(store, a + b, directory);
    if b.len() == 0 {
        assert(a + b =~= a);
        assert(left =~= elements_bytes(store, a, directory) + elements_bytes(store, b, directory));
    } else {
        assert((a + b).drop_last() =~= a + b.drop_last());
        lemma_elements_bytes_add(store, a, b.drop_last(), directory);
        assert(left =~= elements_bytes(store, a, directory) + elements_bytes(store, b, directory));
    }
}

/// Adding elements adds their bytes at the end.
proof fn lemma_with_elements_bytes(
    store: Store,
    parts: Seq<JobModel>,
    elements: Seq<ElementModel>,
    directory: Seq<u8>,
)
    ensures
        jobs_bytes(store, with_elements(parts, elements), directory) == jobs_bytes(
            store,
            parts,
            directory,
        ) + elements_bytes(store, elements, directory),
{
    let grown = with_elements(parts, elements);
    let added = elements_bytes(store, elements, directory);
    if ends_with_upload(parts) {
        let old = parts.last().kind->Upload_0;
        lemma_elements_bytes_add(store, old, elements, directory);
        assert(grown.drop_last() =~= parts.drop_last());
        assert(jobs_bytes(store, grown, directory) =~= jobs_bytes(store, parts, directory) + added);
    } else {
        assert(grown.drop_last() =~= parts);
    }
}

/// The elements of downloaded files write the files.
proof fn lemma_file_elements_bytes(
    store: Store,
    start: nat,
    files: Seq<FileModel>,
    sender: HeaderSender,
    directory: Seq<u8>,
)
    requires
        store.has(files),
    ensures
        elements_bytes(store, file_elements(start, files, sender), directory) == files_bytes(
            store,
            start,
            files,
        ),
    decreases files.len(),
{
    let elements = file_elements(start, files, sender);
    if files.len() > 0 {
        let front = files.drop_last();
        assert(store.has(front)) by {
            assert forall|i: int| 0 <= i < front.len() implies store.body_of(
                #[trigger] front[i],
            ).len() == front[i].size && store.crc_of(front[i]).len() == 4 by {
                assert(front[i] == files[i]);
            }
        }
        lemma_file_elements_bytes(store, start, front, sender, directory);
        assert(elements.drop_last() =~= file_elements(start, front, sender)) by {
            assert forall|i: int| 0 <= i < front.len() implies elements[i] == file_elements(
                start,
                front,
                sender,
            )[i] by {
                lemma_file_offset_prefix(start, files, i);
            }
        }
        let file = files[files.len() - 1];
        let body = store.body_of(file);
        assert(body.take(body.len() as int) =~= body);
    }
}

proof fn lemma_files_bytes_add(store: Store, start: nat, a: Seq<FileModel>, b: Seq<FileModel>)
    ensures
        files_bytes(store, start, a + b) == files_bytes(store, start, a) + files_bytes(
            store,
            file_offset(start, a, a.len() as int),
            b,
        ),
    decreases b.len(),
{
    let left = files_bytes(store, start, a + b);
    let mid = file_offset(start, a, a.len() as int);
    let right = files_bytes(store, start, a) + files_bytes(store, mid, b);
    if b.len() == 0 {
        assert(a + b =~= a);
        assert(left =~= right);
    } else {
        assert((a + b).drop_last() =~= a + b.drop_last());
        lemma_files_bytes_add(store, start, a, b.drop_last());
        lemma_file_offset_add(start, a, b, b.len() - 1);
        assert(left =~= right);
    }
}

/// The bounds of a range are those it was made of.
proof fn lemma_range_bounds(first: nat, last: nat)
    ensures
        range_bounds(range_of(first, last)) == (first, last),
{
    let text = range_of(first, last);
    range_reads_back(first, last);
    let dash = choose|dash: int| reads_as_range(text, dash, first, last);
    range_has_its_bounds(text, dash, first, last);
}

/// A copied file's header, downloaded bytes and copied bytes are the file in the archive.
#[verifier::rlimit(30)]
proof fn lemma_copy_bytes(
    store: Store,
    m: BuilderModel,
    file: FileModel,
    start_byte: Option<usize>,
    directory: Seq<u8>,
)
    requires
        m.consistent(),
        ends_with_upload(m.parts),
        start_byte matches Some(start) ==> start < file.size,
        store.body_of(file).len() == file.size,
    ensures
        jobs_bytes(store, m.copy_file(file, start_byte).parts, directory) == jobs_bytes(
            store,
            m.parts,
            directory,
        ) + file_bytes(store, m.offset, file),
{
    let operation = match start_byte {
        Some(size) => S3ObjectOperation::PartialGet { size },
        None => S3ObjectOperation::Head,
    };
    let element = file_element(m.offset, file, operation, m.sender);
    let one = seq![element];
    let uploaded = with_elements(m.parts, one);
    let parts = m.copy_file(file, start_byte).parts;
    let body = store.body_of(file);
    let before = jobs_bytes(store, m.parts, directory);
    let header = loc_record(loc_at(m.offset, file), store.crc_of(file));
    lemma_with_elements_bytes(store, m.parts, one, directory);
    assert(parts.drop_last() =~= uploaded);
    assert(one.drop_last() =~= Seq::empty());
    assert(elements_bytes(store, one, directory) =~= element_bytes(store, element, directory)) by {
        reveal_with_fuel(elements_bytes, 2);
    }
    match start_byte {
        Some(start) => {
            lemma_range_bounds(start as nat, (file.size - 1) as nat);
            assert(body.take(start as int) + body.subrange(start as int, file.size as int)
                =~= body);
            assert(before + (header + body.take(start as int)) + body.subrange(
                start as int,
                file.size as int,
            ) =~= before + (header + body));
        },
        None => {
            assert(before + (header + body.take(0)) + body =~= before + (header + body));
        },
    }
}

proof fn lemma_store_has_part(store: Store, a: Seq<FileModel>, b: Seq<FileModel>)
    requires
        store.has(a + b),
    ensures
        store.has(a),
        store.has(b),
{
    assert forall|i: int| 0 <= i < a.len() implies store.body_of(#[trigger] a[i]).len() == a[i].size
        && store.crc_of(a[i]).len() == 4 by {
        assert((a + b)[i] == a[i]);
    }
    assert forall|i: int| 0 <= i < b.len() implies store.body_of(#[trigger] b[i]).len() == b[i].size
        && store.crc_of(b[i]).len() == 4 by {
        assert((a + b)[a.len() + i] == b[i]);
    }
}

// ---------- Laws ----------

/// The parts of a layout hold its files one after another: each file's local header, made for
/// the offset at which it stands, and directly behind it the file's bytes.
pub proof fn parts_hold_the_files(
    store: Store,
    sender: HeaderSender,
    steps: Seq<StepModel>,
    directory: Seq<u8>,
)
    requires
        buildable(steps),
        copies_something(steps),
        store.has(step_files(steps)),
    ensures
        jobs_bytes(store, built(sender, steps).parts, directory) == files_bytes(
            store,
            0,
            step_files(steps),
        ),
    decreases steps.len(),
{
    if steps.len() > 0 {
        let front = steps.drop_last();
        let n = steps.len() - 1;
        let last = steps[n];
        let before = step_files(front);
        let here = match last {
            StepModel::Files(files) => files,
            StepModel::Copy { file, .. } => seq![file],
        };
        assert forall|i: int| 0 <= i < front.len() implies front[i] == steps[i] by {}
        assert(buildable(front)) by {
            assert forall|i: int| 0 <= i < front.len() implies #[trigger] buildable_at(
                front,
                i,
            ) by {
                assert(buildable_at(steps, i));
            }
        }
        assert(buildable_at(steps, n));
        assert(copies_something(front)) by {
            assert forall|i: int| 0 <= i < front.len() implies match #[trigger] front[i] {
                StepModel::Files(_) => true,
                StepModel::Copy { file, start_byte } => start_byte matches Some(start) ==> start
                    < file.size,
            } by {
                assert(front[i] == steps[i]);
            }
        }
        lemma_store_has_part(store, before, here);
        parts_hold_the_files(store, sender, front, directory);
        let b = built(sender, front);
        assert(steps.take(n) =~= front);
        lemma_built(sender, steps, n);
        lemma_files_bytes_add(store, 0, before, here);
        match last {
            StepModel::Files(files) => {
                lemma_file_elements_bytes(store, b.offset, files, sender, directory);
                lemma_with_elements_bytes(
                    store,
                    b.parts,
                    file_elements(b.offset, files, sender),
                    directory,
                );
            },
            StepModel::Copy { file, start_byte } => {
                assert(steps[n] is Copy);
                assert(here[0] == file);
                lemma_copy_bytes(store, b, file, start_byte, directory);
                assert(here.drop_last() =~= Seq::empty());
                assert(files_bytes(store, b.offset, here) =~= file_bytes(store, b.offset, file))
                    by {
                    reveal_with_fuel(files_bytes, 2);
                    reveal_with_fuel(file_offset, 2);
                }
            },
        }
    }
}

/// The files take the bytes that were planned for them.
pub proof fn files_take_their_length(store: Store, start: nat, files: Seq<FileModel>)
    requires
        store.has(files),
    ensures
        files_bytes(store, start, files).len() + start == file_offset(
            start,
            files,
            files.len() as int,
        ),
    decreases files.len(),
{
    if files.len() > 0 {
        let front = files.drop_last();
        lemma_store_has_part(store, front, seq![files.last()]);
        assert(front + seq![files.last()] =~= files);
        files_take_their_length(store, start, front);
        lemma_file_offset_prefix(start, files, files.len() - 1);
        let file = files[files.len() - 1];
        loc_size_is_record_length(
            loc_at(file_offset(start, files, files.len() - 1), file),
            store.crc_of(file),
        );
    }
}

/// In the archive each local header stands at the offset that its central directory record
/// names, with the file's bytes behind it.
pub proof fn headers_stand_where_the_directory_says(store: Store, files: Seq<FileModel>, i: int)
    requires
        store.has(files),
        0 <= i < files.len(),
    ensures
        ({
            let all = files_bytes(store, 0, files);
            let at = file_offset(0, files, i) as int;
            let here = file_bytes(store, at as nat, files[i]);
            &&& at + here.len() <= all.len()
            &&& all.subrange(at, at + here.len()) == here
        }),
    decreases files.len(),
{
    let front = files.drop_last();
    let all = files_bytes(store, 0, files);
    let at = file_offset(0, files, i) as int;
    let here = file_bytes(store, at as nat, files[i]);
    assert(front + seq![files.last()] =~= files);
    lemma_store_has_part(store, front, seq![files.last()]);
    lemma_file_offset_prefix(0, files, i);
    files_take_their_length(store, 0, front);
    let before = files_bytes(store, 0, front);
    if i < files.len() - 1 {
        headers_stand_where_the_directory_says(store, front, i);
        assert(all.subrange(at, at + here.len()) =~= before.subrange(at, at + here.len()));
    } else {
        assert(all.subrange(at, at + here.len()) =~= here);
    }
}

/// Whether `headers` are the completed headers of the files, in archive order.
pub open spec fn headers_of_files(
    store: Store,
    files: Seq<FileModel>,
    headers: Seq<CentralDirectoryFileHeader>,
) -> bool {
    &&& headers.len() == files.len()
    &&& forall|i: int|
        0 <= i < files.len() ==> (#[trigger] headers[i])@ == loc_at(
            file_offset(0, files, i),
            files[i],
        ) && headers[i].crc()@ == store.crc_of(files[i])
}

proof fn lemma_records_of_files(
    store: Store,
    files: Seq<FileModel>,
    headers: Seq<CentralDirectoryFileHeader>,
)
    requires
        headers_of_files(store, files, headers),
    ensures
        records_of(headers) == directory_bytes(store, files),
    decreases files.len(),
{
    if files.len() > 0 {
        let front = files.drop_last();
        let n = files.len() - 1;
        let some = headers.drop_last();
        assert(headers_of_files(store, front, some)) by {
            assert forall|i: int| 0 <= i < front.len() implies (#[trigger] some[i])@ == loc_at(
                file_offset(0, front, i),
                front[i],
            ) && some[i].crc()@ == store.crc_of(front[i]) by {
                assert(some[i] == headers[i]);
                lemma_file_offset_prefix(0, files, i);
            }
        }
        lemma_records_of_files(store, front, some);
        assert(headers[n]@ == loc_at(file_offset(0, files, n), files[n]));
    }
}

/// The part jobs of a layout complete to the archive: the files one after another, their central
/// directory, and closing records that say where the directory starts, how long it is and how
/// many entries it has. This holds in whatever order the entries' headers arrive at the central
/// directory.
pub proof fn parts_complete_to_the_archive(
    store: Store,
    sender: HeaderSender,
    receiver: HeaderReceiver,
    steps: Seq<StepModel>,
    ordered: Seq<CentralDirectoryFileHeader>,
    arrived: Seq<CentralDirectoryFileHeader>,
)
    requires
        buildable(steps),
        copies_something(steps),
        countable(step_files(steps), steps.len()),
        store.has(step_files(steps)),
        headers_of_files(store, step_files(steps), ordered),
        arrived.to_multiset() == ordered.to_multiset(),
    ensures
        ({
            let files = step_files(steps);
            let jobs = built(sender, steps).finalize(receiver);
            let directory = directory_of(collected(arrived));
            &&& directory == directory_bytes(store, files)
            &&& collected(arrived).len() == built(sender, steps).eocd().record_count
            &&& jobs_bytes(store, jobs, directory) == archive_bytes(store, files)
        }),
{
    let files = step_files(steps);
    let b = built(sender, steps);
    let directory = directory_bytes(store, files);
    lemma_built_eocd(store, sender, steps);
    lemma_headers_increase(store, files, ordered);
    lemma_records_of_files(store, files, ordered);
    directory_is_in_archive_order(arrived, ordered);
    parts_hold_the_files(store, sender, steps, directory);
    lemma_closing_bytes(store, b, receiver, directory);
}

/// The closing records say where the directory is.
proof fn lemma_built_eocd(
    store: Store,
    sender: HeaderSender,
    steps: Seq<StepModel>,
)
    requires
        buildable(steps),
        countable(step_files(steps), steps.len()),
        store.has(step_files(steps)),
    ensures
        step_files(steps).len() <= usize::MAX,
        built(sender, steps).eocd() == closing_records(store, step_files(steps)),
{
    let files = step_files(steps);
    assert(steps.take(steps.len() as int) =~= steps);
    lemma_built(sender, steps, steps.len() as int);
    directory_takes_its_length(store, files);
    files_take_their_length(store, 0, files);
    lemma_count(files);
}

proof fn lemma_headers_increase(
    store: Store,
    files: Seq<FileModel>,
    ordered: Seq<CentralDirectoryFileHeader>,
)
    requires
        headers_of_files(store, files, ordered),
        file_offset(0, files, files.len() as int) <= usize::MAX,
    ensures
        offsets_increase(ordered),
{
    assert forall|i: int, j: int| 0 <= i < j < ordered.len() implies (
    #[trigger] ordered[i])@.offset < (#[trigger] ordered[j])@.offset by {
        lemma_file_offset_grows(0, files, i + 1, j);
    }
    assert forall|i: int| 0 <= i < ordered.len() implies (#[trigger] ordered[i])@.offset
        <= usize::MAX by {
        lemma_file_offset_grows(0, files, i, files.len() as int);
    }
}

/// The central directory and the closing records stand at the end.
proof fn lemma_closing_bytes(
    store: Store,
    b: BuilderModel,
    receiver: HeaderReceiver,
    directory: Seq<u8>,
)
    ensures
        jobs_bytes(store, b.finalize(receiver), directory) == jobs_bytes(store, b.parts, directory)
            + directory + b.eocd().zip_bytes(),
{
    let element = ElementModel::Directory {
        total_size: b.closing_len(),
        eocd64: b.eocd(),
        receiver,
    };
    let one = seq![element];
    let before = jobs_bytes(store, b.parts, directory);
    let closing = b.eocd().zip_bytes();
    lemma_with_elements_bytes(store, b.parts, one, directory);
    assert(one.drop_last() =~= Seq::empty());
    assert(elements_bytes(store, one, directory) =~= directory + closing) by {
        reveal_with_fuel(elements_bytes, 2);
    }
    assert(before + (directory + closing) =~= before + directory + closing);
}

/// Every file counts.
proof fn lemma_count(files: Seq<FileModel>)
    ensures
        files.len() <= file_offset(0, files, files.len() as int),
    decreases files.len(),
{
    if files.len() > 0 {
        lemma_count(files.drop_last());
        lemma_file_offset_prefix(0, files, files.len() - 1);
    }
}

/// All parts together are as large as the archive with its central directory and closing records,
/// and they are numbered from 1 on.
pub proof fn parts_add_up(sender: HeaderSender, receiver: HeaderReceiver, steps: Seq<StepModel>)
    requires
        buildable(steps),
    ensures
        ({
            let b = built(sender, steps);
            let jobs = b.finalize(receiver);
            let files = step_files(steps);
            &&& parts_len(jobs) == file_offset(
                0,
                files,
                files.len() as int,
            ) + sum(directory_lens(0, files)) + b.eocd().spec_size()
            &&& forall|i: int| 0 <= i < jobs.len() ==> (#[trigger] jobs[i]).part_number == i + 1
            &&& jobs.last().kind is Upload
        }),
{
    let b = built(sender, steps);
    assert(steps.take(steps.len() as int) =~= steps);
    lemma_built(sender, steps, steps.len() as int);
    let element = ElementModel::Directory {
        total_size: b.closing_len(),
        eocd64: b.eocd(),
        receiver,
    };
    let one = seq![element];
    lemma_with_elements(b.parts, one);
    assert(one.drop_last() =~= Seq::empty());
    assert(elements_len(one) == element.len()) by {
        reveal_with_fuel(elements_len, 2);
    }
}

/// Whether an element writes as many bytes as are planned for it.
pub open spec fn element_has_its_size(
    store: Store,
    element: ElementModel,
    directory: Seq<u8>,
) -> bool {
    element_bytes(store, element, directory).len() == element.len()
}

/// Whether a part has its planned size, with each of its elements.
pub open spec fn part_has_its_size(store: Store, job: JobModel, directory: Seq<u8>) -> bool {
    &&& job_bytes(store, job, directory).len() == job.part_size
    &&& job.kind matches JobKind::Upload(elements) ==> forall|i: int|
        0 <= i < elements.len() ==> element_has_its_size(store, #[trigger] elements[i], directory)
}

proof fn lemma_elements_have_their_size(
    store: Store,
    elements: Seq<ElementModel>,
    directory: Seq<u8>,
)
    requires
        forall|i: int|
            0 <= i < elements.len() ==> element_has_its_size(
                store,
                #[trigger] elements[i],
                directory,
            ),
    ensures
        elements_bytes(store, elements, directory).len() == elements_len(elements),
    decreases elements.len(),
{
    if elements.len() > 0 {
        let front = elements.drop_last();
        assert forall|i: int| 0 <= i < front.len() implies element_has_its_size(
            store,
            #[trigger] front[i],
            directory,
        ) by {
            assert(front[i] == elements[i]);
        }
        lemma_elements_have_their_size(store, front, directory);
        assert(element_has_its_size(store, elements[elements.len() - 1], directory));
    }
}

/// Adding elements that have their size keeps the sizes of the parts.
proof fn lemma_with_elements_sizes(
    store: Store,
    parts: Seq<JobModel>,
    elements: Seq<ElementModel>,
    directory: Seq<u8>,
)
    requires
        forall|i: int|
            0 <= i < parts.len() ==> part_has_its_size(store, #[trigger] parts[i], directory),
        forall|i: int|
            0 <= i < elements.len() ==> element_has_its_size(
                store,
                #[trigger] elements[i],
                directory,
            ),
    ensures
        forall|i: int|
            0 <= i < with_elements(parts, elements).len() ==> part_has_its_size(
                store,
                #[trigger] with_elements(parts, elements)[i],
                directory,
            ),
{
    let grown = with_elements(parts, elements);
    let last = grown.len() - 1;
    let all = grown[last].kind->Upload_0;
    if ends_with_upload(parts) {
        let old = parts.last().kind->Upload_0;
        assert(part_has_its_size(store, parts[parts.len() - 1], directory));
        assert forall|i: int| 0 <= i < all.len() implies element_has_its_size(
            store,
            #[trigger] all[i],
            directory,
        ) by {
            if i < old.len() {
                assert(all[i] == old[i]);
            } else {
                assert(all[i] == elements[i - old.len()]);
            }
        }
    }
    lemma_elements_have_their_size(store, all, directory);
    assert forall|i: int| 0 <= i < grown.len() implies part_has_its_size(
        store,
        #[trigger] grown[i],
        directory,
    ) by {
        if i < last {
            assert(grown[i] == parts[i]);
        }
    }
}

proof fn lemma_entry_has_its_size(
    store: Store,
    offset: nat,
    file: FileModel,
    operation: S3ObjectOperation,
    sender: HeaderSender,
    directory: Seq<u8>,
)
    requires
        store.body_of(file).len() == file.size,
        store.crc_of(file).len() == 4,
        operation.body_len(file.size) <= file.size,
    ensures
        element_has_its_size(
            store,
            file_element(offset, file, operation, sender),
            directory,
        ),
{
    loc_size_is_record_length(loc_at(offset, file), store.crc_of(file));
}

proof fn lemma_built_parts_have_their_size(
    store: Store,
    sender: HeaderSender,
    steps: Seq<StepModel>,
    directory: Seq<u8>,
    n: int,
)
    requires
        buildable(steps),
        copies_something(steps),
        store.has(step_files(steps)),
        0 <= n <= steps.len(),
    ensures
        forall|i: int|
            0 <= i < built(sender, steps.take(n)).parts.len() ==> part_has_its_size(
                store,
                #[trigger] built(sender, steps.take(n)).parts[i],
                directory,
            ),
    decreases n,
{
    if n == 0 {
        assert(steps.take(0) =~= Seq::empty());
    } else {
        let k = n - 1;
        lemma_built_parts_have_their_size(store, sender, steps, directory, k);
        assert(buildable_at(steps, k));
        lemma_built(sender, steps, k);
        assert(steps.take(n).drop_last() =~= steps.take(k));
        assert(steps.take(n).last() == steps[k]);
        let b = built(sender, steps.take(k));
        let before = step_files(steps.take(k));
        let here = match steps[k] {
            StepModel::Files(files) => files,
            StepModel::Copy { file, .. } => seq![file],
        };
        assert(step_files(steps.take(n)) == before + here);
        lemma_step_files_prefix(steps, n);
        let all = step_files(steps);
        assert forall|i: int| 0 <= i < here.len() implies store.body_of(#[trigger] here[i]).len()
            == here[i].size && store.crc_of(here[i]).len() == 4 by {
            assert((before + here)[before.len() + i] == here[i]);
            assert(all[before.len() + i] == here[i]);
        }
        match steps[k] {
            StepModel::Files(files) => {
                let elements = file_elements(b.offset, files, sender);
                assert forall|i: int| 0 <= i < elements.len() implies element_has_its_size(
                    store,
                    #[trigger] elements[i],
                    directory,
                ) by {
                    assert(here[i] == files[i]);
                    lemma_entry_has_its_size(
                        store,
                        file_offset(b.offset, files, i),
                        files[i],
                        S3ObjectOperation::Get,
                        sender,
                        directory,
                    );
                }
                lemma_with_elements_sizes(store, b.parts, elements, directory);
            },
            StepModel::Copy { file, start_byte } => {
                assert(steps[k] is Copy);
                assert(here[0] == file);
                let operation = match start_byte {
                    Some(size) => S3ObjectOperation::PartialGet { size },
                    None => S3ObjectOperation::Head,
                };
                let one = seq![file_element(b.offset, file, operation, sender)];
                lemma_entry_has_its_size(store, b.offset, file, operation, sender, directory);
                lemma_with_elements_sizes(store, b.parts, one, directory);
                match start_byte {
                    Some(start) => {
                        lemma_range_bounds(start as nat, (file.size - 1) as nat);
                    },
                    None => {},
                }
                let parts = b.copy_file(file, start_byte).parts;
                let uploaded = with_elements(b.parts, one);
                assert forall|i: int| 0 <= i < parts.len() implies part_has_its_size(
                    store,
                    #[trigger] parts[i],
                    directory,
                ) by {
                    if i < uploaded.len() {
                        assert(parts[i] == uploaded[i]);
                    }
                }
            },
        }
    }
}

/// Every part is exactly as long as its job says.
pub proof fn parts_have_their_size(
    store: Store,
    sender: HeaderSender,
    receiver: HeaderReceiver,
    steps: Seq<StepModel>,
)
    requires
        buildable(steps),
        copies_something(steps),
        store.has(step_files(steps)),
    ensures
        ({
            let jobs = built(sender, steps).finalize(receiver);
            let directory = directory_bytes(store, step_files(steps));
            forall|i: int|
                0 <= i < jobs.len() ==> job_bytes(store, #[trigger] jobs[i], directory).len()
                    == jobs[i].part_size
        }),
{
    let n = steps.len() as int;
    let files = step_files(steps);
    let b = built(sender, steps);
    let directory = directory_bytes(store, files);
    assert(steps.take(n) =~= steps);
    lemma_built(sender, steps, n);
    lemma_built_parts_have_their_size(store, sender, steps, directory, n);
    directory_takes_its_length(store, files);
    eocd_size_is_record_length(b.eocd());
    let element = ElementModel::Directory {
        total_size: b.closing_len(),
        eocd64: b.eocd(),
        receiver,
    };
    let one = seq![element];
    assert(element_has_its_size(store, element, directory));
    lemma_with_elements_sizes(store, b.parts, one, directory);
    let jobs = b.finalize(receiver);
    assert forall|i: int| 0 <= i < jobs.len() implies job_bytes(
        store,
        #[trigger] jobs[i],
        directory,
    ).len() == jobs[i].part_size by {
        assert(part_has_its_size(store, jobs[i], directory));
    }
}

/// The central directory takes the bytes that were predicted for it.
pub proof fn directory_takes_its_length(store: Store, files: Seq<FileModel>)
    requires
        store.has(files),
    ensures
        directory_bytes(store, files).len() == sum(directory_lens(0, files)),
    decreases files.len(),
{
    let lens = directory_lens(0, files);
    if files.len() > 0 {
        let front = files.drop_last();
        let n = files.len() - 1;
        assert(front + seq![files.last()] =~= files);
        lemma_store_has_part(store, front, seq![files.last()]);
        directory_takes_its_length(store, front);
        assert(store.crc_of(files[n]).len() == 4);
        cdfh_size_is_record_length(
            loc_at(file_offset(0, files, n), files[n]),
            store.crc_of(files[n]),
        );
        assert(lens.drop_last() =~= directory_lens(0, front)) by {
            assert forall|i: int| 0 <= i < front.len() implies lens[i] == directory_lens(
                0,
                front,
            )[i] by {
                lemma_file_offset_prefix(0, files, i);
            }
        }
    } else {
        assert(lens =~= Seq::empty());
    }
}

/// Every part but the last is at least as large as S3 wants it.
pub proof fn parts_meet_the_minimum(
    sender: HeaderSender,
    receiver: HeaderReceiver,
    files: Seq<FileModel>,
)
    ensures
        ({
            let jobs = built(sender, layout_steps(files)).finalize(receiver);
            forall|i: int|
                0 <= i < jobs.len() - 1 ==> (#[trigger] jobs[i]).part_size >= MIN_PART_SIZE
        }),
{
    let d = draft(files);
    let b = built(sender, d.steps);
    lemma_draft_parts(sender, files);
    let steps = layout_steps(files);
    let m = built(sender, steps);
    if d.pending.len() > 0 {
        assert(steps.drop_last() =~= d.steps);
        assert(m.parts.drop_last() =~= b.parts);
    }
    let jobs = m.finalize(receiver);
    assert forall|i: int| 0 <= i < jobs.len() - 1 implies (#[trigger] jobs[i]).part_size
        >= MIN_PART_SIZE by {
        assert(jobs[i] == b.parts[i]);
    }
}

/// Up to the streamed files at the end, all parts of a layout are large enough, and the last one
/// is a copy.
proof fn lemma_draft_parts(sender: HeaderSender, files: Seq<FileModel>)
    ensures
        ({
            let parts = built(sender, draft(files).steps).parts;
            &&& forall|i: int|
                0 <= i < parts.len() ==> (#[trigger] parts[i]).part_size >= MIN_PART_SIZE
            &&& !ends_with_upload(parts)
            &&& built(sender, draft(files).steps).consistent()
            &&& built(sender, draft(files).steps).sender == sender
        }),
    decreases files.len(),
{
    let d = draft(files);
    let parts = built(sender, d.steps).parts;
    if files.len() > 0 {
        let front = files.drop_last();
        let file = files.last();
        lemma_draft_parts(sender, front);
        let c = draft(front);
        let before = built(sender, c.steps);
        match copy_start(streamed_len(c.pending), file) {
            None => {},
            Some(start) => {
                let one = c.steps.push(StepModel::Files(c.pending));
                assert(one.drop_last() =~= c.steps);
                assert(d.steps.drop_last() =~= one);
                let streamed = built(sender, one);
                assert(streamed == before.add_files(c.pending));
                add_files_is_consistent(before, c.pending);
                lemma_file_elements_len(before.offset, c.pending, sender);
                lemma_file_offset_shift(before.offset, c.pending, c.pending.len() as int);
                assert(streamed.parts.last().part_size == streamed_len(c.pending));
                let start_byte = if start == 0 {
                    None
                } else {
                    Some(start as usize)
                };
                assert(start <= MIN_PART_SIZE);
                let after = built(sender, d.steps);
                assert(after == streamed.copy_file(file, start_byte));
                copy_file_is_consistent(streamed, file, start_byte);
                let operation = match start_byte {
                    Some(size) => S3ObjectOperation::PartialGet { size },
                    None => S3ObjectOperation::Head,
                };
                let element = file_element(streamed.offset, file, operation, sender);
                let single = seq![element];
                let old = streamed.parts.last().kind->Upload_0;
                lemma_elements_len_add(old, single);
                assert(single.drop_last() =~= Seq::empty());
                assert(elements_len(single)
                    == element.len()) by {
                    reveal_with_fuel(elements_len, 2);
                }
                let n = before.parts.len() as int;
                assert(streamed.parts.len() == n + 1);
                assert(streamed.parts[n] == streamed.parts.last());
                assert(after.parts.len() == n + 2);
                assert(after.parts[n].part_size >= MIN_PART_SIZE);
                assert(after.parts[n + 1].part_size >= MIN_PART_SIZE);
                assert forall|i: int| 0 <= i < after.parts.len() implies (
                #[trigger] after.parts[i]).part_size >= MIN_PART_SIZE by {
                    if i < n {
                        assert(after.parts[i] == before.parts[i]);
                    }
                }
            },
        }
    }
}

/// A layout never copies an empty range, so that its parts hold its files.
pub proof fn layouts_copy_something(files: Seq<FileModel>)
    ensures
        copies_something(layout_steps(files)),
{
    lemma_draft_copies_something(files);
    let d = draft(files);
    let steps = layout_steps(files);
    assert forall|i: int| 0 <= i < steps.len() implies match #[trigger] steps[i] {
        StepModel::Files(_) => true,
        StepModel::Copy { file, start_byte } => start_byte matches Some(start) ==> start
            < file.size,
    } by {
        if i < d.steps.len() {
            assert(steps[i] == d.steps[i]);
        }
    }
}

proof fn lemma_draft_copies_something(files: Seq<FileModel>)
    ensures
        copies_something(draft(files).steps),
    decreases files.len(),
{
    if files.len() > 0 {
        let before = draft(files.drop_last()).steps;
        let steps = draft(files).steps;
        lemma_draft_copies_something(files.drop_last());
        assert forall|i: int| 0 <= i < steps.len() implies match #[trigger] steps[i] {
            StepModel::Files(_) => true,
            StepModel::Copy { file, start_byte } => start_byte matches Some(start) ==> start
                < file.size,
        } by {
            if i < before.len() {
                assert(steps[i] == before[i]);
            }
        }
    }
}

/// The bytes of the central directory before the record of file `i`.
pub open spec fn records_before(files: Seq<FileModel>, i: int) -> nat {
    sum(directory_lens(0, files).take(i))
}

/// Each record stands behind those of the files before it.
proof fn lemma_record_in_directory(store: Store, files: Seq<FileModel>, i: int)
    requires
        store.has(files),
        0 <= i < files.len(),
    ensures
        ({
            let all = directory_bytes(store, files);
            let at = records_before(files, i) as int;
            let record = cdfh_record(
                loc_at(file_offset(0, files, i), files[i]),
                store.crc_of(files[i]),
            );
            &&& record.len() == directory_len(file_offset(0, files, i), files[i])
            &&& at + record.len() <= all.len()
            &&& all.subrange(at, at + record.len()) == record
        }),
    decreases files.len(),
{
    let front = files.drop_last();
    let all = directory_bytes(store, files);
    let before = directory_bytes(store, front);
    let at = records_before(files, i) as int;
    let loc = loc_at(file_offset(0, files, i), files[i]);
    let record = cdfh_record(loc, store.crc_of(files[i]));
    assert(front + seq![files.last()] =~= files);
    lemma_store_has_part(store, front, seq![files.last()]);
    cdfh_size_is_record_length(loc, store.crc_of(files[i]));
    directory_takes_its_length(store, front);
    assert(directory_lens(0, files).drop_last() =~= directory_lens(0, front)) by {
        assert forall|k: int| 0 <= k < front.len() implies directory_lens(0, files)[k]
            == directory_lens(0, front)[k] by {
            lemma_file_offset_prefix(0, files, k);
        }
    }
    assert(directory_lens(0, files).take(i) =~= directory_lens(0, front).take(i));
    if i < files.len() - 1 {
        lemma_record_in_directory(store, front, i);
        lemma_file_offset_prefix(0, files, i);
        assert(all.subrange(at, at + record.len()) =~= before.subrange(at, at + record.len()));
    } else {
        assert(directory_lens(0, front).take(i) =~= directory_lens(0, front));
        assert(all.subrange(at, at + record.len()) =~= record);
    }
}

/// What a reader finds of file `i` in an archive: the closing records lead to the central
/// directory, the file's record there to its local header, and behind that stands its body.
pub open spec fn reads_back(
    archive: Seq<u8>,
    entries_len: int,
    directory_size: int,
    store: Store,
    files: Seq<FileModel>,
    i: int,
) -> bool {
    let file = files[i];
    let name = encode_utf8(file.name);
    let closing_at = entries_len + directory_size;
    let record_at = entries_len + records_before(files, i);
    let offset = file_offset(0, files, i);
    let record = archive.subrange(record_at, record_at + directory_len(offset, file));
    let at = cdfh_declared_offset(record) as int;
    let header = archive.subrange(at, at + header_len(file));
    let body_at = at + header_len(file);
    &&& declared_directory(archive.skip(closing_at), closing_at as nat) == (
        files.len(),
        directory_size as nat,
        entries_len as nat,
    )
    &&& record.subrange(16, 20) == store.crc_of(file)
    &&& record.subrange(46, 46 + name.len() as int) == name
    &&& cdfh_declared_size(record) == file.size
    &&& cdfh_declared_packed_size(record) == file.size
    &&& header.subrange(14, 18) == store.crc_of(file)
    &&& header.subrange(30, 30 + name.len() as int) == name
    &&& loc_declared_size(header) == file.size
    &&& loc_declared_packed_size(header) == file.size
    &&& archive.subrange(body_at, body_at + file.size) == store.body_of(file)
}

/// Every file reads back from the archive: name, size, checksum and body. Left out are values that
/// a classic field holds only as the mark of a ZIP64 field, and names that are too long for their
/// length field.
pub proof fn every_file_reads_back(store: Store, files: Seq<FileModel>, i: int)
    requires
        store.has(files),
        0 <= i < files.len(),
        file_offset(0, files, files.len() as int) + sum(directory_lens(0, files)) <= usize::MAX,
        encode_utf8(files[i].name).len() <= u16::MAX,
        files[i].size != u32::MAX,
        file_offset(0, files, i) != u32::MAX,
        files.len() != u16::MAX || closing_records(store, files).is_zip64(),
    ensures
        reads_back(
            archive_bytes(store, files),
            files_bytes(store, 0, files).len() as int,
            directory_bytes(store, files).len() as int,
            store,
            files,
            i,
        ),
{
    let file = files[i];
    let entries = files_bytes(store, 0, files);
    let directory = directory_bytes(store, files);
    let eocd = closing_records(store, files);
    let closing = eocd.zip_bytes();
    let archive = archive_bytes(store, files);
    let offset = file_offset(0, files, i);
    let loc = loc_at(offset, file);
    let crc = store.crc_of(file);
    let record = cdfh_record(loc, crc);
    let header = loc_record(loc, crc);
    let body = store.body_of(file);
    files_take_their_length(store, 0, files);
    directory_takes_its_length(store, files);
    lemma_count(files);
    lemma_file_offset_grows(0, files, i, files.len() as int);
    lemma_file_offset_grows(0, files, i + 1, files.len() as int);
    lemma_record_in_directory(store, files, i);
    headers_stand_where_the_directory_says(store, files, i);
    loc_size_is_record_length(loc, crc);
    cdfh_reads_back(loc, crc);
    loc_reads_back(loc, crc);
    eocd_reads_back(eocd);
    assert(file_bytes(store, offset, file) == header + body);
    lemma_behind(entries, directory, closing);
    lemma_in_second(entries, directory, closing, records_before(files, i) as int, record);
    lemma_in_first(entries, directory, closing, offset as int, header, body);
}

/// The third of three joined pieces.
proof fn lemma_behind(a: Seq<u8>, b: Seq<u8>, c: Seq<u8>)
    ensures
        (a + b + c).skip((a.len() + b.len()) as int) == c,
{
    assert((a + b + c).skip((a.len() + b.len()) as int) =~= c);
}

/// What stands in the second of three joined pieces.
proof fn lemma_in_second(a: Seq<u8>, b: Seq<u8>, c: Seq<u8>, at: int, piece: Seq<u8>)
    requires
        0 <= at,
        at + piece.len() <= b.len(),
        b.subrange(at, at + piece.len()) == piece,
    ensures
        (a + b + c).subrange(a.len() + at, a.len() + at + piece.len()) == piece,
{
    assert((a + b + c).subrange(a.len() + at, a.len() + at + piece.len()) =~= b.subrange(
        at,
        at + piece.len(),
    ));
}

/// What stands in the first of three joined pieces, one thing behind another.
proof fn lemma_in_first(
    a: Seq<u8>,
    b: Seq<u8>,
    c: Seq<u8>,
    at: int,
    first: Seq<u8>,
    second: Seq<u8>,
)
    requires
        0 <= at,
        at + (first + second).len() <= a.len(),
        a.subrange(at, at + (first + second).len()) == first + second,
    ensures
        (a + b + c).subrange(at, at + first.len()) == first,
        (a + b + c).subrange(at + first.len(), at + first.len() + second.len()) == second,
{
    let both = a.subrange(at, at + (first + second).len());
    let n = first.len() as int;
    assert((a + b + c).subrange(at, at + n) =~= both.subrange(0, n));
    assert(both.subrange(0, n) =~= first);
    assert((a + b + c).subrange(at + n, at + n + second.len()) =~= both.subrange(
        n,
        n + second.len(),
    ));
    assert(both.subrange(n, n + second.len()) =~= second);
}

/// Whether all entries in the elements deliver their headers to `sender`.
pub open spec fn elements_deliver_to(elements: Seq<ElementModel>, sender: HeaderSender) -> bool {
    forall|i: int|
        0 <= i < elements.len() && (#[trigger] elements[i]) is Entry ==> elements[i]->Entry_sender
            == sender
}

/// Whether all entries in the parts deliver their headers to `sender`.
pub open spec fn parts_deliver_to(parts: Seq<JobModel>, sender: HeaderSender) -> bool {
    forall|i: int|
        0 <= i < parts.len() && (#[trigger] parts[i]).kind is Upload ==> elements_deliver_to(
            parts[i].kind->Upload_0,
            sender,
        )
}

proof fn lemma_with_elements_deliver(
    parts: Seq<JobModel>,
    elements: Seq<ElementModel>,
    sender: HeaderSender,
)
    requires
        parts_deliver_to(parts, sender),
        elements_deliver_to(elements, sender),
    ensures
        parts_deliver_to(with_elements(parts, elements), sender),
{
    let grown = with_elements(parts, elements);
    let last = grown.len() - 1;
    if ends_with_upload(parts) {
        let old = parts.last().kind->Upload_0;
        let all = old + elements;
        assert(parts[parts.len() - 1] == parts.last());
        assert(elements_deliver_to(old, sender));
        assert forall|i: int|
            0 <= i < all.len() && (#[trigger] all[i]) is Entry implies all[i]->Entry_sender
            == sender by {
            if i < old.len() {
                assert(all[i] == old[i]);
            } else {
                assert(all[i] == elements[i - old.len()]);
            }
        }
        assert(elements_deliver_to(all, sender));
    }
    assert forall|i: int| 0 <= i < grown.len() && (#[trigger] grown[i]).kind is Upload implies
        elements_deliver_to(grown[i].kind->Upload_0, sender) by {
        if i < last {
            assert(grown[i] == parts[i]);
        }
    }
}

proof fn lemma_built_parts_deliver(sender: HeaderSender, steps: Seq<StepModel>)
    ensures
        built(sender, steps).sender == sender,
        parts_deliver_to(built(sender, steps).parts, sender),
    decreases steps.len(),
{
    if steps.len() > 0 {
        let b = built(sender, steps.drop_last());
        lemma_built_parts_deliver(sender, steps.drop_last());
        match steps.last() {
            StepModel::Files(files) => {
                lemma_with_elements_deliver(
                    b.parts,
                    file_elements(b.offset, files, sender),
                    sender,
                );
            },
            StepModel::Copy { file, start_byte } => {
                let operation = match start_byte {
                    Some(size) => S3ObjectOperation::PartialGet { size },
                    None => S3ObjectOperation::Head,
                };
                let one = seq![file_element(b.offset, file, operation, sender)];
                lemma_with_elements_deliver(b.parts, one, sender);
                let uploaded = with_elements(b.parts, one);
                let parts = b.copy_file(file, start_byte).parts;
                assert forall|i: int|
                    0 <= i < parts.len() && (#[trigger] parts[i]).kind is Upload implies
                    elements_deliver_to(parts[i].kind->Upload_0, sender) by {
                    assert(parts[i] == uploaded[i]);
                }
            },
        }
    }
}

/// All entries of an archive deliver their headers to the builder's sender, and the central
/// directory, at the end of the last part, listens to the builder's receiver.
pub proof fn entries_share_the_channel(
    sender: HeaderSender,
    receiver: HeaderReceiver,
    steps: Seq<StepModel>,
)
    ensures
        ({
            let jobs = built(sender, steps).finalize(receiver);
            &&& parts_deliver_to(jobs, sender)
            &&& jobs.last().kind matches JobKind::Upload(elements)
            &&& elements.last() matches ElementModel::Directory { receiver: listening, .. }
            &&& listening == receiver
        }),
{
    let b = built(sender, steps);
    let one = seq![
        ElementModel::Directory { total_size: b.closing_len(), eocd64: b.eocd(), receiver },
    ];
    lemma_built_parts_deliver(sender, steps);
    lemma_with_elements_deliver(b.parts, one, sender);
    let elements = b.finalize(receiver).last().kind->Upload_0;
    assert(elements.last() == one[0]);
}

/// What elements download is part of what they take.
proof fn lemma_download_within(elements: Seq<ElementModel>)
    ensures
        download_len(elements) <= elements_len(elements),
    decreases elements.len(),
{
    if elements.len() > 0 {
        lemma_download_within(elements.drop_last());
    }
}

/// Uploaded and copied bytes are all bytes, and no more is downloaded than uploaded.
proof fn lemma_totals_within(jobs: Seq<JobModel>)
    requires
        forall|i: int|
            0 <= i < jobs.len() && (#[trigger] jobs[i]).kind is Upload ==> jobs[i].part_size
                == elements_len(jobs[i].kind->Upload_0),
    ensures
        totals(jobs).uploaded + totals(jobs).copied == parts_len(jobs),
        totals(jobs).downloaded <= totals(jobs).uploaded,
    decreases jobs.len(),
{
    if jobs.len() > 0 {
        let front = jobs.drop_last();
        assert forall|i: int|
            0 <= i < front.len() && (#[trigger] front[i]).kind is Upload implies front[i].part_size
            == elements_len(front[i].kind->Upload_0) by {
            assert(front[i] == jobs[i]);
        }
        lemma_totals_within(front);
        assert(jobs[jobs.len() - 1] == jobs.last());
        match jobs.last().kind {
            JobKind::Upload(elements) => {
                lemma_download_within(elements);
            },
            JobKind::Copy { .. } => {},
        }
    }
}

/// The work of a countable layout can be counted: uploaded and copied bytes are together the whole
/// archive, no more is downloaded than uploaded, and none of the sums exceeds what `usize` holds.
pub proof fn totals_are_countable(
    sender: HeaderSender,
    receiver: HeaderReceiver,
    steps: Seq<StepModel>,
)
    requires
        buildable(steps),
        countable(step_files(steps), steps.len()),
    ensures
        ({
            let jobs = built(sender, steps).finalize(receiver);
            let t = totals(jobs);
            &&& t.uploaded + t.copied == parts_len(jobs)
            &&& t.downloaded <= t.uploaded
            &&& parts_len(jobs) <= usize::MAX
        }),
{
    let b = built(sender, steps);
    assert(steps.take(steps.len() as int) =~= steps);
    lemma_built(sender, steps, steps.len() as int);
    parts_add_up(sender, receiver, steps);
    let one = seq![
        ElementModel::Directory { total_size: b.closing_len(), eocd64: b.eocd(), receiver },
    ];
    lemma_with_elements(b.parts, one);
    lemma_totals_within(b.finalize(receiver));
}

/// Where a reader finds record `i` of a central directory that starts at `at`: behind record `i - 1`,
/// which says in its length fields how long its name, its extra field and its comment are.
pub open spec fn walked_to(archive: Seq<u8>, at: int, i: int) -> int
    decreases i,
{
    if i <= 0 {
        at
    } else {
        let before = walked_to(archive, at, i - 1);
        before + 46 + field(archive, before + 28, 2) + field(archive, before + 30, 2) + field(
            archive,
            before + 32,
            2,
        )
    }
}

/// A reader that walks through the central directory, from length to length, comes to every record,
/// and behind the last one to the closing records.
#[verifier::rlimit(30)]
pub proof fn directory_can_be_walked(store: Store, files: Seq<FileModel>, i: int)
    requires
        store.has(files),
        0 <= i <= files.len(),
        file_offset(0, files, files.len() as int) <= u64::MAX,
        forall|k: int|
            0 <= k < files.len() ==> encode_utf8((#[trigger] files[k]).name).len() <= u16::MAX,
    ensures
        ({
            let start = files_bytes(store, 0, files).len() as int;
            &&& walked_to(archive_bytes(store, files), start, i) == start + records_before(files, i)
            &&& i == files.len() ==> records_before(files, i) == directory_bytes(store, files).len()
        }),
    decreases i,
{
    let entries = files_bytes(store, 0, files);
    let directory = directory_bytes(store, files);
    let closing = closing_records(store, files).zip_bytes();
    let archive = archive_bytes(store, files);
    let lens = directory_lens(0, files);
    if i == files.len() {
        assert(lens.take(i) =~= lens);
        directory_takes_its_length(store, files);
    }
    if i > 0 {
        let k = i - 1;
        directory_can_be_walked(store, files, k);
        let loc = loc_at(file_offset(0, files, k), files[k]);
        let record = cdfh_record(loc, store.crc_of(files[k]));
        let at = records_before(files, k) as int;
        lemma_record_in_directory(store, files, k);
        lemma_file_offset_grows(0, files, k, files.len() as int);
        lemma_file_offset_grows(0, files, k + 1, files.len() as int);
        cdfh_fields(loc, store.crc_of(files[k]));
        lemma_in_second(entries, directory, closing, at, record);
        let here = entries.len() + at;
        assert(archive.subrange(here, here + record.len()) == record);
        lemma_field_inside(archive, here, record, 28);
        lemma_field_inside(archive, here, record, 30);
        lemma_field_inside(archive, here, record, 32);
        assert(lens.take(i).drop_last() =~= lens.take(k));
    } else {
        assert(lens.take(0) =~= Seq::empty());
    }
}

/// A two-byte field of a record that stands in the archive.
proof fn lemma_field_inside(archive: Seq<u8>, at: int, record: Seq<u8>, offset: int)
    requires
        0 <= at,
        0 <= offset,
        offset + 2 <= record.len(),
        at + record.len() <= archive.len(),
        archive.subrange(at, at + record.len()) == record,
    ensures
        field(archive, at + offset, 2) == field(record, offset, 2),
{
    assert(archive.subrange(at + offset, at + offset + 2) =~= record.subrange(offset, offset + 2))
        by {
        assert(record =~= archive.subrange(at, at + record.len()));
    }
}

} // verus!
