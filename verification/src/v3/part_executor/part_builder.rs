//! Builds the part jobs of an archive in layout order.

use vstd::prelude::*;

use crate::text::{address_text, range_text};
use crate::transfer::{
    feeds, header_channel, share_sender, HeaderReceiver, HeaderSender, S3ObjectOperation,
};
use crate::v3::part_executor::builder_model::{
    directory_len, directory_lens, elements_len, ends_with_upload, file_elements, file_offset,
    header_len, lemma_elements_len_add, lemma_file_elements_len, lemma_sum_take,
    lemma_with_elements, loc_at, parts_len, sum, with_elements, BuilderModel,
};
use crate::v3::part_executor::{
    element_views, job_views, EntryFromS3, PartJob, PartJobType, SerializableEntryFromS3,
    UploadPartElement,
};
use crate::v3::s3_ops::{file_views, FileInfo, FileModel};
use crate::zip_format::{
    CentralDirectoryFileHeader, EndOfCentralDirectory64, LocalFileHeader, NoCRC,
};

verus! {

/// Builds the ordered list of [`PartJob`]s while tracking the running archive offset.
///
/// Call [`add_files`](PartJobsBuilder::add_files), [`copy_file`](PartJobsBuilder::copy_file) and
/// [`partial_copy_file`](PartJobsBuilder::partial_copy_file) in layout order, then
/// [`finalize`](PartJobsBuilder::finalize).
#[derive(Debug)]
pub struct PartJobsBuilder {
    /// Running byte offset into the archive.
    current_archive_offset: usize,
    /// Predicted size of each central directory header.
    cdfh_sizes: Vec<usize>,
    parts: Vec<PartJob>,
    cdfh_sender: HeaderSender,
    cdfh_receiver: HeaderReceiver,
}

pub open spec fn nats(sizes: Seq<usize>) -> Seq<nat> {
    sizes.map_values(|n: usize| n as nat)
}

impl View for PartJobsBuilder {
    type V = BuilderModel;

    closed spec fn view(&self) -> BuilderModel {
        BuilderModel {
            offset: self.current_archive_offset as nat,
            cdfh_sizes: nats(self.cdfh_sizes@),
            parts: job_views(self.parts@),
            sender: self.cdfh_sender,
        }
    }
}

/// Whether a file added at `offset` stays within what `usize` can count.
pub open spec fn file_fits(offset: nat, file: FileModel) -> bool {
    &&& offset + header_len(file) + file.size <= usize::MAX
    &&& directory_len(offset, file) <= usize::MAX
}

impl PartJobsBuilder {
    /// The receiving half of the channel, for the central directory.
    pub closed spec fn receiver(&self) -> HeaderReceiver {
        self.cdfh_receiver
    }

    /// A builder without parts and with a channel of its own.
    pub fn new() -> (builder: Self)
        ensures
            builder@ == BuilderModel::start(builder@.sender),
            builder@.consistent(),
            feeds(builder@.sender, builder.receiver()),
    {
        let (cdfh_sender, cdfh_receiver) = header_channel();
        let builder = PartJobsBuilder {
            current_archive_offset: 0,
            cdfh_sizes: Vec::new(),
            parts: Vec::new(),
            cdfh_sender,
            cdfh_receiver,
        };
        assert(builder@.cdfh_sizes =~= Seq::empty());
        assert(builder@.parts =~= Seq::empty());
        builder
    }

    /// Registers a file at the current offset: predicts its central directory header and returns
    /// its local header.
    fn register(
        &mut self,
        name: String,
        size: usize,
        Ghost(file): Ghost<FileModel>,
    ) -> (loc: LocalFileHeader<NoCRC>)
        requires
            file.name == name@,
            file.size == size,
            file_fits(old(self)@.offset, file),
        ensures
            loc@ == loc_at(old(self)@.offset, file),
            final(self)@ == (BuilderModel {
                cdfh_sizes: old(self)@.cdfh_sizes.push(directory_len(old(self)@.offset, file)),
                ..old(self)@
            }),
            final(self).receiver() == old(self).receiver(),
            final(self).parts == old(self).parts,
            final(self).current_archive_offset == old(self).current_archive_offset,
            final(self).cdfh_sender == old(self).cdfh_sender,
    {
        let name_len: usize = name.as_str().as_bytes().len();
        let loc = LocalFileHeader::new(self.current_archive_offset, name, size);
        let ghost before = self.cdfh_sizes@;
        self.cdfh_sizes.push(
            CentralDirectoryFileHeader::predict_size(size, name_len, loc.offset()),
        );
        assert(nats(self.cdfh_sizes@) =~= nats(before).push(self.cdfh_sizes@.last() as nat));
        loc
    }

    /// Adds files that are downloaded as a whole. They go into the last part where that is an
    /// upload part, else into a new one.
    pub fn add_files(&mut self, file_infos: Vec<FileInfo>)
        requires
            old(self)@.consistent(),
            old(self)@.parts.len() < i32::MAX,
            forall|i: int|
                0 <= i < file_infos@.len() ==> file_fits(
                    file_offset(old(self)@.offset, file_views(file_infos@), i),
                    (#[trigger] file_infos@[i])@,
                ),
        ensures
            final(self)@ == old(self)@.add_files(file_views(file_infos@)),
            final(self)@.consistent(),
            final(self).receiver() == old(self).receiver(),
    {
        let ghost before = self@;
        let ghost all = file_infos@;
        let ghost files = file_views(all);
        let ghost want = file_elements(before.offset, files, before.sender);
        let ghost lens = directory_lens(before.offset, files);
        let mut elements: Vec<UploadPartElement> = Vec::new();
        assert(element_views(elements@) =~= want.take(0));
        assert(before.cdfh_sizes + lens.take(0) =~= before.cdfh_sizes);
        for file_info in it: file_infos
            invariant
                it.seq() == all,
                files == file_views(all),
                want == file_elements(before.offset, files, before.sender),
                lens == directory_lens(before.offset, files),
                forall|i: int|
                    0 <= i < all.len() ==> file_fits(
                        file_offset(before.offset, files, i),
                        (#[trigger] all[i])@,
                    ),
                self@ == (BuilderModel {
                    offset: file_offset(before.offset, files, it.index()),
                    cdfh_sizes: before.cdfh_sizes + lens.take(it.index()),
                    ..before
                }),
                self.receiver() == old(self).receiver(),
                element_views(elements@) == want.take(it.index()),
        {
            let ghost i = it.index();
            let ghost file = file_info@;
            assert(file == files[i]);
            assert(file_info == all[i]);
            let ghost elements_in = elements@;
            let size: usize = file_info.size;
            let loc = self.register(file_info.name, size, Ghost(file));
            self.current_archive_offset = self.current_archive_offset + (loc.size() + size);
            elements.push(
                UploadPartElement::EntryFromS3(
                    EntryFromS3 {
                        entry: SerializableEntryFromS3 {
                            loc,
                            operation: S3ObjectOperation::Get,
                            bucket_name: file_info.bucket_name,
                            key: file_info.key,
                        },
                        cdfh_sender: share_sender(&self.cdfh_sender),
                    },
                ),
            );
            proof {
                assert(elements@.last()@ == want[i]);
                assert(element_views(elements@) =~= element_views(elements_in).push(want[i]));
                assert(want.take(i + 1) =~= want.take(i).push(want[i]));
                assert(self@.cdfh_sizes =~= before.cdfh_sizes + lens.take(i + 1));
            }
        }
        proof {
            assert(want.take(want.len() as int) =~= want);
            assert(lens.take(lens.len() as int) =~= lens);
            lemma_file_elements_len(before.offset, files, before.sender);
            lemma_with_elements(before.parts, want);
        }
        let mut parts: Vec<PartJob> = Vec::new();
        std::mem::swap(&mut parts, &mut self.parts);
        self.parts = with_more_elements(parts, elements);
    }

    /// Adds a file whose body is copied server-side as a whole.
    pub fn copy_file(&mut self, file_info: FileInfo)
        requires
            old(self)@.consistent(),
            ends_with_upload(old(self)@.parts),
            old(self)@.parts.len() < i32::MAX,
            file_fits(old(self)@.offset, file_info@),
        ensures
            final(self)@ == old(self)@.copy_file(file_info@, None),
            final(self)@.consistent(),
            final(self).receiver() == old(self).receiver(),
    {
        self.internal_copy_file(file_info, None);
    }

    /// Adds a file whose first `start_byte` bytes are downloaded into the current upload part and
    /// whose other bytes are copied server-side.
    pub fn partial_copy_file(&mut self, file_info: FileInfo, start_byte: usize)
        requires
            old(self)@.consistent(),
            ends_with_upload(old(self)@.parts),
            old(self)@.parts.len() < i32::MAX,
            file_fits(old(self)@.offset, file_info@),
            start_byte <= file_info.size,
            0 < file_info.size,
        ensures
            final(self)@ == old(self)@.copy_file(file_info@, Some(start_byte)),
            final(self)@.consistent(),
            final(self).receiver() == old(self).receiver(),
    {
        self.internal_copy_file(file_info, Some(start_byte));
    }

    /// Puts the local header, and the downloaded bytes if there are any, into the current upload
    /// part, and makes a new part for the copied bytes. A copy needs an upload part before it.
    fn internal_copy_file(&mut self, file_info: FileInfo, start_byte: Option<usize>)
        requires
            old(self)@.consistent(),
            ends_with_upload(old(self)@.parts),
            old(self)@.parts.len() < i32::MAX,
            file_fits(old(self)@.offset, file_info@),
            start_byte matches Some(start) ==> start <= file_info.size && 0 < file_info.size,
        ensures
            final(self)@ == old(self)@.copy_file(file_info@, start_byte),
            final(self)@.consistent(),
            final(self).receiver() == old(self).receiver(),
    {
        let ghost before = self@;
        let ghost file = file_info@;
        let size: usize = file_info.size;
        let loc = self.register(file_info.name, size, Ghost(file));
        let loc_size: usize = loc.size();
        let (operation, part_size, range): (S3ObjectOperation, usize, Option<String>) =
            match start_byte {
            Some(start) => (
                S3ObjectOperation::PartialGet { size: start },
                size - start,
                Some(range_text(start as u64, (size - 1) as u64)),
            ),
            None => (S3ObjectOperation::Head, size, None),
        };
        let copy_source = address_text(&*file_info.bucket_name, file_info.key.as_str());
        let element = UploadPartElement::EntryFromS3(
            EntryFromS3 {
                entry: SerializableEntryFromS3 {
                    loc,
                    operation,
                    bucket_name: file_info.bucket_name,
                    key: file_info.key,
                },
                cdfh_sender: share_sender(&self.cdfh_sender),
            },
        );
        let ghost model = element@;
        let elements: Vec<UploadPartElement> = vec![element];
        proof {
            assert(element_views(elements@) =~= seq![model]);
            assert(seq![model].drop_last() =~= Seq::empty());
            assert(elements_len(seq![model]) == model.len()) by {
                reveal_with_fuel(elements_len, 2);
            }
            lemma_with_elements(before.parts, seq![model]);
        }
        let mut parts: Vec<PartJob> = Vec::new();
        std::mem::swap(&mut parts, &mut self.parts);
        self.parts = with_more_elements(parts, elements);
        let ghost uploaded = self@;
        let ghost parts_in = self.parts@;
        let part_number: i32 = self.parts.len() as i32 + 1;
        self.parts.push(
            PartJob {
                part_number,
                part_size,
                part_job_type: PartJobType::Copy { copy_source, range },
            },
        );
        self.current_archive_offset = self.current_archive_offset + loc_size + size;
        proof {
            assert(job_views(self.parts@) =~= job_views(parts_in).push(self.parts@.last()@));
            assert(self@.parts.drop_last() =~= uploaded.parts);
            assert(self@ =~= before.copy_file(file, start_byte));
        }
    }

    /// Adds the central directory and returns the job list. The closing records are computed from
    /// the predicted sizes and the current offset.
    pub fn finalize(self) -> (jobs: Vec<PartJob>)
        requires
            self@.consistent(),
            self@.parts.len() < i32::MAX,
            self@.offset + self@.closing_len() <= usize::MAX,
        ensures
            job_views(jobs@) == self@.finalize(self.receiver()),
    {
        let PartJobsBuilder { current_archive_offset, cdfh_sizes, parts, cdfh_receiver, .. } = self;
        assert(nats(cdfh_sizes@).len() == cdfh_sizes@.len());
        let record_count: usize = cdfh_sizes.len();
        let central_directory_size: usize = sum_of(&cdfh_sizes);
        let eocd64 = EndOfCentralDirectory64 {
            record_count,
            central_directory_size,
            central_directory_offset: current_archive_offset,
            // The closing records directly follow the central directory.
            eocd64_offset: current_archive_offset + central_directory_size,
        };
        let total_size: usize = central_directory_size + eocd64.size();
        let element = UploadPartElement::CentralDirectory { total_size, eocd64, cdfh_receiver };
        let ghost added = element@;
        let elements: Vec<UploadPartElement> = vec![element];
        proof {
            assert(element_views(elements@) =~= seq![added]);
            assert(seq![added].drop_last() =~= Seq::empty());
            assert(elements_len(seq![added]) == added.len()) by {
                reveal_with_fuel(elements_len, 2);
            }
        }
        with_more_elements(parts, elements)
    }
}

/// Puts elements at the end of the parts: into the last part where it is an upload part, else
/// into a new one.
fn with_more_elements(
    parts: Vec<PartJob>,
    elements: Vec<UploadPartElement>,
) -> (grown: Vec<PartJob>)
    requires
        parts@.len() < i32::MAX,
        forall|i: int|
            0 <= i < parts@.len() && (#[trigger] job_views(parts@)[i]).kind is Upload
                ==> job_views(parts@)[i].part_size == elements_len(
                job_views(parts@)[i].kind->Upload_0,
            ),
        parts_len(job_views(parts@)) + elements_len(element_views(elements@)) <= usize::MAX,
    ensures
        job_views(grown@) == with_elements(job_views(parts@), element_views(elements@)),
{
    let ghost before = parts@;
    let ghost model = job_views(before);
    let ghost added = element_views(elements@);
    let mut parts = parts;
    let count: usize = parts.len();
    proof {
        if model.len() > 0 {
            assert(model[model.len() - 1] == model.last());
            lemma_elements_len_add(model.last().kind->Upload_0, added);
        }
        assert(model.len() == before.len());
    }
    match parts.pop() {
        Some(
            PartJob { part_number, part_job_type: PartJobType::Upload(old_elements), .. },
        ) => {
            let mut part_elements = old_elements;
            let mut elements = elements;
            let ghost old_views = element_views(part_elements@);
            part_elements.append(&mut elements);
            assert(element_views(part_elements@) =~= old_views + added);
            let part_size: usize = total_size(&part_elements);
            parts.push(
                PartJob {
                    part_number,
                    part_size,
                    part_job_type: PartJobType::Upload(part_elements),
                },
            );
        },
        other => {
            match other {
                Some(part) => {
                    parts.push(part);
                },
                None => {},
            }
            assert(parts@ =~= before);
            let part_size: usize = total_size(&elements);
            parts.push(
                PartJob {
                    part_number: count as i32 + 1,
                    part_size,
                    part_job_type: PartJobType::Upload(elements),
                },
            );
        },
    }
    assert(job_views(parts@) =~= with_elements(model, added));
    parts
}

/// The sum of some sizes.
fn sum_of(sizes: &Vec<usize>) -> (total: usize)
    requires
        sum(nats(sizes@)) <= usize::MAX,
    ensures
        total == sum(nats(sizes@)),
{
    let ghost all = nats(sizes@);
    let mut total: usize = 0;
    let mut i: usize = 0;
    assert(all.take(0) =~= Seq::empty());
    while i < sizes.len()
        invariant
            i <= sizes@.len(),
            all == nats(sizes@),
            sum(all) <= usize::MAX,
            total == sum(all.take(i as int)),
        decreases sizes.len() - i,
    {
        proof {
            assert(all.take(i + 1).drop_last() =~= all.take(i as int));
            lemma_sum_take(all, i + 1);
        }
        total = total + sizes[i];
        i = i + 1;
    }
    assert(all.take(i as int) =~= all);
    total
}

/// The bytes that the elements take together.
fn total_size(elements: &Vec<UploadPartElement>) -> (total: usize)
    requires
        elements_len(element_views(elements@)) <= usize::MAX,
    ensures
        total == elements_len(element_views(elements@)),
{
    let ghost all = element_views(elements@);
    let mut total: usize = 0;
    let mut i: usize = 0;
    assert(all.take(0) =~= Seq::empty());
    while i < elements.len()
        invariant
            i <= elements@.len(),
            all == element_views(elements@),
            elements_len(all) <= usize::MAX,
            total == elements_len(all.take(i as int)),
        decreases elements.len() - i,
    {
        proof {
            assert(all.take(i + 1).drop_last() =~= all.take(i as int));
            assert(all =~= all.take(i + 1) + all.skip(i + 1));
            lemma_elements_len_add(all.take(i + 1), all.skip(i + 1));
            assert(all[i as int] == elements@[i as int]@);
        }
        total = total + elements[i].elem_size();
        i = i + 1;
    }
    assert(all.take(i as int) =~= all);
    total
}

} // verus!
