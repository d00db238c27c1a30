//! Part jobs of the local variant.

use std::sync::Arc;

use vstd::prelude::*;

use crate::error::Error;
use crate::transfer::{
    entry_size, fails_with, feeds, required, HeaderReceiver, HeaderSender, S3ObjectOperation,
};
use crate::v3::part_executor::{ElementModel, EntryModel, JobKind, JobModel};
use crate::v3::s3_ops::CompletedPartInfo;
use crate::v3::zip_layout::{built, step_views, ZipLayout};
use crate::zip_format::{EndOfCentralDirectory64, LocalFileHeader, NoCRC};

verus! {

/// The memory that all concurrently running part jobs may take for their buffers.
pub const MAX_PART_JOB_TASKS_MEMORY: usize = 50 * 1024 * 1024;

/// What a `Copy` job claims of that memory: it has no buffer, but not all of them are to run at
/// once.
pub const COPY_JOB_MEMORY: u32 = 512 * 1024;

/// One unit of work in the multipart upload: either an `UploadPart` or an `UploadPartCopy`.
#[derive(Debug)]
pub struct PartJob {
    /// Part number in the multipart upload, begins at 1.
    pub part_number: i32,
    /// Exact size of this part.
    pub part_size: usize,
    pub part_job_type: PartJobType,
}

/// A locally built buffer or a server-side copy.
#[derive(Debug)]
pub enum PartJobType {
    /// Build a buffer from the elements and upload it.
    Upload(Vec<UploadPartElement>),
    /// Move bytes between S3 objects.
    Copy {
        /// `bucket/key` of the source.
        copy_source: String,
        /// `bytes=start-end` for a partial copy.
        range: Option<String>,
    },
}

/// One piece of an upload part's buffer.
#[derive(Debug)]
pub enum UploadPartElement {
    /// A ZIP entry: local header and, where it is downloaded, file body.
    EntryFromS3 {
        loc: LocalFileHeader<NoCRC>,
        operation: S3ObjectOperation,
        bucket_name: Arc<str>,
        key: String,
        /// Where the central directory header goes once the CRC-32 is known.
        cdfh_sender: HeaderSender,
    },
    /// The central directory and the closing records.
    CentralDirectory {
        total_size: usize,
        eocd64: EndOfCentralDirectory64,
        cdfh_receiver: HeaderReceiver,
    },
}

impl View for UploadPartElement {
    type V = ElementModel;

    open spec fn view(&self) -> ElementModel {
        match *self {
            UploadPartElement::EntryFromS3 { loc, operation, bucket_name, key, cdfh_sender } => {
                ElementModel::Entry {
                    entry: EntryModel {
                        loc: loc@,
                        operation,
                        bucket: (*bucket_name)@,
                        key: key@,
                    },
                    sender: cdfh_sender,
                }
            },
            UploadPartElement::CentralDirectory { total_size, eocd64, cdfh_receiver } => {
                ElementModel::Directory {
                    total_size: total_size as nat,
                    eocd64,
                    receiver: cdfh_receiver,
                }
            },
        }
    }
}

pub open spec fn element_views(elements: Seq<UploadPartElement>) -> Seq<ElementModel> {
    elements.map_values(|e: UploadPartElement| e@)
}

impl View for PartJob {
    type V = JobModel;

    open spec fn view(&self) -> JobModel {
        JobModel {
            part_number: self.part_number as int,
            part_size: self.part_size as nat,
            kind: match self.part_job_type {
                PartJobType::Upload(elements) => JobKind::Upload(element_views(elements@)),
                PartJobType::Copy { copy_source, range } => JobKind::Copy {
                    source: copy_source@,
                    range: match range {
                        Some(text) => Some(text@),
                        None => None,
                    },
                },
            },
        }
    }
}

pub open spec fn job_views(jobs: Seq<PartJob>) -> Seq<JobModel> {
    jobs.map_values(|j: PartJob| j@)
}

impl UploadPartElement {
    /// The bytes that the element takes in its part.
    pub fn elem_size(&self) -> (n: usize)
        requires
            self@.len() <= usize::MAX,
        ensures
            n == self@.len(),
    {
        match self {
            UploadPartElement::EntryFromS3 { loc, operation, .. } => entry_size(loc, operation),
            UploadPartElement::CentralDirectory { total_size, .. } => *total_size,
        }
    }

    /// The same element in the form of this variant.
    fn of(element: crate::v3::part_executor::UploadPartElement) -> (e: Self)
        ensures
            e@ == element@,
    {
        match element {
            crate::v3::part_executor::UploadPartElement::EntryFromS3(entry) => {
                UploadPartElement::EntryFromS3 {
                    loc: entry.entry.loc,
                    operation: entry.entry.operation,
                    bucket_name: entry.entry.bucket_name,
                    key: entry.entry.key,
                    cdfh_sender: entry.cdfh_sender,
                }
            },
            crate::v3::part_executor::UploadPartElement::CentralDirectory {
                total_size,
                eocd64,
                cdfh_receiver,
            } => UploadPartElement::CentralDirectory { total_size, eocd64, cdfh_receiver },
        }
    }
}

impl PartJob {
    /// The memory that the job claims while it runs: an `Upload` job its whole buffer, a `Copy`
    /// job a fixed amount.
    pub fn memory_budget_needed(&self) -> (budget: u32)
        ensures
            budget == match self.part_job_type {
                PartJobType::Upload(_) => if self.part_size <= u32::MAX {
                    self.part_size as u32
                } else {
                    u32::MAX
                },
                PartJobType::Copy { .. } => COPY_JOB_MEMORY,
            },
    {
        match &self.part_job_type {
            PartJobType::Upload(_) => if self.part_size as u64 <= u32::MAX as u64 {
                self.part_size as u32
            } else {
                u32::MAX
            },
            PartJobType::Copy { .. } => COPY_JOB_MEMORY,
        }
    }

    /// The completed part, once the response of the upload or of the copy is there.
    pub fn completed(&self, etag: Option<String>) -> (r: Result<CompletedPartInfo, Error>)
        ensures
            match etag {
                Some(e) => r == Ok::<CompletedPartInfo, Error>(
                    CompletedPartInfo { part_number: self.part_number, etag: e },
                ),
                None => fails_with(
                    r,
                    match self.part_job_type {
                        PartJobType::Upload(_) => "No ETag in UploadPart response"@,
                        PartJobType::Copy { .. } => "No ETag in UploadPartCopy response"@,
                    },
                ),
            },
    {
        let message: &str = match &self.part_job_type {
            PartJobType::Upload(_) => "No ETag in UploadPart response",
            PartJobType::Copy { .. } => "No ETag in UploadPartCopy response",
        };
        match required(etag, message) {
            Ok(etag) => Ok(CompletedPartInfo { part_number: self.part_number, etag }),
            Err(e) => Err(e),
        }
    }

    /// The same job in the form of this variant.
    fn of(job: crate::v3::part_executor::PartJob) -> (j: Self)
        ensures
            j@ == job@,
    {
        let part_job_type = match job.part_job_type {
            crate::v3::part_executor::PartJobType::Copy { copy_source, range } => {
                PartJobType::Copy { copy_source, range }
            },
            crate::v3::part_executor::PartJobType::Upload(given) => {
                let ghost all = given@;
                let ghost want = crate::v3::part_executor::element_views(all);
                let mut elements: Vec<UploadPartElement> = Vec::new();
                assert(element_views(elements@) =~= want.take(0));
                for element in it: given
                    invariant
                        it.seq() == all,
                        want == crate::v3::part_executor::element_views(all),
                        element_views(elements@) == want.take(it.index()),
                {
                    let ghost i = it.index();
                    let ghost before = elements@;
                    elements.push(UploadPartElement::of(element));
                    assert(element_views(elements@) =~= element_views(before).push(want[i]));
                    assert(want.take(i + 1) =~= want.take(i).push(want[i]));
                }
                assert(want.take(want.len() as int) =~= want);
                PartJobType::Upload(elements)
            },
        };
        PartJob { part_number: job.part_number, part_size: job.part_size, part_job_type }
    }
}

/// All that is needed to build an archive.
#[derive(Debug)]
pub struct PartJobExecutor {
    pub bucket_name: Arc<str>,
    pub archive_key: Arc<str>,
    pub jobs: Vec<PartJob>,
}

impl PartJobExecutor {
    /// An executor that builds the archive of a layout at the given bucket and key.
    pub fn new(layout: ZipLayout, bucket_name: Arc<str>, archive_key: Arc<str>) -> (executor: Self)
        requires
            layout.ready(),
        ensures
            executor.bucket_name == bucket_name,
            executor.archive_key == archive_key,
            exists|sender, receiver|
                feeds(sender, receiver) && job_views(executor.jobs@) == #[trigger] built(
                    sender,
                    step_views(layout.steps@),
                ).finalize(receiver),
    {
        let given = layout.into_part_jobs();
        let ghost all = given@;
        let ghost want = crate::v3::part_executor::job_views(all);
        let mut jobs: Vec<PartJob> = Vec::new();
        assert(job_views(jobs@) =~= want.take(0));
        for job in it: given
            invariant
                it.seq() == all,
                want == crate::v3::part_executor::job_views(all),
                job_views(jobs@) == want.take(it.index()),
        {
            let ghost i = it.index();
            let ghost before = jobs@;
            jobs.push(PartJob::of(job));
            assert(job_views(jobs@) =~= job_views(before).push(want[i]));
            assert(want.take(i + 1) =~= want.take(i).push(want[i]));
        }
        assert(want.take(want.len() as int) =~= want);
        PartJobExecutor { bucket_name, archive_key, jobs }
    }
}

/// The upload ID in a `CreateMultipartUpload` response.
pub fn opened_upload(upload_id: Option<String>) -> (r: Result<String, Error>)
    ensures
        match upload_id {
            Some(id) => r == Ok::<String, Error>(id),
            None => fails_with(r, "No upload ID in multipart upload response"@),
        },
{
    required(upload_id, "No upload ID in multipart upload response")
}

/// The models of jobs and elements show what these hold.
pub proof fn models_show_the_job(jobs: Seq<PartJob>, p: int, i: int)
    requires
        0 <= p < jobs.len(),
    ensures
        ({
            let job = jobs[p];
            let model = job_views(jobs)[p];
            &&& job_views(jobs).len() == jobs.len()
            &&& model == job@
            &&& model.part_number == job.part_number
            &&& model.part_size == job.part_size
            &&& match job.part_job_type {
                PartJobType::Copy { copy_source, range } => model.kind matches JobKind::Copy {
                    source,
                    range: shown,
                } && source == copy_source@ && (shown is Some <==> range is Some) && (range is Some
                    ==> shown->0 == range->0@),
                PartJobType::Upload(elements) => model.kind matches JobKind::Upload(shown)
                    && shown.len() == elements@.len() && (0 <= i < shown.len() ==> element_is_shown(
                    elements@[i],
                    shown[i],
                )),
            }
        }),
{
}

/// Whether a model shows what an element holds.
pub open spec fn element_is_shown(element: UploadPartElement, model: ElementModel) -> bool {
    match element {
        UploadPartElement::EntryFromS3 {
            loc: own,
            operation: with,
            bucket_name,
            key: object,
            cdfh_sender,
        } => {
            &&& model matches ElementModel::Entry { entry, sender }
            &&& entry.loc == own@
            &&& entry.operation == with
            &&& entry.bucket == (*bucket_name)@
            &&& entry.key == object@
            &&& sender == cdfh_sender
        },
        UploadPartElement::CentralDirectory { total_size, eocd64, cdfh_receiver } => {
            model == (ElementModel::Directory {
                total_size: total_size as nat,
                eocd64,
                receiver: cdfh_receiver,
            })
        },
    }
}

} // verus!
