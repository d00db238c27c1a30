//! Part jobs: the units of work of the multipart upload.

pub mod builder_laws;
pub mod builder_model;
pub mod part_builder;
pub mod totals;

use std::sync::Arc;

use vstd::prelude::*;

use crate::byte_sink::{ByteSink, SliceBuf};
use crate::error::Error;
use crate::transfer::{
    accepted, channel_closed, empty_buffer, entry_part_len, entry_size, fails_with, feeds, required,
    share_sender, start_entry, HeaderReceiver, HeaderSender, S3ObjectOperation,
};
use crate::v3::lambda_executor::LambdaExecutor;
use crate::v3::s3_ops::{CompletedPartInfo, MultipartUpload};
use crate::v3::zip_layout::{built, step_views, ZipLayout};
use crate::zip_format::{
    base64_into_four, loc_record, EndOfCentralDirectory64, LocModel, LocalFileHeader, NoCRC,
};

pub use crate::v3::part_executor::part_builder::PartJobsBuilder;

verus! {

/// The memory that all concurrently running part jobs may take for their buffers.
pub const MAX_PART_JOB_TASKS_MEMORY: usize = 50 * 1024 * 1024;

/// What a `Copy` job claims of that memory: it has no buffer, but not all of them are to run at
/// once.
pub const COPY_JOB_MEMORY: u32 = 256 * 1024;

// ---------- Part jobs ----------

/// One unit of work in the multipart upload: either an `UploadPart` or an `UploadPartCopy`.
#[derive(Debug)]
pub struct PartJob {
    /// Part number in the multipart upload, begins at 1.
    pub part_number: i32,
    /// Exact size of this part.
    pub part_size: usize,
    pub part_job_type: PartJobType,
}

/// A locally built buffer or a server-side copy.
#[derive(Debug)]
pub enum PartJobType {
    /// Build a buffer from the elements and upload it.
    Upload(Vec<UploadPartElement>),
    /// Move bytes between S3 objects.
    Copy {
        /// `bucket/key` of the source.
        copy_source: String,
        /// `bytes=start-end` for a partial copy.
        range: Option<String>,
    },
}

/// A ZIP entry that gets its content from S3, and where to deliver its central directory
/// header.
#[derive(Debug)]
pub struct EntryFromS3 {
    pub entry: SerializableEntryFromS3,
    pub cdfh_sender: HeaderSender,
}

/// What a sub-worker has to know of an entry: the planned local header, the S3 operation and
/// the source object.
#[derive(Debug)]
pub struct SerializableEntryFromS3 {
    pub loc: LocalFileHeader<NoCRC>,
    pub operation: S3ObjectOperation,
    pub bucket_name: Arc<str>,
    pub key: String,
}

/// One piece of an upload part's buffer.
#[derive(Debug)]
pub enum UploadPartElement {
    /// A ZIP entry: local header and, where it is downloaded, file body.
    EntryFromS3(EntryFromS3),
    /// The central directory and the closing records.
    CentralDirectory {
        total_size: usize,
        eocd64: EndOfCentralDirectory64,
        cdfh_receiver: HeaderReceiver,
    },
}

/// An entry as mathematics.
#[verifier::ext_equal]
pub struct EntryModel {
    pub loc: LocModel,
    pub operation: S3ObjectOperation,
    pub bucket: Seq<char>,
    pub key: Seq<char>,
}

#[verifier::ext_equal]
pub enum ElementModel {
    Entry { entry: EntryModel, sender: HeaderSender },
    Directory { total_size: nat, eocd64: EndOfCentralDirectory64, receiver: HeaderReceiver },
}

#[verifier::ext_equal]
pub enum JobKind {
    Upload(Seq<ElementModel>),
    Copy { source: Seq<char>, range: Option<Seq<char>> },
}

#[verifier::ext_equal]
pub struct JobModel {
    pub part_number: int,
    pub part_size: nat,
    pub kind: JobKind,
}

impl View for SerializableEntryFromS3 {
    type V = EntryModel;

    open spec fn view(&self) -> EntryModel {
        EntryModel {
            loc: self.loc@,
            operation: self.operation,
            bucket: (*self.bucket_name)@,
            key: self.key@,
        }
    }
}

impl View for UploadPartElement {
    type V = ElementModel;

    open spec fn view(&self) -> ElementModel {
        match *self {
            UploadPartElement::EntryFromS3(e) => ElementModel::Entry {
                entry: e.entry@,
                sender: e.cdfh_sender,
            },
            UploadPartElement::CentralDirectory { total_size, eocd64, cdfh_receiver } => {
                ElementModel::Directory {
                    total_size: total_size as nat,
                    eocd64,
                    receiver: cdfh_receiver,
                }
            },
        }
    }
}

pub open spec fn element_views(elements: Seq<UploadPartElement>) -> Seq<ElementModel> {
    elements.map_values(|e: UploadPartElement| e@)
}

impl View for PartJob {
    type V = JobModel;

    open spec fn view(&self) -> JobModel {
        JobModel {
            part_number: self.part_number as int,
            part_size: self.part_size as nat,
            kind: match self.part_job_type {
                PartJobType::Upload(elements) => JobKind::Upload(element_views(elements@)),
                PartJobType::Copy { copy_source, range } => JobKind::Copy {
                    source: copy_source@,
                    range: match range {
                        Some(text) => Some(text@),
                        None => None,
                    },
                },
            },
        }
    }
}

pub open spec fn job_views(jobs: Seq<PartJob>) -> Seq<JobModel> {
    jobs.map_values(|j: PartJob| j@)
}

impl ElementModel {
    /// The bytes that the element takes in its part.
    pub open spec fn len(self) -> nat {
        match self {
            ElementModel::Entry { entry, .. } => entry_part_len(entry.loc, entry.operation),
            ElementModel::Directory { total_size, .. } => total_size,
        }
    }
}

impl EntryFromS3 {
    /// The bytes that the entry takes in its part.
    pub fn elem_size(&self) -> (n: usize)
        requires
            entry_part_len(self.entry.loc@, self.entry.operation) <= usize::MAX,
        ensures
            n == entry_part_len(self.entry.loc@, self.entry.operation),
    {
        entry_size(&self.entry.loc, &self.entry.operation)
    }

    /// Starts the entry once the response of its S3 operation is there: a buffer with the local
    /// header, to which the body is added chunk by chunk.
    pub fn start(self, checksum: Option<String>) -> (r: Result<SliceBuf, Error>)
        requires
            entry_part_len(self.entry.loc@, self.entry.operation) <= usize::MAX,
        ensures
            match checksum {
                None => fails_with(r, self.entry.operation.no_crc_message()),
                Some(text) => match base64_into_four(text@) {
                    Err(e) => r == Err::<SliceBuf, Error>(Error::Crc32Parse(e)),
                    Ok(b) => {
                        &&& r matches Ok(buf) ==> buf.state() == empty_buffer(
                            entry_part_len(self.entry.loc@, self.entry.operation),
                        ).offer(loc_record(self.entry.loc@, b.reverse()))
                        &&& r is Ok ==> accepted(self.cdfh_sender).contains(
                            (self.entry.loc@, b.reverse()),
                        )
                        &&& r is Err ==> fails_with(r, channel_closed())
                    },
                },
            },
    {
        start_entry(self.entry.loc, &self.entry.operation, checksum, &self.cdfh_sender)
    }
}

impl UploadPartElement {
    /// The bytes that the element takes in its part.
    pub fn elem_size(&self) -> (n: usize)
        requires
            self@.len() <= usize::MAX,
        ensures
            n == self@.len(),
    {
        match self {
            UploadPartElement::EntryFromS3(entry_from_s3) => entry_from_s3.elem_size(),
            UploadPartElement::CentralDirectory { total_size, .. } => *total_size,
        }
    }
}

/// The element that an entry makes, with the channel its header goes to.
pub open spec fn entry_element(
    entry: SerializableEntryFromS3,
    sender: HeaderSender,
) -> UploadPartElement {
    UploadPartElement::EntryFromS3(EntryFromS3 { entry, cdfh_sender: sender })
}

/// Whether `job` is the delegated job with a channel put on.
pub open spec fn restores(job: PartJob, delegated: DelegatedPartJob, sender: HeaderSender) -> bool {
    &&& job.part_number == delegated.part_number
    &&& job.part_size == delegated.part_size
    &&& job.part_job_type matches PartJobType::Upload(elements)
    &&& elements@ == delegated.entries_from_s3@.map_values(
        |e: SerializableEntryFromS3| entry_element(e, sender),
    )
}

impl PartJob {
    /// The job that a sub-worker was given: its entries deliver their headers to `cdfh_sender`.
    pub fn new(delegated_part_job: DelegatedPartJob, cdfh_sender: HeaderSender) -> (job: Self)
        ensures
            restores(job, delegated_part_job, cdfh_sender),
    {
        let mut elements: Vec<UploadPartElement> = Vec::new();
        let ghost all = delegated_part_job.entries_from_s3@;
        let ghost want = all.map_values(
            |e: SerializableEntryFromS3| entry_element(e, cdfh_sender),
        );
        for entry in it: delegated_part_job.entries_from_s3
            invariant
                it.seq() == all,
                want == all.map_values(|e: SerializableEntryFromS3| entry_element(e, cdfh_sender)),
                elements@ == want.take(it.index()),
        {
            let ghost i = it.index();
            elements.push(
                UploadPartElement::EntryFromS3(
                    EntryFromS3 { entry, cdfh_sender: share_sender(&cdfh_sender) },
                ),
            );
            assert(elements@ =~= want.take(i + 1));
        }
        assert(want.take(want.len() as int) =~= want);
        PartJob {
            part_number: delegated_part_job.part_number,
            part_size: delegated_part_job.part_size,
            part_job_type: PartJobType::Upload(elements),
        }
    }

    /// The memory that the job claims while it runs: an `Upload` job its whole buffer, a `Copy`
    /// job a fixed amount.
    pub fn memory_budget_needed(&self) -> (budget: u32)
        ensures
            budget == match self.part_job_type {
                PartJobType::Upload(_) => if self.part_size <= u32::MAX {
                    self.part_size as u32
                } else {
                    u32::MAX
                },
                PartJobType::Copy { .. } => COPY_JOB_MEMORY,
            },
    {
        match &self.part_job_type {
            PartJobType::Upload(_) => if self.part_size as u64 <= u32::MAX as u64 {
                self.part_size as u32
            } else {
                u32::MAX
            },
            PartJobType::Copy { .. } => COPY_JOB_MEMORY,
        }
    }

    /// Whether the job can be given to a sub-worker: it only uploads entries.
    pub open spec fn only_entries(&self) -> bool {
        self.part_job_type matches PartJobType::Upload(elements) && all_entries(elements@)
    }

    /// Whether the job can be given to a sub-worker: it only uploads entries.
    pub fn is_delegatable(&self) -> (d: bool)
        ensures
            d == self.only_entries(),
    {
        match &self.part_job_type {
            PartJobType::Upload(elements) => has_only_entries(elements),
            PartJobType::Copy { .. } => false,
        }
    }

    /// The completed part, once the response of the upload or of the copy is there.
    pub fn completed(&self, etag: Option<String>) -> (r: Result<CompletedPartInfo, Error>)
        ensures
            match etag {
                Some(e) => r == Ok::<CompletedPartInfo, Error>(
                    CompletedPartInfo { part_number: self.part_number, etag: e },
                ),
                None => fails_with(
                    r,
                    match self.part_job_type {
                        PartJobType::Upload(_) => "No ETag in UploadPart response"@,
                        PartJobType::Copy { .. } => "No ETag in UploadPartCopy response"@,
                    },
                ),
            },
    {
        let message: &str = match &self.part_job_type {
            PartJobType::Upload(_) => "No ETag in UploadPart response",
            PartJobType::Copy { .. } => "No ETag in UploadPartCopy response",
        };
        match required(etag, message) {
            Ok(etag) => Ok(CompletedPartInfo { part_number: self.part_number, etag }),
            Err(e) => Err(e),
        }
    }
}

pub open spec fn all_entries(elements: Seq<UploadPartElement>) -> bool {
    forall|i: int| 0 <= i < elements.len() ==> (#[trigger] elements[i]) is EntryFromS3
}

fn has_only_entries(elements: &Vec<UploadPartElement>) -> (r: bool)
    ensures
        r == all_entries(elements@),
{
    let mut i: usize = 0;
    while i < elements.len()
        invariant
            i <= elements@.len(),
            forall|j: int| 0 <= j < i ==> (#[trigger] elements@[j]) is EntryFromS3,
        decreases elements.len() - i,
    {
        match &elements[i] {
            UploadPartElement::EntryFromS3(_) => {},
            _ => {
                assert(!(elements@[i as int] is EntryFromS3));
                return false;
            },
        }
        i = i + 1;
    }
    true
}

// ---------- Delegation ----------

/// A part job in the form in which it is given to a sub-worker.
#[derive(Debug)]
pub struct DelegatedPartJob {
    /// Part number in the multipart upload, begins at 1.
    pub part_number: i32,
    /// Exact size of this part.
    pub part_size: usize,
    pub entries_from_s3: Vec<SerializableEntryFromS3>,
}

/// The entry in an element.
pub open spec fn entry_of(element: UploadPartElement) -> SerializableEntryFromS3 {
    element->EntryFromS3_0.entry
}

pub open spec fn entries_of(elements: Seq<UploadPartElement>) -> Seq<SerializableEntryFromS3> {
    elements.map_values(|e: UploadPartElement| entry_of(e))
}

/// Why a job cannot be converted, or `None` where it can.
pub open spec fn conversion_error(job: PartJob) -> Option<Seq<char>> {
    match job.part_job_type {
        PartJobType::Copy { .. } => Some("Only \"Upload\" PartJob can be delegated"@),
        PartJobType::Upload(elements) => if !all_entries(elements@) {
            Some("\"Upload\" PartJob must only contain EntryFromS3 to be delegated"@)
        } else if elements@.len() == 0 {
            Some("\"Upload\" PartJob must contain at least one EntryFromS3 to be delegated"@)
        } else {
            None
        },
    }
}

/// Whether `error` refuses the job with the message that is due.
pub open spec fn refuses(error: Error, job: PartJob) -> bool {
    &&& error matches Error::InvalidPartJobConversion { message, part_job }
    &&& conversion_error(job) == Some(message@)
    &&& part_job@ == job@
}

/// Whether `delegated` is the job with its channel taken off, and `sender` that channel.
pub open spec fn converts(delegated: DelegatedPartJob, sender: HeaderSender, job: PartJob) -> bool {
    &&& conversion_error(job) is None
    &&& delegated.part_number == job.part_number
    &&& delegated.part_size == job.part_size
    &&& job.part_job_type matches PartJobType::Upload(elements)
    &&& delegated.entries_from_s3@ == entries_of(elements@)
    &&& elements@.last() matches UploadPartElement::EntryFromS3(last)
    &&& sender == last.cdfh_sender
}

/// Whether `delegated` is the job with its channel taken off.
pub open spec fn strips(delegated: DelegatedPartJob, job: PartJob) -> bool {
    exists|sender: HeaderSender| converts(delegated, sender, job)
}

impl DelegatedPartJob {
    /// Takes the channel off a job. Returns the job as it can be given to a sub-worker, and the
    /// channel of the last entry, which is that of all entries. `Copy` jobs, jobs with other
    /// elements than entries and jobs without entries are refused.
    pub fn new_from_part_job(part_job: PartJob) -> (r: Result<(Self, HeaderSender), Error>)
        ensures
            match r {
                Ok((delegated, sender)) => converts(delegated, sender, part_job),
                Err(e) => refuses(e, part_job),
            },
    {
        let PartJob { part_number, part_size, part_job_type } = part_job;
        let mut elements = match part_job_type {
            PartJobType::Upload(elements) => elements,
            PartJobType::Copy { copy_source, range } => {
                return Err(
                    Error::InvalidPartJobConversion {
                        message: "Only \"Upload\" PartJob can be delegated",
                        part_job: PartJob {
                            part_number,
                            part_size,
                            part_job_type: PartJobType::Copy { copy_source, range },
                        },
                    },
                );
            },
        };
        if !has_only_entries(&elements) {
            return Err(
                Error::InvalidPartJobConversion {
                    message: "\"Upload\" PartJob must only contain EntryFromS3 to be delegated",
                    part_job: PartJob {
                        part_number,
                        part_size,
                        part_job_type: PartJobType::Upload(elements),
                    },
                },
            );
        }
        let ghost all = elements@;
        let (last_entry, cdfh_sender) = match elements.pop() {
            Some(UploadPartElement::EntryFromS3(EntryFromS3 { entry, cdfh_sender })) => (
                entry,
                cdfh_sender,
            ),
            _ => {
                let none: Vec<UploadPartElement> = Vec::new();
                assert(element_views(none@) =~= element_views(all));
                return Err(
                    Error::InvalidPartJobConversion {
                        message:
                            "\"Upload\" PartJob must contain at least one EntryFromS3 to be delegated",
                        part_job: PartJob {
                            part_number,
                            part_size,
                            part_job_type: PartJobType::Upload(none),
                        },
                    },
                );
            },
        };
        let ghost front = elements@;
        let ghost want = entries_of(all);
        let mut entries_from_s3: Vec<SerializableEntryFromS3> = Vec::new();
        for element in it: elements
            invariant
                it.seq() == front,
                front == all.drop_last(),
                all.len() > 0,
                all_entries(all),
                want == entries_of(all),
                entries_from_s3@ == want.take(it.index()),
        {
            let ghost i = it.index();
            assert(element == all[i]);
            match element {
                UploadPartElement::EntryFromS3(entry_from_s3) => {
                    entries_from_s3.push(entry_from_s3.entry);
                },
                _ => {
                    assert(false);
                },
            }
            assert(entries_from_s3@ =~= want.take(i + 1));
        }
        entries_from_s3.push(last_entry);
        assert(entries_from_s3@ =~= want);
        Ok((DelegatedPartJob { part_number, part_size, entries_from_s3 }, cdfh_sender))
    }
}

/// The jobs that a sub-worker was given. All of them deliver their headers to `cdfh_sender`.
pub fn worker_jobs(jobs: Vec<DelegatedPartJob>, cdfh_sender: HeaderSender) -> (r: Vec<PartJob>)
    ensures
        r@.len() == jobs@.len(),
        forall|i: int| 0 <= i < jobs@.len() ==> restores(#[trigger] r@[i], jobs@[i], cdfh_sender),
{
    let ghost all = jobs@;
    let mut r: Vec<PartJob> = Vec::new();
    for job in it: jobs
        invariant
            it.seq() == all,
            r@.len() == it.index(),
            forall|i: int|
                0 <= i < it.index() ==> restores(#[trigger] r@[i], all[i], cdfh_sender),
    {
        r.push(PartJob::new(job, share_sender(&cdfh_sender)));
    }
    r
}

/// Splits the jobs into those for sub-workers and those that have to run here, keeping their
/// order.
pub fn partition_jobs(jobs: Vec<PartJob>) -> (r: (Vec<PartJob>, Vec<PartJob>))
    ensures
        r.0@ == jobs@.filter(|j: PartJob| j.only_entries()),
        r.1@ == jobs@.filter(|j: PartJob| !j.only_entries()),
{
    let mut to_delegate: Vec<PartJob> = Vec::new();
    let mut local: Vec<PartJob> = Vec::new();
    let ghost all = jobs@;
    let ghost yes = |j: PartJob| j.only_entries();
    let ghost no = |j: PartJob| !j.only_entries();
    proof {
        reveal(Seq::filter);
        assert(all.take(0) =~= Seq::empty());
    }
    for job in it: jobs
        invariant
            it.seq() == all,
            yes == (|j: PartJob| j.only_entries()),
            no == (|j: PartJob| !j.only_entries()),
            to_delegate@ == all.take(it.index()).filter(yes),
            local@ == all.take(it.index()).filter(no),
    {
        proof {
            reveal(Seq::filter);
            let i = it.index();
            assert(all.take(i + 1).drop_last() =~= all.take(i));
        }
        if job.is_delegatable() {
            to_delegate.push(job);
        } else {
            local.push(job);
        }
    }
    assert(all.take(all.len() as int) =~= all);
    (to_delegate, local)
}

/// The job whose refusal ends the delegation: the last one where it cannot be converted, else
/// the first that cannot.
pub open spec fn is_first_refused(jobs: Seq<PartJob>, i: int) -> bool {
    &&& 0 <= i < jobs.len()
    &&& conversion_error(jobs[i]) is Some
    &&& i == jobs.len() - 1 || conversion_error(jobs.last()) is None
    &&& i == jobs.len() - 1 || forall|k: int|
        0 <= k < i ==> conversion_error(#[trigger] jobs[k]) is None
}

/// Converts the jobs for sub-workers, and returns the channel that their headers go to. Without
/// jobs there is nothing to delegate.
pub fn delegate_jobs(jobs: Vec<PartJob>) -> (r: Result<
    Option<(Vec<DelegatedPartJob>, HeaderSender)>,
    Error,
>)
    ensures
        match r {
            Ok(None) => jobs@.len() == 0,
            Ok(Some((delegated, sender))) => {
                &&& jobs@.len() > 0
                &&& delegated@.len() == jobs@.len()
                &&& forall|i: int|
                    0 <= i < jobs@.len() ==> strips(#[trigger] delegated@[i], jobs@[i])
                &&& converts(delegated@.last(), sender, jobs@.last())
            },
            Err(e) => exists|i: int| #[trigger]
                is_first_refused(jobs@, i) && refuses(e, jobs@[i]),
        },
{
    let ghost all = jobs@;
    let mut rest = jobs;
    let last = match rest.pop() {
        Some(job) => job,
        None => {
            return Ok(None);
        },
    };
    let (last_delegated, sender) = match DelegatedPartJob::new_from_part_job(last) {
        Ok(converted) => converted,
        Err(e) => {
            assert(is_first_refused(all, all.len() - 1));
            return Err(e);
        },
    };
    let ghost front = rest@;
    let mut delegated: Vec<DelegatedPartJob> = Vec::new();
    for job in it: rest
        invariant
            it.seq() == front,
            all == jobs@,
            all.len() > 0,
            front == all.drop_last(),
            conversion_error(all.last()) is None,
            delegated@.len() == it.index(),
            forall|i: int|
                0 <= i < it.index() ==> conversion_error(#[trigger] all[i]) is None,
            forall|i: int| 0 <= i < it.index() ==> strips(#[trigger] delegated@[i], all[i]),
    {
        let ghost i = it.index();
        assert(job == all[i]);
        match DelegatedPartJob::new_from_part_job(job) {
            Ok((d, s)) => {
                delegated.push(d);
                assert(converts(delegated@[i], s, all[i]));
            },
            Err(e) => {
                assert(is_first_refused(all, i));
                return Err(e);
            },
        }
    }
    delegated.push(last_delegated);
    assert(converts(delegated@[all.len() - 1], sender, all[all.len() - 1]));
    Ok(Some((delegated, sender)))
}

// ---------- Executor ----------

/// All that is needed to run the part jobs of an upload.
#[derive(Debug)]
pub struct PartJobExecutor {
    pub multipart_upload: MultipartUpload,
    pub jobs: Vec<PartJob>,
    pub lambda_executor: Option<LambdaExecutor>,
}

/// Where the part jobs run.
#[derive(Debug)]
pub struct Work {
    pub multipart_upload: MultipartUpload,
    /// The jobs of this invocation.
    pub local: Vec<PartJob>,
    /// The jobs for sub-workers, where there are any.
    pub fan_out: Option<(LambdaExecutor, Vec<PartJob>)>,
}

impl PartJobExecutor {
    /// An executor that builds the archive of a layout.
    pub fn new(layout: ZipLayout, multipart_upload: MultipartUpload) -> (executor: Self)
        requires
            layout.ready(),
        ensures
            executor.multipart_upload == multipart_upload,
            executor.lambda_executor is None,
            exists|sender, receiver|
                feeds(sender, receiver) && job_views(executor.jobs@) == #[trigger] built(
                    sender,
                    step_views(layout.steps@),
                ).finalize(receiver),
    {
        Self::new_from_jobs(multipart_upload, layout.into_part_jobs())
    }

    /// An executor that runs the jobs here.
    pub fn new_from_jobs(multipart_upload: MultipartUpload, jobs: Vec<PartJob>) -> (executor: Self)
        ensures
            executor.multipart_upload == multipart_upload,
            executor.jobs == jobs,
            executor.lambda_executor is None,
    {
        PartJobExecutor { multipart_upload, jobs, lambda_executor: None }
    }

    /// Attaches sub-workers, to which eligible jobs are fanned out.
    pub fn with_lambda_executor(self, lambda_executor: LambdaExecutor) -> (executor: Self)
        ensures
            executor.multipart_upload == self.multipart_upload,
            executor.jobs == self.jobs,
            executor.lambda_executor == Some(lambda_executor),
    {
        PartJobExecutor {
            multipart_upload: self.multipart_upload,
            jobs: self.jobs,
            lambda_executor: Some(lambda_executor),
        }
    }

    /// Decides where each job runs. Without sub-workers all run here; with them, the jobs that
    /// only upload entries are fanned out.
    pub fn into_work(self) -> (work: Work)
        ensures
            work.multipart_upload == self.multipart_upload,
            match self.lambda_executor {
                None => work.local@ == self.jobs@ && work.fan_out is None,
                Some(executor) => {
                    &&& work.local@ == self.jobs@.filter(|j: PartJob| !j.only_entries())
                    &&& work.fan_out matches Some((e, delegated))
                    &&& e == executor
                    &&& delegated@ == self.jobs@.filter(|j: PartJob| j.only_entries())
                },
            },
    {
        match self.lambda_executor {
            None => Work {
                multipart_upload: self.multipart_upload,
                local: self.jobs,
                fan_out: None,
            },
            Some(executor) => {
                let (to_delegate, local) = partition_jobs(self.jobs);
                Work {
                    multipart_upload: self.multipart_upload,
                    local,
                    fan_out: Some((executor, to_delegate)),
                }
            },
        }
    }
}

// ---------- Laws ----------

/// A job that a sub-worker makes of a delegated job converts back to it, with the sub-worker's
/// own channel.
pub proof fn delegation_round_trip(
    delegated: DelegatedPartJob,
    sender: HeaderSender,
    job: PartJob,
    back: DelegatedPartJob,
    back_sender: HeaderSender,
)
    requires
        delegated.entries_from_s3@.len() > 0,
        restores(job, delegated, sender),
    ensures
        conversion_error(job) is None,
        converts(back, back_sender, job) ==> {
            &&& back.part_number == delegated.part_number
            &&& back.part_size == delegated.part_size
            &&& back.entries_from_s3@ == delegated.entries_from_s3@
            &&& back_sender == sender
        },
{
    if converts(back, back_sender, job) {
        assert(back.entries_from_s3@ =~= delegated.entries_from_s3@);
    }
}

/// No job gets lost: every job is either fanned out or run here.
pub proof fn every_job_runs_somewhere(jobs: Seq<PartJob>)
    ensures
        jobs.filter(|j: PartJob| j.only_entries()).to_multiset().add(
            jobs.filter(|j: PartJob| !j.only_entries()).to_multiset(),
        ) == jobs.to_multiset(),
    decreases jobs.len(),
{
    broadcast use vstd::multiset::group_multiset_axioms;
    broadcast use vstd::seq_lib::group_to_multiset_ensures;

    reveal(Seq::filter);
    if jobs.len() == 0 {
        assert(jobs =~= Seq::empty());
    } else {
        every_job_runs_somewhere(jobs.drop_last());
        assert(jobs =~= jobs.drop_last().push(jobs.last()));
    }
    assert(jobs.filter(|j: PartJob| j.only_entries()).to_multiset().add(
        jobs.filter(|j: PartJob| !j.only_entries()).to_multiset(),
    ) =~= jobs.to_multiset());
}

/// Whether an element is a central directory.
pub open spec fn is_directory(element: UploadPartElement) -> bool {
    match element {
        UploadPartElement::CentralDirectory { .. } => true,
        UploadPartElement::EntryFromS3(_) => false,
    }
}

/// Whether a job is a server-side copy.
pub open spec fn is_copy(job: PartJob) -> bool {
    match job.part_job_type {
        PartJobType::Copy { .. } => true,
        PartJobType::Upload(_) => false,
    }
}

/// Whether some element of a job is a central directory.
pub open spec fn holds_a_directory(job: PartJob) -> bool {
    match job.part_job_type {
        PartJobType::Copy { .. } => false,
        PartJobType::Upload(elements) => exists|i: int|
            0 <= i < elements@.len() && is_directory(#[trigger] elements@[i]),
    }
}

/// Whether a job has no element.
pub open spec fn is_empty_upload(job: PartJob) -> bool {
    match job.part_job_type {
        PartJobType::Copy { .. } => false,
        PartJobType::Upload(elements) => elements@.len() == 0,
    }
}

/// A job is fanned out exactly where it is an upload without a central directory. It can then be
/// converted for a sub-worker, unless it is empty. A job that is not fanned out can never be.
pub proof fn fanned_out_jobs_can_be_converted(job: PartJob)
    ensures
        job.only_entries() <==> !is_copy(job) && !holds_a_directory(job),
        job.only_entries() && !is_empty_upload(job) ==> conversion_error(job) is None,
        conversion_error(job) is None ==> job.only_entries() && !is_empty_upload(job),
{
    match job.part_job_type {
        PartJobType::Copy { .. } => {},
        PartJobType::Upload(elements) => {
            if !holds_a_directory(job) {
                assert forall|i: int| 0 <= i < elements@.len() implies (
                #[trigger] elements@[i]) is EntryFromS3 by {
                    assert(!is_directory(elements@[i]));
                }
            }
        },
    }
}

/// Which message a refused job gets: for a copy, for other elements than entries, and for none.
pub proof fn refusals_say_why(job: PartJob)
    ensures
        is_copy(job) ==> conversion_error(job) == Some(
            "Only \"Upload\" PartJob can be delegated"@,
        ),
        holds_a_directory(job) ==> conversion_error(job) == Some(
            "\"Upload\" PartJob must only contain EntryFromS3 to be delegated"@,
        ),
        is_empty_upload(job) ==> conversion_error(job) == Some(
            "\"Upload\" PartJob must contain at least one EntryFromS3 to be delegated"@,
        ),
{
}

/// Every job of an upload is either fanned out or run here, never both, in its order among those of
/// its kind: of two lists of jobs, what is fanned out of both is what is fanned out of the first and
/// behind it what is fanned out of the second.
pub proof fn jobs_are_fanned_out_in_order(
    before: Seq<PartJob>,
    job: PartJob,
    behind: Seq<PartJob>,
)
    ensures
        ({
            let out = |j: PartJob| j.only_entries();
            let here = |j: PartJob| !j.only_entries();
            let all = before + seq![job] + behind;
            let converts = !is_copy(job) && !holds_a_directory(job);
            &&& all.filter(out) == before.filter(out) + (if converts {
                seq![job]
            } else {
                Seq::empty()
            }) + behind.filter(out)
            &&& all.filter(here) == before.filter(here) + (if converts {
                Seq::empty()
            } else {
                seq![job]
            }) + behind.filter(here)
        }),
{
    let out = |j: PartJob| j.only_entries();
    let here = |j: PartJob| !j.only_entries();
    fanned_out_jobs_can_be_converted(job);
    reveal(Seq::filter);
    reveal_with_fuel(Seq::filter, 2);
    assert(seq![job].drop_last() =~= Seq::empty());
    Seq::filter_distributes_over_add(before + seq![job], behind, out);
    Seq::filter_distributes_over_add(before, seq![job], out);
    Seq::filter_distributes_over_add(before + seq![job], behind, here);
    Seq::filter_distributes_over_add(before, seq![job], here);
    assert(seq![job].filter(out) =~= if job.only_entries() {
        seq![job]
    } else {
        Seq::empty()
    });
    assert(seq![job].filter(here) =~= if job.only_entries() {
        Seq::empty()
    } else {
        seq![job]
    });
}

/// A converted job has the number and the size of the job and its entries one by one. The channel is
/// that of the job's entries, where all share one.
pub proof fn conversion_keeps_the_job(
    delegated: DelegatedPartJob,
    sender: HeaderSender,
    job: PartJob,
    i: int,
)
    requires
        converts(delegated, sender, job),
        0 <= i < delegated.entries_from_s3@.len(),
    ensures
        delegated.part_number == job.part_number,
        delegated.part_size == job.part_size,
        match job.part_job_type {
            PartJobType::Copy { .. } => false,
            PartJobType::Upload(elements) => {
                &&& elements@.len() == delegated.entries_from_s3@.len()
                &&& match elements@[i] {
                    UploadPartElement::CentralDirectory { .. } => false,
                    UploadPartElement::EntryFromS3(e) => {
                        &&& e.entry == delegated.entries_from_s3@[i]
                        &&& i == elements@.len() - 1 ==> e.cdfh_sender == sender
                    },
                }
            },
        },
{
    match job.part_job_type {
        PartJobType::Copy { .. } => {},
        PartJobType::Upload(elements) => {
            assert(elements@[i] is EntryFromS3);
        },
    }
}

/// A refusal gives the job back as it was, and only where the job cannot be converted.
pub proof fn refusal_gives_the_job_back(error: Error, job: PartJob)
    requires
        refuses(error, job),
    ensures
        is_copy(job) || holds_a_directory(job) || is_empty_upload(job),
        error matches Error::InvalidPartJobConversion { message, part_job } && part_job@ == job@
            && Some(message@) == conversion_error(job),
{
    fanned_out_jobs_can_be_converted(job);
}

/// A sub-worker's job has the number and the size of what it was given, and its entries one by one,
/// all with the sub-worker's own channel.
pub proof fn restored_jobs_are_what_was_given(
    job: PartJob,
    delegated: DelegatedPartJob,
    sender: HeaderSender,
    i: int,
)
    requires
        restores(job, delegated, sender),
        0 <= i < delegated.entries_from_s3@.len(),
    ensures
        job.part_number == delegated.part_number,
        job.part_size == delegated.part_size,
        match job.part_job_type {
            PartJobType::Copy { .. } => false,
            PartJobType::Upload(elements) => {
                &&& elements@.len() == delegated.entries_from_s3@.len()
                &&& match elements@[i] {
                    UploadPartElement::CentralDirectory { .. } => false,
                    UploadPartElement::EntryFromS3(e) => e.entry == delegated.entries_from_s3@[i]
                        && e.cdfh_sender == sender,
                }
            },
        },
{
}

/// Where some job cannot be converted, one of them is named: the last where it cannot, else the
/// first that cannot. Where all can be, none is.
pub proof fn one_refused_job_is_named(jobs: Seq<PartJob>, i: int, j: int)
    ensures
        is_first_refused(jobs, i) && is_first_refused(jobs, j) ==> i == j,
        is_first_refused(jobs, i) ==> 0 <= i < jobs.len() && (is_copy(jobs[i])
            || holds_a_directory(jobs[i]) || is_empty_upload(jobs[i])),
        jobs.len() > 0 && conversion_error(jobs.last()) is Some ==> is_first_refused(
            jobs,
            jobs.len() - 1,
        ),
        is_first_refused(jobs, i) && 0 <= j < i && i < jobs.len() - 1 ==> conversion_error(
            jobs[j],
        ) is None,
{
    if is_first_refused(jobs, i) {
        fanned_out_jobs_can_be_converted(jobs[i]);
    }
    if is_first_refused(jobs, i) && is_first_refused(jobs, j) && i < j {
        assert(conversion_error(jobs[i]) is Some);
    }
}

/// The models of jobs and elements show what these hold.
pub proof fn models_show_the_job(jobs: Seq<PartJob>, p: int, i: int)
    requires
        0 <= p < jobs.len(),
    ensures
        ({
            let job = jobs[p];
            let model = job_views(jobs)[p];
            &&& job_views(jobs).len() == jobs.len()
            &&& model == job@
            &&& model.part_number == job.part_number
            &&& model.part_size == job.part_size
            &&& match job.part_job_type {
                PartJobType::Copy { copy_source, range } => model.kind matches JobKind::Copy {
                    source,
                    range: shown,
                } && source == copy_source@ && (shown is Some <==> range is Some) && (range is Some
                    ==> shown->0 == range->0@),
                PartJobType::Upload(elements) => model.kind matches JobKind::Upload(shown)
                    && shown.len() == elements@.len() && (0 <= i < shown.len() ==> shown[i]
                    == elements@[i]@ && element_is_shown(elements@[i], shown[i])),
            }
        }),
{
}

/// Whether a model shows what an element holds.
pub open spec fn element_is_shown(element: UploadPartElement, model: ElementModel) -> bool {
    match element {
        UploadPartElement::EntryFromS3(e) => {
            &&& model matches ElementModel::Entry { entry, sender }
            &&& entry.loc == e.entry.loc@
            &&& entry.operation == e.entry.operation
            &&& entry.bucket == (*e.entry.bucket_name)@
            &&& entry.key == e.entry.key@
            &&& sender == e.cdfh_sender
        },
        UploadPartElement::CentralDirectory { total_size, eocd64, cdfh_receiver } => {
            model == (ElementModel::Directory {
                total_size: total_size as nat,
                eocd64,
                receiver: cdfh_receiver,
            })
        },
    }
}

/// A job whose channel was taken off keeps its number, its size and its entries one by one.
pub proof fn stripped_jobs_keep_everything(delegated: DelegatedPartJob, job: PartJob, i: int)
    requires
        strips(delegated, job),
    ensures
        delegated.part_number == job.part_number,
        delegated.part_size == job.part_size,
        delegated.entries_from_s3@.len() > 0,
        match job.part_job_type {
            PartJobType::Copy { .. } => false,
            PartJobType::Upload(elements) => {
                &&& elements@.len() == delegated.entries_from_s3@.len()
                &&& 0 <= i < elements@.len() ==> match elements@[i] {
                    UploadPartElement::CentralDirectory { .. } => false,
                    UploadPartElement::EntryFromS3(e) => e.entry == delegated.entries_from_s3@[i],
                }
            },
        },
{
    let sender = choose|sender: HeaderSender| converts(delegated, sender, job);
    match job.part_job_type {
        PartJobType::Copy { .. } => {},
        PartJobType::Upload(elements) => {
            assert(entries_of(elements@).len() == elements@.len());
            if 0 <= i < elements@.len() {
                conversion_keeps_the_job(delegated, sender, job, i);
            }
        },
    }
}

} // verus!
