//! What an invocation is given and what it returns.

use std::sync::Arc;

use vstd::prelude::*;

use crate::v3::part_executor::DelegatedPartJob;
use crate::v3::s3_ops::{CompletedPartInfo, MultipartUpload};
use crate::zip_format::CentralDirectoryFileHeader;

verus! {

/// What an invocation is to do.
#[derive(Debug)]
pub enum Invocation {
    /// Run a batch of part jobs for another invocation.
    DelegatedJobs(DelegatedJobs),
    /// List, plan and upload an archive.
    Archive(JobInfo),
    /// Get ready, and nothing else.
    Warm,
}

/// A batch of part jobs of an open upload.
#[derive(Debug)]
pub struct DelegatedJobs {
    pub multipart_upload: MultipartUpload,
    pub jobs: Vec<DelegatedPartJob>,
}

/// What a sub-worker returns: the parts that it completed and the headers of the entries in
/// them.
#[derive(Debug)]
pub struct JobsResults {
    pub cdfhs: Vec<CentralDirectoryFileHeader>,
    pub completed_parts: Vec<CompletedPartInfo>,
}

/// What an invocation returns.
#[derive(Debug)]
pub enum InvocationResult {
    /// Returned by sub-workers.
    JobsResults(JobsResults),
    /// Returned by all others.
    NoResult,
}

/// One archiving job.
#[derive(Debug, Clone)]
pub struct JobInfo {
    /// Source and destination bucket.
    pub bucket_name: Arc<str>,
    /// Key prefix of the source objects, without trailing slash.
    pub files_prefix: Arc<str>,
    /// Destination key of the archive.
    pub archive_key: Arc<str>,
}

} // verus!
