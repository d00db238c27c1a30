//! How much work a job list is.

use vstd::prelude::*;

use crate::transfer::S3ObjectOperation;
use crate::v3::part_executor::{
    element_views, job_views, ElementModel, EntryFromS3, JobKind, JobModel, PartJob, PartJobType,
    SerializableEntryFromS3, UploadPartElement,
};

verus! {

/// Parts and bytes of a job list by kind.
#[derive(Debug, Clone, Copy, PartialEq, Eq, Structural)]
pub struct JobTotals {
    pub upload_part_count: usize,
    pub copy_part_count: usize,
    /// Bytes that are downloaded.
    pub download_size: usize,
    /// Bytes that are uploaded.
    pub upload_size: usize,
    /// Bytes that are copied server-side.
    pub copy_size: usize,
}

/// The bytes that some elements download.
pub open spec fn download_len(elements: Seq<ElementModel>) -> nat
    decreases elements.len(),
{
    if elements.len() == 0 {
        0
    } else {
        download_len(elements.drop_last()) + match elements.last() {
            ElementModel::Entry { entry, .. } => entry.operation.body_len(entry.loc.file_size),
            ElementModel::Directory { .. } => 0,
        }
    }
}

#[verifier::ext_equal]
pub struct TotalsModel {
    pub uploads: nat,
    pub copies: nat,
    pub downloaded: nat,
    pub uploaded: nat,
    pub copied: nat,
}

pub open spec fn totals(jobs: Seq<JobModel>) -> TotalsModel
    decreases jobs.len(),
{
    if jobs.len() == 0 {
        TotalsModel { uploads: 0, copies: 0, downloaded: 0, uploaded: 0, copied: 0 }
    } else {
        let t = totals(jobs.drop_last());
        let job = jobs.last();
        match job.kind {
            JobKind::Upload(elements) => TotalsModel {
                uploads: t.uploads + 1,
                downloaded: t.downloaded + download_len(elements),
                uploaded: t.uploaded + job.part_size,
                ..t
            },
            JobKind::Copy { .. } => TotalsModel {
                copies: t.copies + 1,
                copied: t.copied + job.part_size,
                ..t
            },
        }
    }
}

proof fn lemma_totals_take(jobs: Seq<JobModel>, i: int)
    requires
        0 <= i <= jobs.len(),
    ensures
        totals(jobs.take(i)).downloaded <= totals(jobs).downloaded,
        totals(jobs.take(i)).uploaded <= totals(jobs).uploaded,
        totals(jobs.take(i)).copied <= totals(jobs).copied,
        totals(jobs.take(i)).uploads <= i,
        totals(jobs.take(i)).copies <= i,
    decreases jobs.len(),
{
    if i < jobs.len() {
        assert(jobs.drop_last().take(i) =~= jobs.take(i));
        lemma_totals_take(jobs.drop_last(), i);
    } else {
        assert(jobs.take(i) =~= jobs);
        if i > 0 {
            assert(jobs.drop_last().take(i - 1) =~= jobs.drop_last());
            lemma_totals_take(jobs.drop_last(), i - 1);
        }
    }
}

proof fn lemma_download_take(elements: Seq<ElementModel>, i: int)
    requires
        0 <= i <= elements.len(),
    ensures
        download_len(elements.take(i)) <= download_len(elements),
    decreases elements.len(),
{
    if i < elements.len() {
        assert(elements.drop_last().take(i) =~= elements.take(i));
        lemma_download_take(elements.drop_last(), i);
    } else {
        assert(elements.take(i) =~= elements);
    }
}

/// The bytes that the elements download.
fn download_size(elements: &Vec<UploadPartElement>) -> (n: usize)
    requires
        download_len(element_views(elements@)) <= usize::MAX,
    ensures
        n == download_len(element_views(elements@)),
{
    let ghost all = element_views(elements@);
    let mut n: usize = 0;
    let mut i: usize = 0;
    assert(all.take(0) =~= Seq::empty());
    while i < elements.len()
        invariant
            i <= elements@.len(),
            all == element_views(elements@),
            download_len(all) <= usize::MAX,
            n == download_len(all.take(i as int)),
        decreases elements.len() - i,
    {
        proof {
            assert(all.take(i + 1).drop_last() =~= all.take(i as int));
            lemma_download_take(all, i + 1);
            assert(all[i as int] == elements@[i as int]@);
        }
        match &elements[i] {
            UploadPartElement::EntryFromS3(
                EntryFromS3 { entry: SerializableEntryFromS3 { loc, operation, .. }, .. },
            ) => {
                n = n + operation.download_size(loc.file_size());
            },
            UploadPartElement::CentralDirectory { .. } => {},
        }
        i = i + 1;
    }
    assert(all.take(i as int) =~= all);
    n
}

/// Parts and bytes of a job list by kind.
pub fn job_totals(jobs: &Vec<PartJob>) -> (t: JobTotals)
    requires
        totals(job_views(jobs@)).downloaded <= usize::MAX,
        totals(job_views(jobs@)).uploaded <= usize::MAX,
        totals(job_views(jobs@)).copied <= usize::MAX,
    ensures
        (TotalsModel {
            uploads: t.upload_part_count as nat,
            copies: t.copy_part_count as nat,
            downloaded: t.download_size as nat,
            uploaded: t.upload_size as nat,
            copied: t.copy_size as nat,
        }) == totals(job_views(jobs@)),
{
    let ghost all = job_views(jobs@);
    let mut t = JobTotals {
        upload_part_count: 0,
        copy_part_count: 0,
        download_size: 0,
        upload_size: 0,
        copy_size: 0,
    };
    let mut i: usize = 0;
    assert(all.take(0) =~= Seq::empty());
    while i < jobs.len()
        invariant
            i <= jobs@.len(),
            all == job_views(jobs@),
            totals(all).downloaded <= usize::MAX,
            totals(all).uploaded <= usize::MAX,
            totals(all).copied <= usize::MAX,
            t.upload_part_count <= i,
            t.copy_part_count <= i,
            t.upload_part_count == totals(all.take(i as int)).uploads,
            t.copy_part_count == totals(all.take(i as int)).copies,
            t.download_size == totals(all.take(i as int)).downloaded,
            t.upload_size == totals(all.take(i as int)).uploaded,
            t.copy_size == totals(all.take(i as int)).copied,
        decreases jobs.len() - i,
    {
        proof {
            assert(all.take(i + 1).drop_last() =~= all.take(i as int));
            lemma_totals_take(all, i + 1);
            assert(all[i as int] == jobs@[i as int]@);
        }
        match &jobs[i].part_job_type {
            PartJobType::Upload(elements) => {
                t.upload_part_count = t.upload_part_count + 1;
                t.download_size = t.download_size + download_size(elements);
                t.upload_size = t.upload_size + jobs[i].part_size;
            },
            PartJobType::Copy { .. } => {
                t.copy_part_count = t.copy_part_count + 1;
                t.copy_size = t.copy_size + jobs[i].part_size;
            },
        }
        i = i + 1;
    }
    assert(all.take(i as int) =~= all);
    t
}

// ---------- Laws ----------

/// Every job counts once, by its kind: an upload part with its size and what its entries download, a
/// copy part with its size.
pub proof fn every_job_counts(before: Seq<JobModel>, job: JobModel, behind: Seq<JobModel>)
    ensures
        ({
            let (a, b) = (totals(before), totals(behind));
            let t = totals(before + seq![job] + behind);
            match job.kind {
                JobKind::Upload(elements) => {
                    &&& t.uploads == a.uploads + b.uploads + 1
                    &&& t.copies == a.copies + b.copies
                    &&& t.downloaded == a.downloaded + b.downloaded + download_len(elements)
                    &&& t.uploaded == a.uploaded + b.uploaded + job.part_size
                    &&& t.copied == a.copied + b.copied
                },
                JobKind::Copy { .. } => {
                    &&& t.uploads == a.uploads + b.uploads
                    &&& t.copies == a.copies + b.copies + 1
                    &&& t.downloaded == a.downloaded + b.downloaded
                    &&& t.uploaded == a.uploaded + b.uploaded
                    &&& t.copied == a.copied + b.copied + job.part_size
                },
            }
        }),
        totals(Seq::empty()) == (TotalsModel {
            uploads: 0,
            copies: 0,
            downloaded: 0,
            uploaded: 0,
            copied: 0,
        }),
    decreases behind.len(),
{
    let all = before + seq![job] + behind;
    if behind.len() == 0 {
        assert(all.drop_last() =~= before);
    } else {
        every_job_counts(before, job, behind.drop_last());
        assert(all.drop_last() =~= before + seq![job] + behind.drop_last());
    }
}

/// Every entry counts with what its operation downloads: a whole file, its first bytes or nothing. The
/// central directory downloads nothing.
pub proof fn every_download_counts(
    before: Seq<ElementModel>,
    element: ElementModel,
    behind: Seq<ElementModel>,
)
    ensures
        download_len(Seq::empty()) == 0,
        download_len(before + seq![element] + behind) == download_len(before) + download_len(
            behind,
        ) + match element {
            ElementModel::Directory { .. } => 0,
            ElementModel::Entry { entry, .. } => match entry.operation {
                S3ObjectOperation::Get => entry.loc.file_size,
                S3ObjectOperation::PartialGet { size } => size as nat,
                S3ObjectOperation::Head => 0,
            },
        },
    decreases behind.len(),
{
    let all = before + seq![element] + behind;
    if behind.len() == 0 {
        assert(all.drop_last() =~= before);
    } else {
        every_download_counts(before, element, behind.drop_last());
        assert(all.drop_last() =~= before + seq![element] + behind.drop_last());
    }
}

} // verus!
