//! From listed files to an executor that builds their archive.

use vstd::prelude::*;

use crate::transfer::feeds;
use crate::v3::archive_laws::totals_are_countable;
use crate::v3::lambda_executor::LambdaExecutor;
use crate::v3::part_executor::totals::totals;
use crate::v3::part_executor::{job_views, JobModel, PartJobExecutor};
use crate::v3::s3_ops::{file_views, FileInfo, MultipartUpload};
use crate::v3::zip_layout::{built, countable, layout_steps, step_views, ZipLayout};

verus! {

/// Whether the bytes of the jobs can be counted by kind.
pub open spec fn countable_work(jobs: Seq<JobModel>) -> bool {
    let t = totals(jobs);
    t.downloaded <= usize::MAX && t.uploaded <= usize::MAX && t.copied <= usize::MAX
}

/// The executor of an archiving job: lays the files out, makes the part jobs of the layout, and
/// attaches sub-workers where there are to be some.
pub fn archive_executor(
    files_info: Vec<FileInfo>,
    multipart_upload: MultipartUpload,
    lambda_executor: Option<LambdaExecutor>,
) -> (executor: PartJobExecutor)
    requires
        countable(file_views(files_info@), 2 * files_info@.len() + 1),
    ensures
        executor.multipart_upload == multipart_upload,
        executor.lambda_executor == lambda_executor,
        exists|sender, receiver|
            feeds(sender, receiver) && job_views(executor.jobs@) == #[trigger] built(
                sender,
                layout_steps(file_views(files_info@)),
            ).finalize(receiver),
        countable_work(job_views(executor.jobs@)),
{
    let layout = ZipLayout::from_files_info(files_info);
    let ghost steps = step_views(layout.steps@);
    let executor = PartJobExecutor::new(layout, multipart_upload);
    proof {
        let (sender, receiver) = choose|sender, receiver|
            feeds(sender, receiver) && job_views(executor.jobs@) == #[trigger] built(
                sender,
                steps,
            ).finalize(receiver);
        totals_are_countable(sender, receiver, steps);
    }
    match lambda_executor {
        Some(lambda_executor) => executor.with_lambda_executor(lambda_executor),
        None => executor,
    }
}

} // verus!
