use std::collections::HashMap;
use std::io::{Cursor, Read};

use s3_archiver::byte_sink::SliceBuf;
use s3_archiver::error::Error;
use s3_archiver::transfer::{
    lay_out_part, write_chunk, write_entry_header, DirectoryAssembler, HeaderReceiver,
    S3ObjectOperation,
};
use s3_archiver::v2;
use s3_archiver::v3::archive::archive_executor;
use s3_archiver::v3::events::JobInfo;
use s3_archiver::v3::lambda_executor::{
    fan_out_mode, into_batches, LambdaExecutor, LAMBDA_WORKER_PART_JOB_MAX_CHUNK_SIZE,
};
use s3_archiver::v3::part_executor::part_builder::PartJobsBuilder;
use s3_archiver::v3::part_executor::totals::job_totals;
use s3_archiver::v3::part_executor::{
    delegate_jobs, partition_jobs, worker_jobs, DelegatedPartJob, PartJob, PartJobExecutor,
    PartJobType, UploadPartElement,
};
use s3_archiver::v3::s3_ops::{
    complete_multipart_upload, start_multipart_upload, CompletedPartInfo, FileInfo, MultipartUpload,
};
use s3_archiver::v3::zip_layout::{can_be_laid_out, LayoutStep, ZipLayout, MIN_PART_SIZE};
use tokio::sync::mpsc::unbounded_channel;

fn file(name: &str, size: usize) -> FileInfo {
    FileInfo {
        name: name.to_string(),
        bucket_name: "bucket".into(),
        key: format!("files/{name}"),
        size,
    }
}

fn upload() -> MultipartUpload {
    MultipartUpload {
        bucket_name: "bucket".into(),
        archive_key: "archive.zip".into(),
        upload_id: "id".into(),
    }
}

fn elements(job: &PartJob) -> &Vec<UploadPartElement> {
    match &job.part_job_type {
        PartJobType::Upload(elements) => elements,
        PartJobType::Copy { .. } => panic!("expected an upload part"),
    }
}

fn copy(job: &PartJob) -> (&str, Option<&str>) {
    match &job.part_job_type {
        PartJobType::Copy { copy_source, range } => (copy_source.as_str(), range.as_deref()),
        PartJobType::Upload(_) => panic!("expected a copy part"),
    }
}

fn numbers(jobs: &[PartJob]) -> Vec<i32> {
    jobs.iter().map(|j| j.part_number).collect()
}

fn message<T>(r: Result<T, Error>) -> String {
    match r {
        Err(Error::Custom(m)) => m,
        _ => panic!("expected a message"),
    }
}

// ---------- Builder ----------

#[test]
fn added_files_share_an_upload_part() {
    let mut builder = PartJobsBuilder::new();
    builder.add_files(vec![file("a", 10), file("bb", 20)]);
    builder.add_files(vec![file("ccc", 30)]);
    let jobs = builder.finalize();
    assert_eq!(numbers(&jobs), vec![1]);
    let elems = elements(&jobs[0]);
    assert_eq!(elems.len(), 4);
    let sizes: Vec<usize> = elems.iter().map(|e| e.elem_size()).collect();
    assert_eq!(sizes, vec![31 + 10, 32 + 20, 33 + 30, 47 + 48 + 49 + 22]);
    assert_eq!(jobs[0].part_size, sizes.iter().sum::<usize>());
    let mut offset = 0;
    for elem in &elems[..3] {
        match elem {
            UploadPartElement::EntryFromS3(e) => {
                assert_eq!(e.entry.loc.offset(), offset);
                assert_eq!(e.entry.operation, S3ObjectOperation::Get);
                assert_eq!(&*e.entry.bucket_name, "bucket");
                offset += e.elem_size();
            }
            UploadPartElement::CentralDirectory { .. } => panic!("expected an entry"),
        }
    }
    match &elems[3] {
        UploadPartElement::CentralDirectory {
            total_size, eocd64, ..
        } => {
            assert_eq!(*total_size, 47 + 48 + 49 + 22);
            assert_eq!(eocd64.record_count, 3);
            assert_eq!(eocd64.central_directory_size, 47 + 48 + 49);
            assert_eq!(eocd64.central_directory_offset, offset);
            assert_eq!(eocd64.eocd64_offset, offset + 47 + 48 + 49);
        }
        UploadPartElement::EntryFromS3(_) => panic!("expected the central directory"),
    }
}

#[test]
fn a_copied_file_ends_its_upload_part() {
    let mut builder = PartJobsBuilder::new();
    builder.add_files(vec![file("a", 10)]);
    builder.copy_file(file("big", 1000));
    builder.add_files(vec![file("c", 5)]);
    builder.partial_copy_file(file("large", 2000), 300);
    let jobs = builder.finalize();
    assert_eq!(numbers(&jobs), vec![1, 2, 3, 4, 5]);
    assert_eq!(jobs[0].part_size, 31 + 10 + 33);
    assert_eq!(jobs[1].part_size, 1000);
    assert_eq!(copy(&jobs[1]), ("bucket/files/big", None));
    assert_eq!(jobs[2].part_size, 31 + 5 + 35 + 300);
    assert_eq!(jobs[3].part_size, 1700);
    assert_eq!(
        copy(&jobs[3]),
        ("bucket/files/large", Some("bytes=300-1999"))
    );
    assert_eq!(jobs[4].part_size, 47 + 49 + 47 + 51 + 22);
    let operations: Vec<S3ObjectOperation> = elements(&jobs[0])
        .iter()
        .chain(elements(&jobs[2]))
        .map(|e| match e {
            UploadPartElement::EntryFromS3(e) => e.entry.operation,
            UploadPartElement::CentralDirectory { .. } => panic!("expected an entry"),
        })
        .collect();
    assert_eq!(
        operations,
        vec![
            S3ObjectOperation::Get,
            S3ObjectOperation::Head,
            S3ObjectOperation::Get,
            S3ObjectOperation::PartialGet { size: 300 },
        ]
    );
    let totals = job_totals(&jobs);
    assert_eq!(totals.upload_part_count, 3);
    assert_eq!(totals.copy_part_count, 2);
    assert_eq!(totals.download_size, 10 + 5 + 300);
    assert_eq!(
        totals.upload_size,
        jobs[0].part_size + jobs[2].part_size + jobs[4].part_size
    );
    assert_eq!(totals.copy_size, 2700);
}

#[test]
fn no_files_still_make_an_upload_part() {
    let mut builder = PartJobsBuilder::new();
    builder.add_files(vec![]);
    builder.copy_file(file("big", 7));
    let jobs = builder.finalize();
    assert_eq!(numbers(&jobs), vec![1, 2, 3]);
    assert_eq!(jobs[0].part_size, 33);
    let jobs = PartJobsBuilder::new().finalize();
    assert_eq!(numbers(&jobs), vec![1]);
    assert_eq!(jobs[0].part_size, 22);
}

#[test]
fn memory_is_claimed_by_kind() {
    let mut builder = PartJobsBuilder::new();
    builder.add_files(vec![file("a", 10)]);
    builder.copy_file(file("b", 9_000_000));
    let mut jobs = builder.finalize();
    assert_eq!(jobs[0].memory_budget_needed(), 31 + 10 + 31);
    assert_eq!(jobs[1].memory_budget_needed(), 256 * 1024);
    jobs[0].part_size = 0x1_0000_0000;
    assert_eq!(jobs[0].memory_budget_needed(), u32::MAX);
}

#[test]
fn completed_parts_have_an_etag() {
    let mut builder = PartJobsBuilder::new();
    builder.add_files(vec![file("a", 10)]);
    builder.copy_file(file("b", 20));
    let jobs = builder.finalize();
    let part = jobs[1].completed(Some("etag".to_string())).unwrap();
    assert_eq!((part.part_number, part.etag.as_str()), (2, "etag"));
    assert_eq!(
        message(jobs[0].completed(None)),
        "No ETag in UploadPart response"
    );
    assert_eq!(
        message(jobs[1].completed(None)),
        "No ETag in UploadPartCopy response"
    );
}

// ---------- Delegation ----------

fn mixed_jobs() -> Vec<PartJob> {
    let mut builder = PartJobsBuilder::new();
    builder.add_files(vec![file("a", 10)]);
    builder.copy_file(file("b", 20));
    builder.add_files(vec![file("c", 30), file("d", 40)]);
    builder.copy_file(file("e", 50));
    builder.finalize()
}

#[test]
fn only_entry_uploads_are_delegated() {
    let (delegated, local) = partition_jobs(mixed_jobs());
    assert_eq!(numbers(&delegated), vec![1, 3]);
    assert_eq!(numbers(&local), vec![2, 4, 5]);
}

#[test]
fn work_stays_here_without_sub_workers() {
    let work = PartJobExecutor::new_from_jobs(upload(), mixed_jobs()).into_work();
    assert_eq!(numbers(&work.local), vec![1, 2, 3, 4, 5]);
    assert!(work.fan_out.is_none());
    let executor = PartJobExecutor::new_from_jobs(upload(), mixed_jobs())
        .with_lambda_executor(LambdaExecutor::new("arn".into(), 3));
    let work = executor.into_work();
    assert_eq!(numbers(&work.local), vec![2, 4, 5]);
    let (lambda, delegated) = work.fan_out.unwrap();
    assert_eq!((&*lambda.function_arn, lambda.max_workers), ("arn", 3));
    assert_eq!(numbers(&delegated), vec![1, 3]);
    assert_eq!(&*work.multipart_upload.upload_id, "id");
}

#[test]
fn delegated_jobs_come_back() {
    let (jobs, _) = partition_jobs(mixed_jobs());
    let sizes: Vec<usize> = jobs.iter().map(|j| j.part_size).collect();
    let (delegated, _sender) = delegate_jobs(jobs).unwrap().unwrap();
    assert_eq!(delegated.len(), 2);
    assert_eq!(delegated[0].part_number, 1);
    assert_eq!(delegated[0].entries_from_s3.len(), 2);
    assert_eq!(delegated[1].part_number, 3);
    assert_eq!(delegated[1].entries_from_s3.len(), 3);
    assert_eq!(delegated[1].entries_from_s3[2].key, "files/e");
    let (sender, mut receiver) = unbounded_channel();
    let mut again = worker_jobs(delegated, sender);
    assert_eq!(numbers(&again), vec![1, 3]);
    assert_eq!(
        again.iter().map(|j| j.part_size).collect::<Vec<_>>(),
        sizes
    );
    let last = again.pop().unwrap();
    let (delegated, sender) = DelegatedPartJob::new_from_part_job(last).unwrap();
    assert_eq!(delegated.part_number, 3);
    let keys: Vec<&str> = delegated
        .entries_from_s3
        .iter()
        .map(|e| e.key.as_str())
        .collect();
    assert_eq!(keys, vec!["files/c", "files/d", "files/e"]);
    // The channel is the one that the worker's jobs were made with.
    let entry = delegated.entries_from_s3.into_iter().next().unwrap();
    let mut buf = SliceBuf::with_size(31);
    write_entry_header(
        entry.loc,
        &entry.operation,
        Some("y/Q5Jg==".to_string()),
        &sender,
        &mut buf,
    )
    .unwrap();
    assert!(receiver.try_recv().is_ok());
}

fn refusal<T>(r: Result<T, Error>) -> (&'static str, PartJob) {
    match r {
        Err(Error::InvalidPartJobConversion { message, part_job }) => (message, part_job),
        _ => panic!("expected a refusal"),
    }
}

#[test]
fn other_jobs_are_refused() {
    let mut jobs = mixed_jobs();
    let directory = jobs.pop().unwrap();
    let copied = jobs.pop().unwrap();
    let (text, job) = refusal(DelegatedPartJob::new_from_part_job(copied));
    assert_eq!(text, "Only \"Upload\" PartJob can be delegated");
    assert_eq!(job.part_number, 4);
    assert_eq!(copy(&job), ("bucket/files/e", None));
    let (text, job) = refusal(DelegatedPartJob::new_from_part_job(directory));
    assert_eq!(
        text,
        "\"Upload\" PartJob must only contain EntryFromS3 to be delegated"
    );
    assert_eq!(job.part_number, 5);
    assert_eq!(elements(&job).len(), 1);
    let empty = PartJob {
        part_number: 9,
        part_size: 0,
        part_job_type: PartJobType::Upload(vec![]),
    };
    assert!(empty.is_delegatable());
    let (text, job) = refusal(DelegatedPartJob::new_from_part_job(empty));
    assert_eq!(
        text,
        "\"Upload\" PartJob must contain at least one EntryFromS3 to be delegated"
    );
    assert_eq!(job.part_number, 9);
}

#[test]
fn the_last_job_is_converted_first() {
    assert!(delegate_jobs(vec![]).unwrap().is_none());
    let (_, job) = refusal(delegate_jobs(mixed_jobs()));
    assert_eq!(job.part_number, 5);
    let mut jobs = mixed_jobs();
    jobs.truncate(3);
    let (_, job) = refusal(delegate_jobs(jobs));
    assert_eq!(job.part_number, 2);
}

#[test]
fn batches_are_full_but_the_last() {
    let n = 2 * LAMBDA_WORKER_PART_JOB_MAX_CHUNK_SIZE + 1;
    let jobs: Vec<DelegatedPartJob> = (0..n)
        .map(|i| DelegatedPartJob {
            part_number: i as i32,
            part_size: 0,
            entries_from_s3: vec![],
        })
        .collect();
    let batches = into_batches(jobs);
    let sizes: Vec<usize> = batches.iter().map(|b| b.len()).collect();
    assert_eq!(sizes, vec![500, 500, 1]);
    let numbers: Vec<i32> = batches.iter().flatten().map(|j| j.part_number).collect();
    assert_eq!(numbers, (0..n as i32).collect::<Vec<_>>());
    assert!(into_batches(vec![]).is_empty());
}

#[test]
fn fan_out_is_the_default() {
    assert_eq!(fan_out_mode(true, Some("7".to_string())), None);
    assert_eq!(fan_out_mode(false, None), Some(50));
    assert_eq!(fan_out_mode(false, Some("7".to_string())), Some(7));
    assert_eq!(fan_out_mode(false, Some("many".to_string())), Some(50));
}

// ---------- Multipart upload ----------

#[test]
fn an_upload_needs_an_id() {
    let info = JobInfo {
        bucket_name: "b".into(),
        files_prefix: "f".into(),
        archive_key: "k".into(),
    };
    let upload = start_multipart_upload(info.clone(), Some("id".to_string())).unwrap();
    assert_eq!(&*upload.bucket_name, "b");
    assert_eq!(&*upload.archive_key, "k");
    assert_eq!(&*upload.upload_id, "id");
    let text = "No upload ID in multipart upload response";
    assert_eq!(message(start_multipart_upload(info, None)), text);
    assert_eq!(message(v2::part_executor::opened_upload(None)), text);
    assert_eq!(
        v2::part_executor::opened_upload(Some("x".to_string())).unwrap(),
        "x"
    );
}

#[test]
fn parts_are_sorted_by_number() {
    let part = |part_number: i32, etag: &str| CompletedPartInfo {
        part_number,
        etag: etag.to_string(),
    };
    let sorted = complete_multipart_upload(vec![
        part(3, "c"),
        part(1, "a"),
        part(2, "b1"),
        part(2, "b2"),
        part(-1, "z"),
    ]);
    let got: Vec<(i32, &str)> = sorted
        .iter()
        .map(|p| (p.part_number, p.etag.as_str()))
        .collect();
    assert_eq!(
        got,
        vec![(-1, "z"), (1, "a"), (2, "b1"), (2, "b2"), (3, "c")]
    );
    assert!(complete_multipart_upload(vec![]).is_empty());
}

// ---------- Whole archives ----------

fn content(seed: usize, size: usize) -> Vec<u8> {
    (0..size).map(|i| (i * 31 + seed * 7 + i / 256) as u8).collect()
}

fn crc_text(body: &[u8]) -> String {
    let mut h = crc32fast::Hasher::new();
    h.update(body);
    let bytes = h.finalize().to_be_bytes();
    let alphabet = b"ABCDEFGHIJKLMNOPQRSTUVWXYZabcdefghijklmnopqrstuvwxyz0123456789+/";
    let n = u64::from(u32::from_be_bytes(bytes)) << 4;
    let mut text = String::new();
    for i in (0..6).rev() {
        text.push(alphabet[(n >> (6 * i)) as usize & 63] as char);
    }
    text.push_str("==");
    text
}

fn copied(body: &[u8], range: Option<&str>) -> Vec<u8> {
    match range {
        None => body.to_vec(),
        Some(text) => {
            let (first, last) = text
                .strip_prefix("bytes=")
                .and_then(|r| r.split_once('-'))
                .unwrap();
            body[first.parse().unwrap()..=last.parse().unwrap()].to_vec()
        }
    }
}

/// Runs the jobs against an object store in memory, the last job first.
fn run(jobs: Vec<PartJob>, store: &HashMap<String, Vec<u8>>) -> Vec<u8> {
    let mut parts: Vec<(i32, Vec<u8>)> = Vec::new();
    let mut directory: Option<(usize, DirectoryAssembler, HeaderReceiver)> = None;
    let mut last_elements: Vec<Vec<u8>> = Vec::new();
    let mut last = (0, 0);
    for job in jobs.into_iter().rev() {
        let (part_number, part_size) = (job.part_number, job.part_size);
        match job.part_job_type {
            PartJobType::Copy { copy_source, range } => {
                let bytes = copied(&store[&copy_source], range.as_deref());
                assert_eq!(bytes.len(), part_size);
                parts.push((part_number, bytes));
            }
            PartJobType::Upload(elems) => {
                let mut buffers: Vec<Vec<u8>> = Vec::new();
                let mut with_directory = false;
                for elem in elems {
                    let size = elem.elem_size();
                    match elem {
                        UploadPartElement::EntryFromS3(e) => {
                            let object = format!("{}/{}", e.entry.bucket_name, e.entry.key);
                            let body = &store[&object];
                            let n = e.entry.operation.download_size(e.entry.loc.file_size());
                            let mut buf = e.start(Some(crc_text(body))).unwrap();
                            for chunk in body[..n].chunks(65_536) {
                                write_chunk(chunk, &mut buf).unwrap();
                            }
                            buffers.push(buf.into_bytes());
                        }
                        UploadPartElement::CentralDirectory {
                            eocd64,
                            cdfh_receiver,
                            ..
                        } => {
                            with_directory = true;
                            directory =
                                Some((size, DirectoryAssembler::new(eocd64), cdfh_receiver));
                        }
                    }
                }
                if with_directory {
                    last_elements = buffers;
                    last = (part_number, part_size);
                } else {
                    let bytes = lay_out_part(part_size, buffers);
                    assert_eq!(bytes.len(), part_size);
                    parts.push((part_number, bytes));
                }
            }
        }
    }
    let (size, mut assembler, mut receiver) = directory.unwrap();
    while let Ok(header) = receiver.try_recv() {
        if assembler.receive(header) {
            break;
        }
    }
    last_elements.push(assembler.into_bytes(size).unwrap());
    parts.push((last.0, lay_out_part(last.1, last_elements)));
    parts.sort();
    parts.into_iter().flat_map(|(_, bytes)| bytes).collect()
}

fn store_of(files: &[(&str, usize)]) -> HashMap<String, Vec<u8>> {
    files
        .iter()
        .enumerate()
        .map(|(i, (name, size))| (format!("bucket/files/{name}"), content(i, *size)))
        .collect()
}

fn assert_archive(archive: Vec<u8>, files: &[(&str, usize)]) {
    let mut za = zip::ZipArchive::new(Cursor::new(&archive)).unwrap();
    assert_eq!(za.len(), files.len());
    for (i, (name, size)) in files.iter().enumerate() {
        let mut entry = za.by_index(i).unwrap();
        assert_eq!(entry.name(), *name);
        let mut body = Vec::new();
        entry.read_to_end(&mut body).unwrap();
        assert_eq!(body, content(i, *size));
    }
}

#[test]
fn built_parts_are_a_zip_archive() {
    let files = [("a", 1000), ("b", 5000), ("c", 0), ("d", 7000), ("e", 42)];
    let mut builder = PartJobsBuilder::new();
    builder.add_files(vec![file("a", 1000)]);
    builder.copy_file(file("b", 5000));
    builder.add_files(vec![file("c", 0)]);
    builder.partial_copy_file(file("d", 7000), 1234);
    builder.add_files(vec![file("e", 42)]);
    assert_archive(run(builder.finalize(), &store_of(&files)), &files);
}

const MIB: usize = 1024 * 1024;

fn sample() -> Vec<(&'static str, usize)> {
    vec![
        ("s0", 1000),
        ("m1", 4 * MIB),
        ("b2", 8 * MIB),
        ("b3", 10 * MIB + 5),
        ("m4", 6 * MIB),
        ("s5", 5),
        ("b6", 5 * MIB),
        ("s7", 77),
    ]
}

fn infos(files: &[(&str, usize)]) -> Vec<FileInfo> {
    files.iter().map(|(name, size)| file(name, *size)).collect()
}

#[test]
fn laid_out_files_are_a_zip_archive() {
    let files = sample();
    assert!(can_be_laid_out(&infos(&files)));
    let executor = archive_executor(infos(&files), upload(), None);
    assert!(executor.lambda_executor.is_none());
    let jobs = executor.jobs;
    assert_eq!(
        numbers(&jobs),
        (1..=jobs.len() as i32).collect::<Vec<i32>>()
    );
    assert!(jobs.iter().any(|j| matches!(j.part_job_type, PartJobType::Copy { .. })));
    for job in &jobs[..jobs.len() - 1] {
        assert!(job.part_size >= MIN_PART_SIZE);
    }
    let planned: usize = jobs.iter().map(|j| j.part_size).sum();
    let totals = job_totals(&jobs);
    assert_eq!(totals.upload_size + totals.copy_size, planned);
    assert!(totals.download_size <= totals.upload_size);
    let archive = run(jobs, &store_of(&files));
    assert_eq!(archive.len(), planned);
    assert_archive(archive, &files);
}

#[test]
fn files_are_copied_as_soon_as_both_parts_are_large_enough() {
    let layout = ZipLayout::from_files_info(infos(&sample()));
    let mut steps: Vec<(Vec<&str>, Option<(&str, Option<usize>)>)> = Vec::new();
    for step in &layout.steps {
        match step {
            LayoutStep::Files(files) => {
                steps.push((files.iter().map(|f| f.name.as_str()).collect(), None))
            }
            LayoutStep::Copy { file, start_byte } => {
                steps.last_mut().unwrap().1 = Some((file.name.as_str(), *start_byte))
            }
        }
    }
    let streamed = 32 + 1000 + 32 + 4 * MIB + 32;
    assert_eq!(
        steps,
        vec![
            (
                vec!["s0", "m1"],
                Some(("b2", Some(MIN_PART_SIZE - streamed)))
            ),
            (vec![], Some(("b3", Some(MIN_PART_SIZE - 32)))),
            (vec!["m4", "s5"], Some(("b6", None))),
            (vec!["s7"], None),
        ]
    );
}

#[test]
fn huge_files_cannot_be_laid_out() {
    assert!(can_be_laid_out(&vec![file("a", usize::MAX / 2)]));
    assert!(!can_be_laid_out(&vec![file("a", usize::MAX / 2), file("b", usize::MAX / 2)]));
    assert!(!can_be_laid_out(&vec![file("a", usize::MAX)]));
    // 50 + 1 for the local header, 66 + 1 for the directory record, 98 for the closing records.
    assert!(can_be_laid_out(&vec![file("a", usize::MAX - 216)]));
    assert!(!can_be_laid_out(&vec![file("a", usize::MAX - 215)]));
    assert!(can_be_laid_out(&vec![]));
}

#[test]
fn both_variants_have_the_same_jobs() {
    let files = sample();
    let layout = ZipLayout::from_files_info(infos(&files));
    let executor = v2::part_executor::PartJobExecutor::new(layout, "bucket".into(), "zip".into());
    assert_eq!((&*executor.bucket_name, &*executor.archive_key), ("bucket", "zip"));
    let jobs = ZipLayout::from_files_info(infos(&files)).into_part_jobs();
    assert_eq!(executor.jobs.len(), jobs.len());
    for (here, there) in executor.jobs.iter().zip(&jobs) {
        assert_eq!(here.part_number, there.part_number);
        assert_eq!(here.part_size, there.part_size);
        match (&here.part_job_type, &there.part_job_type) {
            (
                v2::part_executor::PartJobType::Upload(a),
                PartJobType::Upload(b),
            ) => {
                assert_eq!(here.memory_budget_needed(), there.memory_budget_needed());
                let a: Vec<usize> = a.iter().map(|e| e.elem_size()).collect();
                let b: Vec<usize> = b.iter().map(|e| e.elem_size()).collect();
                assert_eq!(a, b);
                assert_eq!(
                    message(here.completed(None)),
                    "No ETag in UploadPart response"
                );
            }
            (
                v2::part_executor::PartJobType::Copy { copy_source, range },
                PartJobType::Copy {
                    copy_source: source,
                    range: other,
                },
            ) => {
                assert_eq!(here.memory_budget_needed(), 512 * 1024);
                assert_eq!((copy_source, range), (source, other));
                assert_eq!(
                    message(here.completed(None)),
                    "No ETag in UploadPartCopy response"
                );
                assert_eq!(here.completed(Some("e".to_string())).unwrap().etag, "e");
            }
            _ => panic!("different kinds"),
        }
    }
}
