//! Listing the source files, opening and completing the multipart upload.

use std::sync::Arc;

use vstd::prelude::*;

use crate::error::Error;
use crate::listing::{file_name, files_among, is_file, lemma_files_among_prefix, ListedObject};
use crate::text::{directory_prefix, directory_prefix_text, shared_text};
use crate::transfer::{fails_with, required};
use crate::v3::events::JobInfo;

verus! {

/// Identifies an open multipart upload.
#[derive(Debug, Clone)]
pub struct MultipartUpload {
    pub bucket_name: Arc<str>,
    pub archive_key: Arc<str>,
    pub upload_id: Arc<str>,
}

/// The ETag and part number of an uploaded part.
#[derive(Debug, Clone)]
pub struct CompletedPartInfo {
    pub part_number: i32,
    pub etag: String,
}

/// One source object to be archived: the name of its ZIP entry, its bucket and key, and its
/// size.
#[derive(Debug)]
pub struct FileInfo {
    pub name: String,
    pub bucket_name: Arc<str>,
    pub key: String,
    pub size: usize,
}

/// A source object as mathematics.
#[verifier::ext_equal]
pub struct FileModel {
    pub name: Seq<char>,
    pub bucket: Seq<char>,
    pub key: Seq<char>,
    pub size: nat,
}

impl View for FileInfo {
    type V = FileModel;

    open spec fn view(&self) -> FileModel {
        FileModel {
            name: self.name@,
            bucket: (*self.bucket_name)@,
            key: self.key@,
            size: self.size as nat,
        }
    }
}

pub open spec fn file_views(files: Seq<FileInfo>) -> Seq<FileModel> {
    files.map_values(|f: FileInfo| f@)
}

/// The files among some listed objects, in listing order.
pub open spec fn listed_files(
    objects: Seq<ListedObject>,
    bucket: Seq<char>,
    prefix: Seq<char>,
) -> Seq<FileModel>
    decreases objects.len(),
{
    if objects.len() == 0 {
        Seq::empty()
    } else {
        let before = listed_files(objects.drop_last(), bucket, prefix);
        let object = objects.last();
        if is_file(object, prefix) {
            before.push(
                FileModel {
                    name: object.key->0@.skip(prefix.len() as int),
                    bucket,
                    key: object.key->0@,
                    size: (object.size->0 as usize) as nat,
                },
            )
        } else {
            before
        }
    }
}

/// One file for each object under `{key_prefix}/`. The prefix is stripped from each key to get
/// the bare file name.
pub fn list_files(bucket: Arc<str>, key_prefix: &str, objects: Vec<ListedObject>) -> (files: Vec<
    FileInfo,
>)
    ensures
        file_views(files@) == listed_files(
            objects@,
            (*bucket)@,
            directory_prefix(key_prefix@),
        ),
{
    let prefix = directory_prefix_text(key_prefix);
    let mut files: Vec<FileInfo> = Vec::new();
    let ghost all = objects@;
    assert(all.take(0) =~= Seq::empty());
    assert(file_views(files@) =~= Seq::empty());
    for object in it: objects
        invariant
            it.seq() == all,
            file_views(files@) == listed_files(all.take(it.index()), (*bucket)@, prefix@),
    {
        let ghost i = it.index();
        let ghost files_in = files@;
        let ghost object_in = object;
        proof {
            assert(all.take(i + 1).drop_last() =~= all.take(i));
        }
        match (object.key, object.size) {
            (Some(key), Some(size)) => {
                let name: Option<String> = match file_name(key.as_str(), prefix.as_str()) {
                    Some(n) => Some(n.to_owned()),
                    None => None,
                };
                match name {
                    Some(name) => {
                        files.push(
                            FileInfo {
                                name,
                                bucket_name: bucket.clone(),
                                key,
                                size: #[verifier::truncate]
                                (size as usize),
                            },
                        );
                        assert(is_file(object_in, prefix@));
                        assert(file_views(files@) =~= file_views(files_in).push(files@.last()@));
                    },
                    None => {},
                }
            },
            _ => {},
        }
        assert(file_views(files@) =~= listed_files(all.take(i + 1), (*bucket)@, prefix@));
    }
    assert(all.take(all.len() as int) =~= all);
    files
}

/// The upload that a `CreateMultipartUpload` response opened. Without an upload ID in the
/// response there is none.
pub fn start_multipart_upload(job_info: JobInfo, upload_id: Option<String>) -> (r: Result<
    MultipartUpload,
    Error,
>)
    ensures
        match upload_id {
            Some(id) => r matches Ok(upload) && upload.bucket_name == job_info.bucket_name
                && upload.archive_key == job_info.archive_key && (*upload.upload_id)@ == id@,
            None => fails_with(r, "No upload ID in multipart upload response"@),
        },
{
    match required(upload_id, "No upload ID in multipart upload response") {
        Ok(id) => Ok(
            MultipartUpload {
                bucket_name: job_info.bucket_name,
                archive_key: job_info.archive_key,
                upload_id: shared_text(id),
            },
        ),
        Err(e) => Err(e),
    }
}

/// The parts with the given number, in order.
pub open spec fn numbered(parts: Seq<CompletedPartInfo>, number: i32) -> Seq<CompletedPartInfo> {
    parts.filter(|p: CompletedPartInfo| p.part_number == number)
}

/// Whether the part numbers never fall.
pub open spec fn sorted_by_number(parts: Seq<CompletedPartInfo>) -> bool {
    forall|i: int, j: int|
        0 <= i <= j < parts.len() ==> (#[trigger] parts[i]).part_number <= (
        #[trigger] parts[j]).part_number
}

/// The list of parts that completes the upload: sorted by part number. Parts with the same
/// number stay in their order.
pub fn complete_multipart_upload(completed_parts: Vec<CompletedPartInfo>) -> (manifest: Vec<
    CompletedPartInfo,
>)
    ensures
        sorted_by_number(manifest@),
        forall|number: i32| #[trigger]
            numbered(manifest@, number) == numbered(completed_parts@, number),
        manifest@.to_multiset() == completed_parts@.to_multiset(),
{
    let mut manifest: Vec<CompletedPartInfo> = Vec::new();
    let ghost all = completed_parts@;
    assert(all.take(0) =~= Seq::empty());
    for part in it: completed_parts
        invariant
            it.seq() == all,
            sorted_by_number(manifest@),
            forall|number: i32| #[trigger]
                numbered(manifest@, number) == numbered(all.take(it.index()), number),
            manifest@.to_multiset() == all.take(it.index()).to_multiset(),
    {
        let ghost before = manifest@;
        let ghost i = it.index();
        let mut at: usize = manifest.len();
        while at > 0 && manifest[at - 1].part_number > part.part_number
            invariant
                at <= manifest@.len(),
                manifest@ == before,
                forall|j: int|
                    at <= j < before.len() ==> (#[trigger] before[j]).part_number
                        > part.part_number,
            decreases at,
        {
            at = at - 1;
        }
        manifest.insert(at, part);
        proof {
            lemma_insert_sorted(before, at as int, part);
            assert(all.take(i + 1).drop_last() =~= all.take(i));
            assert(all.take(i + 1) =~= all.take(i).push(part));
            before.to_multiset_ensures();
            all.take(i).to_multiset_ensures();
            vstd::seq_lib::to_multiset_insert(before, at as int, part);
            reveal(Seq::filter);
        }
    }
    assert(all.take(all.len() as int) =~= all);
    manifest
}

/// Putting a part behind all parts with a number no greater keeps the list sorted, and puts it
/// last among the parts with its number.
proof fn lemma_insert_sorted(parts: Seq<CompletedPartInfo>, at: int, part: CompletedPartInfo)
    requires
        sorted_by_number(parts),
        0 <= at <= parts.len(),
        at > 0 ==> parts[at - 1].part_number <= part.part_number,
        forall|j: int|
            at <= j < parts.len() ==> (#[trigger] parts[j]).part_number > part.part_number,
    ensures
        sorted_by_number(parts.insert(at, part)),
        forall|number: i32| #[trigger]
            numbered(parts.insert(at, part), number) == if part.part_number == number {
                numbered(parts, number).push(part)
            } else {
                numbered(parts, number)
            },
{
    let grown = parts.insert(at, part);
    assert forall|i: int, j: int| 0 <= i <= j < grown.len() implies (
    #[trigger] grown[i]).part_number <= (#[trigger] grown[j]).part_number by {
        let a = if i < at {
            i
        } else {
            i - 1
        };
        let b = if j < at {
            j
        } else {
            j - 1
        };
        if i != at && j != at {
            assert(parts[a].part_number <= parts[b].part_number);
        } else if i != at {
            assert(parts[a].part_number <= parts[at - 1].part_number);
        } else if j != at {
            assert(parts[b].part_number > part.part_number);
        }
    }
    assert forall|number: i32| #[trigger]
        numbered(grown, number) == if part.part_number == number {
            numbered(parts, number).push(part)
        } else {
            numbered(parts, number)
        } by {
        let pred = |p: CompletedPartInfo| p.part_number == number;
        let front = parts.take(at);
        let back = parts.skip(at);
        assert(parts =~= front + back);
        assert(grown =~= front.push(part) + back);
        Seq::filter_distributes_over_add(front, back, pred);
        Seq::filter_distributes_over_add(front.push(part), back, pred);
        assert(front.push(part).drop_last() =~= front);
        reveal(Seq::filter);
        if part.part_number == number {
            assert forall|j: int| 0 <= j < back.len() implies (
            #[trigger] back[j]).part_number != number by {
                assert(back[j] == parts[at + j]);
            }
            lemma_none_numbered(back, number);
            assert(numbered(grown, number) =~= numbered(parts, number).push(part));
        }
    }
}

proof fn lemma_none_numbered(parts: Seq<CompletedPartInfo>, number: i32)
    requires
        forall|j: int| 0 <= j < parts.len() ==> (#[trigger] parts[j]).part_number != number,
    ensures
        numbered(parts, number) == Seq::<CompletedPartInfo>::empty(),
    decreases parts.len(),
{
    reveal(Seq::filter);
    if parts.len() > 0 {
        assert(parts[parts.len() - 1].part_number != number);
        assert forall|j: int| 0 <= j < parts.len() - 1 implies (
        #[trigger] parts.drop_last()[j]).part_number != number by {
            assert(parts.drop_last()[j] == parts[j]);
        }
        lemma_none_numbered(parts.drop_last(), number);
    }
}

// ---------- Laws ----------

/// Every object that is a file is listed, behind as many files as are among the objects before it,
/// with its key, its bucket, its size and the name that its key has behind the prefix. Nothing else is
/// listed.
pub proof fn every_file_is_listed(
    objects: Seq<ListedObject>,
    bucket: Seq<char>,
    prefix: Seq<char>,
    p: int,
)
    requires
        0 <= p < objects.len(),
    ensures
        ({
            let files = listed_files(objects, bucket, prefix);
            let i = files_among(objects, prefix, p) as int;
            &&& files.len() == files_among(objects, prefix, objects.len() as int)
            &&& is_file(objects[p], prefix) ==> {
                &&& i < files.len()
                &&& files[i].bucket == bucket
                &&& files[i].key == objects[p].key->0@
                &&& objects[p].key->0@ == prefix + files[i].name
                &&& 0 <= objects[p].size->0 <= usize::MAX ==> files[i].size == objects[p].size->0
            }
        }),
    decreases objects.len(),
{
    let front = objects.drop_last();
    let last = objects.len() - 1;
    lemma_listed_count(front, bucket, prefix);
    lemma_files_among_prefix(objects, prefix, last);
    lemma_files_among_prefix(objects, prefix, p);
    if p < last {
        every_file_is_listed(front, bucket, prefix, p);
    } else if is_file(objects[p], prefix) {
        let key = objects[p].key->0@;
        assert(key =~= prefix + key.skip(prefix.len() as int));
    }
}

proof fn lemma_listed_count(objects: Seq<ListedObject>, bucket: Seq<char>, prefix: Seq<char>)
    ensures
        listed_files(objects, bucket, prefix).len() == files_among(
            objects,
            prefix,
            objects.len() as int,
        ),
    decreases objects.len(),
{
    if objects.len() > 0 {
        lemma_listed_count(objects.drop_last(), bucket, prefix);
        lemma_files_among_prefix(objects, prefix, objects.len() - 1);
    }
}

/// A file's model shows its fields.
pub proof fn model_shows_the_file(file: FileInfo)
    ensures
        file@.name == file.name@,
        file@.bucket == (*file.bucket_name)@,
        file@.key == file.key@,
        file@.size == file.size,
{
}

/// Sorted parts never fall back to a smaller number, and among parts with one number each stands
/// where it is listed: behind those with that number before it, and before those behind it.
pub proof fn sorting_is_by_number_and_stable(
    sorted: Seq<CompletedPartInfo>,
    before: Seq<CompletedPartInfo>,
    part: CompletedPartInfo,
    behind: Seq<CompletedPartInfo>,
    number: i32,
)
    ensures
        sorted_by_number(sorted) <==> forall|i: int, j: int|
            0 <= i <= j < sorted.len() ==> (#[trigger] sorted[i]).part_number <= (
            #[trigger] sorted[j]).part_number,
        numbered(Seq::empty(), number) == Seq::<CompletedPartInfo>::empty(),
        numbered(before + seq![part] + behind, number) == numbered(before, number) + (
        if part.part_number == number {
            seq![part]
        } else {
            Seq::empty()
        }) + numbered(behind, number),
{
    let pred = |p: CompletedPartInfo| p.part_number == number;
    Seq::filter_distributes_over_add(before + seq![part], behind, pred);
    Seq::filter_distributes_over_add(before, seq![part], pred);
    reveal(Seq::filter);
    reveal_with_fuel(Seq::filter, 2);
    assert(seq![part].drop_last() =~= Seq::empty());
    assert(numbered(seq![part], number) =~= if part.part_number == number {
        seq![part]
    } else {
        Seq::empty()
    });
}

/// The models of files stand one for one.
pub proof fn models_stand_one_for_one(files: Seq<FileInfo>, i: int)
    requires
        0 <= i < files.len(),
    ensures
        file_views(files).len() == files.len(),
        file_views(files)[i] == files[i]@,
{
}

} // verus!
