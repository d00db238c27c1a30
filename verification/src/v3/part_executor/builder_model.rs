//! What the builder of part jobs makes of the files, as mathematics.

use vstd::prelude::*;
use vstd::utf8::encode_utf8;

use crate::text::{address, range_of};
use crate::transfer::{HeaderReceiver, HeaderSender, S3ObjectOperation};
use crate::v3::part_executor::{ElementModel, EntryModel, JobKind, JobModel};
use crate::v3::s3_ops::FileModel;
use crate::zip_format::{cdfh_size, loc_size, EndOfCentralDirectory64, LocModel};

verus! {

/// A builder's state.
#[verifier::ext_equal]
pub struct BuilderModel {
    /// How many archive bytes the parts hold so far.
    pub offset: nat,
    /// The predicted lengths of the central directory headers.
    pub cdfh_sizes: Seq<nat>,
    pub parts: Seq<JobModel>,
    /// Where the entries deliver their headers.
    pub sender: HeaderSender,
}

/// The local header of a file at some archive offset.
pub open spec fn loc_at(offset: nat, file: FileModel) -> LocModel {
    LocModel { offset, name: file.name, file_size: file.size }
}

/// The length of a file's local header.
pub open spec fn header_len(file: FileModel) -> nat {
    loc_size(file.size, encode_utf8(file.name).len())
}

/// The length of a file's central directory header.
pub open spec fn directory_len(offset: nat, file: FileModel) -> nat {
    cdfh_size(file.size, encode_utf8(file.name).len(), offset)
}

/// Where file `i` starts if the files follow one another from `start` on.
pub open spec fn file_offset(start: nat, files: Seq<FileModel>, i: int) -> nat
    decreases i,
{
    if i <= 0 {
        start
    } else {
        file_offset(start, files, i - 1) + header_len(files[i - 1]) + files[i - 1].size
    }
}

/// A file's element in an upload part.
pub open spec fn file_element(
    offset: nat,
    file: FileModel,
    operation: S3ObjectOperation,
    sender: HeaderSender,
) -> ElementModel {
    ElementModel::Entry {
        entry: EntryModel {
            loc: loc_at(offset, file),
            operation,
            bucket: file.bucket,
            key: file.key,
        },
        sender,
    }
}

/// The elements of files that are downloaded as a whole.
pub open spec fn file_elements(
    start: nat,
    files: Seq<FileModel>,
    sender: HeaderSender,
) -> Seq<ElementModel> {
    Seq::new(
        files.len(),
        |i: int|
            file_element(file_offset(start, files, i), files[i], S3ObjectOperation::Get, sender),
    )
}

pub open spec fn directory_lens(start: nat, files: Seq<FileModel>) -> Seq<nat> {
    Seq::new(files.len(), |i: int| directory_len(file_offset(start, files, i), files[i]))
}

/// The bytes that some elements take together.
pub open spec fn elements_len(elements: Seq<ElementModel>) -> nat
    decreases elements.len(),
{
    if elements.len() == 0 {
        0
    } else {
        elements_len(elements.drop_last()) + elements.last().len()
    }
}

/// The bytes that some parts take together.
pub open spec fn parts_len(parts: Seq<JobModel>) -> nat
    decreases parts.len(),
{
    if parts.len() == 0 {
        0
    } else {
        parts_len(parts.drop_last()) + parts.last().part_size
    }
}

pub open spec fn sum(lens: Seq<nat>) -> nat
    decreases lens.len(),
{
    if lens.len() == 0 {
        0
    } else {
        sum(lens.drop_last()) + lens.last()
    }
}

/// Whether the last part is an upload part, which can take more elements.
pub open spec fn ends_with_upload(parts: Seq<JobModel>) -> bool {
    parts.len() > 0 && parts.last().kind is Upload
}

/// The parts after elements were added: to the last part where it is an upload part, in a part
/// of their own otherwise.
pub open spec fn with_elements(parts: Seq<JobModel>, elements: Seq<ElementModel>) -> Seq<JobModel> {
    if ends_with_upload(parts) {
        let last = parts.last();
        let all = last.kind->Upload_0 + elements;
        parts.drop_last().push(
            JobModel {
                part_number: last.part_number,
                part_size: elements_len(all),
                kind: JobKind::Upload(all),
            },
        )
    } else {
        parts.push(
            JobModel {
                part_number: parts.len() as int + 1,
                part_size: elements_len(elements),
                kind: JobKind::Upload(elements),
            },
        )
    }
}

impl BuilderModel {
    /// A builder without parts.
    pub open spec fn start(sender: HeaderSender) -> BuilderModel {
        BuilderModel { offset: 0, cdfh_sizes: Seq::empty(), parts: Seq::empty(), sender }
    }

    /// The state after files were added that are downloaded as a whole.
    pub open spec fn add_files(self, files: Seq<FileModel>) -> BuilderModel {
        BuilderModel {
            offset: file_offset(self.offset, files, files.len() as int),
            cdfh_sizes: self.cdfh_sizes + directory_lens(self.offset, files),
            parts: with_elements(self.parts, file_elements(self.offset, files, self.sender)),
            sender: self.sender,
        }
    }

    /// The state after a file was added whose body, from `start_byte` on where that is given, is
    /// copied server-side. What comes before the copied bytes goes into the upload part before.
    pub open spec fn copy_file(self, file: FileModel, start_byte: Option<usize>) -> BuilderModel {
        let element = file_element(
            self.offset,
            file,
            match start_byte {
                Some(size) => S3ObjectOperation::PartialGet { size },
                None => S3ObjectOperation::Head,
            },
            self.sender,
        );
        BuilderModel {
            offset: self.offset + header_len(file) + file.size,
            cdfh_sizes: self.cdfh_sizes.push(directory_len(self.offset, file)),
            parts: with_elements(self.parts, seq![element]).push(
                JobModel {
                    part_number: self.parts.len() as int + 1,
                    part_size: match start_byte {
                        Some(start) => (file.size - start) as nat,
                        None => file.size,
                    },
                    kind: JobKind::Copy {
                        source: address(file.bucket, file.key),
                        range: match start_byte {
                            Some(start) => Some(range_of(start as nat, (file.size - 1) as nat)),
                            None => None,
                        },
                    },
                },
            ),
            sender: self.sender,
        }
    }

    /// The closing records of the archive.
    pub open spec fn eocd(self) -> EndOfCentralDirectory64 {
        EndOfCentralDirectory64 {
            record_count: self.cdfh_sizes.len() as usize,
            central_directory_size: sum(self.cdfh_sizes) as usize,
            central_directory_offset: self.offset as usize,
            eocd64_offset: (self.offset + sum(self.cdfh_sizes)) as usize,
        }
    }

    /// The bytes of the central directory and the closing records.
    pub open spec fn closing_len(self) -> nat {
        sum(self.cdfh_sizes) + self.eocd().spec_size()
    }

    /// All parts, with the central directory at the end.
    pub open spec fn finalize(self, receiver: HeaderReceiver) -> Seq<JobModel> {
        with_elements(
            self.parts,
            seq![
                ElementModel::Directory {
                    total_size: self.closing_len(),
                    eocd64: self.eocd(),
                    receiver,
                },
            ],
        )
    }

    /// The parts are numbered from 1 on, an upload part is as large as its elements, and all
    /// parts together are as large as the archive so far.
    pub open spec fn consistent(self) -> bool {
        &&& forall|i: int|
            0 <= i < self.parts.len() ==> (#[trigger] self.parts[i]).part_number == i + 1
        &&& forall|i: int|
            0 <= i < self.parts.len() && (#[trigger] self.parts[i]).kind is Upload
                ==> self.parts[i].part_size == elements_len(self.parts[i].kind->Upload_0)
        &&& parts_len(self.parts) == self.offset
    }
}

pub proof fn lemma_elements_len_add(a: Seq<ElementModel>, b: Seq<ElementModel>)
    ensures
        elements_len(a + b) == elements_len(a) + elements_len(b),
    decreases b.len(),
{
    if b.len() == 0 {
        assert(a + b =~= a);
    } else {
        assert((a + b).drop_last() =~= a + b.drop_last());
        lemma_elements_len_add(a, b.drop_last());
    }
}

pub proof fn lemma_file_offset_grows(start: nat, files: Seq<FileModel>, i: int, j: int)
    requires
        i <= j,
    ensures
        file_offset(start, files, i) <= file_offset(start, files, j),
    decreases j - i,
{
    if i < j {
        lemma_file_offset_grows(start, files, i, j - 1);
    }
}

/// Files only move the offset by what they take.
pub proof fn lemma_file_elements_len(start: nat, files: Seq<FileModel>, sender: HeaderSender)
    ensures
        elements_len(file_elements(start, files, sender)) + start == file_offset(
            start,
            files,
            files.len() as int,
        ),
    decreases files.len(),
{
    if files.len() > 0 {
        let front = files.drop_last();
        lemma_file_elements_len(start, front, sender);
        lemma_file_offset_prefix(start, files, files.len() - 1);
        let all = file_elements(start, files, sender);
        assert(all.drop_last() =~= file_elements(start, front, sender)) by {
            assert forall|i: int| 0 <= i < front.len() implies all[i] == file_elements(
                start,
                front,
                sender,
            )[i] by {
                lemma_file_offset_prefix(start, files, i);
            }
        }
    }
}

pub proof fn lemma_file_offset_prefix(start: nat, files: Seq<FileModel>, i: int)
    requires
        0 <= i < files.len(),
    ensures
        file_offset(start, files.drop_last(), i) == file_offset(start, files, i),
    decreases i,
{
    if i > 0 {
        lemma_file_offset_prefix(start, files, i - 1);
    }
}

/// Adding elements adds their length, and keeps the numbering.
pub proof fn lemma_with_elements(parts: Seq<JobModel>, elements: Seq<ElementModel>)
    requires
        forall|i: int| 0 <= i < parts.len() ==> (#[trigger] parts[i]).part_number == i + 1,
        forall|i: int|
            0 <= i < parts.len() && (#[trigger] parts[i]).kind is Upload ==> parts[i].part_size
                == elements_len(parts[i].kind->Upload_0),
    ensures
        ({
            let grown = with_elements(parts, elements);
            &&& grown.len() == if ends_with_upload(parts) {
                parts.len()
            } else {
                parts.len() + 1
            }
            &&& forall|i: int| 0 <= i < grown.len() ==> (#[trigger] grown[i]).part_number == i + 1
            &&& forall|i: int|
                0 <= i < grown.len() && (#[trigger] grown[i]).kind is Upload ==> grown[i].part_size
                    == elements_len(grown[i].kind->Upload_0)
            &&& parts_len(grown) == parts_len(parts) + elements_len(elements)
            &&& ends_with_upload(grown)
        }),
{
    let grown = with_elements(parts, elements);
    if ends_with_upload(parts) {
        let old = parts.last().kind->Upload_0;
        lemma_elements_len_add(old, elements);
        assert(grown.drop_last() =~= parts.drop_last());
        assert(parts[parts.len() - 1] == parts.last());
    } else {
        assert(grown.drop_last() =~= parts);
    }
}

pub proof fn lemma_sum_take(lens: Seq<nat>, i: int)
    requires
        0 <= i <= lens.len(),
    ensures
        sum(lens.take(i)) <= sum(lens),
    decreases lens.len(),
{
    if i < lens.len() {
        assert(lens.drop_last().take(i) =~= lens.take(i));
        lemma_sum_take(lens.drop_last(), i);
    } else {
        assert(lens.take(i) =~= lens);
    }
}

} // verus!
