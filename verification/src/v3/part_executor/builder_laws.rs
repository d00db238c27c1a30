//! What each step of the builder adds to the parts.

use vstd::prelude::*;
use vstd::utf8::encode_utf8;

use crate::text::{address, names_range, range_reads_back};
use crate::transfer::{HeaderReceiver, S3ObjectOperation};
use crate::v3::part_executor::builder_model::{
    directory_len, elements_len, file_element, file_elements, file_offset, lemma_elements_len_add,
    sum, with_elements, BuilderModel,
};
use crate::v3::part_executor::{ElementModel, JobKind, JobModel};
use crate::v3::s3_ops::FileModel;

verus! {

/// The length of a file's local header: 30 bytes and the name, and 20 bytes more where the size does
/// not fit four bytes.
pub open spec fn plain_header_len(file: FileModel) -> nat {
    30 + encode_utf8(file.name).len() + if file.size > 0xFFFF_FFFF {
        20nat
    } else {
        0
    }
}

/// Whether an element is the entry of a file whose local header is to stand at `offset`.
pub open spec fn is_entry_for(
    element: ElementModel,
    file: FileModel,
    offset: nat,
    operation: S3ObjectOperation,
) -> bool {
    &&& element matches ElementModel::Entry { entry, .. }
    &&& entry.loc.offset == offset
    &&& entry.loc.name == file.name
    &&& entry.loc.file_size == file.size
    &&& entry.operation == operation
    &&& entry.bucket == file.bucket
    &&& entry.key == file.key
}

/// New elements go behind those of the last part where that is an upload part. Otherwise they make an
/// upload part of their own, with the next number. No other part changes, and the part is as much
/// larger as the elements are long.
pub proof fn elements_go_to_the_end(parts: Seq<JobModel>, elements: Seq<ElementModel>)
    ensures
        ({
            let grown = with_elements(parts, elements);
            let last = grown.last();
            if parts.len() > 0 && parts.last().kind is Upload {
                let old = parts.last();
                &&& grown.len() == parts.len()
                &&& grown.drop_last() == parts.drop_last()
                &&& last.part_number == old.part_number
                &&& last.kind == JobKind::Upload(old.kind->Upload_0 + elements)
                &&& last.part_size == elements_len(old.kind->Upload_0) + elements_len(elements)
            } else {
                &&& grown.len() == parts.len() + 1
                &&& grown.drop_last() == parts
                &&& last.part_number == grown.len()
                &&& last.kind == JobKind::Upload(elements)
                &&& last.part_size == elements_len(elements)
            }
        }),
{
    let grown = with_elements(parts, elements);
    if parts.len() > 0 && parts.last().kind is Upload {
        lemma_elements_len_add(parts.last().kind->Upload_0, elements);
        assert(grown.drop_last() =~= parts.drop_last());
    } else {
        assert(grown.drop_last() =~= parts);
    }
}

/// Elements are as long as each of them, wherever it stands.
pub proof fn every_element_counts(
    before: Seq<ElementModel>,
    element: ElementModel,
    behind: Seq<ElementModel>,
)
    ensures
        elements_len(Seq::empty()) == 0,
        elements_len(before + seq![element] + behind) == elements_len(before) + element.len()
            + elements_len(behind),
{
    let one = seq![element];
    assert(one.drop_last() =~= Seq::empty());
    assert(elements_len(one) == element.len()) by {
        reveal_with_fuel(elements_len, 2);
    }
    lemma_elements_len_add(before, one);
    lemma_elements_len_add(before + one, behind);
}

/// Added files become entries that are downloaded as a whole, at the end of the parts. The first
/// stands at the builder's offset, each other one behind the header and the body of the one before it,
/// and the offset moves behind the last.
pub proof fn added_files_follow_one_another(m: BuilderModel, files: Seq<FileModel>, i: int)
    requires
        0 <= i < files.len(),
    ensures
        ({
            let after = m.add_files(files);
            let elements = file_elements(m.offset, files, m.sender);
            let at = file_offset(m.offset, files, i);
            &&& after.parts == with_elements(m.parts, elements)
            &&& after.sender == m.sender
            &&& after.cdfh_sizes.len() == m.cdfh_sizes.len() + files.len()
            &&& elements.len() == files.len()
            &&& is_entry_for(elements[i], files[i], at, S3ObjectOperation::Get)
            &&& elements[i]->sender == m.sender
            &&& elements[i].len() == plain_header_len(files[i]) + files[i].size
            &&& i == 0 ==> at == m.offset
            &&& i > 0 ==> at == file_offset(m.offset, files, i - 1) + plain_header_len(
                files[i - 1],
            ) + files[i - 1].size
            &&& i == files.len() - 1 ==> after.offset == at + plain_header_len(files[i])
                + files[i].size
        }),
{
}

/// A copied file has its header, and the bytes before `start_byte`, at the end of the upload part that
/// was last. A part of its own copies the bytes from there to the end of the file, by a range that
/// names exactly those, or the whole file without a range. The offset moves behind the file.
pub proof fn copied_files_are_split_at_the_start_byte(
    m: BuilderModel,
    file: FileModel,
    start_byte: Option<usize>,
)
    requires
        m.parts.len() > 0,
        m.parts.last().kind is Upload,
        start_byte matches Some(start) ==> start < file.size,
    ensures
        ({
            let after = m.copy_file(file, start_byte);
            let n = m.parts.len() as int;
            let start: nat = match start_byte {
                Some(start) => start as nat,
                None => 0,
            };
            let operation = match start_byte {
                Some(size) => S3ObjectOperation::PartialGet { size },
                None => S3ObjectOperation::Head,
            };
            let old = m.parts.last().kind->Upload_0;
            let upload = after.parts[n - 1];
            let copy = after.parts[n];
            &&& after.parts.len() == n + 1
            &&& after.parts.take(n - 1) == m.parts.take(n - 1)
            &&& upload.part_number == m.parts.last().part_number
            &&& upload.part_size == elements_len(old) + plain_header_len(file) + start
            &&& upload.kind matches JobKind::Upload(elements)
            &&& elements.len() == old.len() + 1
            &&& elements.drop_last() == old
            &&& is_entry_for(elements.last(), file, m.offset, operation)
            &&& elements.last()->sender == m.sender
            &&& copy.part_number == n + 1
            &&& copy.part_size == file.size - start
            &&& copy.kind matches JobKind::Copy { source, range }
            &&& source == address(file.bucket, file.key)
            &&& range is Some <==> start_byte is Some
            &&& range is Some ==> names_range(range->0, start, (file.size - 1) as nat)
            &&& after.offset == m.offset + plain_header_len(file) + file.size
            &&& after.cdfh_sizes.len() == m.cdfh_sizes.len() + 1
            &&& after.sender == m.sender
        }),
{
    let after = m.copy_file(file, start_byte);
    let n = m.parts.len() as int;
    let operation = match start_byte {
        Some(size) => S3ObjectOperation::PartialGet { size },
        None => S3ObjectOperation::Head,
    };
    let element = file_element(m.offset, file, operation, m.sender);
    let old = m.parts.last().kind->Upload_0;
    let uploaded = with_elements(m.parts, seq![element]);
    elements_go_to_the_end(m.parts, seq![element]);
    every_element_counts(Seq::empty(), element, Seq::empty());
    assert(Seq::<ElementModel>::empty() + seq![element] + Seq::<ElementModel>::empty() =~= seq![
        element,
    ]);
    assert(after.parts[n - 1] == uploaded.last());
    assert(after.parts.take(n - 1) =~= uploaded.drop_last());
    assert(m.parts.take(n - 1) =~= m.parts.drop_last());
    assert((old + seq![element]).drop_last() =~= old);
    match start_byte {
        Some(start) => {
            range_reads_back(start as nat, (file.size - 1) as nat);
        },
        None => {},
    }
}

/// The central directory is the last element of the last part, which is the last one there was where
/// that is an upload part, and a new one otherwise. Its closing records count the files and say that
/// the directory starts where the files end and how long it is.
pub proof fn directory_closes_the_archive(m: BuilderModel, receiver: HeaderReceiver)
    requires
        m.cdfh_sizes.len() <= usize::MAX,
        m.offset + m.closing_len() <= usize::MAX,
    ensures
        ({
            let jobs = m.finalize(receiver);
            let ends = m.parts.len() > 0 && m.parts.last().kind is Upload;
            &&& jobs.len() == m.parts.len() + if ends {
                0int
            } else {
                1
            }
            &&& jobs.take(jobs.len() - 1) == m.parts.take(jobs.len() - 1)
            &&& jobs.last().kind matches JobKind::Upload(elements)
            &&& elements.len() == 1 + if ends {
                m.parts.last().kind->Upload_0.len()
            } else {
                0
            }
            &&& elements.last() matches ElementModel::Directory {
                total_size,
                eocd64,
                receiver: own,
            }
            &&& own == receiver
            &&& eocd64.record_count == m.cdfh_sizes.len()
            &&& eocd64.central_directory_offset == m.offset
            &&& eocd64.central_directory_size == sum(m.cdfh_sizes)
            &&& eocd64.eocd64_offset == m.offset + sum(m.cdfh_sizes)
            &&& total_size == sum(m.cdfh_sizes) + if m.cdfh_sizes.len() > 0xFFFF || sum(
                m.cdfh_sizes,
            ) > 0xFFFF_FFFF || m.offset > 0xFFFF_FFFF {
                98int
            } else {
                22
            }
        }),
{
    let jobs = m.finalize(receiver);
    let one = seq![
        ElementModel::Directory { total_size: m.closing_len(), eocd64: m.eocd(), receiver },
    ];
    elements_go_to_the_end(m.parts, one);
    assert(jobs.take(jobs.len() - 1) =~= jobs.drop_last());
    assert(m.parts.take(jobs.len() - 1) =~= if m.parts.len() > 0 && m.parts.last().kind is Upload {
        m.parts.drop_last()
    } else {
        m.parts
    });
}

/// Sizes add up, wherever each stands.
pub proof fn every_size_counts(before: Seq<nat>, size: nat, behind: Seq<nat>)
    ensures
        sum(Seq::empty()) == 0,
        sum(before + seq![size] + behind) == sum(before) + size + sum(behind),
    decreases behind.len(),
{
    let all = before + seq![size] + behind;
    if behind.len() == 0 {
        assert(all.drop_last() =~= before);
    } else {
        every_size_counts(before, size, behind.drop_last());
        assert(all.drop_last() =~= before + seq![size] + behind.drop_last());
    }
}

/// The predicted length of a file's central directory header: 46 bytes and the name, 28 bytes more
/// where the offset does not fit four bytes, else 20 where the size does not.
pub proof fn directory_headers_have_their_length(m: BuilderModel, files: Seq<FileModel>, i: int)
    requires
        0 <= i < files.len(),
    ensures
        ({
            let at = file_offset(m.offset, files, i);
            let sizes = m.add_files(files).cdfh_sizes;
            &&& sizes.take(m.cdfh_sizes.len() as int) == m.cdfh_sizes
            &&& sizes[m.cdfh_sizes.len() + i] == 46 + encode_utf8(files[i].name).len() + if at
                > 0xFFFF_FFFF {
                28int
            } else if files[i].size > 0xFFFF_FFFF {
                20
            } else {
                0
            }
            &&& m.copy_file(files[i], None).cdfh_sizes == m.cdfh_sizes.push(
                directory_len(m.offset, files[i]),
            )
        }),
{
    let sizes = m.add_files(files).cdfh_sizes;
    assert(sizes.take(m.cdfh_sizes.len() as int) =~= m.cdfh_sizes);
}

} // verus!
