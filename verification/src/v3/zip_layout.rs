//! The layout of an archive: which files are streamed and which are copied server-side.

use vstd::prelude::*;

use crate::transfer::{feeds, HeaderSender, S3ObjectOperation};
use crate::v3::part_executor::builder_laws::plain_header_len;
use crate::v3::part_executor::builder_model::{
    directory_len, directory_lens, elements_len, ends_with_upload, file_element, file_elements,
    file_offset, header_len, lemma_file_elements_len, lemma_file_offset_grows,
    lemma_file_offset_prefix, lemma_sum_take, lemma_with_elements, sum, with_elements, BuilderModel,
};
use crate::v3::part_executor::part_builder::{file_fits, PartJobsBuilder};
use crate::v3::part_executor::{job_views, PartJob};
use crate::v3::s3_ops::{file_views, FileInfo, FileModel};
use crate::zip_format::{LocalFileHeader, NoCRC};

verus! {

/// The least size of a part that is not the last one of its upload.
pub const MIN_PART_SIZE: usize = 5 * 1024 * 1024;

/// One step of the layout.
#[derive(Debug)]
pub enum LayoutStep {
    /// Files that are streamed.
    Files(Vec<FileInfo>),
    /// A file whose bytes, from `start_byte` on where that is given, are copied.
    Copy { file: FileInfo, start_byte: Option<usize> },
}

#[verifier::ext_equal]
pub enum StepModel {
    Files(Seq<FileModel>),
    Copy { file: FileModel, start_byte: Option<usize> },
}

impl View for LayoutStep {
    type V = StepModel;

    open spec fn view(&self) -> StepModel {
        match *self {
            LayoutStep::Files(files) => StepModel::Files(file_views(files@)),
            LayoutStep::Copy { file, start_byte } => StepModel::Copy { file: file@, start_byte },
        }
    }
}

pub open spec fn step_views(steps: Seq<LayoutStep>) -> Seq<StepModel> {
    steps.map_values(|s: LayoutStep| s@)
}

impl BuilderModel {
    /// The state after one step.
    pub open spec fn step(self, step: StepModel) -> BuilderModel {
        match step {
            StepModel::Files(files) => self.add_files(files),
            StepModel::Copy { file, start_byte } => self.copy_file(file, start_byte),
        }
    }
}

/// The builder's state after some steps.
pub open spec fn built(sender: HeaderSender, steps: Seq<StepModel>) -> BuilderModel
    decreases steps.len(),
{
    if steps.len() == 0 {
        BuilderModel::start(sender)
    } else {
        built(sender, steps.drop_last()).step(steps.last())
    }
}

/// The files of some steps, in archive order.
pub open spec fn step_files(steps: Seq<StepModel>) -> Seq<FileModel>
    decreases steps.len(),
{
    if steps.len() == 0 {
        Seq::empty()
    } else {
        step_files(steps.drop_last()) + match steps.last() {
            StepModel::Files(files) => files,
            StepModel::Copy { file, .. } => seq![file],
        }
    }
}

/// Whether the steps can be built: a copy follows streamed files, since the upload part before
/// it has to hold its header, and a partial copy starts within the file.
pub open spec fn buildable(steps: Seq<StepModel>) -> bool {
    forall|i: int| 0 <= i < steps.len() ==> #[trigger] buildable_at(steps, i)
}

/// Whether step `i` can be built behind the steps before it.
pub open spec fn buildable_at(steps: Seq<StepModel>, i: int) -> bool {
    match steps[i] {
        StepModel::Files(_) => true,
        StepModel::Copy { file, start_byte } => {
            &&& i > 0
            &&& steps[i - 1] is Files
            &&& start_byte matches Some(start) ==> start <= file.size && 0 < file.size
        },
    }
}

/// Whether an archive of the files stays within what `usize` can count, and its parts within
/// what a part number can.
pub open spec fn countable(files: Seq<FileModel>, step_count: nat) -> bool {
    &&& file_offset(0, files, files.len() as int) + sum(directory_lens(0, files)) + 98 <= usize::MAX
    &&& step_count < i32::MAX
}

/// The layout of an archive.
#[derive(Debug)]
pub struct ZipLayout {
    pub steps: Vec<LayoutStep>,
}

/// The bytes that some streamed files take.
pub open spec fn streamed_len(files: Seq<FileModel>) -> nat {
    file_offset(0, files, files.len() as int)
}

/// Where the copied bytes of a file start if `before` bytes stand in the upload part already:
/// so far in that the upload part reaches the least part size. `None` where too few bytes would
/// be left to copy.
pub open spec fn copy_start(before: nat, file: FileModel) -> Option<nat> {
    let filled = before + header_len(file);
    let start = if filled >= MIN_PART_SIZE {
        0
    } else {
        (MIN_PART_SIZE - filled) as nat
    };
    if file.size >= start + MIN_PART_SIZE {
        Some(start)
    } else {
        None
    }
}

/// A layout in the making: its steps, and the files that are to be streamed next.
#[verifier::ext_equal]
pub struct Draft {
    pub steps: Seq<StepModel>,
    pub pending: Seq<FileModel>,
}

/// The layout of the files up to the streamed files at its end.
pub open spec fn draft(files: Seq<FileModel>) -> Draft
    decreases files.len(),
{
    if files.len() == 0 {
        Draft { steps: Seq::empty(), pending: Seq::empty() }
    } else {
        let d = draft(files.drop_last());
        let file = files.last();
        match copy_start(streamed_len(d.pending), file) {
            Some(start) => Draft {
                steps: d.steps.push(StepModel::Files(d.pending)).push(
                    StepModel::Copy {
                        file,
                        start_byte: if start == 0 {
                            None
                        } else {
                            Some(start as usize)
                        },
                    },
                ),
                pending: Seq::empty(),
            },
            None => Draft { steps: d.steps, pending: d.pending.push(file) },
        }
    }
}

/// The steps for the files. A file is copied, at least in part, as soon as that leaves both the
/// upload part before and the copied bytes large enough; it is streamed otherwise.
pub open spec fn layout_steps(files: Seq<FileModel>) -> Seq<StepModel> {
    let d = draft(files);
    if d.pending.len() == 0 {
        d.steps
    } else {
        d.steps.push(StepModel::Files(d.pending))
    }
}

impl ZipLayout {
    /// Whether the layout can be turned into part jobs.
    pub open spec fn ready(&self) -> bool {
        let steps = step_views(self.steps@);
        &&& buildable(steps)
        &&& countable(step_files(steps), steps.len())
    }

    /// Lays the files out in their order.
    pub fn from_files_info(files_info: Vec<FileInfo>) -> (layout: Self)
        requires
            countable(file_views(files_info@), 2 * files_info@.len() + 1),
        ensures
            step_views(layout.steps@) == layout_steps(file_views(files_info@)),
            layout.ready(),
    {
        let ghost all = files_info@;
        let ghost files = file_views(all);
        let mut steps: Vec<LayoutStep> = Vec::new();
        let mut pending: Vec<FileInfo> = Vec::new();
        let mut before: usize = 0;
        assert(files.take(0) =~= Seq::empty());
        assert(step_views(steps@) =~= Seq::empty());
        assert(file_views(pending@) =~= Seq::empty());
        for file in it: files_info
            invariant
                it.seq() == all,
                files == file_views(all),
                countable(files, 2 * all.len() + 1),
                (Draft { steps: step_views(steps@), pending: file_views(pending@) }) == draft(
                    files.take(it.index()),
                ),
                before == streamed_len(file_views(pending@)),
                before <= file_offset(0, files, it.index()),
        {
            let ghost i = it.index();
            let ghost f = file@;
            let ghost d = draft(files.take(i));
            proof {
                assert(file == all[i]);
                assert(f == files[i]);
                assert(files.take(i + 1).drop_last() =~= files.take(i));
                assert(files.take(i + 1).last() == f);
                lemma_file_offset_grows(0, files, i + 1, files.len() as int);
            }
            let name_len: usize = file.name.as_str().as_bytes().len();
            let header: usize = LocalFileHeader::<NoCRC>::predict_size(file.size, name_len);
            let filled: usize = before + header;
            let start: usize = if filled >= MIN_PART_SIZE {
                0
            } else {
                MIN_PART_SIZE - filled
            };
            let ghost steps_in = steps@;
            let ghost pending_in = pending@;
            if file.size >= MIN_PART_SIZE && file.size - MIN_PART_SIZE >= start {
                let mut streamed: Vec<FileInfo> = Vec::new();
                std::mem::swap(&mut streamed, &mut pending);
                steps.push(LayoutStep::Files(streamed));
                let start_byte: Option<usize> = if start == 0 {
                    None
                } else {
                    Some(start)
                };
                steps.push(LayoutStep::Copy { file, start_byte });
                before = 0;
                assert(copy_start(streamed_len(d.pending), f) == Some(start as nat));
                assert(step_views(steps@) =~= draft(files.take(i + 1)).steps);
                assert(file_views(pending@) =~= Seq::empty());
            } else {
                before = filled + file.size;
                pending.push(file);
                assert(copy_start(streamed_len(d.pending), f) is None);
                assert(file_views(pending@) =~= file_views(pending_in).push(f));
                assert(file_views(pending@) =~= draft(files.take(i + 1)).pending);
                proof {
                    let p = file_views(pending@);
                    assert(p.drop_last() =~= file_views(pending_in));
                    lemma_file_offset_prefix(0, p, p.len() - 1);
                }
            }
        }
        assert(files.take(files.len() as int) =~= files);
        let ghost steps_in = steps@;
        assert(file_views(pending@).len() == pending@.len());
        if pending.len() > 0 {
            steps.push(LayoutStep::Files(pending));
            assert(step_views(steps@) =~= step_views(steps_in).push(steps@.last()@));
        }
        proof {
            layout_keeps_the_files(files);
        }
        ZipLayout { steps }
    }

    /// The part jobs that build the archive.
    pub fn into_part_jobs(self) -> (jobs: Vec<PartJob>)
        requires
            self.ready(),
        ensures
            exists|sender, receiver|
                feeds(sender, receiver) && job_views(jobs@) == #[trigger] built(
                    sender,
                    step_views(self.steps@),
                ).finalize(receiver),
    {
        let ghost all = self.steps@;
        let ghost steps = step_views(all);
        let ghost files = step_files(steps);
        let mut builder = PartJobsBuilder::new();
        let ghost sender = builder@.sender;
        let ghost receiver = builder.receiver();
        assert(steps.take(0) =~= Seq::empty());
        for step in it: self.steps
            invariant
                it.seq() == all,
                steps == step_views(all),
                files == step_files(steps),
                buildable(steps),
                countable(files, steps.len()),
                builder@ == built(sender, steps.take(it.index())),
                builder@.consistent(),
                builder.receiver() == receiver,
        {
            let ghost i = it.index();
            proof {
                assert(step == all[i]);
                assert(step@ == steps[i]);
                assert(steps.take(i + 1).drop_last() =~= steps.take(i));
                assert(steps.take(i + 1).last() == steps[i]);
                lemma_built(sender, steps, i);
                lemma_step_fits(sender, steps, i);
            }
            apply_step(&mut builder, step);
        }
        proof {
            assert(steps.take(steps.len() as int) =~= steps);
            lemma_built(sender, steps, steps.len() as int);
        }
        builder.finalize()
    }
}

/// Whether files that follow one another from `start` on stay within what `usize` can count.
pub open spec fn files_fit(start: nat, files: Seq<FileModel>) -> bool {
    forall|j: int|
        0 <= j < files.len() ==> file_fits(file_offset(start, files, j), #[trigger] files[j])
}

/// Whether a step can be taken from a builder's state.
pub open spec fn step_fits(m: BuilderModel, step: StepModel) -> bool {
    match step {
        StepModel::Files(files) => files_fit(m.offset, files),
        StepModel::Copy { file, start_byte } => {
            &&& ends_with_upload(m.parts)
            &&& file_fits(m.offset, file)
            &&& start_byte matches Some(start) ==> start <= file.size && 0 < file.size
        },
    }
}

/// Takes one step of a layout.
fn apply_step(builder: &mut PartJobsBuilder, step: LayoutStep)
    requires
        old(builder)@.consistent(),
        old(builder)@.parts.len() < i32::MAX,
        step_fits(old(builder)@, step@),
    ensures
        final(builder)@ == old(builder)@.step(step@),
        final(builder)@.consistent(),
        final(builder).receiver() == old(builder).receiver(),
{
    let ghost model = step@;
    match step {
        LayoutStep::Files(file_infos) => {
            let ghost files = file_views(file_infos@);
            assert(model == StepModel::Files(files));
            assert(files_fit(builder@.offset, files));
            assert forall|i: int| 0 <= i < file_infos@.len() implies file_fits(
                file_offset(builder@.offset, file_views(file_infos@), i),
                (#[trigger] file_infos@[i])@,
            ) by {
                assert(files[i] == file_infos@[i]@);
            }
            builder.add_files(file_infos);
        },
        LayoutStep::Copy { file, start_byte } => match start_byte {
            Some(start) => builder.partial_copy_file(file, start),
            None => builder.copy_file(file),
        },
    }
}

/// Whether an archive of the files can be laid out.
pub fn can_be_laid_out(files_info: &Vec<FileInfo>) -> (b: bool)
    ensures
        b == countable(file_views(files_info@), 2 * files_info@.len() + 1),
{
    let ghost files = file_views(files_info@);
    let ghost lens = directory_lens(0, files);
    let count: usize = files_info.len();
    if count as u64 >= 0x3FFF_FFFF {
        return false;
    }
    let limit: u128 = usize::MAX as u128;
    let mut offset: u128 = 0;
    let mut directory: u128 = 0;
    let mut i: usize = 0;
    assert(lens.take(0) =~= Seq::empty());
    while i < count
        invariant
            i <= count == files_info@.len(),
            files == file_views(files_info@),
            lens == directory_lens(0, files),
            limit == usize::MAX,
            offset == file_offset(0, files, i as int),
            directory == sum(lens.take(i as int)),
            offset <= limit,
            directory <= limit,
        decreases count - i,
    {
        let size: u128 = files_info[i].size as u128;
        let name_len: u128 = files_info[i].name.as_str().as_bytes().len() as u128;
        proof {
            assert(files[i as int] == files_info@[i as int]@);
            assert(lens.take(i + 1).drop_last() =~= lens.take(i as int));
            lemma_file_offset_grows(0, files, i + 1, files.len() as int);
            lemma_sum_take(lens, i + 1);
        }
        let record: u128 = 46 + name_len + if offset > u32::MAX as u128 {
            28
        } else if size > u32::MAX as u128 {
            20
        } else {
            0
        };
        let header: u128 = 30 + name_len + if size > u32::MAX as u128 {
            20
        } else {
            0
        };
        assert(record == directory_len(offset as nat, files[i as int]));
        assert(header == header_len(files[i as int]));
        offset = offset + header + size;
        directory = directory + record;
        i = i + 1;
        if offset > limit || directory > limit {
            return false;
        }
    }
    assert(lens.take(i as int) =~= lens);
    offset + directory + 98 <= limit
}

// ---------- Lemmas ----------

pub proof fn lemma_file_offset_shift(start: nat, files: Seq<FileModel>, i: int)
    ensures
        file_offset(start, files, i) == start + file_offset(0, files, i),
    decreases i,
{
    if i > 0 {
        lemma_file_offset_shift(start, files, i - 1);
    }
}

/// Files that follow others start where those end.
pub proof fn lemma_file_offset_add(start: nat, a: Seq<FileModel>, b: Seq<FileModel>, j: int)
    requires
        0 <= j <= b.len(),
    ensures
        file_offset(start, a + b, a.len() + j) == file_offset(
            file_offset(start, a, a.len() as int),
            b,
            j,
        ),
    decreases j,
{
    if j > 0 {
        lemma_file_offset_add(start, a, b, j - 1);
        assert((a + b)[a.len() + j - 1] == b[j - 1]);
    } else {
        lemma_file_offset_same(start, a + b, a, a.len() as int);
    }
}

pub proof fn lemma_file_offset_same(start: nat, a: Seq<FileModel>, b: Seq<FileModel>, n: int)
    requires
        0 <= n <= a.len(),
        n <= b.len(),
        forall|i: int| 0 <= i < n ==> a[i] == b[i],
    ensures
        file_offset(start, a, n) == file_offset(start, b, n),
    decreases n,
{
    if n > 0 {
        lemma_file_offset_same(start, a, b, n - 1);
    }
}

pub proof fn lemma_directory_lens_add(start: nat, a: Seq<FileModel>, b: Seq<FileModel>)
    ensures
        directory_lens(start, a + b) == directory_lens(start, a) + directory_lens(
            file_offset(start, a, a.len() as int),
            b,
        ),
{
    let left = directory_lens(start, a + b);
    let right = directory_lens(start, a) + directory_lens(
        file_offset(start, a, a.len() as int),
        b,
    );
    assert forall|i: int| 0 <= i < left.len() implies left[i] == right[i] by {
        if i < a.len() {
            lemma_file_offset_same(start, a + b, a, i);
        } else {
            lemma_file_offset_add(start, a, b, i - a.len());
        }
    }
    assert(left =~= right);
}

pub proof fn lemma_sum_part(lens: Seq<nat>, i: int)
    requires
        0 <= i < lens.len(),
    ensures
        lens[i] <= sum(lens),
    decreases lens.len(),
{
    if i < lens.len() - 1 {
        lemma_sum_part(lens.drop_last(), i);
    }
}

/// The files of the first steps are the first files.
pub proof fn lemma_step_files_prefix(steps: Seq<StepModel>, n: int)
    requires
        0 <= n <= steps.len(),
    ensures
        step_files(steps.take(n)).is_prefix_of(step_files(steps)),
    decreases steps.len(),
{
    if n < steps.len() {
        lemma_step_files_prefix(steps.drop_last(), n);
        assert(steps.drop_last().take(n) =~= steps.take(n));
    } else {
        assert(steps.take(n) =~= steps);
    }
}

/// What the builder knows after the first `n` steps.
pub proof fn lemma_built(sender: HeaderSender, steps: Seq<StepModel>, n: int)
    requires
        buildable(steps),
        0 <= n <= steps.len(),
    ensures
        ({
            let m = built(sender, steps.take(n));
            let files = step_files(steps.take(n));
            &&& m.sender == sender
            &&& m.offset == file_offset(0, files, files.len() as int)
            &&& m.cdfh_sizes == directory_lens(0, files)
            &&& m.parts.len() <= n
            &&& m.consistent()
            &&& n > 0 && steps[n - 1] is Files ==> ends_with_upload(m.parts)
        }),
    decreases n,
{
    let m = built(sender, steps.take(n));
    let files = step_files(steps.take(n));
    if n == 0 {
        assert(steps.take(0) =~= Seq::empty());
        assert(directory_lens(0, files) =~= Seq::empty());
    } else {
        lemma_built(sender, steps, n - 1);
        assert(buildable_at(steps, n - 1));
        let front = steps.take(n - 1);
        assert(steps.take(n).drop_last() =~= front);
        assert(steps.take(n).last() == steps[n - 1]);
        let b = built(sender, front);
        let before = step_files(front);
        match steps[n - 1] {
            StepModel::Files(more) => {
                lemma_file_offset_add(0, before, more, more.len() as int);
                lemma_directory_lens_add(0, before, more);
                add_files_is_consistent(b, more);
            },
            StepModel::Copy { file, start_byte } => {
                assert(steps[n - 1] is Copy);
                lemma_file_offset_add(0, before, seq![file], 1);
                lemma_directory_lens_add(0, before, seq![file]);
                assert(file_offset(b.offset, seq![file], 1) == b.offset + header_len(file)
                    + file.size) by {
                    reveal_with_fuel(file_offset, 2);
                }
                assert(directory_lens(b.offset, seq![file]) =~= seq![
                    directory_len(b.offset, file),
                ]);
                assert(m.cdfh_sizes =~= directory_lens(0, files));
                copy_file_is_consistent(b, file, start_byte);
            },
        }
    }
}

/// A step of a countable layout stays countable.
pub proof fn lemma_step_fits(sender: HeaderSender, steps: Seq<StepModel>, i: int)
    requires
        buildable(steps),
        countable(step_files(steps), steps.len()),
        0 <= i < steps.len(),
    ensures
        step_fits(built(sender, steps.take(i)), steps[i]),
{
    assert(buildable_at(steps, i));
    let all = step_files(steps);
    let before = step_files(steps.take(i));
    let offset = built(sender, steps.take(i)).offset;
    let here = match steps[i] {
        StepModel::Files(files) => files,
        StepModel::Copy { file, .. } => seq![file],
    };
    lemma_built(sender, steps, i);
    assert(steps.take(i + 1).drop_last() =~= steps.take(i));
    assert(steps.take(i + 1).last() == steps[i]);
    lemma_step_files_prefix(steps, i + 1);
    let upto = before + here;
    assert(upto == step_files(steps.take(i + 1)));
    assert forall|j: int| 0 <= j < here.len() implies file_fits(
        file_offset(offset, here, j),
        #[trigger] here[j],
    ) by {
        let k = before.len() + j;
        assert(upto[k] == here[j]);
        assert(all[k] == here[j]);
        lemma_file_offset_add(0, before, here, j);
        lemma_file_offset_same(0, all, upto, k);
        lemma_file_offset_grows(0, all, k + 1, all.len() as int);
        lemma_sum_part(directory_lens(0, all), k);
    }
    if steps[i] is Copy {
        assert(here[0] == steps[i]->Copy_file);
        assert(file_fits(file_offset(offset, here, 0), here[0]));
    }
}

// ---------- Laws ----------

/// Adding files keeps the parts numbered from 1 on and as large as the archive so far.
pub proof fn add_files_is_consistent(m: BuilderModel, files: Seq<FileModel>)
    requires
        m.consistent(),
    ensures
        m.add_files(files).consistent(),
        ends_with_upload(m.add_files(files).parts),
        m.add_files(files).parts.len() == if ends_with_upload(m.parts) {
            m.parts.len()
        } else {
            m.parts.len() + 1
        },
{
    let elements = file_elements(
        m.offset,
        files,
        m.sender,
    );
    lemma_file_elements_len(m.offset, files, m.sender);
    lemma_with_elements(m.parts, elements);
}

/// Adding a copied file behind an upload part keeps the parts numbered from 1 on and as large as
/// the archive so far, and ends with the copy.
pub proof fn copy_file_is_consistent(m: BuilderModel, file: FileModel, start_byte: Option<usize>)
    requires
        m.consistent(),
        ends_with_upload(m.parts),
        start_byte matches Some(start) ==> start <= file.size,
    ensures
        m.copy_file(file, start_byte).consistent(),
        m.copy_file(file, start_byte).parts.len() == m.parts.len() + 1,
        m.copy_file(file, start_byte).parts.last().kind is Copy,
{
    let after = m.copy_file(file, start_byte);
    let element = file_element(
        m.offset,
        file,
        match start_byte {
            Some(size) => S3ObjectOperation::PartialGet { size },
            None => S3ObjectOperation::Head,
        },
        m.sender,
    );
    let one = seq![element];
    let uploaded = with_elements(m.parts, one);
    lemma_with_elements(m.parts, one);
    assert(one.drop_last() =~= Seq::empty());
    assert(elements_len(one) == element.len()) by {
        reveal_with_fuel(elements_len, 2);
    }
    assert(after.parts.drop_last() =~= uploaded);
    assert forall|i: int| 0 <= i < after.parts.len() implies (
    #[trigger] after.parts[i]).part_number == i + 1 by {
        if i < uploaded.len() {
            assert(after.parts[i] == uploaded[i]);
        }
    }
    assert forall|i: int|
        0 <= i < after.parts.len() && (#[trigger] after.parts[i]).kind is Upload implies
        after.parts[i].part_size == elements_len(
        after.parts[i].kind->Upload_0,
    ) by {
        assert(after.parts[i] == uploaded[i]);
    }
}

/// The layout holds every file once, in order, and can be built.
pub proof fn layout_keeps_the_files(files: Seq<FileModel>)
    ensures
        step_files(layout_steps(files)) == files,
        buildable(layout_steps(files)),
        layout_steps(files).len() <= 2 * files.len() + 1,
{
    let d = draft(files);
    lemma_draft(files);
    let steps = layout_steps(files);
    if d.pending.len() == 0 {
        assert(step_files(d.steps) + d.pending =~= step_files(d.steps));
    } else {
        assert(steps.drop_last() =~= d.steps);
        assert forall|i: int| 0 <= i < steps.len() implies #[trigger] buildable_at(steps, i) by {
            if i < d.steps.len() {
                assert(buildable_at(d.steps, i));
            }
        }
    }
}

proof fn lemma_draft(files: Seq<FileModel>)
    ensures
        step_files(draft(files).steps) + draft(files).pending == files,
        buildable(draft(files).steps),
        draft(files).steps.len() <= 2 * files.len(),
        draft(files).steps.len() > 0 ==> draft(files).steps.last() is Copy,
    decreases files.len(),
{
    let d = draft(files);
    if files.len() == 0 {
        assert(step_files(d.steps) + d.pending =~= files);
    } else {
        let front = files.drop_last();
        let file = files.last();
        lemma_draft(front);
        let b = draft(front);
        match copy_start(streamed_len(b.pending), file) {
            Some(start) => {
                let one = b.steps.push(StepModel::Files(b.pending));
                assert(d.steps.drop_last() =~= one);
                assert(one.drop_last() =~= b.steps);
                assert(step_files(one) == front);
                assert(step_files(d.steps) =~= files);
                assert(step_files(d.steps) + d.pending =~= files);
                assert forall|i: int| 0 <= i < d.steps.len() implies #[trigger] buildable_at(
                    d.steps,
                    i,
                ) by {
                    if i < b.steps.len() {
                        assert(buildable_at(b.steps, i));
                    }
                }
            },
            None => {
                let kept = step_files(b.steps);
                assert(kept + b.pending.push(file) =~= (kept + b.pending).push(file));
                assert(files =~= front.push(file));
            },
        }
    }
}

/// Whether a copy starts where the upload part before it is full: it copies the whole file where the
/// streamed files and the header reach 5 MiB already, and leaves out as many bytes as are missing to
/// 5 MiB otherwise. At least 5 MiB are copied.
pub open spec fn starts_where_full(
    streamed: Seq<FileModel>,
    file: FileModel,
    start_byte: Option<usize>,
) -> bool {
    let filled = streamed_len(streamed) + plain_header_len(file);
    match start_byte {
        None => filled >= 5_242_880 && file.size >= 5_242_880,
        Some(start) => filled + start == 5_242_880 && start > 0 && file.size - start >= 5_242_880,
    }
}

/// Whether a file that comes behind streamed files is too small to be copied: what is left of it when
/// the upload part before has 5 MiB has less than 5 MiB.
pub open spec fn too_small_to_copy(streamed: Seq<FileModel>, file: FileModel) -> bool {
    let filled = streamed_len(streamed) + plain_header_len(file);
    file.size < 5_242_880 || (filled < 5_242_880 && file.size + filled < 10_485_760)
}

/// Whether every step is as it has to be: each copy follows streamed files and starts where these fill
/// their part, and each streamed file is too small to be copied where it stands.
pub open spec fn step_is_right(steps: Seq<StepModel>, i: int) -> bool {
    match steps[i] {
        StepModel::Files(files) => all_too_small(files),
        StepModel::Copy { file, start_byte } => {
            &&& i > 0
            &&& steps[i - 1] matches StepModel::Files(streamed)
            &&& starts_where_full(streamed, file, start_byte)
        },
    }
}

/// Whether each of the files, behind those before it, is too small to be copied.
pub open spec fn all_too_small(files: Seq<FileModel>) -> bool {
    forall|q: int| 0 <= q < files.len() ==> too_small_to_copy(files.take(q), #[trigger] files[q])
}

proof fn lemma_draft_is_right(files: Seq<FileModel>)
    ensures
        forall|i: int|
            0 <= i < draft(files).steps.len() ==> #[trigger] step_is_right(draft(files).steps, i),
        all_too_small(draft(files).pending),
    decreases files.len(),
{
    if files.len() > 0 {
        let b = draft(files.drop_last());
        let d = draft(files);
        let file = files.last();
        lemma_draft_is_right(files.drop_last());
        match copy_start(streamed_len(b.pending), file) {
            Some(start) => {
                assert(start <= MIN_PART_SIZE);
                assert forall|i: int| 0 <= i < d.steps.len() implies #[trigger] step_is_right(
                    d.steps,
                    i,
                ) by {
                    if i < b.steps.len() {
                        assert(step_is_right(b.steps, i));
                    }
                }
            },
            None => {
                let p = d.pending;
                assert forall|q: int| 0 <= q < p.len() implies too_small_to_copy(
                    p.take(q),
                    #[trigger] p[q],
                ) by {
                    if q < b.pending.len() {
                        assert(too_small_to_copy(b.pending.take(q), b.pending[q]));
                        assert(p.take(q) =~= b.pending.take(q));
                    } else {
                        assert(p.take(q) =~= b.pending);
                    }
                }
            },
        }
    }
}

/// Files are copied as soon as both the upload part before and the copied bytes have 5 MiB, and
/// streamed otherwise. No more of a copied file is downloaded than that takes.
pub proof fn files_are_copied_as_soon_as_possible(files: Seq<FileModel>, i: int)
    requires
        0 <= i < layout_steps(files).len(),
    ensures
        step_is_right(layout_steps(files), i),
{
    let d = draft(files);
    lemma_draft_is_right(files);
    if i < d.steps.len() {
        assert(step_is_right(d.steps, i));
    }
}

/// Every file of 10 MiB or more is copied, all of it but at most the first 5 MiB.
pub proof fn large_files_are_copied(files: Seq<FileModel>, f: int)
    requires
        0 <= f < files.len(),
        files[f].size >= 10_485_760,
    ensures
        exists|i: int|
            0 <= i < layout_steps(files).len() && copies(#[trigger] layout_steps(files)[i], files[f]),
{
    let d = draft(files);
    lemma_large_drafted(files, f);
    let i = choose|i: int| 0 <= i < d.steps.len() && copies(#[trigger] d.steps[i], files[f]);
    assert(layout_steps(files)[i] == d.steps[i]);
}

/// Whether a step copies the file, but for at most its first 5 MiB.
pub open spec fn copies(step: StepModel, file: FileModel) -> bool {
    match step {
        StepModel::Files(_) => false,
        StepModel::Copy { file: own, start_byte } => {
            &&& own == file
            &&& start_byte matches Some(start) ==> start <= 5_242_880
        },
    }
}

proof fn lemma_large_drafted(files: Seq<FileModel>, f: int)
    requires
        0 <= f < files.len(),
        files[f].size >= 10_485_760,
    ensures
        exists|i: int|
            0 <= i < draft(files).steps.len() && copies(#[trigger] draft(files).steps[i], files[f]),
    decreases files.len(),
{
    let front = files.drop_last();
    let b = draft(front);
    let d = draft(files);
    if f < files.len() - 1 {
        lemma_large_drafted(front, f);
        let i = choose|i: int| 0 <= i < b.steps.len() && copies(#[trigger] b.steps[i], front[f]);
        assert(d.steps[i] == b.steps[i]);
    } else {
        assert(copy_start(streamed_len(b.pending), files.last()) is Some);
        assert(copies(d.steps[d.steps.len() - 1], files[f]));
    }
}

/// The files of all steps are those of each step, wherever it stands.
pub proof fn every_step_has_its_files(
    before: Seq<StepModel>,
    step: StepModel,
    behind: Seq<StepModel>,
)
    ensures
        step_files(Seq::empty()) == Seq::<FileModel>::empty(),
        step_files(before + seq![step] + behind) == step_files(before) + (match step {
            StepModel::Files(files) => files,
            StepModel::Copy { file, .. } => seq![file],
        }) + step_files(behind),
    decreases behind.len(),
{
    let all = before + seq![step] + behind;
    let here = match step {
        StepModel::Files(files) => files,
        StepModel::Copy { file, .. } => seq![file],
    };
    if behind.len() == 0 {
        assert(all.drop_last() =~= before);
        assert(step_files(before) + here + step_files(behind) =~= step_files(before) + here);
    } else {
        let front = behind.drop_last();
        every_step_has_its_files(before, step, front);
        assert(all.drop_last() =~= before + seq![step] + front);
        assert(step_files(all) =~= step_files(before) + here + step_files(behind));
    }
}

/// Files that follow one another: each starts behind the header and the body of the one before it.
pub proof fn files_follow_one_another(start: nat, files: Seq<FileModel>, i: int)
    requires
        0 <= i < files.len(),
    ensures
        file_offset(start, files, 0) == start,
        file_offset(start, files, i + 1) == file_offset(start, files, i) + plain_header_len(
            files[i],
        ) + files[i].size,
{
}

/// The builder takes the steps in their order, from nothing on.
pub proof fn steps_are_taken_in_order(sender: HeaderSender, steps: Seq<StepModel>, step: StepModel)
    ensures
        built(sender, Seq::empty()).parts.len() == 0,
        built(sender, Seq::empty()).offset == 0,
        built(sender, Seq::empty()).cdfh_sizes.len() == 0,
        built(sender, Seq::empty()).sender == sender,
        built(sender, steps.push(step)) == match step {
            StepModel::Files(files) => built(sender, steps).add_files(files),
            StepModel::Copy { file, start_byte } => built(sender, steps).copy_file(
                file,
                start_byte,
            ),
        },
{
    assert(steps.push(step).drop_last() =~= steps);
}

/// The model of a step shows what the step holds.
pub proof fn models_show_the_step(steps: Seq<LayoutStep>, i: int, f: int)
    requires
        0 <= i < steps.len(),
    ensures
        step_views(steps).len() == steps.len(),
        step_views(steps)[i] == steps[i]@,
        match steps[i] {
            LayoutStep::Files(files) => step_views(steps)[i] matches StepModel::Files(shown)
                && shown.len() == files@.len() && (0 <= f < shown.len() ==> shown[f] == files@[f]@),
            LayoutStep::Copy { file, start_byte } => step_views(steps)[i] matches StepModel::Copy {
                file: shown,
                start_byte: at,
            } && shown == file@ && at == start_byte,
        },
{
}

/// A layout is turned into part jobs where its archive can be counted: files, central directory and
/// closing records together fit `usize`, and its parts can be numbered.
pub proof fn countable_archives_fit(files: Seq<FileModel>, step_count: nat)
    ensures
        countable(files, step_count) <==> streamed_len(files) + sum(directory_lens(0, files)) + 98
            <= usize::MAX && step_count < 0x7FFF_FFFF,
{
}

} // verus!
