//! How work is spread over sub-workers.

use std::sync::Arc;

use vstd::prelude::*;
use vstd::utf8::encode_utf8;

use crate::text::{decimal, decimal_text_is_read, is_unsigned, numbers_are_digits, parse_usize};
use crate::v3::part_executor::DelegatedPartJob;

verus! {

/// The most part jobs that one sub-worker is given.
pub const LAMBDA_WORKER_PART_JOB_MAX_CHUNK_SIZE: usize = 500;

/// How many sub-workers run at a time where nothing else is said.
pub const DEFAULT_MAX_LAMBDA_WORKERS: usize = 50;

/// The function that sub-workers run, and how many of them may run at a time.
#[derive(Debug, Clone)]
pub struct LambdaExecutor {
    pub function_arn: Arc<str>,
    pub max_workers: usize,
}

impl LambdaExecutor {
    pub fn new(function_arn: Arc<str>, max_workers: usize) -> (executor: Self)
        ensures
            executor.function_arn == function_arn,
            executor.max_workers == max_workers,
    {
        LambdaExecutor { function_arn, max_workers }
    }
}

/// The number in a setting: `None` where it is unset or not a number.
pub open spec fn setting_value(setting: Option<String>) -> Option<usize> {
    match setting {
        None => None,
        Some(text) => text_value(text@),
    }
}

/// The number in a text that fits `usize`.
pub open spec fn text_value(text: Seq<char>) -> Option<usize> {
    let bytes = vstd::utf8::encode_utf8(text);
    let value = crate::text::digits_value(crate::text::unsigned_digits(bytes));
    if crate::text::is_unsigned(bytes) && value <= usize::MAX {
        Some(value as usize)
    } else {
        None
    }
}

/// The mode of an archiving job: `None` runs all parts in this invocation, otherwise parts are
/// fanned out to at most so many sub-workers. Fan-out is the default; the number of sub-workers
/// is read from a setting.
pub fn fan_out_mode(force_local: bool, max_workers: Option<String>) -> (workers: Option<usize>)
    ensures
        workers == if force_local {
            None
        } else {
            match setting_value(max_workers) {
                Some(n) => Some(n),
                None => Some(DEFAULT_MAX_LAMBDA_WORKERS),
            }
        },
{
    if force_local {
        return None;
    }
    match max_workers {
        Some(text) => match parse_usize(text.as_str()) {
            Some(n) => Some(n),
            None => Some(DEFAULT_MAX_LAMBDA_WORKERS),
        },
        None => Some(DEFAULT_MAX_LAMBDA_WORKERS),
    }
}

/// All batches one after another.
pub open spec fn unbatched(batches: Seq<Vec<DelegatedPartJob>>) -> Seq<DelegatedPartJob>
    decreases batches.len(),
{
    if batches.len() == 0 {
        Seq::empty()
    } else {
        unbatched(batches.drop_last()) + batches.last()@
    }
}

/// Cuts the jobs into batches, each for one sub-worker. All batches but the last are full.
pub fn into_batches(jobs: Vec<DelegatedPartJob>) -> (batches: Vec<Vec<DelegatedPartJob>>)
    ensures
        unbatched(batches@) == jobs@,
        forall|i: int|
            0 <= i < batches@.len() ==> 0 < (#[trigger] batches@[i])@.len()
                <= LAMBDA_WORKER_PART_JOB_MAX_CHUNK_SIZE,
        forall|i: int|
            0 <= i < batches@.len() - 1 ==> (#[trigger] batches@[i])@.len()
                == LAMBDA_WORKER_PART_JOB_MAX_CHUNK_SIZE,
{
    let mut batches: Vec<Vec<DelegatedPartJob>> = Vec::new();
    let mut batch: Vec<DelegatedPartJob> = Vec::new();
    let ghost all = jobs@;
    assert(all.take(0) =~= Seq::empty());
    for job in it: jobs
        invariant
            it.seq() == all,
            unbatched(batches@) + batch@ == all.take(it.index()),
            batch@.len() < LAMBDA_WORKER_PART_JOB_MAX_CHUNK_SIZE,
            forall|i: int|
                0 <= i < batches@.len() ==> (#[trigger] batches@[i])@.len()
                    == LAMBDA_WORKER_PART_JOB_MAX_CHUNK_SIZE,
    {
        let ghost i = it.index();
        let ghost before = unbatched(batches@) + batch@;
        batch.push(job);
        assert(unbatched(batches@) + batch@ =~= before.push(job));
        assert(all.take(i + 1) =~= before.push(job));
        if batch.len() == LAMBDA_WORKER_PART_JOB_MAX_CHUNK_SIZE {
            let mut full: Vec<DelegatedPartJob> = Vec::new();
            std::mem::swap(&mut full, &mut batch);
            let ghost closed = batches@;
            batches.push(full);
            assert(batches@.drop_last() =~= closed);
            assert(unbatched(batches@) + batch@ =~= before.push(job));
        }
    }
    assert(all.take(all.len() as int) =~= all);
    if batch.len() > 0 {
        let ghost closed = batches@;
        batches.push(batch);
        assert(batches@.drop_last() =~= closed);
    } else {
        assert(unbatched(batches@) + batch@ =~= unbatched(batches@));
    }
    batches
}

// ---------- Laws ----------

/// Batches one after another hold the jobs of every batch, between those of the batches before it and
/// those of the batches behind it.
pub proof fn unbatched_holds_every_batch(
    before: Seq<Vec<DelegatedPartJob>>,
    batch: Vec<DelegatedPartJob>,
    behind: Seq<Vec<DelegatedPartJob>>,
)
    ensures
        unbatched(Seq::empty()) == Seq::<DelegatedPartJob>::empty(),
        unbatched(before + seq![batch] + behind) == unbatched(before) + batch@ + unbatched(behind),
    decreases behind.len(),
{
    let all = before + seq![batch] + behind;
    if behind.len() == 0 {
        assert(all.drop_last() =~= before);
        assert(unbatched(before) + batch@ + unbatched(behind) =~= unbatched(before) + batch@);
    } else {
        let front = behind.drop_last();
        unbatched_holds_every_batch(before, batch, front);
        assert(all.drop_last() =~= before + seq![batch] + front);
        assert(unbatched(all) =~= unbatched(before) + batch@ + unbatched(behind));
    }
}

/// A setting that is the decimal text of a number is that number. One that is empty or has anything
/// but digits, apart from a plus sign before them, is none, and neither is a missing one.
pub proof fn settings_are_decimal_numbers(setting: Option<String>, n: usize)
    ensures
        setting is None ==> setting_value(setting) is None,
        setting matches Some(text) ==> {
            &&& text@ == decimal(n as nat) ==> setting_value(setting) == Some(n)
            &&& text@ == seq!['+'] + decimal(n as nat) ==> setting_value(setting) == Some(n)
            &&& text@.len() == 0 ==> setting_value(setting) is None
            &&& !is_unsigned(encode_utf8(text@)) ==> setting_value(setting) is None
        },
{
    decimal_text_is_read(n as nat);
    if setting is Some && setting->0@.len() == 0 {
        numbers_are_digits(encode_utf8(setting->0@));
        assert(encode_utf8(setting->0@).len() == 0) by {
            reveal_with_fuel(encode_utf8, 1);
        }
    }
}

} // verus!
