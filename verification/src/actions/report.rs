//! The reports of a wipe and the order they come in.

use crate::actions::phase::at_block_start;
use crate::actions::phase::block_index;
use crate::actions::wipe::verifies;
use crate::sanitization::stage::chunk_count;
use crate::sanitization::stage::chunk_offset;
use crate::actions::wipe::WipeError;
use crate::actions::wipe::WipeEvent;
use crate::actions::wipe::WipeStateView;
use crate::actions::wipe::WipeTask;
use vstd::prelude::*;

verus! {

/// One report as a receiver gets it: the event, and the state of the wipe at
/// the moment of the report.
pub struct Notice {
    pub state: WipeStateView,
    pub event: WipeEvent,
}

/// Whether the reports so far end with one made in state `state`.
pub open spec fn synced(log: Seq<Notice>, state: WipeStateView) -> bool {
    log.len() > 0 && log.last().state == state
}

/// Where a phase that stands at `position` stands after the block there: at
/// the start of the next block, or at the end of the device if that comes
/// first.
pub open spec fn next_stop(task: &WipeTask, position: int) -> int {
    if position + task.block_size > task.total_size {
        task.total_size as int
    } else {
        position + task.block_size
    }
}

/// Whether the report `next` may come directly after the report `prev` in
/// the course of one wipe.
///
/// A wipe starts, runs its stages and completes. A stage starts with a write
/// phase; where the stage is read back, a read phase follows the write phase.
/// A phase starts, reports progress from where it stands, then reports the
/// end of block after block, one report to a block, and completes. A block is
/// marked bad right after the progress that reached it and at no other time,
/// and only if it was not marked before. A phase that completes without failure
/// has reached the end of the device. A failure is followed by a retry as
/// long as retries are left, and by the end of the wipe, with the same
/// failure, when none is. A retry starts the write phase again where the
/// failed phase stood. Nothing but a retry uses up retries, nothing but the
/// marking of a block changes the set of bad blocks, and nothing but progress
/// and the start of a phase changes the position.
pub open spec fn may_follow(task: &WipeTask, prev: Notice, next: Notice) -> bool {
    let before = prev.state;
    let now = next.state;
    let count = task.scheme.stages@.len() as int;
    let checked = verifies(task.verify, before.stage as int, count);
    match next.event {
        WipeEvent::Started => false,
        WipeEvent::StageStarted => {
            &&& at_block_start(task, now.position as int)
            &&& now.retries_left == before.retries_left
            &&& now.bad_blocks == before.bad_blocks
            &&& now.stage < count
            &&& match prev.event {
                WipeEvent::Started => now.stage == 0 && !now.at_verification && now.position == 0,
                WipeEvent::StageCompleted(None) => {
                    ||| {
                        &&& now.stage == before.stage
                        &&& now.at_verification
                        &&& !before.at_verification
                        &&& checked
                        &&& now.position <= before.position
                    }
                    ||| {
                        &&& now.stage == before.stage + 1
                        &&& !now.at_verification
                        &&& before.at_verification == checked
                        &&& now.position == 0
                    }
                },
                WipeEvent::Retrying => now.stage == before.stage && !now.at_verification
                    && now.position == before.position,
                _ => false,
            }
        },
        WipeEvent::Progress(position) => {
            &&& position == now.position
            &&& now == (WipeStateView { position: now.position, ..before })
            &&& at_block_start(task, now.position as int)
            &&& match prev.event {
                WipeEvent::StageStarted => now.position == before.position,
                WipeEvent::Progress(_) | WipeEvent::MarkBlockAsBad(_) => before.position
                    < task.total_size && now.position == next_stop(task, before.position as int),
                _ => false,
            }
        },
        WipeEvent::MarkBlockAsBad(offset) => {
            &&& offset == now.position
            &&& at_block_start(task, offset as int)
            &&& !before.bad_blocks.contains(block_index(offset as int, task.block_size as int))
            &&& now == (WipeStateView {
                bad_blocks: before.bad_blocks.insert(
                    block_index(offset as int, task.block_size as int),
                ),
                ..before
            })
            &&& prev.event is Progress
        },
        WipeEvent::StageCompleted(result) => {
            &&& now == before
            &&& now.position <= task.total_size
            &&& result is None ==> now.position == task.total_size
            &&& prev.event is Progress || prev.event is MarkBlockAsBad || (prev.event
                is StageStarted && task.total_size == 0)
        },
        WipeEvent::Retrying => {
            &&& now.position <= task.total_size
            &&& now == (WipeStateView {
                retries_left: (before.retries_left - 1) as u32,
                at_verification: false,
                ..before
            })
            &&& before.retries_left > 0
            &&& prev.event matches WipeEvent::StageCompleted(Some(_))
        },
        WipeEvent::Aborted => false,
        WipeEvent::Completed(outcome) => {
            &&& now == before
            &&& match prev.event {
                WipeEvent::Started => outcome is None && count == 0,
                WipeEvent::StageCompleted(result) => {
                    &&& outcome == result
                    &&& result is Some ==> before.retries_left == 0
                    &&& result is None ==> before.stage + 1 == count && before.at_verification
                        == checked
                },
                _ => false,
            }
        },
        WipeEvent::Fatal(_) => false,
    }
}

/// Whether `after` is `before` with reports added at its end, each of which
/// may follow the one before it.
pub open spec fn grows(task: &WipeTask, before: Seq<Notice>, after: Seq<Notice>) -> bool {
    &&& before.len() <= after.len()
    &&& forall|i: int| 0 <= i < before.len() ==> after[i] == before[i]
    &&& forall|j: int, i: int|
        #![trigger after[j], after[i]]
        before.len() <= i < after.len() && 0 <= j && j + 1 == i ==> may_follow(
            task,
            after[j],
            after[i],
        )
}

/// Adding nothing is a way of growing.
pub proof fn lemma_grows_reflexive(task: &WipeTask, log: Seq<Notice>)
    ensures
        grows(task, log, log),
{
}

/// Growing twice is growing.
pub proof fn lemma_grows_transitive(
    task: &WipeTask,
    first: Seq<Notice>,
    second: Seq<Notice>,
    third: Seq<Notice>,
)
    requires
        grows(task, first, second),
        grows(task, second, third),
    ensures
        grows(task, first, third),
{
    assert forall|j: int, i: int|
        #![trigger third[j], third[i]]
        first.len() <= i < third.len() && 0 <= j && j + 1 == i implies may_follow(
        task,
        third[j],
        third[i],
    ) by {
        if i < second.len() {
            assert(third[i] == second[i]);
            assert(third[j] == second[j]);
            assert(may_follow(task, second[j], second[i]));
        }
    }
}

/// A report that may follow the last one makes the reports grow.
pub proof fn lemma_grows_by_one(task: &WipeTask, log: Seq<Notice>, next: Notice)
    requires
        log.len() > 0,
        may_follow(task, log.last(), next),
    ensures
        grows(task, log, log.push(next)),
{
}

/// Reports that have grown keep growing with each report that may follow
/// their last one.
pub proof fn lemma_grows_on(task: &WipeTask, first: Seq<Notice>, log: Seq<Notice>, next: Notice)
    requires
        grows(task, first, log),
        log.len() > 0,
        may_follow(task, log.last(), next),
    ensures
        grows(task, first, log.push(next)),
{
    lemma_grows_by_one(task, log, next);
    lemma_grows_transitive(task, first, log, log.push(next));
}

/// Whether `after` is `before` followed by the reports of one whole wipe:
/// `Started` first, `Completed` last, and in between reports that may each
/// follow the one before. The wipe succeeded exactly if it completed without
/// a failure.
pub open spec fn reports_wipe(
    task: &WipeTask,
    before: Seq<Notice>,
    after: Seq<Notice>,
    initial: WipeStateView,
    last: WipeStateView,
    success: bool,
) -> bool {
    let n = before.len() as int;
    &&& after.len() >= n + 2
    &&& forall|i: int| 0 <= i < n ==> after[i] == before[i]
    &&& after[n] == (Notice { state: initial, event: WipeEvent::Started })
    &&& forall|j: int, i: int|
        #![trigger after[j], after[i]]
        n < i < after.len() && j + 1 == i ==> may_follow(task, after[j], after[i])
    &&& after.last().state == last
    &&& after.last().event matches WipeEvent::Completed(outcome) && success == (outcome is None)
}

/// The reports of a wipe, put together: the start, what the stages reported,
/// and the end.
pub(crate) proof fn lemma_whole_wipe(
    task: &WipeTask,
    before: Seq<Notice>,
    begin: Notice,
    middle: Seq<Notice>,
    end: Notice,
)
    requires
        begin.event is Started,
        grows(task, before.push(begin), middle),
        may_follow(task, middle.last(), end),
        end.event is Completed,
    ensures
        reports_wipe(
            task,
            before,
            middle.push(end),
            begin.state,
            end.state,
            end.event->Completed_0 is None,
        ),
{
    let n = before.len() as int;
    let started = before.push(begin);
    let all = middle.push(end);
    assert(started[n] == begin);
    assert(all[n] == middle[n]);
    assert forall|i: int| 0 <= i < n implies all[i] == before[i] by {
        assert(all[i] == middle[i]);
        assert(middle[i] == started[i]);
    }
    assert forall|j: int, k: int|
        #![trigger all[j], all[k]]
        n < k < all.len() && j + 1 == k implies may_follow(task, all[j], all[k]) by {
        if k < middle.len() {
            assert(all[k] == middle[k]);
            assert(all[j] == middle[j]);
            assert(started.len() <= k);
            assert(may_follow(task, middle[j], middle[k]));
        } else {
            assert(all[k] == end);
            assert(all[j] == middle.last());
        }
    }
}

/// Whether each of the reports after `log[from]` may follow the one before.
pub open spec fn in_order(task: &WipeTask, log: Seq<Notice>, from: int) -> bool {
    forall|j: int, k: int|
        #![trigger log[j], log[k]]
        from < k < log.len() && j + 1 == k ==> may_follow(task, log[j], log[k])
}

/// The set of blocks marked bad never shrinks in the course of a wipe: of two
/// reports, the later one shows every block marked that the earlier one shows.
pub proof fn lemma_bad_blocks_never_shrink(
    task: &WipeTask,
    log: Seq<Notice>,
    from: int,
    i: int,
    j: int,
)
    requires
        in_order(task, log, from),
        0 <= from <= i <= j < log.len(),
    ensures
        log[i].state.bad_blocks.subset_of(log[j].state.bad_blocks),
    decreases j - i,
{
    if i < j {
        lemma_bad_blocks_never_shrink(task, log, from, i, j - 1);
        assert(may_follow(task, log[j - 1], log[j]));
    }
}

/// Whether a report tells that the block `block` was marked bad.
pub open spec fn tells_marking(task: &WipeTask, notice: Notice, block: u32) -> bool {
    notice.event matches WipeEvent::MarkBlockAsBad(offset) && block_index(
        offset as int,
        task.block_size as int,
    ) == block
}

/// Every block that is newly marked bad in the course of a wipe is reported:
/// between a report that shows a block unmarked and a later one that shows
/// it marked, a report tells that the block was marked.
pub proof fn lemma_marking_is_reported(
    task: &WipeTask,
    log: Seq<Notice>,
    from: int,
    i: int,
    j: int,
    block: u32,
)
    requires
        in_order(task, log, from),
        0 <= from <= i <= j < log.len(),
        !log[i].state.bad_blocks.contains(block),
        log[j].state.bad_blocks.contains(block),
    ensures
        exists|k: int| i < k <= j && tells_marking(task, #[trigger] log[k], block),
    decreases j - i,
{
    if i < j {
        assert(may_follow(task, log[j - 1], log[j]));
        if log[j - 1].state.bad_blocks.contains(block) {
            lemma_marking_is_reported(task, log, from, i, j - 1, block);
            let k = choose|k: int| i < k <= j - 1 && tells_marking(task, #[trigger] log[k], block);
            assert(i < k <= j && tells_marking(task, log[k], block));
        } else {
            assert(tells_marking(task, log[j], block));
        }
    }
}

/// Where two reports show the same blocks marked, no report between them
/// tells of a marking: a block is reported as marked only when it is newly
/// marked.
pub proof fn lemma_no_new_mark_no_marking(
    task: &WipeTask,
    log: Seq<Notice>,
    from: int,
    i: int,
    j: int,
    k: int,
)
    requires
        in_order(task, log, from),
        0 <= from <= i < k <= j < log.len(),
        log[i].state.bad_blocks == log[j].state.bad_blocks,
    ensures
        !(log[k].event is MarkBlockAsBad),
{
    lemma_bad_blocks_never_shrink(task, log, from, i, k - 1);
    lemma_bad_blocks_never_shrink(task, log, from, k, j);
    assert(may_follow(task, log[k - 1], log[k]));
}

/// A part of a wipe that leaves the marks as they were reports no marking.
/// So a phase on a device all of whose blocks are marked already reports
/// progress and nothing else.
pub proof fn lemma_same_marks_no_marking(task: &WipeTask, before: Seq<Notice>, after: Seq<Notice>)
    requires
        grows(task, before, after),
        before.len() > 0,
        before.last().state.bad_blocks == after.last().state.bad_blocks,
    ensures
        forall|k: int| before.len() <= k < after.len() ==> !((#[trigger] after[k]).event
            is MarkBlockAsBad),
{
    let first = before.len() - 1;
    assert(after[first] == before[first]);
    assert(in_order(task, after, first));
    assert forall|k: int| before.len() <= k < after.len() implies !((#[trigger] after[k]).event
        is MarkBlockAsBad) by {
        lemma_no_new_mark_no_marking(task, after, first, first, after.len() - 1, k);
    }
}

/// Retries are only ever used up in the course of a wipe.
pub proof fn lemma_retries_never_grow(
    task: &WipeTask,
    log: Seq<Notice>,
    from: int,
    i: int,
    j: int,
)
    requires
        in_order(task, log, from),
        0 <= from <= i <= j < log.len(),
    ensures
        log[j].state.retries_left <= log[i].state.retries_left,
    decreases j - i,
{
    if i < j {
        lemma_retries_never_grow(task, log, from, i, j - 1);
        assert(may_follow(task, log[j - 1], log[j]));
    }
}

/// A progress report carries the position of the wipe at that moment, which
/// lies within the device, on the boundary of a block or at the end.
pub proof fn lemma_progress_is_within_device(task: &WipeTask, log: Seq<Notice>, from: int, k: int)
    requires
        in_order(task, log, from),
        0 <= from < k < log.len(),
        log[k].event is Progress,
    ensures
        log[k].event->Progress_0 == log[k].state.position,
        log[k].state.position <= task.total_size,
        at_block_start(task, log[k].state.position as int),
{
    assert(may_follow(task, log[k - 1], log[k]));
}

/// Between one start of a phase and the next the position never moves
/// backwards: of two reports with no `StageStarted` after the first and up to
/// the second, the later one shows a position at least as large.
pub proof fn lemma_position_never_decreases_within_phase(
    task: &WipeTask,
    log: Seq<Notice>,
    from: int,
    i: int,
    j: int,
)
    requires
        in_order(task, log, from),
        0 <= from <= i <= j < log.len(),
        forall|k: int| i < k <= j ==> !(#[trigger] log[k].event is StageStarted),
    ensures
        log[i].state.position <= log[j].state.position,
    decreases j - i,
{
    if i < j {
        lemma_position_never_decreases_within_phase(task, log, from, i, j - 1);
        assert(may_follow(task, log[j - 1], log[j]));
        assert(!(log[j].event is StageStarted));
    }
}

/// Within a phase every progress report but the first shows a larger position
/// than the reports before it. So no position is reported twice in a phase,
/// and the end of the device in particular is reported at most once.
pub proof fn lemma_progress_is_reported_once(
    task: &WipeTask,
    log: Seq<Notice>,
    from: int,
    i: int,
    j: int,
)
    requires
        task.block_size > 0,
        in_order(task, log, from),
        0 <= from <= i < j < log.len(),
        log[i].event is Progress,
        log[j].event is Progress,
        forall|k: int| i < k <= j ==> !(#[trigger] log[k].event is StageStarted),
    ensures
        log[i].state.position < log[j].state.position,
{
    lemma_position_never_decreases_within_phase(task, log, from, i, j - 1);
    assert(may_follow(task, log[j - 1], log[j]));
    if i < j - 1 {
        assert(!(log[j - 1].event is StageStarted));
    }
}

/// A phase that completes without failure has reached the end of the device.
/// Unless the device has no bytes, the phase has reported progress up to the
/// end: the report of its completion comes after a progress report that shows
/// the end, or after the marking of a block that itself comes after such a
/// progress report.
pub proof fn lemma_success_is_reported_at_the_end(
    task: &WipeTask,
    log: Seq<Notice>,
    from: int,
    k: int,
)
    requires
        in_order(task, log, from),
        0 <= from,
        from + 2 < k < log.len(),
        log[k].event == WipeEvent::StageCompleted(None),
        task.total_size > 0,
    ensures
        log[k].state.position == task.total_size,
        (log[k - 1].event == WipeEvent::Progress(task.total_size)) || (log[k - 1].event
            is MarkBlockAsBad && log[k - 2].event == WipeEvent::Progress(task.total_size)),
{
    assert(may_follow(task, log[k - 1], log[k]));
    assert(may_follow(task, log[k - 2], log[k - 1]));
    assert(may_follow(task, log[k - 3], log[k - 2]));
}

/// A wipe that ends in failure has reported that failure twice: the stage
/// that failed completed with it, and so did the wipe.
pub proof fn lemma_failure_is_shared(task: &WipeTask, log: Seq<Notice>, from: int, k: int)
    requires
        in_order(task, log, from),
        0 <= from < k < log.len(),
        log[k].event matches WipeEvent::Completed(Some(_)),
    ensures
        log[k - 1].event == WipeEvent::StageCompleted(log[k].event->Completed_0),
{
    assert(may_follow(task, log[k - 1], log[k]));
}

/// Whether a report tells of a step of a phase: of progress, or of a block
/// marked bad.
pub open spec fn is_step(notice: Notice) -> bool {
    notice.event is Progress || notice.event is MarkBlockAsBad
}

/// Whether every report from place `from` on tells of a step of a phase.
pub open spec fn only_steps(log: Seq<Notice>, from: int) -> bool {
    forall|i: int| from <= i < log.len() ==> is_step(#[trigger] log[i])
}

/// One more step leaves the reports those of steps.
pub proof fn lemma_step_on(log: Seq<Notice>, from: int, next: Notice)
    requires
        0 <= from,
        only_steps(log, from),
        is_step(next),
    ensures
        only_steps(log.push(next), from),
{
    assert forall|i: int| from <= i < log.push(next).len() implies is_step(
        #[trigger] log.push(next)[i],
    ) by {
        if i < log.len() {
            assert(log.push(next)[i] == log[i]);
        }
    }
}

/// Steps after steps are steps.
pub proof fn lemma_steps_join(task: &WipeTask, before: Seq<Notice>, after: Seq<Notice>, from: int)
    requires
        0 <= from,
        only_steps(before, from),
        grows(task, before, after),
        only_steps(after, before.len() as int),
    ensures
        only_steps(after, from),
{
    assert forall|i: int| from <= i < after.len() implies is_step(#[trigger] after[i]) by {
        if i < before.len() {
            assert(after[i] == before[i]);
        }
    }
}

/// Whether a report tells of a stage that failed because what was read back
/// is not what was written.
pub open spec fn tells_mismatch(notice: Notice) -> bool {
    notice.event matches WipeEvent::StageCompleted(Some(error)) && *error is VerificationMismatch
}

/// The number of reports from place `from` on that tell of a mismatch.
pub open spec fn count_mismatches(log: Seq<Notice>, from: int) -> nat
    decreases log.len(),
{
    if log.len() == 0 || log.len() <= from {
        0
    } else {
        count_mismatches(log.drop_last(), from) + if tells_mismatch(log.last()) {
            1nat
        } else {
            0nat
        }
    }
}

/// Steps tell of no mismatch.
pub proof fn lemma_steps_tell_no_mismatch(log: Seq<Notice>, from: int)
    requires
        0 <= from,
        only_steps(log, from),
    ensures
        count_mismatches(log, from) == 0,
    decreases log.len(),
{
    if log.len() > from {
        let rest = log.drop_last();
        assert forall|i: int| from <= i < rest.len() implies is_step(#[trigger] rest[i]) by {
            assert(rest[i] == log[i]);
        }
        lemma_steps_tell_no_mismatch(rest, from);
        assert(log.last() == log[log.len() - 1]);
    }
}

/// The reports of a mismatch are those among the earlier reports and those
/// among the later ones.
pub proof fn lemma_mismatches_add_up(
    task: &WipeTask,
    before: Seq<Notice>,
    after: Seq<Notice>,
    from: int,
)
    requires
        grows(task, before, after),
        0 <= from <= before.len(),
    ensures
        count_mismatches(after, from) == count_mismatches(before, from) + count_mismatches(
            after,
            before.len() as int,
        ),
    decreases after.len(),
{
    if after.len() == before.len() {
        assert(after =~= before);
    } else {
        let rest = after.drop_last();
        assert(grows(task, before, rest)) by {
            assert forall|i: int| 0 <= i < before.len() implies rest[i] == before[i] by {
                assert(rest[i] == after[i]);
            }
            assert forall|j: int, i: int|
                #![trigger rest[j], rest[i]]
                before.len() <= i < rest.len() && 0 <= j && j + 1 == i implies may_follow(
                task,
                rest[j],
                rest[i],
            ) by {
                assert(rest[i] == after[i]);
                assert(rest[j] == after[j]);
                assert(may_follow(task, after[j], after[i]));
            }
        }
        lemma_mismatches_add_up(task, before, rest, from);
    }
}

/// One more report tells of one more mismatch, or of none.
pub proof fn lemma_one_more_report(log: Seq<Notice>, from: int, next: Notice)
    requires
        0 <= from <= log.len(),
    ensures
        count_mismatches(log.push(next), from) == count_mismatches(log, from) + if tells_mismatch(
            next,
        ) {
            1nat
        } else {
            0nat
        },
{
    assert(log.push(next).drop_last() =~= log);
}

/// Whether `after` is `before` and the report of a stage that failed with
/// `error`, followed, where the stage is `retried`, by the report of the
/// retry.
pub open spec fn tells_failure(
    before: Seq<Notice>,
    after: Seq<Notice>,
    error: WipeError,
    retried: bool,
) -> bool {
    let n = before.len() as int;
    &&& after.len() == n + if retried {
        2int
    } else {
        1int
    }
    &&& after.take(n) == before
    &&& after[n].event matches WipeEvent::StageCompleted(Some(shared)) && *shared == error
    &&& retried ==> after[n + 1].event is Retrying
}

/// The report of a failed stage tells of one mismatch if the stage failed by
/// one, and of none otherwise.
pub proof fn lemma_failure_told(
    before: Seq<Notice>,
    after: Seq<Notice>,
    error: WipeError,
    retried: bool,
)
    requires
        tells_failure(before, after, error, retried),
    ensures
        count_mismatches(after, before.len() as int) == if error is VerificationMismatch {
            1nat
        } else {
            0nat
        },
{
    let n = before.len() as int;
    if retried {
        let rest = after.drop_last();
        assert(rest.last() == after[n]);
        assert(rest.drop_last().len() == n);
        assert(count_mismatches(rest.drop_last(), n) == 0);
        assert(count_mismatches(rest, n) == count_mismatches(rest.drop_last(), n)
            + if tells_mismatch(rest.last()) {
            1nat
        } else {
            0nat
        });
        assert(after.last() == after[n + 1]);
    } else {
        assert(after.last() == after[n]);
        assert(after.drop_last().len() == n);
        assert(count_mismatches(after.drop_last(), n) == 0);
    }
}

/// The report of progress to `position`, made in the state `at` but for the
/// position.
pub open spec fn progress_notice(at: WipeStateView, position: int) -> Notice {
    Notice {
        state: WipeStateView { position: position as u64, ..at },
        event: WipeEvent::Progress(position as u64),
    }
}

/// The reports of progress of a phase that goes through the device from its
/// first byte, block after block, up to and with the report after `k`
/// blocks: one at the start, and one after each block.
pub open spec fn strides(task: &WipeTask, at: WipeStateView, k: int) -> Seq<Notice>
    decreases k + 1,
{
    if k < 0 {
        Seq::empty()
    } else {
        strides(task, at, k - 1).push(
            progress_notice(
                at,
                chunk_offset(task.total_size as int, task.block_size as int, 0, k),
            ),
        )
    }
}

/// All reports of progress of a phase that goes through the whole device
/// from its first byte without meeting a bad block; none on a device of no
/// bytes.
pub open spec fn phase_strides(task: &WipeTask, at: WipeStateView) -> Seq<Notice> {
    if task.total_size > 0 {
        strides(
            task,
            at,
            chunk_count(task.total_size as int, task.block_size as int, 0),
        )
    } else {
        Seq::empty()
    }
}

/// Whether no block is marked bad.
pub open spec fn unmarked(bad: Set<u32>) -> bool {
    bad == Set::<u32>::empty()
}

/// The report of progress after one more block.
pub proof fn lemma_stride_on(
    task: &WipeTask,
    before: Seq<Notice>,
    log: Seq<Notice>,
    at: WipeStateView,
    k: int,
)
    requires
        -1 <= k,
        log == before + strides(task, at, k),
    ensures
        log.push(
            progress_notice(
                at,
                chunk_offset(task.total_size as int, task.block_size as int, 0, k + 1),
            ),
        ) == before + strides(task, at, k + 1),
{
    let next = progress_notice(
        at,
        chunk_offset(task.total_size as int, task.block_size as int, 0, k + 1),
    );
    assert(strides(task, at, k + 1) == strides(task, at, k).push(next));
    assert(log.push(next) =~= before + strides(task, at, k).push(next));
}

} // verus!
