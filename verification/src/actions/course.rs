//! The course of a wipe as a chain of phases: each phase with the exchanges
//! and the reports that are its own, so that what the device answered in a
//! phase and what was reported in it can be held against each other.

use crate::actions::exchange::filled;
use crate::actions::exchange::kept_within;
use crate::actions::exchange::reads_fit;
use crate::actions::exchange::verified;
use crate::actions::report::grows;
use crate::actions::report::is_step;
use crate::actions::report::lemma_grows_on;
use crate::actions::report::lemma_grows_reflexive;
use crate::actions::report::lemma_grows_transitive;
use crate::actions::report::may_follow;
use crate::actions::report::only_steps;
use crate::actions::report::Notice;
use crate::actions::wipe::WipeError;
use crate::actions::wipe::WipeEvent;
use crate::actions::wipe::WipeTask;
use crate::sanitization::stage::Stage;
use crate::storage::Exchange;
use vstd::prelude::*;

verus! {

/// One phase of a wipe, as a proof sees it: the stage that it belongs to, the
/// exchanges and the reports before it and after it, what it came to, and
/// the reports up to and with those of its completion. The exchanges and
/// reports of the phase itself are those that `after` has and `before` has
/// not. The state of the wipe before and after the phase is that of the last
/// report before and after it.
pub struct Phase {
    pub stage: Stage,
    pub asked_before: Seq<Exchange>,
    pub asked_after: Seq<Exchange>,
    pub told_before: Seq<Notice>,
    pub told_after: Seq<Notice>,
    pub told_closed: Seq<Notice>,
    pub done: Result<(), WipeError>,
}

/// Whether the completion of a phase is reported as the phase came out:
/// right after its last step the stage completes, without a failure where
/// the phase succeeded and with the failure of the phase where it failed.
/// Nothing that follows up to the next phase tells of a step.
pub open spec fn closes(task: &WipeTask, phase: Phase) -> bool {
    let n = phase.told_after.len() as int;
    &&& grows(task, phase.told_after, phase.told_closed)
    &&& phase.told_closed.len() > n
    &&& idle(phase.told_closed, n)
    &&& match phase.done {
        Ok(_) => phase.told_closed[n].event == WipeEvent::StageCompleted(None),
        Err(error) => phase.told_closed[n].event matches WipeEvent::StageCompleted(Some(shared))
            && *shared == error,
    }
}

/// Whether a phase is what the engine makes of a phase: it was started by the
/// report before it, in the stage that this report shows; it reported
/// progress and markings and nothing else;
/// its completion was reported as it came out; it ended at the end of the
/// device unless it failed; and it was, to the
/// device, what `filled` lays down for a write phase and `verified` for a
/// read phase, over its own exchanges and over the marks as the reports
/// before and after it show them.
pub open spec fn phase_ok(task: &WipeTask, phase: Phase) -> bool {
    let before = phase.told_before.last().state;
    let after = phase.told_after.last().state;
    &&& phase.told_before.len() > 0
    &&& phase.told_before.last().event is StageStarted
    &&& before.stage < task.scheme.stages@.len()
    &&& phase.stage == task.scheme.stages@[before.stage as int]
    &&& grows(task, phase.told_before, phase.told_after)
    &&& only_steps(phase.told_after, phase.told_before.len() as int)
    &&& closes(task, phase)
    &&& phase.done is Ok ==> after.position == task.total_size
    &&& if before.at_verification {
        &&& verified(
            phase.asked_before,
            phase.asked_after,
            before.bad_blocks,
            after.bad_blocks,
            phase.stage,
            task.total_size as int,
            task.block_size as int,
            before.position as int,
            after.position as int,
            phase.done,
        )
        &&& kept_within(
            phase.asked_after,
            phase.asked_before.len() as int,
            task.total_size as int,
            false,
            true,
        )
        &&& reads_fit(
            phase.asked_after,
            phase.asked_before.len() as int,
            task.total_size as int,
            task.block_size as int,
        )
    } else {
        &&& filled(
            phase.asked_before,
            phase.asked_after,
            before.bad_blocks,
            after.bad_blocks,
            phase.stage,
            task.total_size as int,
            task.block_size as int,
            before.position as int,
            after.position as int,
            phase.done,
        )
        &&& kept_within(
            phase.asked_after,
            phase.asked_before.len() as int,
            task.total_size as int,
            true,
            false,
        )
    }
}

/// Whether none of the reports from place `from` on tells of a step of a
/// phase.
pub open spec fn idle(log: Seq<Notice>, from: int) -> bool {
    forall|i: int| from <= i < log.len() ==> !is_step(#[trigger] log[i])
}

/// Whether the phase `next` reads back what the phase `phase` wrote: it is a
/// read phase after a write phase, and so begins where that write phase
/// began.
pub open spec fn reads_back(phase: Phase, next: Phase) -> bool {
    !phase.told_before.last().state.at_verification
        && next.told_before.last().state.at_verification
}

/// Whether the phase `next` begins where it should after the phase `phase`:
/// a phase that reads back begins where the writing began. Where any other
/// phase begins, the reports between the two tell.
pub open spec fn begins_after(phase: Phase, next: Phase) -> bool {
    reads_back(phase, next) ==> next.told_before.last().state.position
        == phase.told_before.last().state.position
}

/// Whether the phase `next` comes right after the phase `phase`: no exchange
/// lies between them, the reports between them tell of no step, and the
/// later phase begins where it should.
pub open spec fn linked(task: &WipeTask, phase: Phase, next: Phase) -> bool {
    &&& next.asked_before == phase.asked_after
    &&& grows(task, phase.told_closed, next.told_before)
    &&& idle(next.told_before, phase.told_closed.len() as int)
    &&& begins_after(phase, next)
}

/// Whether `phases` are the phases of a part of a wipe, in order: the part
/// that led from the exchanges `asked_start` to `asked_end` and from the
/// reports `told_start` to `told_end`. Every exchange of the part belongs to
/// one of the phases, and so does every report of progress or of a marking.
/// The first phase is a write phase.
#[verifier::opaque]
pub open spec fn course(
    task: &WipeTask,
    phases: Seq<Phase>,
    asked_start: Seq<Exchange>,
    asked_end: Seq<Exchange>,
    told_start: Seq<Notice>,
    told_end: Seq<Notice>,
) -> bool {
    &&& grows(task, told_start, told_end)
    &&& forall|k: int| 0 <= k < phases.len() ==> phase_ok(task, #[trigger] phases[k])
    &&& forall|k: int, j: int|
        #![trigger phases[k], phases[j]]
        0 <= k && j == k + 1 && j < phases.len() ==> linked(task, phases[k], phases[j])
    &&& if phases.len() == 0 {
        &&& asked_end == asked_start
        &&& idle(told_end, told_start.len() as int)
    } else {
        &&& !phases[0].told_before.last().state.at_verification
        &&& phases[0].asked_before == asked_start
        &&& grows(task, told_start, phases[0].told_before)
        &&& idle(phases[0].told_before, told_start.len() as int)
        &&& phases.last().asked_after == asked_end
        &&& grows(task, phases.last().told_closed, told_end)
        &&& idle(told_end, phases.last().told_closed.len() as int)
    }
}

/// Whether a part of a wipe ran its course in phases.
pub open spec fn ran_in_phases(
    task: &WipeTask,
    asked_start: Seq<Exchange>,
    asked_end: Seq<Exchange>,
    told_start: Seq<Notice>,
    told_end: Seq<Notice>,
) -> bool {
    exists|phases: Seq<Phase>|
        course(task, phases, asked_start, asked_end, told_start, told_end)
}

/// Reports that tell of no step, after reports that tell of none, tell of
/// none.
proof fn lemma_idle_on(task: &WipeTask, first: Seq<Notice>, log: Seq<Notice>, later: Seq<Notice>)
    requires
        grows(task, first, log),
        grows(task, log, later),
        idle(later, log.len() as int),
    ensures
        grows(task, first, later),
        forall|from: int| 0 <= from <= log.len() && idle(log, from) ==> idle(later, from),
{
    lemma_grows_transitive(task, first, log, later);
    assert forall|from: int| 0 <= from <= log.len() && idle(log, from) implies idle(
        later,
        from,
    ) by {
        assert forall|i: int| from <= i < later.len() implies !is_step(#[trigger] later[i]) by {
            if i < log.len() {
                assert(later[i] == log[i]);
            }
        }
    }
}

/// Before anything is done, nothing has run its course.
pub proof fn lemma_course_begins(task: &WipeTask, asked: Seq<Exchange>, told: Seq<Notice>)
    ensures
        course(task, Seq::<Phase>::empty(), asked, asked, told, told),
{
    reveal(course);
    lemma_grows_reflexive(task, told);
}

/// Reports that tell of no step leave the course what it was.
pub proof fn lemma_course_grows(
    task: &WipeTask,
    phases: Seq<Phase>,
    asked_start: Seq<Exchange>,
    asked_end: Seq<Exchange>,
    told_start: Seq<Notice>,
    told_end: Seq<Notice>,
    told_later: Seq<Notice>,
)
    requires
        course(task, phases, asked_start, asked_end, told_start, told_end),
        grows(task, told_end, told_later),
        idle(told_later, told_end.len() as int),
    ensures
        course(task, phases, asked_start, asked_end, told_start, told_later),
{
    reveal(course);
    lemma_idle_on(task, told_start, told_end, told_later);
    if phases.len() > 0 {
        lemma_idle_on(task, phases.last().told_closed, told_end, told_later);
    }
}

/// One report that tells of no step leaves the course what it was.
pub proof fn lemma_course_told(
    task: &WipeTask,
    phases: Seq<Phase>,
    asked_start: Seq<Exchange>,
    asked_end: Seq<Exchange>,
    told_start: Seq<Notice>,
    told_end: Seq<Notice>,
    next: Notice,
)
    requires
        course(task, phases, asked_start, asked_end, told_start, told_end),
        told_end.len() > 0,
        may_follow(task, told_end.last(), next),
        !is_step(next),
    ensures
        course(task, phases, asked_start, asked_end, told_start, told_end.push(next)),
{
    lemma_grows_reflexive(task, told_end);
    lemma_grows_on(task, told_end, told_end, next);
    lemma_course_grows(
        task,
        phases,
        asked_start,
        asked_end,
        told_start,
        told_end,
        told_end.push(next),
    );
}

/// One more phase, begun where the course stands, carries the course on to
/// where the phase ends.
pub proof fn lemma_course_phase(
    task: &WipeTask,
    phases: Seq<Phase>,
    asked_start: Seq<Exchange>,
    told_start: Seq<Notice>,
    phase: Phase,
)
    requires
        course(task, phases, asked_start, phase.asked_before, told_start, phase.told_before),
        phase_ok(task, phase),
        if phases.len() == 0 {
            !phase.told_before.last().state.at_verification
        } else {
            begins_after(phases.last(), phase)
        },
    ensures
        course(
            task,
            phases.push(phase),
            asked_start,
            phase.asked_after,
            told_start,
            phase.told_closed,
        ),
{
    reveal(course);
    let more = phases.push(phase);
    lemma_grows_transitive(task, told_start, phase.told_before, phase.told_after);
    lemma_grows_transitive(task, told_start, phase.told_after, phase.told_closed);
    lemma_grows_reflexive(task, phase.told_closed);
    assert forall|k: int| 0 <= k < more.len() implies phase_ok(task, #[trigger] more[k]) by {
        if k < phases.len() {
            assert(more[k] == phases[k]);
        }
    }
    assert forall|k: int, j: int|
        #![trigger more[k], more[j]]
        0 <= k && j == k + 1 && j < more.len() implies linked(task, more[k], more[j]) by {
        assert(more[k] == phases[k]);
        if j < phases.len() {
            assert(more[j] == phases[j]);
        } else {
            assert(phases[k] == phases.last());
        }
    }
    if phases.len() > 0 {
        assert(more[0] == phases[0]);
    }
}

/// The course of two parts of a wipe, one after the other, is the course of
/// the whole.
pub proof fn lemma_course_joins(
    task: &WipeTask,
    first: Seq<Phase>,
    second: Seq<Phase>,
    asked_start: Seq<Exchange>,
    asked_between: Seq<Exchange>,
    asked_end: Seq<Exchange>,
    told_start: Seq<Notice>,
    told_between: Seq<Notice>,
    told_end: Seq<Notice>,
)
    requires
        course(task, first, asked_start, asked_between, told_start, told_between),
        course(task, second, asked_between, asked_end, told_between, told_end),
    ensures
        course(task, first + second, asked_start, asked_end, told_start, told_end),
{
    reveal(course);
    let all = first + second;
    lemma_grows_transitive(task, told_start, told_between, told_end);
    assert forall|k: int| 0 <= k < all.len() implies phase_ok(task, #[trigger] all[k]) by {
        if k < first.len() {
            assert(all[k] == first[k]);
        } else {
            assert(all[k] == second[k - first.len()]);
        }
    }
    if second.len() == 0 {
        assert(all =~= first);
        lemma_idle_on(task, told_start, told_between, told_end);
        if first.len() > 0 {
            lemma_idle_on(task, first.last().told_closed, told_between, told_end);
        }
    } else if first.len() == 0 {
        assert(all =~= second);
        lemma_idle_on(task, told_start, told_between, second[0].told_before);
    } else {
        lemma_idle_on(task, first.last().told_closed, told_between, second[0].told_before);
        assert(all[0] == first[0]);
        assert(all.last() == second.last());
        assert forall|k: int, j: int|
            #![trigger all[k], all[j]]
            0 <= k && j == k + 1 && j < all.len() implies linked(task, all[k], all[j]) by {
            if j < first.len() {
                assert(all[k] == first[k]);
                assert(all[j] == first[j]);
            } else if k >= first.len() {
                assert(all[k] == second[k - first.len()]);
                assert(all[j] == second[j - first.len()]);
            } else {
                assert(all[k] == first.last());
                assert(all[j] == second[0]);
            }
        }
    }
}

} // verus!
