//! What a stage and a whole wipe make of the answers of a device: which
//! exchange a failure goes back to (`staged`, `wiped`), and how the retries
//! used add up with the exchanges that ended an attempt and the mismatches
//! that were reported (`balanced`).

use crate::actions::exchange::all_served;
use crate::actions::exchange::calm;
use crate::actions::exchange::carried;
use crate::actions::exchange::differs;
use crate::actions::exchange::ends_attempt;
use crate::actions::exchange::filled;
use crate::actions::exchange::full_reads;
use crate::actions::exchange::is_full;
use crate::actions::exchange::is_mismatch;
use crate::actions::exchange::lemma_engaged_begins;
use crate::actions::exchange::lemma_full_reads_within;
use crate::actions::exchange::lemma_no_answer_is_a_mismatch;
use crate::actions::exchange::lemma_no_refusals;
use crate::actions::exchange::lemma_refusals_carry_on;
use crate::actions::exchange::lemma_served_from_earlier;
use crate::actions::exchange::lemma_served_joins;
use crate::actions::exchange::lemma_served_stays;
use crate::actions::exchange::outcome_of;
use crate::actions::exchange::refusals;
use crate::actions::exchange::step_answer;
use crate::actions::exchange::verified;
use crate::actions::phase::all_bad;
use crate::actions::phase::patterned;
use crate::actions::report::Notice;
use crate::actions::report::count_mismatches;
use crate::actions::report::grows;
use crate::actions::report::lemma_failure_told;
use crate::actions::report::lemma_mismatches_add_up;
use crate::actions::report::lemma_one_more_report;
use crate::actions::report::lemma_steps_tell_no_mismatch;
use crate::actions::report::only_steps;
use crate::actions::report::tells_failure;
use crate::actions::report::tells_mismatch;
use crate::actions::wipe::WipeError;
use crate::actions::wipe::WipeTask;
use crate::sanitization::stage::Stage;
use crate::storage::Answer;
use crate::storage::Exchange;
use vstd::prelude::*;

verus! {

/// Whether an exchange is a read that the device answered with success and
/// that left in the buffer what differs from what the stage yields there.
pub open spec fn mismatches(
    exchange: Exchange,
    stage: Stage,
    total_size: int,
    block_size: int,
) -> bool {
    exchange matches Exchange::Read { at, got, answer: Answer::Done, .. } && differs(
        stage,
        total_size,
        block_size,
        at,
        got,
    )
}

/// Whether an exchange upsets a stage: it ends an attempt, or it is a read
/// that did not fill the buffer, or one that found what the stage did not
/// write.
pub open spec fn upsets(exchange: Exchange, stage: Stage, total_size: int, block_size: int) -> bool {
    ||| ends_attempt(exchange) is Some
    ||| !is_full(exchange)
    ||| mismatches(exchange, stage, total_size, block_size)
}

/// Whether one of the exchanges from place `from` on upsets the stage.
pub open spec fn troubled(
    exchanges: Seq<Exchange>,
    from: int,
    stage: Stage,
    total_size: int,
    block_size: int,
) -> bool {
    exists|i: int|
        from <= i < exchanges.len() && upsets(#[trigger] exchanges[i], stage, total_size, block_size)
}

/// Whether the last exchange is what made the engine give a stage up with
/// the failure `error`. A mismatch is found at a read that the device
/// answered with success, and, as long as every read was full, that read
/// left in the buffer what differs from what the stage yields there. Any
/// other failure is what the last exchange stands for.
pub open spec fn gave_up(
    exchanges: Seq<Exchange>,
    from: int,
    error: WipeError,
    stage: Stage,
    total_size: int,
    block_size: int,
) -> bool {
    &&& exchanges.len() > from
    &&& if error is VerificationMismatch {
        &&& exchanges.last() is Read
        &&& step_answer(exchanges.last()) is Done
        &&& full_reads(exchanges, from) ==> mismatches(
            exchanges.last(),
            stage,
            total_size,
            block_size,
        )
    } else {
        ends_attempt(exchanges.last()) == Some(error)
    }
}

/// A stage is given up only over an exchange that upsets it.
pub proof fn lemma_gave_up_in_trouble(
    exchanges: Seq<Exchange>,
    from: int,
    error: WipeError,
    stage: Stage,
    total_size: int,
    block_size: int,
)
    requires
        0 <= from,
        gave_up(exchanges, from, error, stage, total_size, block_size),
    ensures
        troubled(exchanges, from, stage, total_size, block_size),
{
    let last = exchanges.len() - 1;
    assert(exchanges[last] == exchanges.last());
    if error is VerificationMismatch && !full_reads(exchanges, from) {
        let i = choose|i: int| from <= i < exchanges.len() && !is_full(#[trigger] exchanges[i]);
        assert(upsets(exchanges[i], stage, total_size, block_size));
    } else {
        assert(upsets(exchanges[last], stage, total_size, block_size));
    }
}

/// Trouble stays: more exchanges, or counting from an earlier one, leave a
/// stage troubled that was.
pub proof fn lemma_trouble_stays(
    before: Seq<Exchange>,
    after: Seq<Exchange>,
    earlier: int,
    from: int,
    stage: Stage,
    total_size: int,
    block_size: int,
)
    requires
        carried(before, after),
        0 <= earlier <= from,
        troubled(before, from, stage, total_size, block_size),
    ensures
        troubled(after, earlier, stage, total_size, block_size),
{
    let i = choose|i: int|
        from <= i < before.len() && upsets(#[trigger] before[i], stage, total_size, block_size);
    assert(after[i] == before[i]);
}

/// A failure of a phase, seen from an earlier exchange, is a stage given up.
pub proof fn lemma_gave_up_from_earlier(
    exchanges: Seq<Exchange>,
    earlier: int,
    from: int,
    error: WipeError,
    stage: Stage,
    total_size: int,
    block_size: int,
)
    requires
        0 <= earlier <= from,
        gave_up(exchanges, from, error, stage, total_size, block_size),
    ensures
        gave_up(exchanges, earlier, error, stage, total_size, block_size),
{
    if full_reads(exchanges, earlier) {
        assert forall|i: int| from <= i < exchanges.len() implies is_full(
            #[trigger] exchanges[i],
        ) by {}
    }
}

/// Whether the attempts at a stage so far have been carried on from the
/// exchanges `start`, have marked the blocks that the device refused, have
/// served every unmarked block up to `upto` by a write, and, where a retry
/// has been `spent`, have been upset by an exchange.
pub open spec fn resumed(
    start: Seq<Exchange>,
    now: Seq<Exchange>,
    bad_start: Set<u32>,
    bad_now: Set<u32>,
    stage: Stage,
    total_size: int,
    block_size: int,
    upto: int,
    spent: bool,
) -> bool {
    &&& carried(start, now)
    &&& bad_now == bad_start.union(refusals(now, start.len() as int, block_size))
    &&& all_served(
        now,
        start.len() as int,
        false,
        stage,
        total_size,
        block_size,
        bad_now,
        0,
        upto,
    )
    &&& spent ==> troubled(now, start.len() as int, stage, total_size, block_size)
}

/// What a stage that ended with `failure`, or with success where there is
/// none, has been to the device since the exchanges `start`. The exchanges
/// have been carried on. The blocks marked since are those that the device
/// refused at a seek or a write. Every block before `upto` that is not marked
/// at the end has had a write of what the stage yields there, answered with
/// success. A retry was `spent`, or the stage failed, only over an exchange
/// that upsets the stage; and the failure is what the last exchange made of
/// the last attempt.
pub open spec fn staged(
    start: Seq<Exchange>,
    end: Seq<Exchange>,
    bad_start: Set<u32>,
    bad_end: Set<u32>,
    stage: Stage,
    total_size: int,
    block_size: int,
    upto: int,
    spent: bool,
    failure: Option<WipeError>,
) -> bool {
    &&& resumed(
        start,
        end,
        bad_start,
        bad_end,
        stage,
        total_size,
        block_size,
        upto,
        spent || failure is Some,
    )
    &&& failure matches Some(error) ==> gave_up(
        end,
        start.len() as int,
        error,
        stage,
        total_size,
        block_size,
    )
}

/// A stage begins with nothing asked and nothing served.
pub proof fn lemma_stage_begins(
    exchanges: Seq<Exchange>,
    bad: Set<u32>,
    stage: Stage,
    total_size: int,
    block_size: int,
)
    ensures
        resumed(exchanges, exchanges, bad, bad, stage, total_size, block_size, 0, false),
{
    lemma_engaged_begins(exchanges, bad, block_size);
}

/// What the writing phase of an attempt adds to a stage.
pub proof fn lemma_attempt_fills(
    start: Seq<Exchange>,
    before: Seq<Exchange>,
    after: Seq<Exchange>,
    bad_start: Set<u32>,
    bad_before: Set<u32>,
    bad_after: Set<u32>,
    stage: Stage,
    total_size: int,
    block_size: int,
    lo: int,
    hi: int,
    spent: bool,
    done: Result<(), WipeError>,
)
    requires
        resumed(start, before, bad_start, bad_before, stage, total_size, block_size, lo, spent),
        filled(before, after, bad_before, bad_after, stage, total_size, block_size, lo, hi, done),
    ensures
        resumed(start, after, bad_start, bad_after, stage, total_size, block_size, hi, spent),
        done matches Err(error) ==> staged(
            start,
            after,
            bad_start,
            bad_after,
            stage,
            total_size,
            block_size,
            hi,
            spent,
            Some(error),
        ),
{
    let from = start.len() as int;
    lemma_refusals_carry_on(start, before, after, bad_start, bad_before, bad_after, block_size);
    assert(bad_before.subset_of(bad_after)) by {
        assert(bad_after == bad_before.union(refusals(after, before.len() as int, block_size)));
    }
    lemma_served_stays(
        before,
        after,
        from,
        false,
        stage,
        total_size,
        block_size,
        bad_before,
        bad_after,
        0,
        lo,
    );
    lemma_served_from_earlier(
        after,
        from,
        before.len() as int,
        false,
        stage,
        total_size,
        block_size,
        bad_after,
        lo,
        hi,
    );
    lemma_served_joins(after, from, false, stage, total_size, block_size, bad_after, 0, lo, hi);
    if spent {
        lemma_trouble_stays(before, after, from, from, stage, total_size, block_size);
    }
    if done is Err {
        let error = done->Err_0;
        lemma_no_answer_is_a_mismatch(after.last());
        assert(gave_up(after, before.len() as int, error, stage, total_size, block_size));
        lemma_gave_up_from_earlier(
            after,
            from,
            before.len() as int,
            error,
            stage,
            total_size,
            block_size,
        );
        lemma_gave_up_in_trouble(after, from, error, stage, total_size, block_size);
    }
}

/// What the read-back phase of an attempt adds to a stage.
pub proof fn lemma_attempt_verifies(
    start: Seq<Exchange>,
    before: Seq<Exchange>,
    after: Seq<Exchange>,
    bad_start: Set<u32>,
    bad_before: Set<u32>,
    bad_after: Set<u32>,
    stage: Stage,
    total_size: int,
    block_size: int,
    lo: int,
    hi: int,
    upto: int,
    spent: bool,
    done: Result<(), WipeError>,
)
    requires
        resumed(start, before, bad_start, bad_before, stage, total_size, block_size, upto, spent),
        verified(
            before,
            after,
            bad_before,
            bad_after,
            stage,
            total_size,
            block_size,
            lo,
            hi,
            done,
        ),
    ensures
        resumed(start, after, bad_start, bad_after, stage, total_size, block_size, upto, spent),
        done matches Err(error) ==> staged(
            start,
            after,
            bad_start,
            bad_after,
            stage,
            total_size,
            block_size,
            upto,
            spent,
            Some(error),
        ),
{
    let from = start.len() as int;
    lemma_refusals_carry_on(start, before, after, bad_start, bad_before, bad_after, block_size);
    assert(bad_before.subset_of(bad_after)) by {
        assert(bad_after == bad_before.union(refusals(after, before.len() as int, block_size)));
    }
    lemma_served_stays(
        before,
        after,
        from,
        false,
        stage,
        total_size,
        block_size,
        bad_before,
        bad_after,
        0,
        upto,
    );
    if spent {
        lemma_trouble_stays(before, after, from, from, stage, total_size, block_size);
    }
    if done is Err {
        let error = done->Err_0;
        if !is_mismatch(done) {
            lemma_no_answer_is_a_mismatch(after.last());
        }
        assert(gave_up(after, before.len() as int, error, stage, total_size, block_size));
        lemma_gave_up_from_earlier(
            after,
            from,
            before.len() as int,
            error,
            stage,
            total_size,
            block_size,
        );
        lemma_gave_up_in_trouble(after, from, error, stage, total_size, block_size);
    }
}

/// Blocks served up to one place are served up to any place before it.
pub proof fn lemma_resumed_before(
    start: Seq<Exchange>,
    now: Seq<Exchange>,
    bad_start: Set<u32>,
    bad_now: Set<u32>,
    stage: Stage,
    total_size: int,
    block_size: int,
    upto: int,
    before: int,
    spent: bool,
)
    requires
        resumed(start, now, bad_start, bad_now, stage, total_size, block_size, upto, spent),
        before <= upto,
    ensures
        resumed(start, now, bad_start, bad_now, stage, total_size, block_size, before, spent),
{
}

/// Whether one of the exchanges from place `from` on upsets one of the
/// stages.
pub open spec fn troubled_wipe(
    exchanges: Seq<Exchange>,
    from: int,
    stages: Seq<Stage>,
    total_size: int,
    block_size: int,
) -> bool {
    exists|s: int|
        0 <= s < stages.len() && troubled(
            exchanges,
            from,
            #[trigger] stages[s],
            total_size,
            block_size,
        )
}

/// What the first `done` stages of a wipe, all of which succeeded, have been
/// to the device since the exchanges `start`.
#[verifier::opaque]
pub open spec fn progressed(
    start: Seq<Exchange>,
    now: Seq<Exchange>,
    bad_start: Set<u32>,
    bad_now: Set<u32>,
    stages: Seq<Stage>,
    total_size: int,
    block_size: int,
    done: int,
    spent: bool,
) -> bool {
    &&& carried(start, now)
    &&& bad_now == bad_start.union(refusals(now, start.len() as int, block_size))
    &&& spent ==> troubled_wipe(now, start.len() as int, stages, total_size, block_size)
    &&& all_bad(bad_start, block_size, 0, total_size) ==> now == start
    &&& 0 < done <= stages.len() ==> all_served(
        now,
        start.len() as int,
        false,
        stages[done - 1],
        total_size,
        block_size,
        bad_now,
        0,
        total_size,
    )
}

/// What a wipe has been to the device since the exchanges `start`, when it
/// ended with `failure`, or with success where there is none.
///
/// The exchanges have been carried on, and the blocks marked since are those
/// that the device refused at a seek or a write. Where every block was
/// marked from the start, nothing was asked of the device. A retry was
/// `spent`, or the wipe failed, only over an exchange that upsets a stage:
/// one that ends an attempt, a read that did not fill the buffer, or a read
/// that found what the stage did not write.
///
/// A wipe that failed was given up in stage `stage_index` over its last
/// exchange, and every block before `upto` that is not marked at the end has
/// had a write of what that stage yields there, answered with success. After
/// a wipe that succeeded the same holds of the last stage and of every block
/// of the device.
pub open spec fn wiped(
    start: Seq<Exchange>,
    end: Seq<Exchange>,
    bad_start: Set<u32>,
    bad_end: Set<u32>,
    stages: Seq<Stage>,
    total_size: int,
    block_size: int,
    stage_index: int,
    upto: int,
    spent: bool,
    failure: Option<WipeError>,
) -> bool {
    &&& carried(start, end)
    &&& bad_end == bad_start.union(refusals(end, start.len() as int, block_size))
    &&& all_bad(bad_start, block_size, 0, total_size) ==> end == start
    &&& spent || failure is Some ==> troubled_wipe(
        end,
        start.len() as int,
        stages,
        total_size,
        block_size,
    )
    &&& match failure {
        Some(error) => {
            &&& 0 <= stage_index < stages.len()
            &&& gave_up(
                end,
                start.len() as int,
                error,
                stages[stage_index],
                total_size,
                block_size,
            )
            &&& all_served(
                end,
                start.len() as int,
                false,
                stages[stage_index],
                total_size,
                block_size,
                bad_end,
                0,
                upto,
            )
        },
        None => stages.len() > 0 ==> all_served(
            end,
            start.len() as int,
            false,
            stages.last(),
            total_size,
            block_size,
            bad_end,
            0,
            total_size,
        ),
    }
}

/// A wipe begins with nothing asked.
pub proof fn lemma_wipe_begins(
    exchanges: Seq<Exchange>,
    bad: Set<u32>,
    stages: Seq<Stage>,
    total_size: int,
    block_size: int,
)
    ensures
        progressed(exchanges, exchanges, bad, bad, stages, total_size, block_size, 0, false),
{
    reveal(progressed);
    lemma_engaged_begins(exchanges, bad, block_size);
}

/// What stage `i` adds to the stages before it.
pub proof fn lemma_stage_joins(
    start: Seq<Exchange>,
    before: Seq<Exchange>,
    after: Seq<Exchange>,
    bad_start: Set<u32>,
    bad_before: Set<u32>,
    bad_after: Set<u32>,
    stages: Seq<Stage>,
    total_size: int,
    block_size: int,
    i: int,
    upto: int,
    spent_before: bool,
    spent_stage: bool,
    spent: bool,
    failure: Option<WipeError>,
)
    requires
        progressed(
            start,
            before,
            bad_start,
            bad_before,
            stages,
            total_size,
            block_size,
            i,
            spent_before,
        ),
        0 <= i < stages.len(),
        staged(
            before,
            after,
            bad_before,
            bad_after,
            stages[i],
            total_size,
            block_size,
            upto,
            spent_stage,
            failure,
        ),
        failure is None ==> upto == total_size,
        spent ==> spent_before || spent_stage,
        all_bad(bad_before, block_size, 0, total_size) ==> after == before,
    ensures
        failure is None ==> progressed(
            start,
            after,
            bad_start,
            bad_after,
            stages,
            total_size,
            block_size,
            i + 1,
            spent,
        ),
        failure is Some ==> wiped(
            start,
            after,
            bad_start,
            bad_after,
            stages,
            total_size,
            block_size,
            i,
            upto,
            spent,
            failure,
        ),
{
    reveal(progressed);
    let from = start.len() as int;
    lemma_refusals_carry_on(start, before, after, bad_start, bad_before, bad_after, block_size);
    if spent_before {
        let s = choose|s: int|
            0 <= s < stages.len() && troubled(
                before,
                from,
                #[trigger] stages[s],
                total_size,
                block_size,
            );
        lemma_trouble_stays(before, after, from, from, stages[s], total_size, block_size);
    }
    if spent_stage || failure is Some {
        assert(carried(after, after));
        lemma_trouble_stays(
            after,
            after,
            from,
            before.len() as int,
            stages[i],
            total_size,
            block_size,
        );
    }
    lemma_served_from_earlier(
        after,
        from,
        before.len() as int,
        false,
        stages[i],
        total_size,
        block_size,
        bad_after,
        0,
        upto,
    );
    if failure is Some {
        lemma_gave_up_from_earlier(
            after,
            from,
            before.len() as int,
            failure->0,
            stages[i],
            total_size,
            block_size,
        );
    }
    if all_bad(bad_start, block_size, 0, total_size) {
        assert(before == start);
        assert(bad_before =~= bad_start) by {
            lemma_no_refusals(start, block_size);
        }
    }
}

/// A wipe all of whose stages succeeded.
pub proof fn lemma_wipe_is_over(
    start: Seq<Exchange>,
    end: Seq<Exchange>,
    bad_start: Set<u32>,
    bad_end: Set<u32>,
    stages: Seq<Stage>,
    total_size: int,
    block_size: int,
    stage_index: int,
    upto: int,
    spent: bool,
)
    requires
        progressed(
            start,
            end,
            bad_start,
            bad_end,
            stages,
            total_size,
            block_size,
            stages.len() as int,
            spent,
        ),
    ensures
        wiped(
            start,
            end,
            bad_start,
            bad_end,
            stages,
            total_size,
            block_size,
            stage_index,
            upto,
            spent,
            None,
        ),
{
    reveal(progressed);
}

/// The number of exchanges from place `from` on that end an attempt.
pub open spec fn count_ends(exchanges: Seq<Exchange>, from: int) -> nat
    decreases exchanges.len(),
{
    if exchanges.len() == 0 || exchanges.len() <= from {
        0
    } else {
        count_ends(exchanges.drop_last(), from) + if ends_attempt(exchanges.last()) is Some {
            1nat
        } else {
            0nat
        }
    }
}

/// Whether every stage has a pattern: each is a constant stage, or blocks
/// are made of whole keystream words.
pub open spec fn all_patterned(stages: Seq<Stage>, block_size: int) -> bool {
    forall|i: int| 0 <= i < stages.len() ==> patterned(#[trigger] stages[i], block_size)
}

/// Whether the retries of a wipe are accounted for: since the exchanges
/// `start` and the reports `told`, as many attempts at a stage have failed
/// as exchanges end an attempt and reports tell of a mismatch, `used` in all.
/// Each of them has cost a retry, or the wipe where no retry was left.
///
/// Where the stages have a pattern, which `patterned` says, and every read
/// was full, no report tells of a mismatch: a device that keeps what it was
/// given hands back what was written.
pub open spec fn balanced(
    start: Seq<Exchange>,
    now: Seq<Exchange>,
    told: Seq<Notice>,
    told_now: Seq<Notice>,
    used: int,
    patterned: bool,
) -> bool {
    &&& count_ends(now, start.len() as int) + count_mismatches(told_now, told.len() as int)
        == used
    &&& patterned && full_reads(now, start.len() as int) ==> count_mismatches(
        told_now,
        told.len() as int,
    ) == 0
}

/// Where no exchange ends an attempt, none is counted.
pub proof fn lemma_calm_counts_nothing(exchanges: Seq<Exchange>, from: int)
    requires
        0 <= from,
        calm(exchanges, from, exchanges.len() as int),
    ensures
        count_ends(exchanges, from) == 0,
    decreases exchanges.len(),
{
    if exchanges.len() > from {
        let rest = exchanges.drop_last();
        assert forall|i: int| from <= i < rest.len() implies ends_attempt(#[trigger] rest[i])
            is None by {
            assert(rest[i] == exchanges[i]);
        }
        lemma_calm_counts_nothing(rest, from);
        assert(exchanges.last() == exchanges[exchanges.len() - 1]);
    }
}

/// The exchanges that end an attempt are those among the earlier exchanges
/// and those among the later ones.
pub proof fn lemma_counts_add_up(before: Seq<Exchange>, after: Seq<Exchange>, from: int)
    requires
        carried(before, after),
        0 <= from <= before.len(),
    ensures
        count_ends(after, from) == count_ends(before, from) + count_ends(
            after,
            before.len() as int,
        ),
    decreases after.len(),
{
    if after.len() == before.len() {
        assert(after =~= before);
    } else {
        let rest = after.drop_last();
        assert(carried(before, rest)) by {
            assert forall|i: int| 0 <= i < before.len() implies #[trigger] rest[i] == before[i] by {
                assert(rest[i] == after[i]);
            }
        }
        lemma_counts_add_up(before, rest, from);
    }
}

/// Before any exchange and any report nothing is to account for.
pub proof fn lemma_balance_begins(exchanges: Seq<Exchange>, told: Seq<Notice>, patterned: bool)
    ensures
        balanced(exchanges, exchanges, told, told, 0, patterned),
{
}

/// What a phase adds to the account: one, if it failed over an exchange.
pub proof fn lemma_phase_balances(
    task: &WipeTask,
    start: Seq<Exchange>,
    before: Seq<Exchange>,
    after: Seq<Exchange>,
    told: Seq<Notice>,
    told_before: Seq<Notice>,
    told_after: Seq<Notice>,
    used: int,
    patterned: bool,
    done: Result<(), WipeError>,
)
    requires
        carried(start, before),
        carried(before, after),
        grows(task, told, told_before),
        grows(task, told_before, told_after),
        only_steps(told_after, told_before.len() as int),
        balanced(start, before, told, told_before, used, patterned),
        calm(after, before.len() as int, after.len() - 1),
        if is_mismatch(done) {
            after.len() > before.len() && ends_attempt(after.last()) is None
        } else {
            done == outcome_of(after, before.len() as int)
        },
    ensures
        balanced(
            start,
            after,
            told,
            told_after,
            used + if done is Err && !is_mismatch(done) {
                1int
            } else {
                0int
            },
            patterned,
        ),
{
    let from = before.len() as int;
    lemma_counts_add_up(before, after, start.len() as int);
    if after.len() > from {
        let rest = after.drop_last();
        assert forall|i: int| from <= i < rest.len() implies ends_attempt(#[trigger] rest[i])
            is None by {
            assert(rest[i] == after[i]);
        }
        lemma_calm_counts_nothing(rest, from);
    }
    lemma_mismatches_add_up(task, told_before, told_after, told.len() as int);
    lemma_steps_tell_no_mismatch(told_after, told_before.len() as int);
    if full_reads(after, start.len() as int) {
        lemma_full_reads_within(before, after, start.len() as int, start.len() as int);
    }
}

/// A report that tells of no mismatch adds nothing to the account.
pub proof fn lemma_report_balances(
    task: &WipeTask,
    start: Seq<Exchange>,
    now: Seq<Exchange>,
    told: Seq<Notice>,
    told_now: Seq<Notice>,
    next: Notice,
    used: int,
    patterned: bool,
)
    requires
        grows(task, told, told_now),
        balanced(start, now, told, told_now, used, patterned),
        !tells_mismatch(next),
    ensures
        balanced(start, now, told, told_now.push(next), used, patterned),
{
    lemma_one_more_report(told_now, told.len() as int, next);
}

/// What the report of a failed stage adds to the account: one, if the stage
/// failed by a mismatch.
pub proof fn lemma_failure_balances(
    task: &WipeTask,
    start: Seq<Exchange>,
    now: Seq<Exchange>,
    told: Seq<Notice>,
    told_before: Seq<Notice>,
    told_after: Seq<Notice>,
    used: int,
    patterned: bool,
    error: WipeError,
    retried: bool,
)
    requires
        grows(task, told, told_before),
        grows(task, told_before, told_after),
        tells_failure(told_before, told_after, error, retried),
        balanced(start, now, told, told_before, used, patterned),
        patterned && full_reads(now, start.len() as int) ==> !(error is VerificationMismatch),
    ensures
        balanced(
            start,
            now,
            told,
            told_after,
            used + if error is VerificationMismatch {
                1int
            } else {
                0int
            },
            patterned,
        ),
{
    lemma_mismatches_add_up(task, told_before, told_after, told.len() as int);
    lemma_failure_told(told_before, told_after, error, retried);
}

/// The accounts of two parts of a wipe, put together.
pub proof fn lemma_balances_add(
    task: &WipeTask,
    start: Seq<Exchange>,
    before: Seq<Exchange>,
    after: Seq<Exchange>,
    told: Seq<Notice>,
    told_before: Seq<Notice>,
    told_after: Seq<Notice>,
    used_before: int,
    used_since: int,
    patterned: bool,
    patterned_since: bool,
)
    requires
        carried(start, before),
        carried(before, after),
        grows(task, told, told_before),
        grows(task, told_before, told_after),
        balanced(start, before, told, told_before, used_before, patterned),
        balanced(before, after, told_before, told_after, used_since, patterned_since),
        patterned ==> patterned_since,
    ensures
        balanced(start, after, told, told_after, used_before + used_since, patterned),
{
    lemma_counts_add_up(before, after, start.len() as int);
    lemma_mismatches_add_up(task, told_before, told_after, told.len() as int);
    if full_reads(after, start.len() as int) {
        lemma_full_reads_within(before, after, start.len() as int, before.len() as int);
    }
}

/// Where no exchange ends an attempt and no report tells of a mismatch, the
/// wipe succeeds and uses no retry.
pub proof fn lemma_calm_wipe_succeeds(
    start: Seq<Exchange>,
    end: Seq<Exchange>,
    told: Seq<Notice>,
    told_end: Seq<Notice>,
    retries_before: int,
    retries_after: int,
    failed: bool,
    patterned: bool,
)
    requires
        retries_after <= retries_before,
        balanced(
            start,
            end,
            told,
            told_end,
            retries_before - retries_after + if failed {
                1int
            } else {
                0int
            },
            patterned,
        ),
        calm(end, start.len() as int, end.len() as int),
        count_mismatches(told_end, told.len() as int) == 0 || (patterned && full_reads(
            end,
            start.len() as int,
        )),
    ensures
        !failed,
        retries_after == retries_before,
{
    lemma_calm_counts_nothing(end, start.len() as int);
}

/// A wipe fails exactly if more attempts at a stage fail than there are
/// retries. Where the stages have a pattern and every read was full, those
/// are as many as exchanges end an attempt.
pub proof fn lemma_wipe_fails_out_of_retries(
    start: Seq<Exchange>,
    end: Seq<Exchange>,
    told: Seq<Notice>,
    told_end: Seq<Notice>,
    retries_before: int,
    retries_after: int,
    failed: bool,
    patterned: bool,
)
    requires
        0 <= retries_after,
        failed ==> retries_after == 0,
        balanced(
            start,
            end,
            told,
            told_end,
            retries_before - retries_after + if failed {
                1int
            } else {
                0int
            },
            patterned,
        ),
    ensures
        failed <==> count_ends(end, start.len() as int) + count_mismatches(
            told_end,
            told.len() as int,
        ) > retries_before,
        patterned && full_reads(end, start.len() as int) ==> (failed <==> count_ends(
            end,
            start.len() as int,
        ) > retries_before),
{
}

} // verus!
