//! What a stage and a whole wipe hand on of the reading back: which blocks
//! were read and found right, that no read was made in a block marked bad,
//! and that a read which found something else was not passed over.

use crate::actions::account::balanced;
use crate::actions::exchange::all_served;
use crate::actions::exchange::carried;
use crate::actions::exchange::ends_attempt;
use crate::actions::exchange::filled;
use crate::actions::exchange::full_reads;
use crate::actions::exchange::in_place;
use crate::actions::exchange::is_mismatch;
use crate::actions::exchange::kept_within;
use crate::actions::exchange::lemma_full_reads_within;
use crate::actions::exchange::lemma_refusals_add_up;
use crate::actions::exchange::lemma_served_from_earlier;
use crate::actions::exchange::lemma_served_stays;
use crate::actions::exchange::proper;
use crate::actions::exchange::reads_in_place;
use crate::actions::exchange::refusals;
use crate::actions::exchange::sound;
use crate::actions::exchange::sound_reads;
use crate::actions::exchange::stood_at;
use crate::actions::exchange::verified;
use crate::actions::exchange::written_first;
use crate::actions::exchange::wrote_before;
use crate::actions::exchange::yields;
use crate::actions::phase::block_index;
use crate::actions::report::count_mismatches;
use crate::actions::report::grows;
use crate::actions::report::lemma_failure_told;
use crate::actions::report::lemma_mismatches_add_up;
use crate::actions::report::lemma_one_more_report;
use crate::actions::report::tells_failure;
use crate::actions::report::Notice;
use crate::actions::wipe::verifies;
use crate::actions::wipe::WipeError;
use crate::actions::wipe::WipeTask;
use crate::actions::wipe::Verify;
use crate::sanitization::stage::Stage;
use crate::storage::Answer;
use crate::storage::Exchange;
use vstd::prelude::*;

verus! {

/// Whether an exchange breaks off a writing: it is a seek, a write or a flush
/// that ends an attempt at a stage. The next attempt writes on from where the
/// phase stood, and reads back from there only.
pub open spec fn breaks(exchange: Exchange) -> bool {
    !(exchange is Read) && ends_attempt(exchange) is Some
}

/// The highest place at which one of the exchanges from place `from` on
/// broke off a writing; the start of the device where none did. What lies
/// below it may have been written by an attempt that was not read back.
pub open spec fn highest_break(exchanges: Seq<Exchange>, from: int, total_size: int) -> int
    decreases exchanges.len(),
{
    if exchanges.len() == 0 || exchanges.len() <= from {
        0
    } else {
        let rest = highest_break(exchanges.drop_last(), from, total_size);
        let here = stood_at(exchanges.last(), total_size);
        if breaks(exchanges.last()) && here > rest {
            here
        } else {
            rest
        }
    }
}

/// The highest break is that among the earlier exchanges or that among the
/// later ones, whichever is higher, and never below the start of the device.
pub proof fn lemma_highest_break_adds_up(
    before: Seq<Exchange>,
    after: Seq<Exchange>,
    from: int,
    total_size: int,
)
    requires
        carried(before, after),
        0 <= from <= before.len(),
    ensures
        highest_break(after, from, total_size) == if highest_break(before, from, total_size)
            >= highest_break(after, before.len() as int, total_size) {
            highest_break(before, from, total_size)
        } else {
            highest_break(after, before.len() as int, total_size)
        },
        highest_break(after, before.len() as int, total_size) >= 0,
        highest_break(before, from, total_size) >= 0,
    decreases after.len(),
{
    if after.len() == before.len() {
        assert(after =~= before);
        lemma_highest_break_is_a_place(before, from, total_size);
    } else {
        let rest = after.drop_last();
        assert(carried(before, rest)) by {
            assert forall|i: int| 0 <= i < before.len() implies #[trigger] rest[i] == before[i] by {
                assert(rest[i] == after[i]);
            }
        }
        lemma_highest_break_adds_up(before, rest, from, total_size);
    }
}

/// The highest break is never below the start of the device.
pub proof fn lemma_highest_break_is_a_place(exchanges: Seq<Exchange>, from: int, total_size: int)
    ensures
        highest_break(exchanges, from, total_size) >= 0,
    decreases exchanges.len(),
{
    if !(exchanges.len() == 0 || exchanges.len() <= from) {
        lemma_highest_break_is_a_place(exchanges.drop_last(), from, total_size);
    }
}

/// Where no exchange but the last can break off a writing, the highest break
/// is where the last one stood, if it broke off, and the start of the device
/// otherwise.
pub proof fn lemma_highest_break_of_a_phase(exchanges: Seq<Exchange>, from: int, total_size: int)
    requires
        0 <= from,
        forall|i: int| from <= i < exchanges.len() - 1 ==> !breaks(#[trigger] exchanges[i]),
    ensures
        highest_break(exchanges, from, total_size) == if exchanges.len() > from && breaks(
            exchanges.last(),
        ) && stood_at(exchanges.last(), total_size) > 0 {
            stood_at(exchanges.last(), total_size)
        } else {
            0
        },
{
    if exchanges.len() > from {
        let rest = exchanges.drop_last();
        assert forall|i: int| from <= i < rest.len() implies !breaks(#[trigger] rest[i]) by {
            assert(rest[i] == exchanges[i]);
        }
        lemma_no_break_no_place(rest, from, total_size);
    }
}

/// Where no exchange breaks off a writing, the highest break is the start of
/// the device.
pub proof fn lemma_no_break_no_place(exchanges: Seq<Exchange>, from: int, total_size: int)
    requires
        0 <= from,
        forall|i: int| from <= i < exchanges.len() ==> !breaks(#[trigger] exchanges[i]),
    ensures
        highest_break(exchanges, from, total_size) == 0,
    decreases exchanges.len(),
{
    if exchanges.len() > from {
        let rest = exchanges.drop_last();
        assert forall|i: int| from <= i < rest.len() implies !breaks(#[trigger] rest[i]) by {
            assert(rest[i] == exchanges[i]);
        }
        lemma_no_break_no_place(rest, from, total_size);
        assert(exchanges.last() == exchanges[exchanges.len() - 1]);
    }
}

/// Blocks served over two stretches that meet are served over every stretch
/// within the two.
pub proof fn lemma_served_within(
    exchanges: Seq<Exchange>,
    from: int,
    reading: bool,
    stage: Stage,
    total_size: int,
    block_size: int,
    bad: Set<u32>,
    a: int,
    b: int,
    c: int,
    d: int,
    lo: int,
    hi: int,
)
    requires
        all_served(exchanges, from, reading, stage, total_size, block_size, bad, a, b),
        all_served(exchanges, from, reading, stage, total_size, block_size, bad, c, d),
        c <= b,
        a <= lo,
        hi <= d || hi <= b,
    ensures
        all_served(exchanges, from, reading, stage, total_size, block_size, bad, lo, hi),
{
    assert forall|at: int|
        lo <= at < hi && at % block_size == 0 && !bad.contains(
            #[trigger] block_index(at, block_size),
        ) implies crate::actions::exchange::served(
        exchanges,
        from,
        reading,
        stage,
        total_size,
        block_size,
        at,
    ) by {
        if at < b {
        } else {
        }
    }
}

/// What a stage has read back since the exchanges `start` and the reports
/// `told`, as long as every read filled its buffer. Every read came after a
/// write at its place that the device answered with success, and none was
/// made in a block that was marked bad then. Every block that is not marked bad, from
/// the highest place where a writing broke off up to `frontier`, was read and
/// found to hold what the stage yields for it. And unless a mismatch was
/// reported, every read that the device answered with success found what the
/// stage yields: a read that finds something else is not passed over.
pub open spec fn read_back(
    start: Seq<Exchange>,
    now: Seq<Exchange>,
    told: Seq<Notice>,
    told_now: Seq<Notice>,
    bad_start: Set<u32>,
    bad_now: Set<u32>,
    stage: Stage,
    total_size: int,
    block_size: int,
    frontier: int,
) -> bool {
    full_reads(now, start.len() as int) ==> {
        &&& written_first(now, start.len() as int)
        &&& reads_in_place(now, start.len() as int, bad_start, block_size)
        &&& all_served(
            now,
            start.len() as int,
            true,
            stage,
            total_size,
            block_size,
            bad_now,
            highest_break(now, start.len() as int, total_size),
            frontier,
        )
        &&& count_mismatches(told_now, told.len() as int) == 0 ==> sound_reads(
            now,
            start.len() as int,
            now.len() as int,
            stage,
            total_size,
            block_size,
        )
    }
}

/// A stage begins with nothing read.
pub proof fn lemma_read_back_begins(
    exchanges: Seq<Exchange>,
    told: Seq<Notice>,
    bad: Set<u32>,
    stage: Stage,
    total_size: int,
    block_size: int,
)
    ensures
        read_back(exchanges, exchanges, told, told, bad, bad, stage, total_size, block_size, 0),
{
}

/// More reports, and a lower frontier, leave what was read back, as long as
/// the later reports tell of a mismatch wherever the earlier ones did.
pub proof fn lemma_read_back_told(
    start: Seq<Exchange>,
    now: Seq<Exchange>,
    told: Seq<Notice>,
    told_now: Seq<Notice>,
    told_later: Seq<Notice>,
    bad_start: Set<u32>,
    bad_now: Set<u32>,
    stage: Stage,
    total_size: int,
    block_size: int,
    frontier: int,
    lower: int,
)
    requires
        read_back(
            start,
            now,
            told,
            told_now,
            bad_start,
            bad_now,
            stage,
            total_size,
            block_size,
            frontier,
        ),
        count_mismatches(told_later, told.len() as int) == 0 ==> count_mismatches(
            told_now,
            told.len() as int,
        ) == 0,
        lower <= frontier,
    ensures
        read_back(
            start,
            now,
            told,
            told_later,
            bad_start,
            bad_now,
            stage,
            total_size,
            block_size,
            lower,
        ),
{
}

/// What a writing phase leaves of what was read back. A phase that fails
/// breaks off where it stood, and nothing is claimed of what lies below.
pub proof fn lemma_read_back_fills(
    start: Seq<Exchange>,
    before: Seq<Exchange>,
    after: Seq<Exchange>,
    told: Seq<Notice>,
    told_now: Seq<Notice>,
    bad_start: Set<u32>,
    bad_before: Set<u32>,
    bad_after: Set<u32>,
    stage: Stage,
    total_size: int,
    block_size: int,
    frontier: int,
    lo: int,
    hi: int,
    done: Result<(), WipeError>,
)
    requires
        carried(start, before),
        read_back(
            start,
            before,
            told,
            told_now,
            bad_start,
            bad_before,
            stage,
            total_size,
            block_size,
            frontier,
        ),
        filled(before, after, bad_before, bad_after, stage, total_size, block_size, lo, hi, done),
        kept_within(after, before.len() as int, total_size, true, false),
    ensures
        read_back(
            start,
            after,
            told,
            told_now,
            bad_start,
            bad_after,
            stage,
            total_size,
            block_size,
            if done is Ok {
                frontier
            } else {
                hi
            },
        ),
{
    let n0 = start.len() as int;
    let n1 = before.len() as int;
    if full_reads(after, n0) {
        lemma_full_reads_within(before, after, n0, n1);
        assert forall|i: int| n0 <= i < after.len() && (#[trigger] after[i]) is Read implies wrote_before(
            after,
            n0,
            i,
        ) by {
            if i < n1 {
                assert(after[i] == before[i]);
                assert(wrote_before(before, n0, i));
                let j = choose|j: int|
                    n0 <= j < i && (#[trigger] before[j] matches Exchange::Write { at, answer, .. }
                        && answer is Done && at == stood_at(before[i], 0));
                assert(after[j] == before[j]);
            } else {
                assert(proper(after[i], total_size, true, false));
            }
        }
        assert forall|i: int| n0 <= i < after.len() implies #[trigger] in_place(
            after,
            i,
            n0,
            bad_start,
            block_size,
        ) by {
            if i < n1 {
                assert(after.take(i) =~= before.take(i));
                assert(after[i] == before[i]);
                assert(in_place(before, i, n0, bad_start, block_size));
            } else {
                assert(proper(after[i], total_size, true, false));
            }
        }
        if count_mismatches(told_now, told.len() as int) == 0 {
            assert forall|i: int| n0 <= i < after.len() implies sound(
                #[trigger] after[i],
                stage,
                total_size,
                block_size,
            ) by {
                if i < n1 {
                    assert(after[i] == before[i]);
                } else {
                    assert(proper(after[i], total_size, true, false));
                }
            }
        }
        assert forall|i: int| n1 <= i < after.len() - 1 implies !breaks(#[trigger] after[i]) by {}
        lemma_highest_break_of_a_phase(after, n1, total_size);
        lemma_highest_break_adds_up(before, after, n0, total_size);
        if after.len() > n1 {
            assert(proper(after[after.len() - 1], total_size, true, false));
        }
        let low = highest_break(before, n0, total_size);
        let high = highest_break(after, n0, total_size);
        let upto = if done is Ok {
            frontier
        } else {
            hi
        };
        lemma_served_stays(
            before,
            after,
            n0,
            true,
            stage,
            total_size,
            block_size,
            bad_before,
            bad_after,
            low,
            frontier,
        );
        if done is Ok {
            lemma_served_within(
                after,
                n0,
                true,
                stage,
                total_size,
                block_size,
                bad_after,
                low,
                frontier,
                frontier,
                frontier,
                high,
                upto,
            );
        } else {
            assert(high >= hi);
        }
    }
}

/// What a read-back phase adds to what was read back. The reports are those
/// after the phase, and after the report of its failure where it found a
/// mismatch.
pub proof fn lemma_read_back_verifies(
    start: Seq<Exchange>,
    before: Seq<Exchange>,
    after: Seq<Exchange>,
    told: Seq<Notice>,
    told_now: Seq<Notice>,
    bad_start: Set<u32>,
    bad_before: Set<u32>,
    bad_after: Set<u32>,
    stage: Stage,
    total_size: int,
    block_size: int,
    lo: int,
    hi: int,
    done: Result<(), WipeError>,
)
    requires
        carried(start, before),
        bad_before == bad_start.union(refusals(before, start.len() as int, block_size)),
        read_back(
            start,
            before,
            told,
            told_now,
            bad_start,
            bad_before,
            stage,
            total_size,
            block_size,
            lo,
        ),
        verified(
            before,
            after,
            bad_before,
            bad_after,
            stage,
            total_size,
            block_size,
            lo,
            hi,
            done,
        ),
        is_mismatch(done) ==> count_mismatches(told_now, told.len() as int) >= 1,
        block_size > 0,
        all_served(
            before,
            start.len() as int,
            false,
            stage,
            total_size,
            block_size,
            bad_before,
            0,
            total_size,
        ),
    ensures
        read_back(
            start,
            after,
            told,
            told_now,
            bad_start,
            bad_after,
            stage,
            total_size,
            block_size,
            hi,
        ),
{
    let n0 = start.len() as int;
    let n1 = before.len() as int;
    if full_reads(after, n0) {
        lemma_full_reads_within(before, after, n0, n1);
        assert forall|i: int| n0 <= i < after.len() && (#[trigger] after[i]) is Read implies wrote_before(
            after,
            n0,
            i,
        ) by {
            if i < n1 {
                assert(after[i] == before[i]);
                assert(wrote_before(before, n0, i));
                let j = choose|j: int|
                    n0 <= j < i && (#[trigger] before[j] matches Exchange::Write { at, answer, .. }
                        && answer is Done && at == stood_at(before[i], 0));
                assert(after[j] == before[j]);
            } else {
                let at = stood_at(after[i], 0);
                assert(in_place(after, i, n1, bad_before, block_size));
                assert(0 <= at < total_size);
                assert(!bad_before.contains(block_index(at, block_size)));
                assert(crate::actions::exchange::served(
                    before,
                    n0,
                    false,
                    stage,
                    total_size,
                    block_size,
                    at,
                ));
                let j = choose|j: int|
                    n0 <= j < before.len() && crate::actions::exchange::serves(
                        #[trigger] before[j],
                        false,
                        stage,
                        total_size,
                        block_size,
                        at,
                    );
                assert(after[j] == before[j]);
            }
        }
        assert forall|i: int| n0 <= i < after.len() implies #[trigger] in_place(
            after,
            i,
            n0,
            bad_start,
            block_size,
        ) by {
            if i < n1 {
                assert(after.take(i) =~= before.take(i));
                assert(after[i] == before[i]);
                assert(in_place(before, i, n0, bad_start, block_size));
            } else {
                assert(in_place(after, i, n1, bad_before, block_size));
                let shown = after.take(i);
                assert(carried(before, shown)) by {
                    assert forall|j: int| 0 <= j < before.len() implies #[trigger] shown[j]
                        == before[j] by {
                        assert(shown[j] == after[j]);
                    }
                }
                lemma_refusals_add_up(before, shown, n0, block_size);
            }
        }
        if count_mismatches(told_now, told.len() as int) == 0 {
            assert forall|i: int| n0 <= i < after.len() implies sound(
                #[trigger] after[i],
                stage,
                total_size,
                block_size,
            ) by {
                if i < n1 {
                    assert(after[i] == before[i]);
                }
            }
        }
        lemma_highest_break_adds_up(before, after, n0, total_size);
        let low = highest_break(before, n0, total_size);
        let high = highest_break(after, n0, total_size);
        assert(bad_before.subset_of(bad_after));
        lemma_served_stays(
            before,
            after,
            n0,
            true,
            stage,
            total_size,
            block_size,
            bad_before,
            bad_after,
            low,
            lo,
        );
        lemma_served_from_earlier(
            after,
            n0,
            n1,
            true,
            stage,
            total_size,
            block_size,
            bad_after,
            lo,
            hi,
        );
        lemma_served_within(
            after,
            n0,
            true,
            stage,
            total_size,
            block_size,
            bad_after,
            low,
            lo,
            lo,
            hi,
            high,
            hi,
        );
    }
}

/// Whether a read that the device answered with success found what one of
/// the stages that are read back yields at its place; so does every other
/// exchange. Where only the last stage is read back, that is the stage.
pub open spec fn sound_for_one(
    exchange: Exchange,
    stages: Seq<Stage>,
    verify: Verify,
    total_size: int,
    block_size: int,
) -> bool {
    exchange matches Exchange::Read { at, got, answer: Answer::Done, .. } ==> exists|s: int|
        0 <= s < stages.len() && verifies(verify, s, stages.len() as int) && yields(
            #[trigger] stages[s],
            total_size,
            block_size,
            at,
            got,
        )
}

/// What a wipe has read back since the exchanges `start` and the reports
/// `told`, when its first `done` stages have succeeded, as long as every read
/// filled its buffer. Every read came after a write at its place that the
/// device answered with success, and none was made in a block that was
/// marked bad then. For every stage among them that is read back, every block that is not
/// marked bad, from the highest place where a writing broke off to the end of
/// the device, was read and found to hold what that stage yields for it. And
/// unless a mismatch was reported, every read that the device answered with
/// success found what one of the stages that are read back yields.
pub open spec fn read_back_wipe(
    start: Seq<Exchange>,
    now: Seq<Exchange>,
    told: Seq<Notice>,
    told_now: Seq<Notice>,
    bad_start: Set<u32>,
    bad_now: Set<u32>,
    stages: Seq<Stage>,
    verify: Verify,
    total_size: int,
    block_size: int,
    done: int,
) -> bool {
    full_reads(now, start.len() as int) ==> {
        &&& written_first(now, start.len() as int)
        &&& reads_in_place(now, start.len() as int, bad_start, block_size)
        &&& forall|s: int|
            0 <= s < done && s < stages.len() && verifies(verify, s, stages.len() as int)
                ==> all_served(
                now,
                start.len() as int,
                true,
                #[trigger] stages[s],
                total_size,
                block_size,
                bad_now,
                highest_break(now, start.len() as int, total_size),
                total_size,
            )
        &&& count_mismatches(told_now, told.len() as int) == 0 ==> forall|i: int|
            start.len() <= i < now.len() ==> sound_for_one(
                #[trigger] now[i],
                stages,
                verify,
                total_size,
                block_size,
            )
    }
}

/// A wipe begins with nothing read.
pub proof fn lemma_read_back_wipe_begins(
    exchanges: Seq<Exchange>,
    told: Seq<Notice>,
    bad: Set<u32>,
    stages: Seq<Stage>,
    verify: Verify,
    total_size: int,
    block_size: int,
)
    ensures
        read_back_wipe(
            exchanges,
            exchanges,
            told,
            told,
            bad,
            bad,
            stages,
            verify,
            total_size,
            block_size,
            0,
        ),
{
}

/// Other reports leave what a wipe has read back, as long as they tell of a
/// mismatch wherever the first ones did.
pub proof fn lemma_read_back_wipe_told(
    start: Seq<Exchange>,
    now: Seq<Exchange>,
    told: Seq<Notice>,
    told_now: Seq<Notice>,
    told_other: Seq<Notice>,
    told_other_now: Seq<Notice>,
    bad_start: Set<u32>,
    bad_now: Set<u32>,
    stages: Seq<Stage>,
    verify: Verify,
    total_size: int,
    block_size: int,
    done: int,
)
    requires
        read_back_wipe(
            start,
            now,
            told,
            told_now,
            bad_start,
            bad_now,
            stages,
            verify,
            total_size,
            block_size,
            done,
        ),
        count_mismatches(told_other_now, told_other.len() as int) == 0 ==> count_mismatches(
            told_now,
            told.len() as int,
        ) == 0,
    ensures
        read_back_wipe(
            start,
            now,
            told_other,
            told_other_now,
            bad_start,
            bad_now,
            stages,
            verify,
            total_size,
            block_size,
            done,
        ),
{
}

/// What stage `i` adds to what the stages before it have read back. The
/// stage counts as done where it succeeded, and as read back where it was
/// read to the end of the device.
pub proof fn lemma_read_back_joins(
    start: Seq<Exchange>,
    before: Seq<Exchange>,
    after: Seq<Exchange>,
    told: Seq<Notice>,
    told_before: Seq<Notice>,
    told_after: Seq<Notice>,
    bad_start: Set<u32>,
    bad_before: Set<u32>,
    bad_after: Set<u32>,
    stages: Seq<Stage>,
    verify: Verify,
    total_size: int,
    block_size: int,
    i: int,
    frontier: int,
    done_after: int,
)
    requires
        carried(start, before),
        carried(before, after),
        bad_before == bad_start.union(refusals(before, start.len() as int, block_size)),
        bad_before.subset_of(bad_after),
        0 <= i < stages.len(),
        read_back_wipe(
            start,
            before,
            told,
            told_before,
            bad_start,
            bad_before,
            stages,
            verify,
            total_size,
            block_size,
            i,
        ),
        read_back(
            before,
            after,
            told_before,
            told_after,
            bad_before,
            bad_after,
            stages[i],
            total_size,
            block_size,
            frontier,
        ),
        count_mismatches(told_after, told.len() as int) == count_mismatches(
            told_before,
            told.len() as int,
        ) + count_mismatches(told_after, told_before.len() as int),
        kept_within(
            after,
            before.len() as int,
            total_size,
            true,
            verifies(verify, i, stages.len() as int),
        ),
        done_after <= i + 1,
        done_after == i + 1 && verifies(verify, i, stages.len() as int) ==> frontier
            >= total_size,
    ensures
        read_back_wipe(
            start,
            after,
            told,
            told_after,
            bad_start,
            bad_after,
            stages,
            verify,
            total_size,
            block_size,
            done_after,
        ),
{
    let n0 = start.len() as int;
    let n1 = before.len() as int;
    if full_reads(after, n0) {
        lemma_full_reads_within(before, after, n0, n1);
        assert forall|j: int| n0 <= j < after.len() && (#[trigger] after[j]) is Read implies wrote_before(
            after,
            n0,
            j,
        ) by {
            if j < n1 {
                assert(after[j] == before[j]);
                assert(wrote_before(before, n0, j));
                let k = choose|k: int|
                    n0 <= k < j && (#[trigger] before[k] matches Exchange::Write { at, answer, .. }
                        && answer is Done && at == stood_at(before[j], 0));
                assert(after[k] == before[k]);
            } else {
                assert(wrote_before(after, n1, j));
            }
        }
        assert forall|j: int| n0 <= j < after.len() implies #[trigger] in_place(
            after,
            j,
            n0,
            bad_start,
            block_size,
        ) by {
            if j < n1 {
                assert(after.take(j) =~= before.take(j));
                assert(after[j] == before[j]);
                assert(in_place(before, j, n0, bad_start, block_size));
            } else {
                assert(in_place(after, j, n1, bad_before, block_size));
                let shown = after.take(j);
                assert(carried(before, shown)) by {
                    assert forall|k: int| 0 <= k < before.len() implies #[trigger] shown[k]
                        == before[k] by {
                        assert(shown[k] == after[k]);
                    }
                }
                lemma_refusals_add_up(before, shown, n0, block_size);
            }
        }
        lemma_highest_break_adds_up(before, after, n0, total_size);
        let low = highest_break(before, n0, total_size);
        let high = highest_break(after, n0, total_size);
        let own = highest_break(after, n1, total_size);
        assert forall|s: int|
            0 <= s < done_after && s < stages.len() && verifies(
                verify,
                s,
                stages.len() as int,
            ) implies all_served(
            after,
            n0,
            true,
            #[trigger] stages[s],
            total_size,
            block_size,
            bad_after,
            high,
            total_size,
        ) by {
            if s < i {
                lemma_served_stays(
                    before,
                    after,
                    n0,
                    true,
                    stages[s],
                    total_size,
                    block_size,
                    bad_before,
                    bad_after,
                    low,
                    total_size,
                );
                lemma_served_within(
                    after,
                    n0,
                    true,
                    stages[s],
                    total_size,
                    block_size,
                    bad_after,
                    low,
                    total_size,
                    total_size,
                    total_size,
                    high,
                    total_size,
                );
            } else {
                lemma_served_from_earlier(
                    after,
                    n0,
                    n1,
                    true,
                    stages[i],
                    total_size,
                    block_size,
                    bad_after,
                    own,
                    frontier,
                );
                lemma_served_within(
                    after,
                    n0,
                    true,
                    stages[i],
                    total_size,
                    block_size,
                    bad_after,
                    own,
                    frontier,
                    frontier,
                    frontier,
                    high,
                    total_size,
                );
            }
        }
        if count_mismatches(told_after, told.len() as int) == 0 {
            assert forall|j: int| n0 <= j < after.len() implies sound_for_one(
                #[trigger] after[j],
                stages,
                verify,
                total_size,
                block_size,
            ) by {
                if j < n1 {
                    assert(after[j] == before[j]);
                    assert(sound_for_one(before[j], stages, verify, total_size, block_size));
                } else {
                    assert(sound(after[j], stages[i], total_size, block_size));
                    assert(proper(
                        after[j],
                        total_size,
                        true,
                        verifies(verify, i, stages.len() as int),
                    ));
                }
            }
        }
    }
}

/// One more report leaves what a stage has read back.
pub proof fn lemma_read_back_report(
    start: Seq<Exchange>,
    now: Seq<Exchange>,
    told: Seq<Notice>,
    told_now: Seq<Notice>,
    next: Notice,
    bad_start: Set<u32>,
    bad_now: Set<u32>,
    stage: Stage,
    total_size: int,
    block_size: int,
    frontier: int,
)
    requires
        told.len() <= told_now.len(),
        read_back(
            start,
            now,
            told,
            told_now,
            bad_start,
            bad_now,
            stage,
            total_size,
            block_size,
            frontier,
        ),
    ensures
        read_back(
            start,
            now,
            told,
            told_now.push(next),
            bad_start,
            bad_now,
            stage,
            total_size,
            block_size,
            frontier,
        ),
{
    lemma_one_more_report(told_now, told.len() as int, next);
}

/// More reports leave what a stage has read back, up to a frontier that is
/// no higher.
pub proof fn lemma_read_back_grows(
    task: &WipeTask,
    start: Seq<Exchange>,
    now: Seq<Exchange>,
    told: Seq<Notice>,
    told_now: Seq<Notice>,
    told_later: Seq<Notice>,
    bad_start: Set<u32>,
    bad_now: Set<u32>,
    stage: Stage,
    total_size: int,
    block_size: int,
    frontier: int,
    lower: int,
)
    requires
        told.len() <= told_now.len(),
        grows(task, told_now, told_later),
        read_back(
            start,
            now,
            told,
            told_now,
            bad_start,
            bad_now,
            stage,
            total_size,
            block_size,
            frontier,
        ),
        lower <= frontier,
    ensures
        read_back(
            start,
            now,
            told,
            told_later,
            bad_start,
            bad_now,
            stage,
            total_size,
            block_size,
            lower,
        ),
{
    lemma_mismatches_add_up(task, told_now, told_later, told.len() as int);
}

/// What a read-back phase and the report of its failure, where it failed,
/// add to what was read back.
pub proof fn lemma_read_back_checked(
    task: &WipeTask,
    start: Seq<Exchange>,
    before: Seq<Exchange>,
    after: Seq<Exchange>,
    told: Seq<Notice>,
    told_before: Seq<Notice>,
    told_checked: Seq<Notice>,
    told_after: Seq<Notice>,
    bad_start: Set<u32>,
    bad_before: Set<u32>,
    bad_after: Set<u32>,
    stage: Stage,
    total_size: int,
    block_size: int,
    lo: int,
    hi: int,
    done: Result<(), WipeError>,
    retried: bool,
)
    requires
        told.len() <= told_before.len(),
        grows(task, told_before, told_checked),
        carried(start, before),
        bad_before == bad_start.union(refusals(before, start.len() as int, block_size)),
        read_back(
            start,
            before,
            told,
            told_before,
            bad_start,
            bad_before,
            stage,
            total_size,
            block_size,
            lo,
        ),
        verified(
            before,
            after,
            bad_before,
            bad_after,
            stage,
            total_size,
            block_size,
            lo,
            hi,
            done,
        ),
        block_size > 0,
        all_served(
            before,
            start.len() as int,
            false,
            stage,
            total_size,
            block_size,
            bad_before,
            0,
            total_size,
        ),
        match done {
            Ok(_) => told_after == told_checked,
            Err(error) => grows(task, told_checked, told_after) && tells_failure(
                told_checked,
                told_after,
                error,
                retried,
            ),
        },
    ensures
        read_back(
            start,
            after,
            told,
            told_after,
            bad_start,
            bad_after,
            stage,
            total_size,
            block_size,
            hi,
        ),
{
    lemma_mismatches_add_up(task, told_before, told_checked, told.len() as int);
    if done is Err {
        lemma_mismatches_add_up(task, told_checked, told_after, told.len() as int);
        lemma_failure_told(told_checked, told_after, done->Err_0, retried);
    }
    lemma_read_back_told(
        start,
        before,
        told,
        told_before,
        told_after,
        bad_start,
        bad_before,
        stage,
        total_size,
        block_size,
        lo,
        lo,
    );
    lemma_read_back_verifies(
        start,
        before,
        after,
        told,
        told_after,
        bad_start,
        bad_before,
        bad_after,
        stage,
        total_size,
        block_size,
        lo,
        hi,
        done,
    );
}

/// What a writing phase, with its reports, leaves of what was read back.
pub proof fn lemma_read_back_filled(
    task: &WipeTask,
    start: Seq<Exchange>,
    before: Seq<Exchange>,
    after: Seq<Exchange>,
    told: Seq<Notice>,
    told_before: Seq<Notice>,
    told_after: Seq<Notice>,
    bad_start: Set<u32>,
    bad_before: Set<u32>,
    bad_after: Set<u32>,
    stage: Stage,
    total_size: int,
    block_size: int,
    frontier: int,
    lo: int,
    hi: int,
    done: Result<(), WipeError>,
)
    requires
        told.len() <= told_before.len(),
        grows(task, told_before, told_after),
        carried(start, before),
        read_back(
            start,
            before,
            told,
            told_before,
            bad_start,
            bad_before,
            stage,
            total_size,
            block_size,
            frontier,
        ),
        filled(before, after, bad_before, bad_after, stage, total_size, block_size, lo, hi, done),
        kept_within(after, before.len() as int, total_size, true, false),
    ensures
        read_back(
            start,
            after,
            told,
            told_after,
            bad_start,
            bad_after,
            stage,
            total_size,
            block_size,
            if done is Ok {
                frontier
            } else {
                hi
            },
        ),
{
    lemma_read_back_fills(
        start,
        before,
        after,
        told,
        told_before,
        bad_start,
        bad_before,
        bad_after,
        stage,
        total_size,
        block_size,
        frontier,
        lo,
        hi,
        done,
    );
    lemma_mismatches_add_up(task, told_before, told_after, told.len() as int);
}

/// A read that finds what no stage that is read back yields ends the wipe in
/// failure where no retry is left: the mismatch is reported, and the report
/// costs the wipe.
pub proof fn lemma_mismatch_without_retry_fails(
    start: Seq<Exchange>,
    end: Seq<Exchange>,
    told: Seq<Notice>,
    told_end: Seq<Notice>,
    bad_start: Set<u32>,
    bad_end: Set<u32>,
    stages: Seq<Stage>,
    verify: Verify,
    total_size: int,
    block_size: int,
    done: int,
    retries_after: int,
    failed: bool,
    patterned: bool,
    i: int,
)
    requires
        read_back_wipe(
            start,
            end,
            told,
            told_end,
            bad_start,
            bad_end,
            stages,
            verify,
            total_size,
            block_size,
            done,
        ),
        balanced(
            start,
            end,
            told,
            told_end,
            0 - retries_after + if failed {
                1int
            } else {
                0int
            },
            patterned,
        ),
        0 <= retries_after,
        full_reads(end, start.len() as int),
        start.len() <= i < end.len(),
        !sound_for_one(end[i], stages, verify, total_size, block_size),
    ensures
        failed,
        retries_after == 0,
        count_mismatches(told_end, told.len() as int) >= 1,
{
}

} // verus!
