//! What the engine asks of a device and what it makes of the answers.
//!
//! A device keeps, for proofs only, the exchanges it has had: each request
//! with its arguments and the answer given. The predicates here read such a
//! record: which exchanges end an attempt at a stage, which blocks the device
//! refused, which blocks have been written or read back with success, and
//! whether the exchanges keep within the device. The phases of the engine
//! are specified over them (`filled`, `verified`, `settled`).

use crate::actions::phase::all_bad;
use crate::actions::phase::block_index;
use crate::actions::wipe::WipeError;
use crate::sanitization::stage::Stage;
use crate::sanitization::stage::chunk_len;
use crate::sanitization::stage::lemma_stream_follows_pattern;
use crate::storage::Answer;
use crate::storage::Exchange;
use vstd::prelude::*;

verus! {

/// Whether the exchanges `after` begin with the exchanges `before`.
pub open spec fn carried(before: Seq<Exchange>, after: Seq<Exchange>) -> bool {
    &&& before.len() <= after.len()
    &&& forall|i: int| 0 <= i < before.len() ==> #[trigger] after[i] == before[i]
}

/// What a seek or a write comes to by its answer: the step is taken, or the
/// block is stepped around, or the attempt at the stage ends.
pub open spec fn step_result(answer: Answer) -> Result<bool, WipeError> {
    match answer {
        Answer::Done => Ok(true),
        Answer::BadBlock => Ok(false),
        Answer::Failed(cause) => Err(WipeError::Io(cause)),
    }
}

/// The failure with which an exchange ends an attempt at a stage, if it ends
/// it: a seek or a write that failed other than by a bad block, and a read or
/// a flush that failed in any way.
pub open spec fn ends_attempt(exchange: Exchange) -> Option<WipeError> {
    match exchange {
        Exchange::Seek { answer: Answer::Failed(cause), .. } => Some(WipeError::Io(cause)),
        Exchange::Write { answer: Answer::Failed(cause), .. } => Some(WipeError::Io(cause)),
        Exchange::Read { answer: Answer::Failed(cause), .. } => Some(WipeError::Io(cause)),
        Exchange::Read { answer: Answer::BadBlock, .. } => Some(WipeError::BadBlock),
        Exchange::Flush { answer: Answer::Failed(cause) } => Some(WipeError::Io(cause)),
        Exchange::Flush { answer: Answer::BadBlock } => Some(WipeError::BadBlock),
        _ => None,
    }
}

/// The block that an exchange makes the engine mark as bad, if it does: the
/// block of a seek or a write that the device answered with a bad block.
pub open spec fn refused(exchange: Exchange, block_size: int) -> Option<u32> {
    match exchange {
        Exchange::Seek { position, answer: Answer::BadBlock } => Some(
            block_index(position as int, block_size),
        ),
        Exchange::Write { at, answer: Answer::BadBlock, .. } => Some(block_index(at, block_size)),
        _ => None,
    }
}

/// The blocks that the exchanges from place `from` on make the engine mark.
pub open spec fn refusals(exchanges: Seq<Exchange>, from: int, block_size: int) -> Set<u32> {
    Set::new(
        |block: u32|
            exists|i: int|
                from <= i < exchanges.len() && refused(#[trigger] exchanges[i], block_size)
                    == Some(block),
    )
}

/// Whether none of the exchanges from place `from` up to place `to` ends an
/// attempt.
pub open spec fn calm(exchanges: Seq<Exchange>, from: int, to: int) -> bool {
    forall|i: int| from <= i < to && i < exchanges.len() ==> ends_attempt(#[trigger] exchanges[i])
        is None
}

/// What a phase comes to that fails by what its last exchange says and by
/// nothing else.
pub open spec fn outcome_of(exchanges: Seq<Exchange>, from: int) -> Result<(), WipeError> {
    if exchanges.len() > from && ends_attempt(exchanges.last()) is Some {
        Err(ends_attempt(exchanges.last())->0)
    } else {
        Ok(())
    }
}

/// Whether `data` is chunk `k` of the stream of `stage` that starts at `start`,
/// and that chunk begins at the offset `at`.
pub open spec fn is_chunk(
    stage: Stage,
    total_size: int,
    block_size: int,
    at: int,
    data: Seq<u8>,
    start: int,
    k: int,
) -> bool {
    &&& 0 <= start
    &&& 0 <= k
    &&& start + k * block_size == at
    &&& data == stage.chunk(total_size, block_size, start, k)
}

/// Whether `data` is what a stream of `stage` yields for the block at the
/// offset `at`.
pub open spec fn yields(
    stage: Stage,
    total_size: int,
    block_size: int,
    at: int,
    data: Seq<u8>,
) -> bool {
    exists|start: int, k: int| is_chunk(stage, total_size, block_size, at, data, start, k)
}

/// Whether `data` is not chunk `k` of the stream of `stage` that starts at
/// `start`, though that chunk begins at the offset `at`.
pub open spec fn is_not_chunk(
    stage: Stage,
    total_size: int,
    block_size: int,
    at: int,
    data: Seq<u8>,
    start: int,
    k: int,
) -> bool {
    &&& 0 <= start
    &&& 0 <= k
    &&& start + k * block_size == at
    &&& data != stage.chunk(total_size, block_size, start, k)
}

/// Whether `data` differs from what a stream of `stage` yields for the block
/// at the offset `at`.
pub open spec fn differs(
    stage: Stage,
    total_size: int,
    block_size: int,
    at: int,
    data: Seq<u8>,
) -> bool {
    exists|start: int, k: int| is_not_chunk(stage, total_size, block_size, at, data, start, k)
}

/// Whether an exchange serves the block at the offset `at`: when writing, a
/// write at `at` of what the stage yields there that the device answered with
/// success; when reading, a read at `at` answered with success that left in
/// the buffer what the stage yields there.
pub open spec fn serves(
    exchange: Exchange,
    reading: bool,
    stage: Stage,
    total_size: int,
    block_size: int,
    at: int,
) -> bool {
    match exchange {
        Exchange::Write { at: place, data, answer } => !reading && place == at && answer is Done
            && yields(stage, total_size, block_size, at, data),
        Exchange::Read { at: place, got, answer, .. } => reading && place == at && answer is Done
            && yields(stage, total_size, block_size, at, got),
        _ => false,
    }
}

/// Whether one of the exchanges from place `from` on serves the block at the
/// offset `at`.
pub open spec fn served(
    exchanges: Seq<Exchange>,
    from: int,
    reading: bool,
    stage: Stage,
    total_size: int,
    block_size: int,
    at: int,
) -> bool {
    exists|i: int|
        from <= i < exchanges.len() && serves(
            #[trigger] exchanges[i],
            reading,
            stage,
            total_size,
            block_size,
            at,
        )
}

/// Whether every block that begins between `lo` and `hi` and is not marked in
/// `bad` has been served by one of the exchanges from place `from` on.
pub open spec fn all_served(
    exchanges: Seq<Exchange>,
    from: int,
    reading: bool,
    stage: Stage,
    total_size: int,
    block_size: int,
    bad: Set<u32>,
    lo: int,
    hi: int,
) -> bool {
    forall|at: int|
        lo <= at < hi && at % block_size == 0 && !bad.contains(
            #[trigger] block_index(at, block_size),
        ) ==> served(exchanges, from, reading, stage, total_size, block_size, at)
}

/// A block that begins within a block begins where that block begins.
pub proof fn lemma_one_block_start(block_size: int, here: int, at: int)
    requires
        block_size > 0,
        0 <= here,
        here % block_size == 0,
        at % block_size == 0,
        here <= at < here + block_size,
    ensures
        at == here,
{
    assert(at == here) by (nonlinear_arith)
        requires
            block_size > 0,
            0 <= here,
            here % block_size == 0,
            at % block_size == 0,
            here <= at < here + block_size,
    {
        let a = here / block_size;
        let b = at / block_size;
        assert(here == a * block_size + here % block_size);
        assert(at == b * block_size + at % block_size);
        if b > a {
            assert(b * block_size >= (a + 1) * block_size);
        }
        if b < a {
            assert((b + 1) * block_size <= a * block_size);
        }
    }
}

/// More exchanges and more bad blocks leave every block served that was.
pub proof fn lemma_served_stays(
    before: Seq<Exchange>,
    after: Seq<Exchange>,
    from: int,
    reading: bool,
    stage: Stage,
    total_size: int,
    block_size: int,
    bad: Set<u32>,
    more_bad: Set<u32>,
    lo: int,
    hi: int,
)
    requires
        carried(before, after),
        0 <= from,
        bad.subset_of(more_bad),
        all_served(before, from, reading, stage, total_size, block_size, bad, lo, hi),
    ensures
        all_served(after, from, reading, stage, total_size, block_size, more_bad, lo, hi),
{
    assert forall|at: int|
        lo <= at < hi && at % block_size == 0 && !more_bad.contains(
            #[trigger] block_index(at, block_size),
        ) implies served(after, from, reading, stage, total_size, block_size, at) by {
        assert(served(before, from, reading, stage, total_size, block_size, at));
        let i = choose|i: int|
            from <= i < before.len() && serves(
                #[trigger] before[i],
                reading,
                stage,
                total_size,
                block_size,
                at,
            );
        assert(after[i] == before[i]);
    }
}

/// Counting from an earlier exchange leaves every block served that was.
pub proof fn lemma_served_from_earlier(
    exchanges: Seq<Exchange>,
    earlier: int,
    from: int,
    reading: bool,
    stage: Stage,
    total_size: int,
    block_size: int,
    bad: Set<u32>,
    lo: int,
    hi: int,
)
    requires
        earlier <= from,
        all_served(exchanges, from, reading, stage, total_size, block_size, bad, lo, hi),
    ensures
        all_served(exchanges, earlier, reading, stage, total_size, block_size, bad, lo, hi),
{
    assert forall|at: int|
        lo <= at < hi && at % block_size == 0 && !bad.contains(
            #[trigger] block_index(at, block_size),
        ) implies served(exchanges, earlier, reading, stage, total_size, block_size, at) by {
        assert(served(exchanges, from, reading, stage, total_size, block_size, at));
        let i = choose|i: int|
            from <= i < exchanges.len() && serves(
                #[trigger] exchanges[i],
                reading,
                stage,
                total_size,
                block_size,
                at,
            );
        assert(earlier <= i);
    }
}

/// Blocks served up to one place and from there up to another are served up
/// to the other.
pub proof fn lemma_served_joins(
    exchanges: Seq<Exchange>,
    from: int,
    reading: bool,
    stage: Stage,
    total_size: int,
    block_size: int,
    bad: Set<u32>,
    lo: int,
    mid: int,
    hi: int,
)
    requires
        all_served(exchanges, from, reading, stage, total_size, block_size, bad, lo, mid),
        all_served(exchanges, from, reading, stage, total_size, block_size, bad, mid, hi),
    ensures
        all_served(exchanges, from, reading, stage, total_size, block_size, bad, lo, hi),
{
    assert forall|at: int|
        lo <= at < hi && at % block_size == 0 && !bad.contains(
            #[trigger] block_index(at, block_size),
        ) implies served(exchanges, from, reading, stage, total_size, block_size, at) by {
        if at < mid {
        } else {
        }
    }
}

/// Where every block between two places is bad, none of them is left to
/// serve.
pub proof fn lemma_bad_blocks_need_no_service(
    exchanges: Seq<Exchange>,
    from: int,
    reading: bool,
    stage: Stage,
    total_size: int,
    block_size: int,
    bad: Set<u32>,
    lo: int,
    hi: int,
)
    requires
        all_bad(bad, block_size, lo, hi),
    ensures
        all_served(exchanges, from, reading, stage, total_size, block_size, bad, lo, hi),
{
}

/// The block at `here` being bad or served, every block is served up to the
/// next block.
pub proof fn lemma_served_one_more(
    exchanges: Seq<Exchange>,
    from: int,
    reading: bool,
    stage: Stage,
    total_size: int,
    block_size: int,
    bad: Set<u32>,
    lo: int,
    here: int,
    next: int,
)
    requires
        block_size > 0,
        0 <= here,
        here % block_size == 0,
        next <= here + block_size,
        all_served(exchanges, from, reading, stage, total_size, block_size, bad, lo, here),
        bad.contains(block_index(here, block_size)) || served(
            exchanges,
            from,
            reading,
            stage,
            total_size,
            block_size,
            here,
        ),
    ensures
        all_served(exchanges, from, reading, stage, total_size, block_size, bad, lo, next),
{
    assert forall|at: int|
        lo <= at < next && at % block_size == 0 && !bad.contains(
            #[trigger] block_index(at, block_size),
        ) implies served(exchanges, from, reading, stage, total_size, block_size, at) by {
        if at >= here {
            lemma_one_block_start(block_size, here, at);
        }
    }
}

/// The blocks that exchanges make the engine mark are those that the earlier
/// ones make it mark and those that the later ones do.
pub proof fn lemma_refusals_add_up(
    before: Seq<Exchange>,
    after: Seq<Exchange>,
    from: int,
    block_size: int,
)
    requires
        carried(before, after),
        0 <= from <= before.len(),
    ensures
        refusals(after, from, block_size) == refusals(before, from, block_size).union(
            refusals(after, before.len() as int, block_size),
        ),
{
    let whole = refusals(after, from, block_size);
    let parts = refusals(before, from, block_size).union(
        refusals(after, before.len() as int, block_size),
    );
    assert forall|block: u32| whole.contains(block) <==> parts.contains(block) by {
        if whole.contains(block) {
            let i = choose|i: int|
                from <= i < after.len() && refused(#[trigger] after[i], block_size) == Some(block);
            if i < before.len() {
                assert(before[i] == after[i]);
                assert(refusals(before, from, block_size).contains(block));
            } else {
                assert(refusals(after, before.len() as int, block_size).contains(block));
            }
        }
        if refusals(before, from, block_size).contains(block) {
            let i = choose|i: int|
                from <= i < before.len() && refused(#[trigger] before[i], block_size) == Some(
                    block,
                );
            assert(after[i] == before[i]);
        }
        if refusals(after, before.len() as int, block_size).contains(block) {
            let i = choose|i: int|
                before.len() <= i < after.len() && refused(#[trigger] after[i], block_size)
                    == Some(block);
            assert(from <= i);
        }
    }
    assert(whole =~= parts);
}

/// No exchange, no block to mark.
pub proof fn lemma_no_refusals(exchanges: Seq<Exchange>, block_size: int)
    ensures
        refusals(exchanges, exchanges.len() as int, block_size) == Set::<u32>::empty(),
{
    assert(refusals(exchanges, exchanges.len() as int, block_size) =~= Set::<u32>::empty());
}

/// One more exchange makes the engine mark the block it refuses, if it
/// refuses one, and no other.
pub proof fn lemma_refusals_of_one(exchanges: Seq<Exchange>, next: Exchange, block_size: int)
    ensures
        refusals(exchanges.push(next), exchanges.len() as int, block_size) == match refused(
            next,
            block_size,
        ) {
            Some(block) => Set::<u32>::empty().insert(block),
            None => Set::<u32>::empty(),
        },
{
    let all = exchanges.push(next);
    let one = refusals(all, exchanges.len() as int, block_size);
    let expected = match refused(next, block_size) {
        Some(block) => Set::<u32>::empty().insert(block),
        None => Set::<u32>::empty(),
    };
    assert forall|block: u32| one.contains(block) <==> expected.contains(block) by {
        if one.contains(block) {
            let i = choose|i: int|
                exchanges.len() <= i < all.len() && refused(#[trigger] all[i], block_size)
                    == Some(block);
            assert(all[i] == next);
        }
        if expected.contains(block) {
            assert(all[exchanges.len() as int] == next);
        }
    }
    assert(one =~= expected);
}

/// Exchanges carried on are carried.
pub proof fn lemma_carried_on(first: Seq<Exchange>, second: Seq<Exchange>, third: Seq<Exchange>)
    requires
        carried(first, second),
        carried(second, third),
    ensures
        carried(first, third),
{
    assert forall|i: int| 0 <= i < first.len() implies #[trigger] third[i] == first[i] by {
        assert(second[i] == first[i]);
        assert(third[i] == second[i]);
    }
}

/// Whether the engine has kept up with the device since the exchanges
/// `start`: the exchanges made since have been carried on from `start`, none
/// of them ends an attempt, and the blocks marked bad since are those that
/// the device refused.
pub open spec fn engaged(
    start: Seq<Exchange>,
    now: Seq<Exchange>,
    bad_start: Set<u32>,
    bad_now: Set<u32>,
    block_size: int,
) -> bool {
    &&& carried(start, now)
    &&& calm(now, start.len() as int, now.len() as int)
    &&& bad_now == bad_start.union(refusals(now, start.len() as int, block_size))
}

/// Before any exchange the engine has kept up.
pub proof fn lemma_engaged_begins(exchanges: Seq<Exchange>, bad: Set<u32>, block_size: int)
    ensures
        engaged(exchanges, exchanges, bad, bad, block_size),
{
    lemma_no_refusals(exchanges, block_size);
    assert(bad =~= bad.union(Set::<u32>::empty()));
}

/// With an exchange that does not end the attempt the engine keeps up, once
/// it has marked the block that the device refused, if it refused one.
pub proof fn lemma_engaged_on(
    start: Seq<Exchange>,
    now: Seq<Exchange>,
    next: Exchange,
    bad_start: Set<u32>,
    bad_now: Set<u32>,
    block_size: int,
)
    requires
        engaged(start, now, bad_start, bad_now, block_size),
        ends_attempt(next) is None,
    ensures
        engaged(
            start,
            now.push(next),
            bad_start,
            match refused(next, block_size) {
                Some(block) => bad_now.insert(block),
                None => bad_now,
            },
            block_size,
        ),
{
    let more = now.push(next);
    assert(carried(now, more));
    lemma_carried_on(start, now, more);
    lemma_refusals_add_up(now, more, start.len() as int, block_size);
    lemma_refusals_of_one(now, next, block_size);
    let marked = match refused(next, block_size) {
        Some(block) => bad_now.insert(block),
        None => bad_now,
    };
    assert(marked =~= bad_start.union(refusals(more, start.len() as int, block_size)));
    assert forall|i: int| start.len() <= i < more.len() implies ends_attempt(#[trigger] more[i])
        is None by {
        if i < now.len() {
            assert(more[i] == now[i]);
        }
    }
}

/// An exchange that ends the attempt is the last of the phase, and the phase
/// fails with what that exchange says.
pub proof fn lemma_engaged_ends(
    start: Seq<Exchange>,
    now: Seq<Exchange>,
    next: Exchange,
    bad_start: Set<u32>,
    bad_now: Set<u32>,
    block_size: int,
)
    requires
        engaged(start, now, bad_start, bad_now, block_size),
        refused(next, block_size) is None,
    ensures
        carried(start, now.push(next)),
        calm(now.push(next), start.len() as int, now.len() as int),
        bad_now == bad_start.union(refusals(now.push(next), start.len() as int, block_size)),
        ends_attempt(next) is Some ==> outcome_of(now.push(next), start.len() as int) == Err::<
            (),
            WipeError,
        >(ends_attempt(next)->0),
{
    let more = now.push(next);
    assert(carried(now, more));
    lemma_carried_on(start, now, more);
    lemma_refusals_add_up(now, more, start.len() as int, block_size);
    lemma_refusals_of_one(now, next, block_size);
    assert(bad_now =~= bad_start.union(refusals(more, start.len() as int, block_size)));
    assert forall|i: int| start.len() <= i < now.len() && i < more.len() implies ends_attempt(
        #[trigger] more[i],
    ) is None by {
        assert(more[i] == now[i]);
    }
    assert(more.last() == next);
}

/// As long as the engine keeps up, the phase has not failed.
pub proof fn lemma_engaged_is_well(
    start: Seq<Exchange>,
    now: Seq<Exchange>,
    bad_start: Set<u32>,
    bad_now: Set<u32>,
    block_size: int,
)
    requires
        engaged(start, now, bad_start, bad_now, block_size),
    ensures
        outcome_of(now, start.len() as int) == Ok::<(), WipeError>(()),
        calm(now, start.len() as int, now.len() - 1),
{
    if now.len() > start.len() {
        assert(ends_attempt(now[now.len() - 1]) is None);
    }
}

/// What a part of the work has done to the device, seen from the start of
/// the whole: the exchanges have been carried on, and the blocks marked are
/// those that the device refused since the start.
pub proof fn lemma_refusals_carry_on(
    start: Seq<Exchange>,
    mid: Seq<Exchange>,
    now: Seq<Exchange>,
    bad_start: Set<u32>,
    bad_mid: Set<u32>,
    bad_now: Set<u32>,
    block_size: int,
)
    requires
        carried(start, mid),
        carried(mid, now),
        bad_mid == bad_start.union(refusals(mid, start.len() as int, block_size)),
        bad_now == bad_mid.union(refusals(now, mid.len() as int, block_size)),
    ensures
        carried(start, now),
        bad_now == bad_start.union(refusals(now, start.len() as int, block_size)),
{
    lemma_carried_on(start, mid, now);
    lemma_refusals_add_up(mid, now, start.len() as int, block_size);
    assert(bad_now =~= bad_start.union(refusals(now, start.len() as int, block_size)));
}

/// The offset that a seek or a write is aimed at.
pub open spec fn step_place(exchange: Exchange) -> int {
    match exchange {
        Exchange::Seek { position, .. } => position as int,
        Exchange::Write { at, .. } => at,
        _ => -1,
    }
}

/// The answer to an exchange.
pub open spec fn step_answer(exchange: Exchange) -> Answer {
    match exchange {
        Exchange::Position { answer } => answer,
        Exchange::Seek { answer, .. } => answer,
        Exchange::Read { answer, .. } => answer,
        Exchange::Write { answer, .. } => answer,
        Exchange::Flush { answer } => answer,
    }
}

/// What a seek or a write at the offset `position` is to the device and to
/// the marker: where the block there is marked bad, nothing is asked of the
/// device; else the device is asked once, the step comes to what the answer
/// says, and the block is marked exactly if the answer is a bad block.
pub open spec fn stepped(
    before: Seq<Exchange>,
    after: Seq<Exchange>,
    bad_before: Set<u32>,
    bad_after: Set<u32>,
    block_size: int,
    position: int,
    taken: Result<bool, WipeError>,
) -> bool {
    if bad_before.contains(block_index(position, block_size)) {
        &&& after == before
        &&& taken == Ok::<bool, WipeError>(false)
        &&& bad_after == bad_before
    } else {
        &&& after.len() > 0
        &&& after == before.push(after.last())
        &&& after.last() is Seek || after.last() is Write
        &&& step_place(after.last()) == position
        &&& taken == step_result(step_answer(after.last()))
        &&& bad_after == if step_answer(after.last()) is BadBlock {
            bad_before.insert(block_index(position, block_size))
        } else {
            bad_before
        }
    }
}

/// Whether every exchange from place `from` on is a seek.
pub open spec fn only_seeks(exchanges: Seq<Exchange>, from: int) -> bool {
    forall|i: int| from <= i < exchanges.len() ==> #[trigger] exchanges[i] is Seek
}

/// What a phase that came to `outcome` has been to the device since the
/// exchanges `start`: the exchanges have been carried on; none but the last
/// ends an attempt; the blocks marked since are those that the device
/// refused; and the phase failed exactly if its last exchange ends the
/// attempt, with the failure that this exchange stands for.
pub open spec fn accounted(
    start: Seq<Exchange>,
    end: Seq<Exchange>,
    bad_start: Set<u32>,
    bad_end: Set<u32>,
    block_size: int,
    outcome: Result<(), WipeError>,
) -> bool {
    &&& carried(start, end)
    &&& calm(end, start.len() as int, end.len() - 1)
    &&& bad_end == bad_start.union(refusals(end, start.len() as int, block_size))
    &&& outcome == outcome_of(end, start.len() as int)
}

/// A phase that keeps up has not failed.
pub proof fn lemma_accounted_well(
    start: Seq<Exchange>,
    now: Seq<Exchange>,
    bad_start: Set<u32>,
    bad_now: Set<u32>,
    block_size: int,
)
    requires
        engaged(start, now, bad_start, bad_now, block_size),
    ensures
        accounted(start, now, bad_start, bad_now, block_size, Ok::<(), WipeError>(())),
{
    lemma_engaged_is_well(start, now, bad_start, bad_now, block_size);
}

/// A phase that has not failed has kept up.
pub proof fn lemma_accounted_keeps_up(
    start: Seq<Exchange>,
    now: Seq<Exchange>,
    bad_start: Set<u32>,
    bad_now: Set<u32>,
    block_size: int,
)
    requires
        accounted(start, now, bad_start, bad_now, block_size, Ok::<(), WipeError>(())),
    ensures
        engaged(start, now, bad_start, bad_now, block_size),
{
    assert forall|i: int| start.len() <= i < now.len() implies ends_attempt(#[trigger] now[i])
        is None by {
        if i == now.len() - 1 {
            assert(now[i] == now.last());
        }
    }
}

/// After a seek or a write the engine has kept up with the device, or the
/// phase has failed with what the device answered.
pub proof fn lemma_after_step(
    start: Seq<Exchange>,
    before: Seq<Exchange>,
    after: Seq<Exchange>,
    bad_start: Set<u32>,
    bad_before: Set<u32>,
    bad_after: Set<u32>,
    block_size: int,
    position: int,
    taken: Result<bool, WipeError>,
)
    requires
        engaged(start, before, bad_start, bad_before, block_size),
        stepped(before, after, bad_before, bad_after, block_size, position, taken),
    ensures
        carried(before, after),
        bad_before.subset_of(bad_after),
        taken is Ok ==> engaged(start, after, bad_start, bad_after, block_size),
        taken matches Err(error) ==> accounted(
            start,
            after,
            bad_start,
            bad_after,
            block_size,
            Err::<(), WipeError>(error),
        ),
{
    if !bad_before.contains(block_index(position, block_size)) {
        let next = after.last();
        if taken is Ok {
            lemma_engaged_on(start, before, next, bad_start, bad_before, block_size);
        } else {
            lemma_engaged_ends(start, before, next, bad_start, bad_before, block_size);
        }
    }
}

/// What a flush comes to by its answer.
pub open spec fn flush_result(answer: Answer) -> Result<(), WipeError> {
    match answer {
        Answer::Done => Ok(()),
        Answer::BadBlock => Err(WipeError::BadBlock),
        Answer::Failed(cause) => Err(WipeError::Io(cause)),
    }
}

/// The place at which a phase stands when the exchange `exchange` ends it:
/// the place that the seek, the write or the read was aimed at, and the end
/// of the device for a flush, which comes when everything is written.
pub open spec fn stood_at(exchange: Exchange, total_size: int) -> int {
    match exchange {
        Exchange::Position { .. } => 0,
        Exchange::Seek { position, .. } => position as int,
        Exchange::Read { at, .. } => at,
        Exchange::Write { at, .. } => at,
        Exchange::Flush { .. } => total_size,
    }
}

/// Whether a part of a wipe that failed stands at `position` where its last
/// exchange left it: at the place that the seek, the write or the read was
/// aimed at, or at the end of the device after a flush. For a read this is
/// claimed as long as every read filled its buffer.
pub open spec fn stands_where_it_failed(
    exchanges: Seq<Exchange>,
    from: int,
    position: int,
    total_size: int,
) -> bool {
    &&& exchanges.len() > from
    &&& !(exchanges.last() is Read) || full_reads(exchanges, from) ==> position == stood_at(
        exchanges.last(),
        total_size,
    )
}

/// Whether every read from place `from` on was made within the device and
/// below the offset `here`.
pub open spec fn reads_below(exchanges: Seq<Exchange>, from: int, here: int) -> bool {
    forall|i: int|
        from <= i < exchanges.len() && (#[trigger] exchanges[i]) is Read ==> 0 <= stood_at(
            exchanges[i],
            0,
        ) < here
}

/// Whether the reads from place `from` on were made in rising order: each at
/// a higher offset than every read before it, so that no block is read
/// twice.
pub open spec fn rising_reads(exchanges: Seq<Exchange>, from: int) -> bool {
    forall|i: int, j: int|
        from <= i < j < exchanges.len() && (#[trigger] exchanges[i]) is Read
            && (#[trigger] exchanges[j]) is Read ==> stood_at(exchanges[i], 0) < stood_at(
            exchanges[j],
            0,
        )
}

/// One more exchange leaves the reads rising and below a place, if it is no
/// read or a read above all reads before it; so does none.
pub proof fn lemma_reads_rise(
    before: Seq<Exchange>,
    after: Seq<Exchange>,
    from: int,
    here: int,
    next: int,
)
    requires
        0 <= from,
        0 <= here <= next,
        rising_reads(before, from),
        reads_below(before, from, here),
        after == before || (after.len() > 0 && after == before.push(after.last()) && (
        after.last() is Read ==> stood_at(after.last(), 0) == here)),
    ensures
        rising_reads(after, from),
        after == before || !(after.last() is Read) || here < next ==> reads_below(
            after,
            from,
            next,
        ),
{
    if after != before {
        assert forall|i: int, j: int|
            from <= i < j < after.len() && (#[trigger] after[i]) is Read && (
            #[trigger] after[j]) is Read implies stood_at(after[i], 0) < stood_at(after[j], 0) by {
            assert(after[i] == before[i]);
            if j < before.len() {
                assert(after[j] == before[j]);
            }
        }
        assert forall|i: int|
            from <= i < after.len() && (#[trigger] after[i]) is Read && (!(after.last() is Read)
                || here < next) implies 0 <= stood_at(after[i], 0) < next by {
            if i < before.len() {
                assert(after[i] == before[i]);
            }
        }
    }
}

/// Whether exchange `i` comes after a write at the same place that the
/// device answered with success.
pub open spec fn wrote_before(exchanges: Seq<Exchange>, from: int, i: int) -> bool {
    exists|j: int|
        from <= j < i && (#[trigger] exchanges[j] matches Exchange::Write { at, answer, .. }
            && answer is Done && at == stood_at(exchanges[i], 0))
}

/// Whether every read from place `from` on comes after a write at its place
/// that the device answered with success: nothing is read back that was not
/// written.
pub open spec fn written_first(exchanges: Seq<Exchange>, from: int) -> bool {
    forall|i: int|
        from <= i < exchanges.len() && (#[trigger] exchanges[i]) is Read ==> wrote_before(
            exchanges,
            from,
            i,
        )
}

/// Whether a writing phase has kept up with the device and has served every
/// block between `lo` and `here` that is not marked bad.
pub open spec fn writing(
    start: Seq<Exchange>,
    now: Seq<Exchange>,
    bad_start: Set<u32>,
    bad_now: Set<u32>,
    stage: Stage,
    total_size: int,
    block_size: int,
    lo: int,
    here: int,
) -> bool {
    &&& engaged(start, now, bad_start, bad_now, block_size)
    &&& all_served(now, start.len() as int, false, stage, total_size, block_size, bad_now, lo, here)
}

/// What a writing phase that came to `done` has been to the device: it is
/// accounted for by the device's answers, and every block between `lo` and
/// `hi` that is not marked bad at its end has had a write of what the stage
/// yields there, which the device answered with success.
pub open spec fn filled(
    start: Seq<Exchange>,
    end: Seq<Exchange>,
    bad_start: Set<u32>,
    bad_end: Set<u32>,
    stage: Stage,
    total_size: int,
    block_size: int,
    lo: int,
    hi: int,
    done: Result<(), WipeError>,
) -> bool {
    &&& accounted(start, end, bad_start, bad_end, block_size, done)
    &&& all_served(end, start.len() as int, false, stage, total_size, block_size, bad_end, lo, hi)
    &&& done is Err ==> hi == stood_at(end.last(), total_size)
}

/// A writing phase that has only stepped over bad blocks so far has served
/// what it passed.
pub proof fn lemma_filled_early(
    start: Seq<Exchange>,
    end: Seq<Exchange>,
    bad_start: Set<u32>,
    bad_end: Set<u32>,
    stage: Stage,
    total_size: int,
    block_size: int,
    lo: int,
    hi: int,
    done: Result<(), WipeError>,
)
    requires
        accounted(start, end, bad_start, bad_end, block_size, done),
        all_bad(bad_end, block_size, lo, hi),
        done is Err ==> hi == stood_at(end.last(), total_size),
    ensures
        filled(start, end, bad_start, bad_end, stage, total_size, block_size, lo, hi, done),
        done is Ok ==> writing(
            start,
            end,
            bad_start,
            bad_end,
            stage,
            total_size,
            block_size,
            lo,
            hi,
        ),
{
    lemma_bad_blocks_need_no_service(
        end,
        start.len() as int,
        false,
        stage,
        total_size,
        block_size,
        bad_end,
        lo,
        hi,
    );
    if done is Ok {
        lemma_accounted_keeps_up(start, end, bad_start, bad_end, block_size);
    }
}

/// A writing phase passes a block that is marked bad without a word to the
/// device.
pub proof fn lemma_writing_skips(
    start: Seq<Exchange>,
    now: Seq<Exchange>,
    bad_start: Set<u32>,
    bad_now: Set<u32>,
    stage: Stage,
    total_size: int,
    block_size: int,
    lo: int,
    here: int,
    next: int,
)
    requires
        writing(start, now, bad_start, bad_now, stage, total_size, block_size, lo, here),
        block_size > 0,
        0 <= here,
        here % block_size == 0,
        next <= here + block_size,
        bad_now.contains(block_index(here, block_size)),
    ensures
        writing(start, now, bad_start, bad_now, stage, total_size, block_size, lo, next),
{
    lemma_served_one_more(
        now,
        start.len() as int,
        false,
        stage,
        total_size,
        block_size,
        bad_now,
        lo,
        here,
        next,
    );
}

/// A writing phase after the write of a chunk at the block at `here`: the
/// block is served or marked, or the phase has failed.
pub proof fn lemma_writing_writes(
    start: Seq<Exchange>,
    now: Seq<Exchange>,
    after: Seq<Exchange>,
    bad_start: Set<u32>,
    bad_now: Set<u32>,
    bad_after: Set<u32>,
    stage: Stage,
    total_size: int,
    block_size: int,
    lo: int,
    here: int,
    next: int,
    chunk: Seq<u8>,
    written: Result<bool, WipeError>,
)
    requires
        writing(start, now, bad_start, bad_now, stage, total_size, block_size, lo, here),
        stepped(now, after, bad_now, bad_after, block_size, here, written),
        !bad_now.contains(block_index(here, block_size)) ==> after.len() > 0 && (
        after.last() matches Exchange::Write { data, .. } && data == chunk),
        yields(stage, total_size, block_size, here, chunk),
        block_size > 0,
        0 <= here,
        here % block_size == 0,
        next <= here + block_size,
    ensures
        written is Ok ==> writing(
            start,
            after,
            bad_start,
            bad_after,
            stage,
            total_size,
            block_size,
            lo,
            next,
        ),
        written matches Err(error) ==> filled(
            start,
            after,
            bad_start,
            bad_after,
            stage,
            total_size,
            block_size,
            lo,
            here,
            Err::<(), WipeError>(error),
        ),
{
    lemma_after_step(
        start,
        now,
        after,
        bad_start,
        bad_now,
        bad_after,
        block_size,
        here,
        written,
    );
    lemma_served_stays(
        now,
        after,
        start.len() as int,
        false,
        stage,
        total_size,
        block_size,
        bad_now,
        bad_after,
        lo,
        here,
    );
    if written is Ok {
        if !bad_after.contains(block_index(here, block_size)) {
            let last = after.len() - 1;
            assert(start.len() <= last);
            assert(serves(after[last], false, stage, total_size, block_size, here));
        }
        lemma_served_one_more(
            after,
            start.len() as int,
            false,
            stage,
            total_size,
            block_size,
            bad_after,
            lo,
            here,
            next,
        );
    }
}

/// A writing phase after a seek to the block at `there`.
pub proof fn lemma_writing_seeks(
    start: Seq<Exchange>,
    now: Seq<Exchange>,
    after: Seq<Exchange>,
    bad_start: Set<u32>,
    bad_now: Set<u32>,
    bad_after: Set<u32>,
    stage: Stage,
    total_size: int,
    block_size: int,
    lo: int,
    there: int,
    taken: Result<bool, WipeError>,
)
    requires
        writing(start, now, bad_start, bad_now, stage, total_size, block_size, lo, there),
        stepped(now, after, bad_now, bad_after, block_size, there, taken),
    ensures
        taken is Ok ==> writing(
            start,
            after,
            bad_start,
            bad_after,
            stage,
            total_size,
            block_size,
            lo,
            there,
        ),
        taken matches Err(error) ==> filled(
            start,
            after,
            bad_start,
            bad_after,
            stage,
            total_size,
            block_size,
            lo,
            there,
            Err::<(), WipeError>(error),
        ),
{
    lemma_after_step(
        start,
        now,
        after,
        bad_start,
        bad_now,
        bad_after,
        block_size,
        there,
        taken,
    );
    lemma_served_stays(
        now,
        after,
        start.len() as int,
        false,
        stage,
        total_size,
        block_size,
        bad_now,
        bad_after,
        lo,
        there,
    );
}

/// A writing phase ends with a flush, and comes to what the device answers
/// to it.
pub proof fn lemma_writing_flushes(
    start: Seq<Exchange>,
    now: Seq<Exchange>,
    answer: Answer,
    bad_start: Set<u32>,
    bad_now: Set<u32>,
    stage: Stage,
    total_size: int,
    block_size: int,
    lo: int,
    hi: int,
)
    requires
        writing(start, now, bad_start, bad_now, stage, total_size, block_size, lo, hi),
        hi == total_size,
    ensures
        filled(
            start,
            now.push(Exchange::Flush { answer }),
            bad_start,
            bad_now,
            stage,
            total_size,
            block_size,
            lo,
            hi,
            flush_result(answer),
        ),
{
    let next = Exchange::Flush { answer };
    let after = now.push(next);
    assert(carried(now, after));
    assert(after.last() == next);
    if answer is Done {
        lemma_engaged_on(start, now, next, bad_start, bad_now, block_size);
        lemma_accounted_well(start, after, bad_start, bad_now, block_size);
    } else {
        lemma_engaged_ends(start, now, next, bad_start, bad_now, block_size);
    }
    lemma_served_stays(
        now,
        after,
        start.len() as int,
        false,
        stage,
        total_size,
        block_size,
        bad_now,
        bad_now,
        lo,
        hi,
    );
}

/// Whether an exchange, if it is a read that the device answered with
/// success, filled the whole buffer.
pub open spec fn is_full(exchange: Exchange) -> bool {
    match exchange {
        Exchange::Read { count, got, answer: Answer::Done, .. } => count == got.len(),
        _ => true,
    }
}

/// Whether every read from place `from` on that the device answered with
/// success filled the whole buffer. A device may hand out fewer bytes than
/// it is asked for; the engine does not look at that number, so after such a
/// read the device's cursor and the engine's position differ.
pub open spec fn full_reads(exchanges: Seq<Exchange>, from: int) -> bool {
    forall|i: int| from <= i < exchanges.len() ==> is_full(#[trigger] exchanges[i])
}

/// Whether exchange `i`, if it is a read, was made at the start of a block
/// that was not marked bad then: neither at the start of the phase nor by an
/// answer of the device since.
pub open spec fn in_place(
    exchanges: Seq<Exchange>,
    i: int,
    from: int,
    bad_start: Set<u32>,
    block_size: int,
) -> bool {
    match exchanges[i] {
        Exchange::Read { at, .. } => {
            &&& at % block_size == 0
            &&& !bad_start.contains(block_index(at, block_size))
            &&& !refusals(exchanges.take(i), from, block_size).contains(
                block_index(at, block_size),
            )
        },
        _ => true,
    }
}

/// Whether no read from place `from` on was made in a block marked bad.
pub open spec fn reads_in_place(
    exchanges: Seq<Exchange>,
    from: int,
    bad_start: Set<u32>,
    block_size: int,
) -> bool {
    forall|i: int|
        from <= i < exchanges.len() ==> #[trigger] in_place(
            exchanges,
            i,
            from,
            bad_start,
            block_size,
        )
}

/// Whether an exchange, if it is a read that the device answered with
/// success, left in the buffer what the stage yields at the place of the
/// read.
pub open spec fn sound(exchange: Exchange, stage: Stage, total_size: int, block_size: int) -> bool {
    match exchange {
        Exchange::Read { at, got, answer: Answer::Done, .. } => yields(
            stage,
            total_size,
            block_size,
            at,
            got,
        ),
        _ => true,
    }
}

/// Whether every read from place `from` up to place `to` that the device
/// answered with success left in the buffer what the stage yields there.
pub open spec fn sound_reads(
    exchanges: Seq<Exchange>,
    from: int,
    to: int,
    stage: Stage,
    total_size: int,
    block_size: int,
) -> bool {
    forall|i: int|
        from <= i < to && i < exchanges.len() ==> sound(
            #[trigger] exchanges[i],
            stage,
            total_size,
            block_size,
        )
}

/// Whether a phase ended because what was read back is not what was written.
pub open spec fn is_mismatch(done: Result<(), WipeError>) -> bool {
    done matches Err(error) && error is VerificationMismatch
}

/// What a read of the block at its place comes to: a failure that the device
/// answered, a mismatch where the bytes that it left differ from `chunk`, and
/// else success.
pub open spec fn read_result(answer: Answer, got: Seq<u8>, chunk: Seq<u8>) -> Result<
    (),
    WipeError,
> {
    match answer {
        Answer::Done => if got == chunk {
            Ok(())
        } else {
            Err(WipeError::VerificationMismatch)
        },
        Answer::BadBlock => Err(WipeError::BadBlock),
        Answer::Failed(cause) => Err(WipeError::Io(cause)),
    }
}

/// Whether a read-back phase has kept up with the device and, as long as
/// every read was full, has read at the start of unmarked blocks only, has
/// found there what the stage yields, has served every block between `lo`
/// and `here` that is not marked bad, and has the device's cursor at `here`
/// where the block there is to be read.
pub open spec fn reading(
    start: Seq<Exchange>,
    now: Seq<Exchange>,
    bad_start: Set<u32>,
    bad_now: Set<u32>,
    stage: Stage,
    total_size: int,
    block_size: int,
    lo: int,
    here: int,
    cursor: int,
) -> bool {
    &&& engaged(start, now, bad_start, bad_now, block_size)
    &&& full_reads(now, start.len() as int) ==> {
        &&& reads_in_place(now, start.len() as int, bad_start, block_size)
        &&& sound_reads(now, start.len() as int, now.len() as int, stage, total_size, block_size)
        &&& all_served(
            now,
            start.len() as int,
            true,
            stage,
            total_size,
            block_size,
            bad_now,
            lo,
            here,
        )
        &&& here < total_size && !bad_now.contains(block_index(here, block_size)) ==> cursor
            == here
        &&& reads_below(now, start.len() as int, here)
        &&& rising_reads(now, start.len() as int)
    }
}

/// What a read-back phase that came to `done` has been to the device. The
/// exchanges have been carried on, none but the last ends an attempt, and
/// the blocks marked since are those that the device refused. The phase
/// succeeded only if no exchange ends the attempt; it found a mismatch only
/// if its last exchange is a read that the device answered with success; it
/// failed otherwise exactly with what its last exchange stands for. And as
/// long as every read was full: no read was made in a block marked bad;
/// every read before a mismatch found what the stage yields; the read of a
/// mismatch found what differs from it; and every block between `lo` and
/// `hi` that is not marked bad at the end was read and found right.
pub open spec fn verified(
    start: Seq<Exchange>,
    end: Seq<Exchange>,
    bad_start: Set<u32>,
    bad_end: Set<u32>,
    stage: Stage,
    total_size: int,
    block_size: int,
    lo: int,
    hi: int,
    done: Result<(), WipeError>,
) -> bool {
    &&& carried(start, end)
    &&& calm(end, start.len() as int, end.len() - 1)
    &&& bad_end == bad_start.union(refusals(end, start.len() as int, block_size))
    &&& if is_mismatch(done) {
        &&& end.len() > start.len()
        &&& end.last() is Read
        &&& step_answer(end.last()) is Done
    } else {
        done == outcome_of(end, start.len() as int)
    }
    &&& done is Err ==> end.len() > start.len() && (end.last() is Seek || full_reads(
        end,
        start.len() as int,
    ) ==> hi == stood_at(end.last(), total_size))
    &&& full_reads(end, start.len() as int) ==> {
        &&& rising_reads(end, start.len() as int)
        &&& reads_below(end, start.len() as int, total_size)
        &&& reads_in_place(end, start.len() as int, bad_start, block_size)
        &&& sound_reads(
            end,
            start.len() as int,
            if is_mismatch(done) {
                end.len() - 1
            } else {
                end.len() as int
            },
            stage,
            total_size,
            block_size,
        )
        &&& all_served(
            end,
            start.len() as int,
            true,
            stage,
            total_size,
            block_size,
            bad_end,
            lo,
            hi,
        )
        &&& is_mismatch(done) ==> (end.last() matches Exchange::Read { at, got, .. } && differs(
            stage,
            total_size,
            block_size,
            at,
            got,
        ))
    }
}

/// No exchange stands for a mismatch: that is found by the engine.
pub proof fn lemma_no_answer_is_a_mismatch(exchange: Exchange)
    ensures
        ends_attempt(exchange) matches Some(error) ==> !(error is VerificationMismatch),
{
}

/// One more exchange leaves every earlier read in its place, and so is the
/// new one unless it is a read in a marked block or off a block's start.
pub proof fn lemma_reads_stay_in_place(
    now: Seq<Exchange>,
    next: Exchange,
    from: int,
    bad_start: Set<u32>,
    bad_now: Set<u32>,
    block_size: int,
)
    requires
        0 <= from <= now.len(),
        reads_in_place(now, from, bad_start, block_size),
        bad_now == bad_start.union(refusals(now, from, block_size)),
        next matches Exchange::Read { at, .. } ==> at % block_size == 0 && !bad_now.contains(
            block_index(at, block_size),
        ),
    ensures
        reads_in_place(now.push(next), from, bad_start, block_size),
{
    let after = now.push(next);
    assert forall|i: int| from <= i < after.len() implies #[trigger] in_place(
        after,
        i,
        from,
        bad_start,
        block_size,
    ) by {
        if i < now.len() {
            assert(after.take(i) =~= now.take(i));
            assert(after[i] == now[i]);
            assert(in_place(now, i, from, bad_start, block_size));
        } else {
            assert(after.take(i) =~= now);
            assert(after[i] == next);
        }
    }
}

/// One more exchange leaves every earlier read sound.
pub proof fn lemma_reads_stay_sound(
    now: Seq<Exchange>,
    next: Exchange,
    from: int,
    stage: Stage,
    total_size: int,
    block_size: int,
)
    requires
        0 <= from,
        sound_reads(now, from, now.len() as int, stage, total_size, block_size),
    ensures
        sound_reads(now.push(next), from, now.len() as int, stage, total_size, block_size),
        sound(next, stage, total_size, block_size) ==> sound_reads(
            now.push(next),
            from,
            (now.len() + 1) as int,
            stage,
            total_size,
            block_size,
        ),
{
    let after = now.push(next);
    assert forall|i: int| from <= i < now.len() implies sound(
        #[trigger] after[i],
        stage,
        total_size,
        block_size,
    ) by {
        assert(after[i] == now[i]);
    }
}

/// Where every read was full, every earlier read was.
pub proof fn lemma_full_reads_before(now: Seq<Exchange>, next: Exchange, from: int)
    requires
        0 <= from <= now.len(),
        full_reads(now.push(next), from),
    ensures
        full_reads(now, from),
        is_full(next),
{
    let after = now.push(next);
    assert forall|i: int| from <= i < now.len() implies is_full(#[trigger] now[i]) by {
        assert(after[i] == now[i]);
    }
    assert(after[now.len() as int] == next);
}

/// A read-back phase that has only stepped over bad blocks so far.
pub proof fn lemma_reading_begins(
    start: Seq<Exchange>,
    now: Seq<Exchange>,
    bad_start: Set<u32>,
    bad_now: Set<u32>,
    stage: Stage,
    total_size: int,
    block_size: int,
    lo: int,
    here: int,
    cursor: int,
    found: Result<(), WipeError>,
)
    requires
        accounted(start, now, bad_start, bad_now, block_size, found),
        only_seeks(now, start.len() as int),
        all_bad(bad_now, block_size, lo, here),
        found is Ok && here < total_size && !bad_now.contains(block_index(here, block_size))
            ==> cursor == here,
        found is Err ==> here == stood_at(now.last(), total_size),
    ensures
        found is Ok ==> reading(
            start,
            now,
            bad_start,
            bad_now,
            stage,
            total_size,
            block_size,
            lo,
            here,
            cursor,
        ),
        found is Err ==> verified(
            start,
            now,
            bad_start,
            bad_now,
            stage,
            total_size,
            block_size,
            lo,
            here,
            found,
        ),
{
    let from = start.len() as int;
    lemma_bad_blocks_need_no_service(
        now,
        from,
        true,
        stage,
        total_size,
        block_size,
        bad_now,
        lo,
        here,
    );
    assert forall|i: int| from <= i < now.len() implies #[trigger] in_place(
        now,
        i,
        from,
        bad_start,
        block_size,
    ) by {
        assert(now[i] is Seek);
    }
    assert forall|i: int| from <= i < now.len() implies sound(
        #[trigger] now[i],
        stage,
        total_size,
        block_size,
    ) by {
        assert(now[i] is Seek);
    }
    assert forall|i: int| from <= i < now.len() implies !((#[trigger] now[i]) is Read) by {
        assert(now[i] is Seek);
    }
    assert(rising_reads(now, from)) by {
        assert forall|i: int, j: int|
            from <= i < j < now.len() && (#[trigger] now[i]) is Read && (#[trigger] now[j])
                is Read implies stood_at(now[i], 0) < stood_at(now[j], 0) by {
            assert(now[i] is Seek);
        }
    }
    if found is Ok {
        lemma_accounted_keeps_up(start, now, bad_start, bad_now, block_size);
    } else {
        lemma_no_answer_is_a_mismatch(now.last());
    }
}

/// A read-back phase that stops without a failure is verified up to where
/// it stopped.
pub proof fn lemma_reading_is_over(
    start: Seq<Exchange>,
    now: Seq<Exchange>,
    bad_start: Set<u32>,
    bad_now: Set<u32>,
    stage: Stage,
    total_size: int,
    block_size: int,
    lo: int,
    hi: int,
    cursor: int,
)
    requires
        reading(start, now, bad_start, bad_now, stage, total_size, block_size, lo, hi, cursor),
        hi <= total_size,
    ensures
        verified(
            start,
            now,
            bad_start,
            bad_now,
            stage,
            total_size,
            block_size,
            lo,
            hi,
            Ok::<(), WipeError>(()),
        ),
{
    lemma_accounted_well(start, now, bad_start, bad_now, block_size);
}

/// A read-back phase passes a block that is marked bad and seeks to the
/// next.
pub proof fn lemma_reading_seeks(
    start: Seq<Exchange>,
    now: Seq<Exchange>,
    after: Seq<Exchange>,
    bad_start: Set<u32>,
    bad_now: Set<u32>,
    bad_after: Set<u32>,
    stage: Stage,
    total_size: int,
    block_size: int,
    lo: int,
    here: int,
    next: int,
    cursor_before: int,
    cursor_after: int,
    taken: Result<bool, WipeError>,
)
    requires
        reading(
            start,
            now,
            bad_start,
            bad_now,
            stage,
            total_size,
            block_size,
            lo,
            here,
            cursor_before,
        ),
        block_size > 0,
        0 <= here,
        here % block_size == 0,
        here <= next <= here + block_size,
        next <= total_size,
        bad_now.contains(block_index(here, block_size)),
        stepped(now, after, bad_now, bad_after, block_size, next, taken),
        after != now ==> after.last() is Seek,
        taken == Ok::<bool, WipeError>(true) ==> cursor_after == next,
    ensures
        taken is Ok ==> reading(
            start,
            after,
            bad_start,
            bad_after,
            stage,
            total_size,
            block_size,
            lo,
            next,
            cursor_after,
        ),
        taken matches Err(error) ==> verified(
            start,
            after,
            bad_start,
            bad_after,
            stage,
            total_size,
            block_size,
            lo,
            next,
            Err::<(), WipeError>(error),
        ),
{
    let from = start.len() as int;
    lemma_after_step(
        start,
        now,
        after,
        bad_start,
        bad_now,
        bad_after,
        block_size,
        next,
        taken,
    );
    if after != now {
        lemma_no_answer_is_a_mismatch(after.last());
    }
    if full_reads(after, from) {
        if after != now {
            lemma_full_reads_before(now, after.last(), from);
        }
        lemma_reads_rise(now, after, from, here, next);
        if after != now {
            lemma_full_reads_before(now, after.last(), from);
            lemma_reads_stay_in_place(now, after.last(), from, bad_start, bad_now, block_size);
            lemma_reads_stay_sound(now, after.last(), from, stage, total_size, block_size);
        }
        lemma_served_one_more(
            now,
            from,
            true,
            stage,
            total_size,
            block_size,
            bad_now,
            lo,
            here,
            next,
        );
        lemma_served_stays(
            now,
            after,
            from,
            true,
            stage,
            total_size,
            block_size,
            bad_now,
            bad_after,
            lo,
            next,
        );
    }
}

/// A read-back phase after the read of the block at `here`, which is held
/// against `chunk`, chunk `k` of the stream that began at `stream_start`.
pub proof fn lemma_reading_reads(
    start: Seq<Exchange>,
    now: Seq<Exchange>,
    bad_start: Set<u32>,
    bad_now: Set<u32>,
    stage: Stage,
    total_size: int,
    block_size: int,
    lo: int,
    here: int,
    cursor: int,
    count: int,
    got: Seq<u8>,
    answer: Answer,
    chunk: Seq<u8>,
    stream_start: int,
    k: int,
)
    requires
        reading(start, now, bad_start, bad_now, stage, total_size, block_size, lo, here, cursor),
        block_size > 0,
        0 <= here < total_size,
        here % block_size == 0,
        0 < got.len() <= block_size,
        !bad_now.contains(block_index(here, block_size)),
        is_chunk(stage, total_size, block_size, here, chunk, stream_start, k),
    ensures
        read_result(answer, got, chunk) is Ok ==> reading(
            start,
            now.push(Exchange::Read { at: cursor, count, got, answer }),
            bad_start,
            bad_now,
            stage,
            total_size,
            block_size,
            lo,
            here + got.len(),
            cursor + count,
        ),
        read_result(answer, got, chunk) is Err ==> verified(
            start,
            now.push(Exchange::Read { at: cursor, count, got, answer }),
            bad_start,
            bad_now,
            stage,
            total_size,
            block_size,
            lo,
            here,
            read_result(answer, got, chunk),
        ),
{
    let from = start.len() as int;
    let read = Exchange::Read { at: cursor, count, got, answer };
    let after = now.push(read);
    let outcome = read_result(answer, got, chunk);
    assert(after.last() == read);
    assert(carried(now, after));
    if answer is Done {
        lemma_engaged_on(start, now, read, bad_start, bad_now, block_size);
        lemma_engaged_is_well(start, after, bad_start, bad_now, block_size);
    } else {
        lemma_engaged_ends(start, now, read, bad_start, bad_now, block_size);
    }
    if full_reads(after, from) {
        lemma_full_reads_before(now, read, from);
        lemma_reads_stay_sound(now, read, from, stage, total_size, block_size);
        assert(cursor == here);
        lemma_reads_rise(now, after, from, here, here + got.len());
        lemma_reads_stay_in_place(now, read, from, bad_start, bad_now, block_size);
        lemma_served_stays(
            now,
            after,
            from,
            true,
            stage,
            total_size,
            block_size,
            bad_now,
            bad_now,
            lo,
            here,
        );
        if outcome is Ok {
            assert(got == chunk);
            assert(is_chunk(stage, total_size, block_size, here, got, stream_start, k));
            assert(sound(read, stage, total_size, block_size));
            assert(serves(after[now.len() as int], true, stage, total_size, block_size, here));
            lemma_served_one_more(
                after,
                from,
                true,
                stage,
                total_size,
                block_size,
                bad_now,
                lo,
                here,
                here + got.len(),
            );
        } else if answer is Done {
            assert(is_not_chunk(stage, total_size, block_size, here, got, stream_start, k));
        }
    }
}

/// The bytes that `contents` holds in the block that begins at the offset
/// `at`: a whole block, or what is left of the device.
pub open spec fn block_at(contents: Seq<u8>, total_size: int, block_size: int, at: int) -> Seq<
    u8,
> {
    contents.subrange(at, at + chunk_len(total_size, block_size, at))
}

/// Whether every block that begins below `limit` and is not marked in `bad`
/// holds what a stream of `stage` yields for it.
#[verifier::opaque]
pub open spec fn settled(
    contents: Seq<u8>,
    stage: Stage,
    total_size: int,
    block_size: int,
    bad: Set<u32>,
    limit: int,
) -> bool {
    forall|at: int|
        0 <= at < limit && at % block_size == 0 && !bad.contains(
            #[trigger] block_index(at, block_size),
        ) ==> at + chunk_len(total_size, block_size, at) <= contents.len() && yields(
            stage,
            total_size,
            block_size,
            at,
            block_at(contents, total_size, block_size, at),
        )
}

/// Nothing is asked of the blocks below the start of the device.
pub proof fn lemma_settled_begins(
    contents: Seq<u8>,
    stage: Stage,
    total_size: int,
    block_size: int,
    bad: Set<u32>,
)
    ensures
        settled(contents, stage, total_size, block_size, bad, 0),
{
    reveal(settled);
}

/// Blocks that are settled stay so when more blocks are marked, up to a
/// lower limit, and past blocks all of which are marked.
pub proof fn lemma_settled_past_bad(
    contents: Seq<u8>,
    stage: Stage,
    total_size: int,
    block_size: int,
    bad: Set<u32>,
    more_bad: Set<u32>,
    lo: int,
    hi: int,
)
    requires
        settled(contents, stage, total_size, block_size, bad, lo),
        bad.subset_of(more_bad),
        hi <= lo || all_bad(more_bad, block_size, lo, hi),
    ensures
        settled(contents, stage, total_size, block_size, more_bad, hi),
{
    reveal(settled);
}

/// What a write at the block at `here` leaves settled. The blocks before it
/// are untouched; the block itself is settled where it is marked bad, or
/// where it holds what the stage yields for it.
pub proof fn lemma_settled_on(
    before: Seq<u8>,
    after: Seq<u8>,
    stage: Stage,
    total_size: int,
    block_size: int,
    bad: Set<u32>,
    more_bad: Set<u32>,
    here: int,
    len: int,
    hi: int,
)
    requires
        block_size > 0,
        0 <= here,
        here % block_size == 0,
        0 <= len <= block_size,
        bad.subset_of(more_bad),
        settled(before, stage, total_size, block_size, bad, here),
        after == before || crate::storage::intact_outside(before, here, len, after),
        here <= hi <= here + block_size,
        hi > here ==> more_bad.contains(block_index(here, block_size)) || (here + chunk_len(
            total_size,
            block_size,
            here,
        ) <= after.len() && yields(
            stage,
            total_size,
            block_size,
            here,
            block_at(after, total_size, block_size, here),
        )),
    ensures
        settled(after, stage, total_size, block_size, more_bad, hi),
{
    reveal(settled);
    assert forall|at: int|
        0 <= at < hi && at % block_size == 0 && !more_bad.contains(
            #[trigger] block_index(at, block_size),
        ) implies at + chunk_len(total_size, block_size, at) <= after.len() && yields(
        stage,
        total_size,
        block_size,
        at,
        block_at(after, total_size, block_size, at),
    ) by {
        if at < here {
            if here < at + block_size {
                lemma_one_block_start(block_size, at, here);
            }
            assert(block_at(after, total_size, block_size, at) =~= block_at(
                before,
                total_size,
                block_size,
                at,
            ));
        } else {
            lemma_one_block_start(block_size, here, at);
        }
    }
}

/// What a block that begins at the offset `at` holds when every byte of it
/// holds the pattern of `stage`.
pub open spec fn pattern_block(stage: Stage, total_size: int, block_size: int, at: int) -> Seq<
    u8,
> {
    Seq::new(chunk_len(total_size, block_size, at) as nat, |i: int| stage.pattern(at + i))
}

/// Where the streams of a stage agree on a pattern, what a stream yields for
/// a block is that pattern and nothing else: bytes are what the stage yields
/// there exactly if they are the pattern, and differ from what it yields
/// exactly if they are not.
pub proof fn lemma_patterned_chunks(
    stage: Stage,
    total_size: int,
    block_size: int,
    at: int,
    data: Seq<u8>,
)
    requires
        block_size > 0,
        stage is Fill || block_size % 4 == 0,
        0 <= at,
        at % block_size == 0,
    ensures
        yields(stage, total_size, block_size, at, data) <==> data == pattern_block(
            stage,
            total_size,
            block_size,
            at,
        ),
        differs(stage, total_size, block_size, at, data) <==> data != pattern_block(
            stage,
            total_size,
            block_size,
            at,
        ),
{
    let expected = pattern_block(stage, total_size, block_size, at);
    assert forall|start: int, k: int| 0 <= start && 0 <= k && start + k * block_size == at implies stage.chunk(
        total_size,
        block_size,
        start,
        k,
    ) == expected by {
        assert(start % 4 == 0 || stage is Fill) by (nonlinear_arith)
            requires
                stage is Fill || block_size % 4 == 0,
                block_size > 0,
                0 <= start,
                0 <= k,
                start + k * block_size == at,
                at % block_size == 0,
        {
            if block_size % 4 == 0 {
                let q = block_size / 4;
                let m = at / block_size;
                assert(block_size == 4 * q);
                assert(at == m * block_size);
                assert(start == (m - k) * block_size);
                assert(start == 4 * ((m - k) * q));
            }
        }
        assert forall|i: int| stage.stream_byte(start, block_size, k, i) == stage.pattern(
            at + i,
        ) by {
            lemma_stream_follows_pattern(stage, start, block_size, k, i);
        }
        assert(stage.chunk(total_size, block_size, start, k) =~= expected);
    }
    assert(0 * block_size == 0) by (nonlinear_arith);
    if data == expected {
        assert(is_chunk(stage, total_size, block_size, at, data, at, 0));
    } else {
        assert(is_not_chunk(stage, total_size, block_size, at, data, at, 0));
    }
}

/// Where every read was full, so was every read among the earlier exchanges
/// and every read from a later place on.
pub proof fn lemma_full_reads_within(
    before: Seq<Exchange>,
    after: Seq<Exchange>,
    from: int,
    later: int,
)
    requires
        carried(before, after),
        0 <= from <= later,
        full_reads(after, from),
    ensures
        full_reads(before, from),
        full_reads(after, later),
{
    assert forall|i: int| from <= i < before.len() implies is_full(#[trigger] before[i]) by {
        assert(after[i] == before[i]);
    }
}

/// Whether an exchange keeps within what a wipe may ask of a device of
/// `total_size` bytes: a seek goes to a place within the device or to its
/// end; a write lies within the device; writes and flushes are made only
/// where `writes` are in order, and reads only where `reads` are. A wipe
/// never asks the device where its cursor is.
pub open spec fn proper(exchange: Exchange, total_size: int, writes: bool, reads: bool) -> bool {
    match exchange {
        Exchange::Position { .. } => false,
        Exchange::Seek { position, .. } => position <= total_size,
        Exchange::Write { at, data, .. } => writes && 0 <= at && at + data.len() <= total_size,
        Exchange::Read { .. } => reads,
        Exchange::Flush { .. } => writes,
    }
}

/// Whether every exchange from place `from` on keeps within what a wipe may
/// ask of the device.
pub open spec fn kept_within(
    exchanges: Seq<Exchange>,
    from: int,
    total_size: int,
    writes: bool,
    reads: bool,
) -> bool {
    forall|i: int|
        from <= i < exchanges.len() ==> proper(#[trigger] exchanges[i], total_size, writes, reads)
}

/// One more exchange that keeps within bounds, or none, leaves the exchanges
/// within bounds.
pub proof fn lemma_kept_on(
    before: Seq<Exchange>,
    after: Seq<Exchange>,
    from: int,
    total_size: int,
    writes: bool,
    reads: bool,
)
    requires
        0 <= from,
        kept_within(before, from, total_size, writes, reads),
        after == before || (after.len() > 0 && after == before.push(after.last()) && proper(
            after.last(),
            total_size,
            writes,
            reads,
        )),
    ensures
        kept_within(after, from, total_size, writes, reads),
{
    assert forall|i: int| from <= i < after.len() implies proper(
        #[trigger] after[i],
        total_size,
        writes,
        reads,
    ) by {
        if after != before && i < before.len() {
            assert(after[i] == before[i]);
        }
    }
}

/// Exchanges within bounds, carried on by exchanges within narrower bounds,
/// are within bounds.
pub proof fn lemma_kept_join(
    before: Seq<Exchange>,
    after: Seq<Exchange>,
    from: int,
    total_size: int,
    writes_since: bool,
    reads_since: bool,
    writes: bool,
    reads: bool,
)
    requires
        carried(before, after),
        0 <= from <= before.len(),
        kept_within(before, from, total_size, writes, reads),
        kept_within(after, before.len() as int, total_size, writes_since, reads_since),
        writes_since ==> writes,
        reads_since ==> reads,
    ensures
        kept_within(after, from, total_size, writes, reads),
{
    assert forall|i: int| from <= i < after.len() implies proper(
        #[trigger] after[i],
        total_size,
        writes,
        reads,
    ) by {
        if i < before.len() {
            assert(after[i] == before[i]);
        }
    }
}

/// One more exchange that is no short read, or none, leaves every read
/// full; and seeks are no reads.
pub proof fn lemma_full_reads_on(before: Seq<Exchange>, after: Seq<Exchange>, from: int)
    requires
        0 <= from,
        full_reads(before, from) || only_seeks(before, from),
        after == before || (after.len() > 0 && after == before.push(after.last()) && is_full(
            after.last(),
        )),
    ensures
        full_reads(after, from),
{
    assert forall|i: int| from <= i < after.len() implies is_full(#[trigger] after[i]) by {
        if i < before.len() {
            assert(after[i] == before[i]);
            if !full_reads(before, from) {
                assert(before[i] is Seek);
            }
        }
    }
}

/// Whether exchange `i`, if it is a read and every read before it filled its
/// buffer, was made at the start of a block and asked for no more than what
/// is left of the device from there. A device that fills the buffer of every
/// such read has filled them all.
pub open spec fn fits(
    exchanges: Seq<Exchange>,
    i: int,
    from: int,
    total_size: int,
    block_size: int,
) -> bool {
    exchanges[i] matches Exchange::Read { at, got, .. } ==> (full_reads(exchanges.take(i), from)
        ==> 0 <= at && at % block_size == 0 && 0 < got.len() && at + got.len() <= total_size)
}

/// Whether every read from place `from` on fits the device, as long as the
/// reads before it filled their buffers.
pub open spec fn reads_fit(
    exchanges: Seq<Exchange>,
    from: int,
    total_size: int,
    block_size: int,
) -> bool {
    forall|i: int|
        from <= i < exchanges.len() ==> #[trigger] fits(exchanges, i, from, total_size, block_size)
}

/// One more exchange that fits, or none, leaves the reads fitting.
pub proof fn lemma_reads_fit_on(
    before: Seq<Exchange>,
    after: Seq<Exchange>,
    from: int,
    total_size: int,
    block_size: int,
)
    requires
        0 <= from,
        reads_fit(before, from, total_size, block_size),
        after == before || (after.len() > 0 && after == before.push(after.last()) && fits(
            after,
            after.len() - 1,
            from,
            total_size,
            block_size,
        )),
    ensures
        reads_fit(after, from, total_size, block_size),
{
    assert forall|i: int| from <= i < after.len() implies #[trigger] fits(
        after,
        i,
        from,
        total_size,
        block_size,
    ) by {
        if after != before && i < before.len() {
            assert(after[i] == before[i]);
            assert(after.take(i) =~= before.take(i));
            assert(fits(before, i, from, total_size, block_size));
        }
    }
}

/// Where nothing is read, every read fits.
pub proof fn lemma_no_reads_fit(
    exchanges: Seq<Exchange>,
    from: int,
    total_size: int,
    block_size: int,
    writes: bool,
)
    requires
        kept_within(exchanges, from, total_size, writes, false),
    ensures
        reads_fit(exchanges, from, total_size, block_size),
{
    assert forall|i: int| from <= i < exchanges.len() implies #[trigger] fits(
        exchanges,
        i,
        from,
        total_size,
        block_size,
    ) by {
        assert(proper(exchanges[i], total_size, writes, false));
    }
}

/// Reads that fit, carried on by reads that fit, fit.
pub proof fn lemma_reads_fit_join(
    before: Seq<Exchange>,
    after: Seq<Exchange>,
    from: int,
    total_size: int,
    block_size: int,
)
    requires
        carried(before, after),
        0 <= from <= before.len(),
        reads_fit(before, from, total_size, block_size),
        reads_fit(after, before.len() as int, total_size, block_size),
    ensures
        reads_fit(after, from, total_size, block_size),
{
    assert forall|i: int| from <= i < after.len() implies #[trigger] fits(
        after,
        i,
        from,
        total_size,
        block_size,
    ) by {
        if i < before.len() {
            assert(after[i] == before[i]);
            assert(after.take(i) =~= before.take(i));
            assert(fits(before, i, from, total_size, block_size));
        } else {
            assert(fits(after, i, before.len() as int, total_size, block_size));
            let shown = after.take(i);
            if full_reads(shown, from) {
                assert forall|j: int| before.len() <= j < shown.len() implies is_full(
                    #[trigger] shown[j],
                ) by {}
            }
        }
    }
}

/// A write phase during which the device answers no write with success marks
/// every block that it passes: a block that stays unmarked has had a write
/// that succeeded.
pub proof fn lemma_phase_without_a_write_marks_all(
    start: Seq<Exchange>,
    end: Seq<Exchange>,
    bad_start: Set<u32>,
    bad_end: Set<u32>,
    stage: Stage,
    total_size: int,
    block_size: int,
    lo: int,
    hi: int,
    done: Result<(), WipeError>,
    at: int,
)
    requires
        filled(start, end, bad_start, bad_end, stage, total_size, block_size, lo, hi, done),
        forall|i: int|
            start.len() <= i < end.len() ==> !((#[trigger] end[i]) is Write && step_answer(end[i])
                is Done),
        lo <= at < hi,
        at % block_size == 0,
    ensures
        bad_end.contains(block_index(at, block_size)),
{
    if !bad_end.contains(block_index(at, block_size)) {
        assert(served(end, start.len() as int, false, stage, total_size, block_size, at));
        let i = choose|i: int|
            start.len() <= i < end.len() && serves(
                #[trigger] end[i],
                false,
                stage,
                total_size,
                block_size,
                at,
            );
        assert(end[i] is Write && step_answer(end[i]) is Done);
    }
}

} // verus!
