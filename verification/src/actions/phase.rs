//! The two phases of a stage, writing and reading back, and the steps they
//! are made of: moving on block by block, stepping around bad blocks, and
//! keeping the receiver informed.

use crate::actions::exchange::accounted;
use crate::actions::exchange::block_at;
use crate::actions::exchange::engaged;
use crate::actions::exchange::filled;
use crate::actions::exchange::full_reads;
use crate::actions::exchange::is_chunk;
use crate::actions::exchange::is_mismatch;
use crate::actions::exchange::kept_within;
use crate::actions::exchange::lemma_accounted_well;
use crate::actions::exchange::lemma_after_step;
use crate::actions::exchange::lemma_engaged_begins;
use crate::actions::exchange::lemma_filled_early;
use crate::actions::exchange::lemma_full_reads_before;
use crate::actions::exchange::lemma_full_reads_on;
use crate::actions::exchange::lemma_kept_join;
use crate::actions::exchange::lemma_kept_on;
use crate::actions::exchange::lemma_no_reads_fit;
use crate::actions::exchange::lemma_reads_fit_on;
use crate::actions::exchange::reads_fit;
use crate::actions::exchange::lemma_reading_begins;
use crate::actions::exchange::lemma_reading_is_over;
use crate::actions::exchange::lemma_reading_reads;
use crate::actions::exchange::lemma_reading_seeks;
use crate::actions::exchange::lemma_settled_on;
use crate::actions::exchange::lemma_settled_past_bad;
use crate::actions::exchange::lemma_writing_flushes;
use crate::actions::exchange::lemma_writing_seeks;
use crate::actions::exchange::lemma_writing_skips;
use crate::actions::exchange::lemma_writing_writes;
use crate::actions::exchange::only_seeks;
use crate::actions::exchange::reading;
use crate::actions::exchange::settled;
use crate::actions::exchange::step_result;
use crate::actions::exchange::stepped;
use crate::actions::exchange::stood_at;
use crate::actions::exchange::verified;
use crate::actions::exchange::writing;
use crate::actions::marker::BlockMarker;
use crate::actions::report::Notice;
use crate::actions::report::grows;
use crate::actions::report::lemma_grows_by_one;
use crate::actions::report::lemma_grows_on;
use crate::actions::report::lemma_grows_reflexive;
use crate::actions::report::lemma_grows_transitive;
use crate::actions::report::lemma_same_marks_no_marking;
use crate::actions::report::lemma_step_on;
use crate::actions::report::lemma_steps_join;
use crate::actions::report::lemma_stride_on;
use crate::actions::report::may_follow;
use crate::actions::report::only_steps;
use crate::actions::report::phase_strides;
use crate::actions::report::progress_notice;
use crate::actions::report::strides;
use crate::actions::report::synced;
use crate::actions::report::unmarked;
use crate::actions::wipe::MAX_BLOCKS;
use crate::actions::wipe::WipeError;
use crate::actions::wipe::WipeEvent;
use crate::actions::wipe::WipeEventReceiver;
use crate::actions::wipe::WipeState;
use crate::actions::wipe::WipeStateView;
use crate::actions::wipe::WipeTask;
use crate::sanitization::mem::AlignedBuffer;
use crate::sanitization::stage::Stage;
use crate::sanitization::stage::chunk_count;
use crate::sanitization::stage::chunk_len;
use crate::sanitization::stage::chunk_offset;
use crate::sanitization::stage::lemma_chunks_cover_the_range;
use crate::sanitization::stage::lemma_stream_follows_pattern;
use crate::storage::Exchange;
use crate::storage::StorageAccess;
use crate::storage::StorageError;
use vstd::prelude::*;

verus! {

/// The 32-bit index of the block that holds the byte at `position`. Indices
/// wrap around at 2^32, which a task made by `WipeTask::new` reaches only past
/// its last whole block.
pub open spec fn block_index(position: int, block_size: int) -> u32 {
    ((position / block_size) % 0x1_0000_0000) as u32
}

/// Whether every byte below `limit` that lies in a block not marked bad holds
/// what the pass `stage` puts there.
pub open spec fn covered(
    contents: Seq<u8>,
    stage: Stage,
    bad: Set<u32>,
    block_size: int,
    limit: int,
) -> bool {
    forall|o: int|
        #![trigger contents[o]]
        #![trigger block_index(o, block_size)]
        0 <= o < limit && !bad.contains(block_index(o, block_size)) ==> o < contents.len()
            && contents[o] == stage.pattern(o)
}

/// Whether every block from `from` up to `limit` is marked bad.
pub open spec fn all_bad(bad: Set<u32>, block_size: int, from: int, limit: int) -> bool {
    forall|o: int| from <= o < limit ==> bad.contains(#[trigger] block_index(o, block_size))
}

/// Whether the streams of a pass agree with one another wherever they are
/// started on a block boundary: a constant pass always does, a random pass
/// does when blocks are made of whole keystream words.
pub open spec fn patterned(stage: Stage, block_size: int) -> bool {
    stage is Fill || block_size % 4 == 0
}

/// Whether `position` is a place at which the engine starts or resumes a
/// phase: a block boundary, or the end of the device.
pub open spec fn at_block_start(task: &WipeTask, position: int) -> bool {
    &&& 0 <= position <= task.total_size
    &&& position % (task.block_size as int) == 0 || position == task.total_size
}

/// Offsets within one block share the block's index.
pub proof fn lemma_same_block(block_size: int, start: int, offset: int)
    requires
        block_size > 0,
        0 <= start,
        start % block_size == 0,
        start <= offset < start + block_size,
    ensures
        block_index(offset, block_size) == block_index(start, block_size),
{
    assert(offset / block_size == start / block_size) by (nonlinear_arith)
        requires
            block_size > 0,
            0 <= start,
            start % block_size == 0,
            start <= offset < start + block_size,
    {
        let q = start / block_size;
        assert(start == q * block_size + start % block_size);
        assert(q * block_size <= offset < (q + 1) * block_size);
    }
}

/// Hands a report to the receiver.
pub(crate) fn publish<R: WipeEventReceiver + ?Sized>(
    frontend: &mut R,
    task: &WipeTask,
    state: &WipeState,
    event: WipeEvent,
)
    ensures
        final(frontend).received() == old(frontend).received().push(
            Notice { state: state@, event },
        ),
{
    frontend.handle(task, state, event)
}

/// Whether the whole device lies behind the current position.
fn at_the_end(task: &WipeTask, state: &WipeState) -> (done: bool)
    ensures
        done == (state.position >= task.total_size),
{
    state.position >= task.total_size
}

/// The index of the block at the current position.
fn current_block_number(task: &WipeTask, state: &WipeState) -> (index: u32)
    requires
        task.block_size > 0,
    ensures
        index == block_index(state.position as int, task.block_size as int),
{
    ((state.position / task.block_size as u64) % MAX_BLOCKS) as u32
}

/// Whether the block at the current position is marked bad.
fn is_at_bad_block(task: &WipeTask, state: &WipeState) -> (bad: bool)
    requires
        task.block_size > 0,
    ensures
        bad == state@.bad_blocks.contains(
            block_index(state.position as int, task.block_size as int),
        ),
{
    state.bad_blocks.is_marked(current_block_number(task, state))
}

/// Moves the position on by `bytes`, stopping at the end of the device, and
/// reports the new position.
fn advance<R: WipeEventReceiver + ?Sized>(
    task: &WipeTask,
    state: &mut WipeState,
    frontend: &mut R,
    bytes: usize,
)
    requires
        old(state).position <= task.total_size,
    ensures
        final(state)@ == (WipeStateView {
            position: if old(state).position + bytes > task.total_size {
                task.total_size
            } else {
                (old(state).position + bytes) as u64
            },
            ..old(state)@
        }),
        final(frontend).received() == old(frontend).received().push(
            Notice { state: final(state)@, event: WipeEvent::Progress(final(state).position) },
        ),
{
    if bytes as u64 > task.total_size - state.position {
        state.position = task.total_size;
    } else {
        state.position = state.position + bytes as u64;
    }
    publish(frontend, task, state, WipeEvent::Progress(state.position));
}

/// How a device took a step that the engine can step around.
#[derive(Debug)]
pub enum Taken {
    /// The device did as it was asked.
    Done,
    /// The device reported a bad block: the block is marked and stepped
    /// around.
    BadBlock,
    /// The device failed in another way: the attempt at the stage ends with
    /// that failure.
    Failed(WipeError),
}

/// Judges the answer of a device to a seek or a write: success is success, a
/// bad block is stepped around, and any other failure ends the attempt.
pub fn judge<T>(answer: Result<T, StorageError>) -> (taken: Taken)
    ensures
        taken == match answer {
            Ok(_) => Taken::Done,
            Err(StorageError::BadBlock) => Taken::BadBlock,
            Err(StorageError::Other(cause)) => Taken::Failed(WipeError::Io(cause)),
        },
{
    match answer {
        Ok(_) => Taken::Done,
        Err(StorageError::BadBlock) => Taken::BadBlock,
        Err(StorageError::Other(cause)) => Taken::Failed(WipeError::Io(cause)),
    }
}

/// What stepping around the block at the current position leaves behind: the
/// block is marked bad, and if it was not so before, the marking has been
/// reported.
pub open spec fn stepped_around(
    task: &WipeTask,
    before: WipeStateView,
    after: WipeStateView,
    log_before: Seq<Notice>,
    log_after: Seq<Notice>,
) -> bool {
    let index = block_index(before.position as int, task.block_size as int);
    if before.bad_blocks.contains(index) {
        after == before && log_after == log_before
    } else {
        &&& after == (WipeStateView { bad_blocks: before.bad_blocks.insert(index), ..before })
        &&& log_after == log_before.push(
            Notice { state: after, event: WipeEvent::MarkBlockAsBad(before.position) },
        )
    }
}

/// Marks the block at the current position as bad and reports it.
fn mark_current_block<R: WipeEventReceiver + ?Sized>(
    task: &WipeTask,
    state: &mut WipeState,
    frontend: &mut R,
)
    requires
        task.block_size > 0,
    ensures
        final(state)@ == (WipeStateView {
            bad_blocks: old(state)@.bad_blocks.insert(
                block_index(old(state).position as int, task.block_size as int),
            ),
            ..old(state)@
        }),
        final(frontend).received() == old(frontend).received().push(
            Notice {
                state: final(state)@,
                event: WipeEvent::MarkBlockAsBad(old(state).position),
            },
        ),
{
    let index = current_block_number(task, state);
    state.bad_blocks.mark(index);
    publish(frontend, task, state, WipeEvent::MarkBlockAsBad(state.position));
}

/// Moves the device's cursor to the current position, unless the block there
/// is bad. Tells whether the device is ready at the position; a block that
/// the device cannot seek to is marked bad.
fn try_seek<A: StorageAccess + ?Sized, R: WipeEventReceiver + ?Sized>(
    access: &mut A,
    task: &WipeTask,
    state: &mut WipeState,
    frontend: &mut R,
) -> (ready: Result<bool, WipeError>)
    requires
        task.block_size > 0,
    ensures
        final(access).contents() == old(access).contents(),
        old(access).obliging() ==> final(access).obliging(),
        old(access).obliging() && old(state).position <= old(access).contents().len() ==> {
            &&& ready is Ok
            &&& final(state)@ == old(state)@
            &&& final(frontend).received() == old(frontend).received()
        },
        if old(state)@.bad_blocks.contains(
            block_index(old(state).position as int, task.block_size as int),
        ) {
            &&& final(access).exchanges() == old(access).exchanges()
            &&& ready == Ok::<bool, WipeError>(false)
        } else {
            &&& final(access).exchanges().len() > 0
            &&& final(access).exchanges() == old(access).exchanges().push(
                final(access).exchanges().last(),
            )
            &&& final(access).exchanges().last() matches Exchange::Seek { position, answer }
            &&& position == old(state).position
            &&& ready == step_result(answer)
        },
        stepped(
            old(access).exchanges(),
            final(access).exchanges(),
            old(state)@.bad_blocks,
            final(state)@.bad_blocks,
            task.block_size as int,
            old(state).position as int,
            ready,
        ),
        match ready {
            Ok(true) => {
                &&& final(state)@ == old(state)@
                &&& final(frontend).received() == old(frontend).received()
                &&& final(access).cursor() == old(state).position
                &&& !old(state)@.bad_blocks.contains(
                    block_index(old(state).position as int, task.block_size as int),
                )
            },
            Ok(false) => {
                &&& stepped_around(
                    task,
                    old(state)@,
                    final(state)@,
                    old(frontend).received(),
                    final(frontend).received(),
                )
                &&& old(state)@.bad_blocks.contains(
                    block_index(old(state).position as int, task.block_size as int),
                ) ==> final(access).cursor() == old(access).cursor()
            },
            Err(error) => {
                &&& error is Io
                &&& final(state)@ == old(state)@
                &&& final(frontend).received() == old(frontend).received()
            },
        },
{
    if is_at_bad_block(task, state) {
        return Ok(false);
    }
    match judge(access.seek(state.position)) {
        Taken::Done => Ok(true),
        Taken::BadBlock => {
            mark_current_block(task, state, frontend);
            Ok(false)
        },
        Taken::Failed(error) => Err(error),
    }
}

/// Writes a chunk at the current position, unless the block there is bad.
/// Tells whether the chunk was written; a block that the device cannot write
/// is marked bad.
fn try_write<A: StorageAccess + ?Sized, R: WipeEventReceiver + ?Sized>(
    access: &mut A,
    task: &WipeTask,
    state: &mut WipeState,
    frontend: &mut R,
    chunk: &[u8],
) -> (written: Result<bool, WipeError>)
    requires
        task.block_size > 0,
    ensures
        old(access).obliging() ==> final(access).obliging(),
        final(access).contents().len() >= old(access).contents().len(),
        old(access).obliging() && 0 <= old(access).cursor() && old(access).cursor()
            + chunk@.len() <= old(access).contents().len() ==> {
            &&& written is Ok
            &&& final(state)@ == old(state)@
            &&& final(frontend).received() == old(frontend).received()
        },
        if old(state)@.bad_blocks.contains(
            block_index(old(state).position as int, task.block_size as int),
        ) {
            &&& final(access).exchanges() == old(access).exchanges()
            &&& written == Ok::<bool, WipeError>(false)
        } else {
            &&& final(access).exchanges().len() > 0
            &&& final(access).exchanges() == old(access).exchanges().push(
                final(access).exchanges().last(),
            )
            &&& final(access).exchanges().last() matches Exchange::Write { at, data, answer }
            &&& at == old(access).cursor()
            &&& data == chunk@
            &&& written == step_result(answer)
        },
        old(access).cursor() == old(state).position ==> stepped(
            old(access).exchanges(),
            final(access).exchanges(),
            old(state)@.bad_blocks,
            final(state)@.bad_blocks,
            task.block_size as int,
            old(state).position as int,
            written,
        ),
        match written {
            Ok(true) => {
                &&& final(state)@ == old(state)@
                &&& final(frontend).received() == old(frontend).received()
                &&& crate::storage::stored(
                    old(access).contents(),
                    old(access).cursor(),
                    chunk@,
                    final(access).contents(),
                )
                &&& final(access).cursor() == old(access).cursor() + chunk@.len()
                &&& !old(state)@.bad_blocks.contains(
                    block_index(old(state).position as int, task.block_size as int),
                )
            },
            Ok(false) => {
                &&& stepped_around(
                    task,
                    old(state)@,
                    final(state)@,
                    old(frontend).received(),
                    final(frontend).received(),
                )
                &&& crate::storage::intact_outside(
                    old(access).contents(),
                    old(access).cursor(),
                    chunk@.len() as int,
                    final(access).contents(),
                )
                &&& old(state)@.bad_blocks.contains(
                    block_index(old(state).position as int, task.block_size as int),
                ) ==> final(access).contents() == old(access).contents()
                    && final(access).cursor() == old(access).cursor()
            },
            Err(error) => {
                &&& error is Io
                &&& final(state)@ == old(state)@
                &&& final(frontend).received() == old(frontend).received()
                &&& !old(state)@.bad_blocks.contains(
                    block_index(old(state).position as int, task.block_size as int),
                )
                &&& crate::storage::intact_outside(
                    old(access).contents(),
                    old(access).cursor(),
                    chunk@.len() as int,
                    final(access).contents(),
                )
            },
        },
{
    if is_at_bad_block(task, state) {
        return Ok(false);
    }
    match judge(access.write(chunk)) {
        Taken::Done => Ok(true),
        Taken::BadBlock => {
            mark_current_block(task, state, frontend);
            Ok(false)
        },
        Taken::Failed(error) => Err(error),
    }
}

/// The start of a device is the start of a block.
pub proof fn lemma_device_start_is_block_start(task: &WipeTask)
    requires
        task.block_size > 0,
    ensures
        at_block_start(task, 0),
{
    let block_size = task.block_size as int;
    assert(0int % block_size == 0) by (nonlinear_arith)
        requires
            block_size > 0,
    ;
}

/// One block further on, or at the end of the device, the engine is again at
/// a place where a phase can resume.
pub proof fn lemma_next_block_start(task: &WipeTask, position: int)
    requires
        task.block_size > 0,
        at_block_start(task, position),
        position < task.total_size,
    ensures
        at_block_start(
            task,
            if position + task.block_size > task.total_size {
                task.total_size as int
            } else {
                position + task.block_size
            },
        ),
{
    let block_size = task.block_size as int;
    assert((position + block_size) % block_size == 0) by (nonlinear_arith)
        requires
            block_size > 0,
            position >= 0,
            position % block_size == 0,
    {
        let q = position / block_size;
        assert(position == q * block_size + position % block_size);
        assert(position + block_size == (q + 1) * block_size);
    }
}

/// Brings the position to the next block that the device can be positioned
/// at, stepping over bad blocks one at a time, or to the end of the device.
/// Nothing but seeks is asked of the device; a block is newly marked exactly
/// if the device refused the seek to it, and the search fails exactly if the
/// last seek failed otherwise.
#[verifier::rlimit(80)]
fn seek_to_the_next_safe_position<A: StorageAccess + ?Sized, R: WipeEventReceiver + ?Sized>(
    access: &mut A,
    task: &WipeTask,
    state: &mut WipeState,
    frontend: &mut R,
) -> (found: Result<(), WipeError>)
    requires
        task.block_size > 0,
        at_block_start(task, old(state).position as int),
        synced(old(frontend).received(), old(state)@),
        old(frontend).received().last().event is Progress || old(state).position
            >= task.total_size,
    ensures
        found is Err ==> final(state).position == stood_at(
            final(access).exchanges().last(),
            task.total_size as int,
        ),
        final(access).contents() == old(access).contents(),
        old(access).obliging() ==> final(access).obliging(),
        old(access).obliging() && task.total_size <= old(access).contents().len() ==> {
            &&& found is Ok
            &&& final(state)@.bad_blocks == old(state)@.bad_blocks
        },
        old(access).obliging() && task.total_size <= old(access).contents().len() && old(
            state,
        ).position < task.total_size && !old(state)@.bad_blocks.contains(
            block_index(old(state).position as int, task.block_size as int),
        ) ==> {
            &&& final(state)@ == old(state)@
            &&& final(frontend).received() == old(frontend).received()
        },
        grows(task, old(frontend).received(), final(frontend).received()),
        only_steps(final(frontend).received(), old(frontend).received().len() as int),
        synced(final(frontend).received(), final(state)@),
        final(frontend).received().last().event is Progress || final(frontend).received() == old(
            frontend,
        ).received(),
        final(state).stage == old(state).stage,
        final(state).at_verification == old(state).at_verification,
        final(state).retries_left == old(state).retries_left,
        old(state)@.bad_blocks.subset_of(final(state)@.bad_blocks),
        old(state).position <= final(state).position,
        at_block_start(task, final(state).position as int),
        all_bad(
            final(state)@.bad_blocks,
            task.block_size as int,
            old(state).position as int,
            final(state).position as int,
        ),
        found is Ok ==> final(state).position >= task.total_size || (final(access).cursor()
            == final(state).position && !final(state)@.bad_blocks.contains(
            block_index(final(state).position as int, task.block_size as int),
        )),
        found matches Err(error) ==> error is Io,
        all_bad(
            old(state)@.bad_blocks,
            task.block_size as int,
            old(state).position as int,
            task.total_size as int,
        ) ==> {
            &&& found is Ok
            &&& final(state).position == task.total_size
            &&& final(state)@.bad_blocks == old(state)@.bad_blocks
            &&& final(access).cursor() == old(access).cursor()
        },
        old(state).position >= task.total_size ==> {
            &&& final(frontend).received() == old(frontend).received()
            &&& final(state)@ == old(state)@
            &&& final(access).exchanges() == old(access).exchanges()
        },
        all_bad(
            old(state)@.bad_blocks,
            task.block_size as int,
            old(state).position as int,
            task.total_size as int,
        ) ==> final(access).exchanges() == old(access).exchanges(),
        accounted(
            old(access).exchanges(),
            final(access).exchanges(),
            old(state)@.bad_blocks,
            final(state)@.bad_blocks,
            task.block_size as int,
            found,
        ),
        only_seeks(final(access).exchanges(), old(access).exchanges().len() as int),
        kept_within(
            final(access).exchanges(),
            old(access).exchanges().len() as int,
            task.total_size as int,
            false,
            false,
        ),
{
    let ghost log0 = frontend.received();
    let ghost bad0 = state@.bad_blocks;
    let ghost position0 = state.position;
    let ghost cursor0 = access.cursor();
    let ghost asked0 = access.exchanges();
    proof {
        lemma_grows_reflexive(task, log0);
        lemma_engaged_begins(asked0, bad0, task.block_size as int);
    }
    loop
        invariant
            state.position == position0 ==> state@ == old(state)@ && frontend.received() == log0,
            old(access).obliging() ==> access.obliging(),
            old(access).obliging() && task.total_size <= old(access).contents().len()
                ==> state@.bad_blocks == bad0,
            asked0 == old(access).exchanges(),
            engaged(
                asked0,
                access.exchanges(),
                bad0,
                state@.bad_blocks,
                task.block_size as int,
            ),
            only_seeks(access.exchanges(), asked0.len() as int),
            kept_within(access.exchanges(), asked0.len() as int, task.total_size as int, false, false),
            all_bad(bad0, task.block_size as int, position0 as int, task.total_size as int)
                ==> access.exchanges() == asked0,
            position0 >= task.total_size ==> access.exchanges() == asked0,
            task.block_size > 0,
            at_block_start(task, state.position as int),
            synced(frontend.received(), state@),
            frontend.received().last().event is Progress || (state.position >= task.total_size
                && frontend.received() == log0),
            frontend.received().last().event is Progress || frontend.received() == log0,
            access.contents() == old(access).contents(),
            grows(task, log0, frontend.received()),
            state.stage == old(state).stage,
            state.at_verification == old(state).at_verification,
            state.retries_left == old(state).retries_left,
            bad0.subset_of(state@.bad_blocks),
            position0 <= state.position,
            all_bad(
                state@.bad_blocks,
                task.block_size as int,
                position0 as int,
                state.position as int,
            ),
            all_bad(bad0, task.block_size as int, position0 as int, task.total_size as int) ==> {
                &&& state@.bad_blocks == bad0
                &&& access.cursor() == cursor0
            },
            bad0 == old(state)@.bad_blocks,
            position0 == old(state).position,
            cursor0 == old(access).cursor(),
            log0 == old(frontend).received(),
            only_steps(frontend.received(), log0.len() as int),
            position0 >= task.total_size ==> frontend.received() == log0 && state@ == old(
                state,
            )@,
        decreases task.total_size - state.position,
    {
        if at_the_end(task, state) {
            proof {
                lemma_accounted_well(
                    asked0,
                    access.exchanges(),
                    bad0,
                    state@.bad_blocks,
                    task.block_size as int,
                );
            }
            return Ok(());
        }
        let ghost here = state.position;
        let ghost log1 = frontend.received();
        let ghost state1 = state@;
        let ghost asked1 = access.exchanges();
        let skip = if is_at_bad_block(task, state) {
            true
        } else {
            proof {
                if all_bad(
                    bad0,
                    task.block_size as int,
                    position0 as int,
                    task.total_size as int,
                ) {
                    assert(bad0.contains(block_index(here as int, task.block_size as int)));
                }
            }
            let taken = try_seek(access, task, state, frontend);
            proof {
                lemma_kept_on(
                    asked1,
                    access.exchanges(),
                    asked0.len() as int,
                    task.total_size as int,
                    false,
                    false,
                );
                lemma_after_step(
                    asked0,
                    asked1,
                    access.exchanges(),
                    bad0,
                    state1.bad_blocks,
                    state@.bad_blocks,
                    task.block_size as int,
                    here as int,
                    taken,
                );
                assert(only_seeks(access.exchanges(), asked0.len() as int)) by {
                    assert forall|i: int|
                        asked0.len() <= i < access.exchanges().len() implies (
                    #[trigger] access.exchanges()[i]) is Seek by {
                        if i < asked1.len() {
                            assert(access.exchanges()[i] == asked1[i]);
                        }
                    }
                }
            }
            match taken {
                Ok(ready) => !ready,
                Err(error) => {
                    return Err(error);
                },
            }
        };
        if !skip {
            proof {
                lemma_accounted_well(
                    asked0,
                    access.exchanges(),
                    bad0,
                    state@.bad_blocks,
                    task.block_size as int,
                );
            }
            return Ok(());
        }
        let ghost log2 = frontend.received();
        let ghost state2 = state@;
        proof {
            assert(state2.bad_blocks.contains(block_index(here as int, task.block_size as int)));
            if log2 != log1 {
                let mark = Notice { state: state2, event: WipeEvent::MarkBlockAsBad(here) };
                assert(log2 == log1.push(mark));
                assert(may_follow(task, log1.last(), mark));
                lemma_grows_on(task, log0, log1, mark);
                lemma_step_on(log1, log0.len() as int, mark);
            }
        }
        advance(task, state, frontend, task.block_size);
        proof {
            let step = Notice { state: state@, event: WipeEvent::Progress(state.position) };
            assert(frontend.received() == log2.push(step));
            lemma_next_block_start(task, here as int);
            assert(may_follow(task, log2.last(), step));
            lemma_grows_on(task, log0, log2, step);
            lemma_step_on(log2, log0.len() as int, step);
            assert forall|o: int| position0 <= o < state.position implies state@.bad_blocks.contains(
                #[trigger] block_index(o, task.block_size as int),
            ) by {
                if o >= here {
                    lemma_same_block(task.block_size as int, here as int, o);
                }
            }
        }
    }
}

/// Whether every byte of `before` that lies below `position` or in a block
/// marked in `bad` is still the same in `after`, and nothing was lost.
pub open spec fn spared(
    before: Seq<u8>,
    after: Seq<u8>,
    bad: Set<u32>,
    block_size: int,
    position: int,
) -> bool {
    &&& before.len() <= after.len()
    &&& forall|o: int|
        0 <= o < before.len() && (o < position || bad.contains(block_index(o, block_size)))
            ==> #[trigger] after[o] == before[o]
}

/// A multiple of a block size that is a multiple of four is a multiple of four.
proof fn lemma_block_start_is_word_start(block_size: int, position: int)
    requires
        block_size > 0,
        block_size % 4 == 0,
        0 <= position,
        position % block_size == 0,
    ensures
        position % 4 == 0,
{
    assert(position % 4 == 0) by (nonlinear_arith)
        requires
            block_size > 0,
            block_size % 4 == 0,
            0 <= position,
            position % block_size == 0,
    {
        let q = position / block_size;
        let w = block_size / 4;
        assert(position == q * block_size + position % block_size);
        assert(block_size == 4 * w);
        assert(position == 4 * (q * w));
    }
}

/// The write phase of a stage: from the current position to the end of the
/// device, every block that is not bad is overwritten with the stage's
/// pattern, and every block that cannot be written is marked bad and stepped
/// over.
///
/// Whatever the device does, the reports made are in order, blocks that were
/// bad to begin with and bytes below the starting position are left alone,
/// and behind the position reached every good block holds the pattern. On a
/// device whose remaining blocks are all marked bad already the phase succeeds
/// without touching the device.
///
/// What the phase comes to is what the device answered, as `filled` lays
/// down: the phase fails exactly if its last exchange ends the attempt, with
/// the failure that this exchange stands for; a block is newly marked exactly
/// if the device refused a seek or a write there; and every block passed that
/// is not marked at the end has had a write of the stage's chunk for it,
/// which the device answered with success. A phase that fails stands at the
/// block whose seek or write failed, and at the end of the device where the
/// flush failed. All reports made are of progress or of a block marked, and
/// none is of a marking where every block was marked already.
#[verifier::rlimit(80)]
pub(crate) fn fill<A: StorageAccess + ?Sized, R: WipeEventReceiver + ?Sized>(
    access: &mut A,
    task: &WipeTask,
    state: &mut WipeState,
    frontend: &mut R,
    stage: &Stage,
) -> (done: Result<(), WipeError>)
    requires
        task.runnable(),
        at_block_start(task, old(state).position as int),
        synced(old(frontend).received(), old(state)@),
        old(frontend).received().last().event is StageStarted,
        patterned(*stage, task.block_size as int) ==> covered(
            old(access).contents(),
            *stage,
            old(state)@.bad_blocks,
            task.block_size as int,
            old(state).position as int,
        ),
        settled(
            old(access).contents(),
            *stage,
            task.total_size as int,
            task.block_size as int,
            old(state)@.bad_blocks,
            old(state).position as int,
        ),
    ensures
        all_bad(
            old(state)@.bad_blocks,
            task.block_size as int,
            old(state).position as int,
            task.total_size as int,
        ) ==> forall|k: int|
            old(frontend).received().len() <= k < final(frontend).received().len() ==> !((
            #[trigger] final(frontend).received()[k]).event is MarkBlockAsBad),
        old(access).obliging() && task.total_size <= old(access).contents().len() && old(
            state,
        ).position == 0 && unmarked(old(state)@.bad_blocks) ==> final(frontend).received() == old(frontend).received() + phase_strides(
            task,
            old(state)@,
        ),
        old(access).obliging() ==> final(access).obliging(),
        old(access).obliging() && task.total_size <= old(access).contents().len() ==> {
            &&& done is Ok
            &&& final(state)@.bad_blocks == old(state)@.bad_blocks
        },
        settled(
            final(access).contents(),
            *stage,
            task.total_size as int,
            task.block_size as int,
            final(state)@.bad_blocks,
            final(state).position as int,
        ),
        grows(task, old(frontend).received(), final(frontend).received()),
        only_steps(final(frontend).received(), old(frontend).received().len() as int),
        synced(final(frontend).received(), final(state)@),
        final(frontend).received().last().event is Progress
            || final(frontend).received().last().event is MarkBlockAsBad
            || (task.total_size == 0 && final(frontend).received() == old(frontend).received()),
        final(state).stage == old(state).stage,
        final(state).at_verification == old(state).at_verification,
        final(state).retries_left == old(state).retries_left,
        old(state)@.bad_blocks.subset_of(final(state)@.bad_blocks),
        old(state).position <= final(state).position,
        at_block_start(task, final(state).position as int),
        done is Ok ==> final(state).position == task.total_size,
        task.total_size == 0 ==> {
            &&& final(frontend).received() == old(frontend).received()
            &&& final(state)@ == old(state)@
        },
        patterned(*stage, task.block_size as int) ==> covered(
            final(access).contents(),
            *stage,
            final(state)@.bad_blocks,
            task.block_size as int,
            final(state).position as int,
        ),
        spared(
            old(access).contents(),
            final(access).contents(),
            old(state)@.bad_blocks,
            task.block_size as int,
            old(state).position as int,
        ),
        all_bad(
            old(state)@.bad_blocks,
            task.block_size as int,
            old(state).position as int,
            task.total_size as int,
        ) ==> {
            &&& done is Ok
            &&& final(access).contents() == old(access).contents()
            &&& final(access).cursor() == old(access).cursor()
            &&& final(state)@.bad_blocks == old(state)@.bad_blocks
            &&& final(access).exchanges() == old(access).exchanges()
        },
        kept_within(
            final(access).exchanges(),
            old(access).exchanges().len() as int,
            task.total_size as int,
            true,
            false,
        ),
        filled(
            old(access).exchanges(),
            final(access).exchanges(),
            old(state)@.bad_blocks,
            final(state)@.bad_blocks,
            *stage,
            task.total_size as int,
            task.block_size as int,
            old(state).position as int,
            final(state).position as int,
            done,
        ),
{
    let ghost asked0 = access.exchanges();
    let ghost log0 = frontend.received();
    let ghost bad0 = state@.bad_blocks;
    let ghost position0 = state.position;
    let ghost contents0 = access.contents();
    let ghost block_size = task.block_size as int;
    let ghost plain = access.obliging() && task.total_size <= access.contents().len()
        && state.position == 0 && unmarked(bad0);
    if task.total_size > 0 {
        publish(frontend, task, state, WipeEvent::Progress(state.position));
        proof {
            let first = Notice { state: state@, event: WipeEvent::Progress(state.position) };
            assert(may_follow(task, log0.last(), first));
            lemma_grows_by_one(task, log0, first);
            lemma_step_on(log0, log0.len() as int, first);
            if plain {
                assert(0 * block_size == 0) by (nonlinear_arith);
                assert(log0 =~= log0 + strides(task, state@, -1));
                lemma_stride_on(task, log0, log0, state@, -1);
                assert(first == progress_notice(state@, 0));
            }
        }
    } else {
        proof {
            lemma_grows_reflexive(task, log0);
            assert(log0 =~= log0 + phase_strides(task, state@));
        }
    }
    let ghost log1 = frontend.received();
    let found = seek_to_the_next_safe_position(access, task, state, frontend);
    proof {
        lemma_kept_join(
            asked0,
            access.exchanges(),
            asked0.len() as int,
            task.total_size as int,
            false,
            false,
            true,
            false,
        );
        lemma_settled_past_bad(
            access.contents(),
            *stage,
            task.total_size as int,
            block_size,
            bad0,
            state@.bad_blocks,
            position0 as int,
            state.position as int,
        );
        lemma_filled_early(
            asked0,
            access.exchanges(),
            bad0,
            state@.bad_blocks,
            *stage,
            task.total_size as int,
            block_size,
            position0 as int,
            state.position as int,
            found,
        );
    }
    match found {
        Ok(_) => {},
        Err(error) => {
            proof {
                lemma_steps_join(task, log1, frontend.received(), log0.len() as int);
                lemma_grows_transitive(task, log0, log1, frontend.received());
                lemma_covered_past_bad(
                    access.contents(),
                    *stage,
                    bad0,
                    state@.bad_blocks,
                    block_size,
                    position0 as int,
                    state.position as int,
                );
            }
            return Err(error);
        },
    }
    proof {
        lemma_steps_join(task, log1, frontend.received(), log0.len() as int);
        lemma_grows_transitive(task, log0, log1, frontend.received());
        lemma_covered_past_bad(
            access.contents(),
            *stage,
            bad0,
            state@.bad_blocks,
            block_size,
            position0 as int,
            state.position as int,
        );
    }
    if at_the_end(task, state) {
        proof {
            if bad0 == state@.bad_blocks {
                lemma_same_marks_no_marking(task, log0, frontend.received());
            }
        }
        return Ok(());
    }
    let mut stream = stage.stream(task.total_size, task.block_size, state.position);
    let mut skip_next = false;
    let ghost start = state.position;
    proof {
        assert(0 * block_size == 0) by (nonlinear_arith);
        assert(!all_bad(bad0, block_size, position0 as int, task.total_size as int)) by {
            if all_bad(bad0, block_size, position0 as int, task.total_size as int) {
                assert(state@.bad_blocks.contains(block_index(start as int, block_size)));
            }
        }
    }
    loop
        invariant_except_break
            !stream.exhausted(),
        invariant
            plain == (old(access).obliging() && task.total_size <= old(access).contents().len()
                && old(state).position == 0 && unmarked(bad0)),
            plain ==> start == 0 && !skip_next && frontend.received() == log0 + strides(
                task,
                old(state)@,
                stream.emitted(),
            ) && stream.emitted() <= chunk_count(task.total_size as int, block_size, 0),
            old(access).obliging() ==> access.obliging(),
            old(access).obliging() && task.total_size <= old(access).contents().len()
                ==> state@.bad_blocks == bad0,
            settled(
                access.contents(),
                *stage,
                task.total_size as int,
                block_size,
                state@.bad_blocks,
                state.position as int,
            ),
            asked0 == old(access).exchanges(),
            kept_within(access.exchanges(), asked0.len() as int, task.total_size as int, true, false),
            writing(
                asked0,
                access.exchanges(),
                bad0,
                state@.bad_blocks,
                *stage,
                task.total_size as int,
                block_size,
                position0 as int,
                state.position as int,
            ),
            task.runnable(),
            block_size == task.block_size,
            stream.wf(),
            stream.stage() == *stage,
            stream.total_size() == task.total_size,
            stream.block_size() == task.block_size,
            stream.start() == start,
            0 <= stream.emitted(),
            log0 == old(frontend).received(),
            only_steps(frontend.received(), log0.len() as int),
            bad0 == old(state)@.bad_blocks,
            position0 == old(state).position,
            contents0 == old(access).contents(),
            !skip_next ==> frontend.received().last().event is Progress,
            (start as int) % block_size == 0,
            start < task.total_size,
            position0 <= start,
            state.position == stream.offset(),
            at_block_start(task, state.position as int),
            !skip_next ==> access.cursor() == state.position,
            skip_next && state.position < task.total_size ==> state@.bad_blocks.contains(
                block_index(state.position as int, block_size),
            ),
            synced(frontend.received(), state@),
            frontend.received().last().event is Progress || frontend.received().last().event
                is MarkBlockAsBad,
            grows(task, log0, frontend.received()),
            state.stage == old(state).stage,
            state.at_verification == old(state).at_verification,
            state.retries_left == old(state).retries_left,
            bad0.subset_of(state@.bad_blocks),
            patterned(*stage, block_size) ==> covered(
                access.contents(),
                *stage,
                state@.bad_blocks,
                block_size,
                state.position as int,
            ),
            spared(contents0, access.contents(), bad0, block_size, position0 as int),
            !all_bad(bad0, block_size, position0 as int, task.total_size as int),
        ensures
            state.position >= task.total_size,
            plain ==> frontend.received() == log0 + phase_strides(task, old(state)@),
        decreases task.total_size - state.position,
    {
        let ghost k = stream.emitted();
        let ghost here = state.position;
        let ghost log2 = frontend.received();
        let ghost before = access.contents();
        let ghost bad2 = state@.bad_blocks;
        let chunk = match stream.next() {
            Some(chunk) => chunk,
            None => {
                proof {
                    lemma_chunks_cover_the_range(task.total_size as int, block_size, 0, k);
                }
                break ;
            },
        };
        let len = chunk.len();
        proof {
            assert((k + 1) * block_size == k * block_size + block_size) by (nonlinear_arith);
            assert(here == start + k * block_size);
            assert(len == chunk_len(task.total_size as int, block_size, here as int));
            lemma_next_block_start(task, here as int);
            assert((here as int) % block_size == 0);
        }
        let ghost asked2 = access.exchanges();
        proof {
            assert(is_chunk(
                *stage,
                task.total_size as int,
                block_size,
                here as int,
                chunk@,
                start as int,
                k,
            ));
        }
        let written = if skip_next {
            proof {
                lemma_writing_skips(
                    asked0,
                    asked2,
                    bad0,
                    bad2,
                    *stage,
                    task.total_size as int,
                    block_size,
                    position0 as int,
                    here as int,
                    here + len,
                );
            }
            false
        } else {
            let attempt = try_write(access, task, state, frontend, chunk);
            proof {
                lemma_kept_on(
                    asked2,
                    access.exchanges(),
                    asked0.len() as int,
                    task.total_size as int,
                    true,
                    false,
                );
                lemma_writing_writes(
                    asked0,
                    asked2,
                    access.exchanges(),
                    bad0,
                    bad2,
                    state@.bad_blocks,
                    *stage,
                    task.total_size as int,
                    block_size,
                    position0 as int,
                    here as int,
                    here + len,
                    chunk@,
                    attempt,
                );
            }
            match attempt {
                Ok(written) => written,
                Err(error) => {
                    proof {
                        lemma_settled_on(
                            before,
                            access.contents(),
                            *stage,
                            task.total_size as int,
                            block_size,
                            bad2,
                            bad2,
                            here as int,
                            len as int,
                            here as int,
                        );
                        lemma_write_keeps(
                            before,
                            access.contents(),
                            contents0,
                            *stage,
                            bad0,
                            bad2,
                            block_size,
                            position0 as int,
                            here as int,
                            len as int,
                        );
                    }
                    return Err(error);
                },
            }
        };
        let ghost log3 = frontend.received();
        let ghost after = access.contents();
        let ghost bad3 = state@.bad_blocks;
        proof {
            if log3 != log2 {
                let mark = Notice { state: state@, event: WipeEvent::MarkBlockAsBad(here) };
                assert(log3 == log2.push(mark));
                assert(may_follow(task, log2.last(), mark));
                lemma_grows_on(task, log0, log2, mark);
                lemma_step_on(log2, log0.len() as int, mark);
            }
            if written {
                assert(block_at(after, task.total_size as int, block_size, here as int)
                    =~= chunk@);
            }
            lemma_settled_on(
                before,
                after,
                *stage,
                task.total_size as int,
                block_size,
                bad2,
                bad3,
                here as int,
                len as int,
                here + len,
            );
            if written {
                if patterned(*stage, block_size) {
                    assert forall|o: int| here <= o < here + len implies #[trigger] after[o]
                        == stage.pattern(o) by {
                        assert(after[o] == chunk@[o - here]);
                        if stage is Random {
                            lemma_block_start_is_word_start(block_size, start as int);
                        }
                        lemma_stream_follows_pattern(*stage, start as int, block_size, k, o - here);
                    }
                }
                lemma_write_covers(
                    before,
                    after,
                    contents0,
                    *stage,
                    bad0,
                    bad2,
                    block_size,
                    position0 as int,
                    here as int,
                    len as int,
                );
            } else {
                assert(bad3.contains(block_index(here as int, block_size)));
                lemma_write_keeps(
                    before,
                    after,
                    contents0,
                    *stage,
                    bad0,
                    bad2,
                    block_size,
                    position0 as int,
                    here as int,
                    len as int,
                );
                lemma_skip_covers(
                    after,
                    *stage,
                    bad2,
                    bad3,
                    block_size,
                    here as int,
                    len as int,
                );
            }
        }
        advance(task, state, frontend, len);
        proof {
            let step = Notice { state: state@, event: WipeEvent::Progress(state.position) };
            if plain {
                assert(written);
                lemma_chunks_cover_the_range(task.total_size as int, block_size, 0, k);
                lemma_stride_on(task, log0, log3, old(state)@, k);
                assert(state.position == chunk_offset(
                    task.total_size as int,
                    block_size,
                    0,
                    k + 1,
                ));
                assert(step == progress_notice(old(state)@, state.position as int));
            }
            assert(frontend.received() == log3.push(step));
            assert(may_follow(task, log3.last(), step));
            lemma_grows_on(task, log0, log3, step);
            lemma_step_on(log3, log0.len() as int, step);
        }
        if !written {
            let ghost log4 = frontend.received();
            let ghost bad4 = state@.bad_blocks;
            let ghost there = state.position;
            let ghost asked4 = access.exchanges();
            let taken = try_seek(access, task, state, frontend);
            proof {
                lemma_kept_on(
                    asked4,
                    access.exchanges(),
                    asked0.len() as int,
                    task.total_size as int,
                    true,
                    false,
                );
                lemma_settled_past_bad(
                    access.contents(),
                    *stage,
                    task.total_size as int,
                    block_size,
                    bad4,
                    state@.bad_blocks,
                    there as int,
                    there as int,
                );
                lemma_writing_seeks(
                    asked0,
                    asked4,
                    access.exchanges(),
                    bad0,
                    bad4,
                    state@.bad_blocks,
                    *stage,
                    task.total_size as int,
                    block_size,
                    position0 as int,
                    there as int,
                    taken,
                );
            }
            match taken {
                Ok(ready) => {
                    skip_next = !ready;
                },
                Err(error) => {
                    return Err(error);
                },
            }
            proof {
                if frontend.received() != log4 {
                    let mark = Notice { state: state@, event: WipeEvent::MarkBlockAsBad(there) };
                    assert(frontend.received() == log4.push(mark));
                    assert(may_follow(task, log4.last(), mark));
                    lemma_grows_on(task, log0, log4, mark);
                    lemma_step_on(log4, log0.len() as int, mark);
                }
                lemma_covered_more_bad(
                    access.contents(),
                    *stage,
                    bad4,
                    state@.bad_blocks,
                    block_size,
                    there as int,
                );
            }
        }
    }
    let ghost asked5 = access.exchanges();
    let flushed = access.flush();
    proof {
        lemma_kept_on(
            asked5,
            access.exchanges(),
            asked0.len() as int,
            task.total_size as int,
            true,
            false,
        );
        lemma_writing_flushes(
            asked0,
            asked5,
            crate::storage::answer_of(flushed),
            bad0,
            state@.bad_blocks,
            *stage,
            task.total_size as int,
            block_size,
            position0 as int,
            state.position as int,
        );
    }
    match flushed {
        Ok(_) => Ok(()),
        Err(error) => Err(WipeError::from_storage(error)),
    }
}

/// Where the blocks between two positions are all bad, what is covered up to
/// the first position is covered up to the second, under any larger marking.
proof fn lemma_covered_past_bad(
    contents: Seq<u8>,
    stage: Stage,
    bad_before: Set<u32>,
    bad: Set<u32>,
    block_size: int,
    from: int,
    to: int,
)
    requires
        bad_before.subset_of(bad),
        all_bad(bad, block_size, from, to),
        patterned(stage, block_size) ==> covered(contents, stage, bad_before, block_size, from),
    ensures
        patterned(stage, block_size) ==> covered(contents, stage, bad, block_size, to),
{
    if patterned(stage, block_size) {
        assert forall|o: int|
            0 <= o < to && !bad.contains(#[trigger] block_index(o, block_size)) implies o
            < contents.len() && contents[o] == stage.pattern(o) by {
            if o >= from {
                assert(bad.contains(block_index(o, block_size)));
            }
        }
    }
}

/// Marking more blocks bad keeps what is covered covered.
pub(crate) proof fn lemma_covered_more_bad(
    contents: Seq<u8>,
    stage: Stage,
    bad_before: Set<u32>,
    bad: Set<u32>,
    block_size: int,
    limit: int,
)
    requires
        bad_before.subset_of(bad),
        patterned(stage, block_size) ==> covered(contents, stage, bad_before, block_size, limit),
    ensures
        patterned(stage, block_size) ==> covered(contents, stage, bad, block_size, limit),
{
}

/// A write that may have failed, aimed at the block at `here`, leaves alone
/// what lies below `here` and what lies in blocks that were bad to begin with.
proof fn lemma_write_keeps(
    before: Seq<u8>,
    after: Seq<u8>,
    initial: Seq<u8>,
    stage: Stage,
    bad_initial: Set<u32>,
    bad: Set<u32>,
    block_size: int,
    position: int,
    here: int,
    len: int,
)
    requires
        block_size > 0,
        0 <= position <= here,
        here % block_size == 0,
        0 <= len <= block_size,
        bad_initial.subset_of(bad),
        after == before || (!bad.contains(block_index(here, block_size))
            && crate::storage::intact_outside(before, here, len, after)),
        spared(initial, before, bad_initial, block_size, position),
        patterned(stage, block_size) ==> covered(before, stage, bad, block_size, here),
    ensures
        spared(initial, after, bad_initial, block_size, position),
        patterned(stage, block_size) ==> covered(after, stage, bad, block_size, here),
{
    if after != before {
        assert forall|o: int|
            0 <= o < initial.len() && (o < position || bad_initial.contains(
                block_index(o, block_size),
            )) implies #[trigger] after[o] == initial[o] by {
            if here <= o < here + len {
                lemma_same_block(block_size, here, o);
            }
            assert(before[o] == initial[o]);
        }
    }
}

/// A successful write of the pattern to the block at `here` extends what is
/// covered by that block.
proof fn lemma_write_covers(
    before: Seq<u8>,
    after: Seq<u8>,
    initial: Seq<u8>,
    stage: Stage,
    bad_initial: Set<u32>,
    bad: Set<u32>,
    block_size: int,
    position: int,
    here: int,
    len: int,
)
    requires
        block_size > 0,
        0 <= position <= here,
        here % block_size == 0,
        0 <= len <= block_size,
        bad_initial.subset_of(bad),
        !bad.contains(block_index(here, block_size)),
        after.len() >= before.len(),
        after.len() >= here + len,
        patterned(stage, block_size) ==> forall|o: int|
            here <= o < here + len ==> #[trigger] after[o] == stage.pattern(o),
        forall|o: int|
            0 <= o < before.len() && !(here <= o < here + len) ==> #[trigger] after[o]
                == before[o],
        spared(initial, before, bad_initial, block_size, position),
        patterned(stage, block_size) ==> covered(before, stage, bad, block_size, here),
    ensures
        spared(initial, after, bad_initial, block_size, position),
        patterned(stage, block_size) ==> covered(after, stage, bad, block_size, here + len),
{
    assert forall|o: int|
        0 <= o < initial.len() && (o < position || bad_initial.contains(
            block_index(o, block_size),
        )) implies #[trigger] after[o] == initial[o] by {
        if here <= o < here + len {
            lemma_same_block(block_size, here, o);
        }
        assert(before[o] == initial[o]);
    }
    if patterned(stage, block_size) {
        assert forall|o: int|
            0 <= o < here + len && !bad.contains(#[trigger] block_index(o, block_size)) implies o
            < after.len() && after[o] == stage.pattern(o) by {
            if o < here {
                assert(before[o] == stage.pattern(o));
            }
        }
    }
}

/// Stepping over a bad block extends what is covered by that block.
proof fn lemma_skip_covers(
    contents: Seq<u8>,
    stage: Stage,
    bad_before: Set<u32>,
    bad: Set<u32>,
    block_size: int,
    here: int,
    len: int,
)
    requires
        block_size > 0,
        0 <= here,
        here % block_size == 0,
        0 <= len <= block_size,
        bad_before.subset_of(bad),
        bad.contains(block_index(here, block_size)),
        patterned(stage, block_size) ==> covered(contents, stage, bad_before, block_size, here),
    ensures
        patterned(stage, block_size) ==> covered(contents, stage, bad, block_size, here + len),
{
    if patterned(stage, block_size) {
        assert forall|o: int|
            0 <= o < here + len && !bad.contains(#[trigger] block_index(o, block_size)) implies o
            < contents.len() && contents[o] == stage.pattern(o) by {
            if o >= here {
                lemma_same_block(block_size, here, o);
            }
        }
    }
}

/// Whether two runs of bytes are the same.
pub fn same_bytes(left: &[u8], right: &[u8]) -> (same: bool)
    ensures
        same == (left@ == right@),
{
    if left.len() != right.len() {
        return false;
    }
    let mut i: usize = 0;
    while i < left.len()
        invariant
            left@.len() == right@.len(),
            i <= left@.len(),
            forall|j: int| 0 <= j < i ==> left@[j] == right@[j],
        decreases left@.len() - i,
    {
        if left[i] != right[i] {
            return false;
        }
        i = i + 1;
    }
    assert(left@ =~= right@);
    true
}

/// What a full read of the block at `here` finds on a device whose blocks
/// hold the pattern of the stage wherever they are not marked bad: the chunk
/// of the stream for that block.
proof fn lemma_read_back_matches(
    contents: Seq<u8>,
    stage: Stage,
    bad: Set<u32>,
    bad_now: Set<u32>,
    total_size: int,
    block_size: int,
    start: int,
    k: int,
    here: int,
    got: Seq<u8>,
    chunk: Seq<u8>,
)
    requires
        block_size > 0,
        patterned(stage, block_size),
        covered(contents, stage, bad, block_size, total_size),
        bad.subset_of(bad_now),
        !bad_now.contains(block_index(here, block_size)),
        0 <= start,
        0 <= k,
        start % block_size == 0,
        here == start + k * block_size,
        here % block_size == 0,
        chunk == stage.chunk(total_size, block_size, start, k),
        got.len() == chunk.len(),
        here + got.len() <= contents.len(),
        got == contents.subrange(here, here + got.len()),
    ensures
        got == chunk,
{
    assert forall|i: int| 0 <= i < got.len() implies got[i] == chunk[i] by {
        assert(got[i] == contents[here + i]);
        lemma_same_block(block_size, here, here + i);
        if stage is Random {
            lemma_block_start_is_word_start(block_size, start);
        }
        lemma_stream_follows_pattern(stage, start, block_size, k, i);
        assert(contents[here + i] == stage.pattern(here + i));
    }
    assert(got =~= chunk);
}

/// The read-back phase of a stage: from the current position to the end of
/// the device, every block that is not marked bad is read and held against
/// the stage's pattern. Blocks marked bad are stepped over unread.
///
/// The phase changes nothing on the device. It fails with
/// `VerificationMismatch` at the first block whose bytes, as they stand in the
/// read buffer, differ from the pattern, and with the device's error where a
/// read fails.
///
/// What the phase comes to is what the device answered, as `verified` lays
/// down: a mismatch is found only at a read that the device answered with
/// success, any other failure is what the last exchange stands for, and a
/// block is newly marked exactly if the device refused a seek there. The
/// engine does not look at how many bytes a read delivered; as long as every
/// read filled its buffer, no read is made in a block marked bad, every read
/// before a mismatch found the stage's chunk, and the read of a mismatch
/// found something else; the reads are made in rising order, so that no
/// block is read twice, and a phase that fails stands at the block whose read
/// or seek failed. Every read is made at the start of a block and asks for no
/// more than what is left of the device, as long as the reads before it
/// filled their buffers. On a device whose unmarked blocks hold the pattern
/// no mismatch is found then.
#[verifier::rlimit(80)]
pub(crate) fn verify<A: StorageAccess + ?Sized, R: WipeEventReceiver + ?Sized>(
    access: &mut A,
    task: &WipeTask,
    state: &mut WipeState,
    frontend: &mut R,
    stage: &Stage,
) -> (done: Result<(), WipeError>)
    requires
        task.runnable(),
        at_block_start(task, old(state).position as int),
        synced(old(frontend).received(), old(state)@),
        old(frontend).received().last().event is StageStarted,
    ensures
        all_bad(
            old(state)@.bad_blocks,
            task.block_size as int,
            old(state).position as int,
            task.total_size as int,
        ) ==> forall|k: int|
            old(frontend).received().len() <= k < final(frontend).received().len() ==> !((
            #[trigger] final(frontend).received()[k]).event is MarkBlockAsBad),
        final(access).contents() == old(access).contents(),
        old(access).obliging() && task.total_size <= old(access).contents().len() && patterned(
            *stage,
            task.block_size as int,
        ) && covered(
            old(access).contents(),
            *stage,
            old(state)@.bad_blocks,
            task.block_size as int,
            task.total_size as int,
        ) && old(state).position == 0 && unmarked(old(state)@.bad_blocks) ==> final(frontend).received() == old(frontend).received() + phase_strides(
            task,
            old(state)@,
        ),
        old(access).obliging() ==> final(access).obliging(),
        old(access).obliging() && task.total_size <= old(access).contents().len() && patterned(
            *stage,
            task.block_size as int,
        ) && covered(
            old(access).contents(),
            *stage,
            old(state)@.bad_blocks,
            task.block_size as int,
            task.total_size as int,
        ) ==> {
            &&& done is Ok
            &&& final(state)@.bad_blocks == old(state)@.bad_blocks
        },
        grows(task, old(frontend).received(), final(frontend).received()),
        only_steps(final(frontend).received(), old(frontend).received().len() as int),
        synced(final(frontend).received(), final(state)@),
        final(frontend).received().last().event is Progress
            || final(frontend).received().last().event is MarkBlockAsBad
            || (task.total_size == 0 && final(frontend).received() == old(frontend).received()),
        final(state).stage == old(state).stage,
        final(state).at_verification == old(state).at_verification,
        final(state).retries_left == old(state).retries_left,
        old(state)@.bad_blocks.subset_of(final(state)@.bad_blocks),
        old(state).position <= final(state).position,
        at_block_start(task, final(state).position as int),
        done is Ok ==> final(state).position == task.total_size,
        task.total_size == 0 ==> {
            &&& final(frontend).received() == old(frontend).received()
            &&& final(state)@ == old(state)@
        },
        all_bad(
            old(state)@.bad_blocks,
            task.block_size as int,
            old(state).position as int,
            task.total_size as int,
        ) ==> {
            &&& done is Ok
            &&& final(access).cursor() == old(access).cursor()
            &&& final(state)@.bad_blocks == old(state)@.bad_blocks
            &&& final(access).exchanges() == old(access).exchanges()
        },
        patterned(*stage, task.block_size as int) && covered(
            old(access).contents(),
            *stage,
            old(state)@.bad_blocks,
            task.block_size as int,
            task.total_size as int,
        ) && full_reads(final(access).exchanges(), old(access).exchanges().len() as int)
            ==> !is_mismatch(done),
        kept_within(
            final(access).exchanges(),
            old(access).exchanges().len() as int,
            task.total_size as int,
            false,
            true,
        ),
        reads_fit(
            final(access).exchanges(),
            old(access).exchanges().len() as int,
            task.total_size as int,
            task.block_size as int,
        ),
        verified(
            old(access).exchanges(),
            final(access).exchanges(),
            old(state)@.bad_blocks,
            final(state)@.bad_blocks,
            *stage,
            task.total_size as int,
            task.block_size as int,
            old(state).position as int,
            final(state).position as int,
            done,
        ),
{
    let ghost asked0 = access.exchanges();
    let ghost hoped = access.obliging() && task.total_size <= access.contents().len() && patterned(
        *stage,
        task.block_size as int,
    ) && covered(
        access.contents(),
        *stage,
        state@.bad_blocks,
        task.block_size as int,
        task.total_size as int,
    );
    let ghost log0 = frontend.received();
    let ghost bad0 = state@.bad_blocks;
    let ghost position0 = state.position;
    let ghost block_size = task.block_size as int;
    let ghost plain = hoped && state.position == 0 && unmarked(bad0);
    if task.total_size > 0 {
        publish(frontend, task, state, WipeEvent::Progress(state.position));
        proof {
            let first = Notice { state: state@, event: WipeEvent::Progress(state.position) };
            assert(may_follow(task, log0.last(), first));
            lemma_grows_by_one(task, log0, first);
            lemma_step_on(log0, log0.len() as int, first);
            if plain {
                assert(0 * block_size == 0) by (nonlinear_arith);
                assert(log0 =~= log0 + strides(task, state@, -1));
                lemma_stride_on(task, log0, log0, state@, -1);
                assert(first == progress_notice(state@, 0));
            }
        }
    } else {
        proof {
            lemma_grows_reflexive(task, log0);
            assert(log0 =~= log0 + phase_strides(task, state@));
        }
    }
    let ghost log1 = frontend.received();
    let found = seek_to_the_next_safe_position(access, task, state, frontend);
    proof {
        lemma_no_reads_fit(
            access.exchanges(),
            asked0.len() as int,
            task.total_size as int,
            block_size,
            false,
        );
        lemma_full_reads_on(access.exchanges(), access.exchanges(), asked0.len() as int);
        lemma_kept_join(
            asked0,
            access.exchanges(),
            asked0.len() as int,
            task.total_size as int,
            false,
            false,
            false,
            true,
        );
        lemma_reading_begins(
            asked0,
            access.exchanges(),
            bad0,
            state@.bad_blocks,
            *stage,
            task.total_size as int,
            block_size,
            position0 as int,
            state.position as int,
            access.cursor(),
            found,
        );
    }
    match found {
        Ok(_) => {},
        Err(error) => {
            proof {
                lemma_steps_join(task, log1, frontend.received(), log0.len() as int);
                lemma_grows_transitive(task, log0, log1, frontend.received());
            }
            return Err(error);
        },
    }
    proof {
        lemma_steps_join(task, log1, frontend.received(), log0.len() as int);
        lemma_grows_transitive(task, log0, log1, frontend.received());
    }
    if at_the_end(task, state) {
        proof {
            if bad0 == state@.bad_blocks {
                lemma_same_marks_no_marking(task, log0, frontend.received());
            }
            lemma_reading_is_over(
                asked0,
                access.exchanges(),
                bad0,
                state@.bad_blocks,
                *stage,
                task.total_size as int,
                block_size,
                position0 as int,
                state.position as int,
                access.cursor(),
            );
        }
        return Ok(());
    }
    let mut stream = stage.stream(task.total_size, task.block_size, state.position);
    let mut buf = AlignedBuffer::new(task.block_size, task.block_size);
    let ghost start = state.position;
    proof {
        assert(0 * block_size == 0) by (nonlinear_arith);
        assert(!all_bad(bad0, block_size, position0 as int, task.total_size as int)) by {
            if all_bad(bad0, block_size, position0 as int, task.total_size as int) {
                assert(state@.bad_blocks.contains(block_index(start as int, block_size)));
            }
        }
    }
    loop
        invariant_except_break
            !stream.exhausted(),
        invariant
            plain == (hoped && old(state).position == 0 && unmarked(bad0)),
            plain ==> start == 0 && frontend.received() == log0 + strides(
                task,
                old(state)@,
                stream.emitted(),
            ) && stream.emitted() <= chunk_count(task.total_size as int, block_size, 0),
            old(access).obliging() ==> access.obliging(),
            hoped == (old(access).obliging() && task.total_size <= old(access).contents().len()
                && patterned(*stage, block_size) && covered(
                old(access).contents(),
                *stage,
                bad0,
                block_size,
                task.total_size as int,
            )),
            hoped ==> state@.bad_blocks == bad0 && full_reads(
                access.exchanges(),
                asked0.len() as int,
            ),
            asked0 == old(access).exchanges(),
            reads_fit(access.exchanges(), asked0.len() as int, task.total_size as int, block_size),
            kept_within(access.exchanges(), asked0.len() as int, task.total_size as int, false, true),
            reading(
                asked0,
                access.exchanges(),
                bad0,
                state@.bad_blocks,
                *stage,
                task.total_size as int,
                block_size,
                position0 as int,
                state.position as int,
                access.cursor(),
            ),
            task.runnable(),
            block_size == task.block_size,
            stream.wf(),
            stream.stage() == *stage,
            stream.total_size() == task.total_size,
            stream.block_size() == task.block_size,
            stream.start() == start,
            0 <= stream.emitted(),
            buf.wf(),
            buf@.len() == task.block_size,
            log0 == old(frontend).received(),
            only_steps(frontend.received(), log0.len() as int),
            bad0 == old(state)@.bad_blocks,
            position0 == old(state).position,
            access.contents() == old(access).contents(),
            (start as int) % block_size == 0,
            start < task.total_size,
            position0 <= start,
            state.position == stream.offset(),
            at_block_start(task, state.position as int),
            synced(frontend.received(), state@),
            frontend.received().last().event is Progress || (frontend.received().last().event
                is MarkBlockAsBad && (state.position >= task.total_size
                || state@.bad_blocks.contains(block_index(state.position as int, block_size)))),
            grows(task, log0, frontend.received()),
            state.stage == old(state).stage,
            state.at_verification == old(state).at_verification,
            state.retries_left == old(state).retries_left,
            bad0.subset_of(state@.bad_blocks),
            !all_bad(bad0, block_size, position0 as int, task.total_size as int),
        ensures
            state.position >= task.total_size,
            plain ==> frontend.received() == log0 + phase_strides(task, old(state)@),
        decreases task.total_size - state.position,
    {
        let ghost k = stream.emitted();
        let ghost here = state.position;
        let ghost log2 = frontend.received();
        let chunk = match stream.next() {
            Some(chunk) => chunk,
            None => {
                proof {
                    lemma_chunks_cover_the_range(task.total_size as int, block_size, 0, k);
                }
                break ;
            },
        };
        let len = chunk.len();
        proof {
            assert((k + 1) * block_size == k * block_size + block_size) by (nonlinear_arith);
            assert(here == start + k * block_size);
            assert(len == chunk_len(task.total_size as int, block_size, here as int));
            lemma_next_block_start(task, here as int);
            assert((here as int) % block_size == 0);
            assert(is_chunk(
                *stage,
                task.total_size as int,
                block_size,
                here as int,
                chunk@,
                start as int,
                k,
            ));
        }
        let ghost asked2 = access.exchanges();
        let ghost bad2 = state@.bad_blocks;
        let ghost cursor2 = access.cursor();
        if is_at_bad_block(task, state) {
            advance(task, state, frontend, len);
            let ghost log3 = frontend.received();
            let ghost there = state.position;
            proof {
                let step = Notice { state: state@, event: WipeEvent::Progress(state.position) };
                assert(log3 == log2.push(step));
                assert(may_follow(task, log2.last(), step));
                lemma_grows_on(task, log0, log2, step);
                lemma_step_on(log2, log0.len() as int, step);
            }
            let taken = try_seek(access, task, state, frontend);
            proof {
                if hoped {
                    lemma_full_reads_on(asked2, access.exchanges(), asked0.len() as int);
                }
                lemma_kept_on(
                    asked2,
                    access.exchanges(),
                    asked0.len() as int,
                    task.total_size as int,
                    false,
                    true,
                );
                lemma_reads_fit_on(
                    asked2,
                    access.exchanges(),
                    asked0.len() as int,
                    task.total_size as int,
                    block_size,
                );
                lemma_reading_seeks(
                    asked0,
                    asked2,
                    access.exchanges(),
                    bad0,
                    bad2,
                    state@.bad_blocks,
                    *stage,
                    task.total_size as int,
                    block_size,
                    position0 as int,
                    here as int,
                    there as int,
                    cursor2,
                    access.cursor(),
                    taken,
                );
            }
            match taken {
                Ok(_) => {},
                Err(error) => {
                    return Err(error);
                },
            }
            proof {
                if frontend.received() != log3 {
                    let mark = Notice { state: state@, event: WipeEvent::MarkBlockAsBad(there) };
                    assert(frontend.received() == log3.push(mark));
                    assert(may_follow(task, log3.last(), mark));
                    lemma_grows_on(task, log0, log3, mark);
                    lemma_step_on(log3, log0.len() as int, mark);
                }
            }
        } else {
            let region = buf.as_mut_slice();
            let (head, _) = region.split_at_mut(len);
            let arrived = access.read(head);
            proof {
                if hoped {
                    assert(cursor2 == here);
                    lemma_full_reads_on(asked2, access.exchanges(), asked0.len() as int);
                }
                lemma_kept_on(
                    asked2,
                    access.exchanges(),
                    asked0.len() as int,
                    task.total_size as int,
                    false,
                    true,
                );
                assert(access.exchanges().take(access.exchanges().len() - 1) =~= asked2);
                lemma_reads_fit_on(
                    asked2,
                    access.exchanges(),
                    asked0.len() as int,
                    task.total_size as int,
                    block_size,
                );
                lemma_reading_reads(
                    asked0,
                    asked2,
                    bad0,
                    bad2,
                    *stage,
                    task.total_size as int,
                    block_size,
                    position0 as int,
                    here as int,
                    cursor2,
                    match arrived {
                        Ok(n) => n as int,
                        Err(_) => 0,
                    },
                    head@,
                    crate::storage::answer_of(arrived),
                    chunk@,
                    start as int,
                    k,
                );
            }
            match arrived {
                Ok(_) => {},
                Err(error) => {
                    return Err(WipeError::from_storage(error));
                },
            }
            if !same_bytes(head, chunk) {
                proof {
                    if patterned(*stage, block_size) && covered(
                        access.contents(),
                        *stage,
                        bad0,
                        block_size,
                        task.total_size as int,
                    ) && full_reads(access.exchanges(), asked0.len() as int) {
                        assert(access.exchanges() == asked2.push(access.exchanges().last()));
                        lemma_full_reads_before(
                            asked2,
                            access.exchanges().last(),
                            asked0.len() as int,
                        );
                        let n = arrived->Ok_0;
                        assert(access.exchanges().last() == (Exchange::Read {
                            at: cursor2,
                            count: n as int,
                            got: head@,
                            answer: crate::storage::Answer::Done,
                        }));
                        assert(n == head@.len());
                        assert(full_reads(asked2, asked0.len() as int));
                        assert(cursor2 == here);
                        let held = access.contents();
                        let got = head@;
                        let place = here as int;
                        if got.len() > 0 {
                            assert(got[got.len() - 1] == held[place + got.len() - 1]);
                        }
                        assert(got =~= held.subrange(place, place + got.len()));
                        lemma_read_back_matches(
                            held,
                            *stage,
                            bad0,
                            bad2,
                            task.total_size as int,
                            block_size,
                            start as int,
                            k,
                            place,
                            got,
                            chunk@,
                        );
                    }
                }
                return Err(WipeError::VerificationMismatch);
            }
            advance(task, state, frontend, len);
            proof {
                let step = Notice { state: state@, event: WipeEvent::Progress(state.position) };
                if plain {
                    lemma_chunks_cover_the_range(task.total_size as int, block_size, 0, k);
                    lemma_stride_on(task, log0, log2, old(state)@, k);
                    assert(state.position == chunk_offset(
                        task.total_size as int,
                        block_size,
                        0,
                        k + 1,
                    ));
                    assert(step == progress_notice(old(state)@, state.position as int));
                }
                assert(frontend.received() == log2.push(step));
                assert(may_follow(task, log2.last(), step));
                lemma_grows_on(task, log0, log2, step);
                lemma_step_on(log2, log0.len() as int, step);
            }
        }
    }
    proof {
        lemma_reading_is_over(
            asked0,
            access.exchanges(),
            bad0,
            state@.bad_blocks,
            *stage,
            task.total_size as int,
            block_size,
            position0 as int,
            state.position as int,
            access.cursor(),
        );
    }
    Ok(())
}

} // verus!
