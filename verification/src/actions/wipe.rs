//! The wipe engine: stage after stage it fills the device with the stage's
//! pattern and reads it back where verification is asked for, steps around
//! bad blocks, retries failed attempts, and reports every step to a receiver.

use crate::actions::account::all_patterned;
use crate::actions::account::balanced;
use crate::actions::account::lemma_attempt_fills;
use crate::actions::account::lemma_attempt_verifies;
use crate::actions::account::lemma_balance_begins;
use crate::actions::account::lemma_balances_add;
use crate::actions::account::lemma_failure_balances;
use crate::actions::account::lemma_phase_balances;
use crate::actions::account::lemma_report_balances;
use crate::actions::account::lemma_resumed_before;
use crate::actions::account::lemma_stage_begins;
use crate::actions::account::lemma_stage_joins;
use crate::actions::account::lemma_wipe_begins;
use crate::actions::account::lemma_wipe_is_over;
use crate::actions::account::progressed;
use crate::actions::account::resumed;
use crate::actions::account::staged;
use crate::actions::account::wiped;
use crate::actions::exchange::carried;
use crate::actions::exchange::full_reads;
use crate::actions::exchange::is_mismatch;
use crate::actions::exchange::kept_within;
use crate::actions::exchange::lemma_full_reads_within;
use crate::actions::exchange::lemma_kept_join;
use crate::actions::exchange::lemma_no_answer_is_a_mismatch;
use crate::actions::exchange::lemma_settled_begins;
use crate::actions::exchange::lemma_settled_past_bad;
use crate::actions::exchange::settled;
use crate::actions::marker::BlockMarker;
use crate::actions::marker::RoaringBlockMarker;
use crate::actions::phase::all_bad;
use crate::actions::phase::at_block_start;
use crate::actions::phase::covered;
use crate::actions::phase::fill;
use crate::actions::phase::lemma_covered_more_bad;
use crate::actions::phase::lemma_device_start_is_block_start;
use crate::actions::phase::patterned;
use crate::actions::phase::publish;
use crate::actions::phase::verify;
use crate::actions::readback::lemma_read_back_begins;
use crate::actions::readback::lemma_read_back_checked;
use crate::actions::readback::lemma_read_back_filled;
use crate::actions::readback::lemma_read_back_grows;
use crate::actions::readback::lemma_read_back_report;
use crate::actions::readback::lemma_read_back_told;
use crate::actions::readback::lemma_read_back_joins;
use crate::actions::readback::lemma_read_back_wipe_begins;
use crate::actions::readback::lemma_read_back_wipe_told;
use crate::actions::readback::read_back;
use crate::actions::readback::read_back_wipe;
use crate::actions::course::course;
use crate::actions::course::lemma_course_begins;
use crate::actions::course::lemma_course_joins;
use crate::actions::course::lemma_course_phase;
use crate::actions::course::lemma_course_told;
use crate::actions::course::phase_ok;
use crate::actions::course::ran_in_phases;
use crate::actions::course::Phase;
use crate::actions::exchange::lemma_no_reads_fit;
use crate::actions::exchange::lemma_reads_fit_join;
use crate::actions::exchange::reads_fit;
use crate::actions::exchange::refusals;
use crate::actions::exchange::stands_where_it_failed;
use crate::actions::report::is_step;
use crate::actions::report::Notice;
use crate::actions::report::grows;
use crate::actions::report::lemma_grows_by_one;
use crate::actions::report::lemma_grows_on;
use crate::actions::report::lemma_grows_reflexive;
use crate::actions::report::lemma_grows_transitive;
use crate::actions::report::lemma_mismatches_add_up;
use crate::actions::report::lemma_one_more_report;
use crate::actions::report::lemma_whole_wipe;
use crate::actions::report::may_follow;
use crate::actions::report::phase_strides;
use crate::actions::report::reports_wipe;
use crate::actions::report::synced;
use crate::actions::report::tells_failure;
use crate::actions::report::unmarked;
use crate::sanitization::scheme::Scheme;
use crate::sanitization::stage::Stage;
use crate::storage::Exchange;
use crate::storage::StorageAccess;
use crate::storage::StorageError;
use crate::storage::error_kind;
use crate::storage::io_error_kind;
use crate::storage::io_error_text;
use std::rc::Rc;
use vstd::prelude::*;
use vstd::string::StringExecFns;

verus! {

/// Which stages are read back after they have been written.
#[derive(Debug, Clone, Copy, PartialEq, Eq, Structural)]
pub enum Verify {
    No,
    Last,
    All,
}

impl Verify {
    /// The policy that a word of the command line names: `no`, `last` or
    /// `all`. Any other word stands for `last`.
    pub fn from_name(name: &str) -> (verify: Verify)
        ensures
            verify == if name@ == "no"@ {
                Verify::No
            } else if name@ == "all"@ {
                Verify::All
            } else {
                Verify::Last
            },
    {
        let word = String::from_str(name);
        if word == String::from_str("no") {
            Verify::No
        } else if word == String::from_str("all") {
            Verify::All
        } else {
            Verify::Last
        }
    }
}

/// Why a wipe, or an attempt at one of its stages, failed.
#[derive(Debug)]
pub enum WipeError {
    /// A bad block came up where the engine does not step around it.
    BadBlock,
    /// The storage failed in some other way.
    Io(std::io::Error),
    /// The device does not hold what was written to it.
    VerificationMismatch,
    /// The device has more blocks than a block index can number.
    TaskInvalid,
}

impl WipeError {
    /// The wipe error that stands for a storage error.
    pub open spec fn of_storage(error: StorageError) -> WipeError {
        match error {
            StorageError::BadBlock => WipeError::BadBlock,
            StorageError::Other(cause) => WipeError::Io(cause),
        }
    }

    /// Turns a storage error into the wipe error that stands for it.
    pub fn from_storage(error: StorageError) -> (wipe_error: WipeError)
        ensures
            wipe_error == Self::of_storage(error),
    {
        match error {
            StorageError::BadBlock => WipeError::BadBlock,
            StorageError::Other(cause) => WipeError::Io(cause),
        }
    }

    /// A description of the error for people. For an error of the operating
    /// system it is the system's own text.
    pub fn message(&self) -> (text: String)
        ensures
            self is BadBlock ==> text@ == "bad block"@,
            self is VerificationMismatch ==> text@ == "Verification failed!"@,
            self is TaskInvalid ==> text@
                == "Number of blocks in this device is more than 2^32. Try using a bigger block size."@,
    {
        match self {
            WipeError::BadBlock => "bad block".to_owned(),
            WipeError::Io(cause) => io_error_text(cause),
            WipeError::VerificationMismatch => "Verification failed!".to_owned(),
            WipeError::TaskInvalid => {
                "Number of blocks in this device is more than 2^32. Try using a bigger block size.".to_owned()
            },
        }
    }
}

/// The category of the operating system error behind a wipe error, where
/// there is one.
pub fn underlying_io_error_kind(error: &WipeError) -> (kind: Option<std::io::ErrorKind>)
    ensures
        kind == match *error {
            WipeError::Io(cause) => Some(error_kind(cause)),
            _ => None,
        },
{
    match error {
        WipeError::Io(cause) => Some(io_error_kind(cause)),
        _ => None,
    }
}

/// Another handle to a shared error, as `Rc::clone` makes it: both handles lead
/// to the same error.
#[verifier::external_body]
fn share(error: &Rc<WipeError>) -> (shared: Rc<WipeError>)
    ensures
        shared == *error,
{
    Rc::clone(error)
}

/// What is to be wiped and how.
#[derive(Debug)]
pub struct WipeTask {
    pub scheme: Scheme,
    pub verify: Verify,
    pub total_size: u64,
    pub block_size: usize,
}

/// Where a wipe stands. The caller owns it, and reads the outcome from it
/// when the engine is done.
#[derive(Debug, Clone)]
pub struct WipeState {
    pub stage: usize,
    pub at_verification: bool,
    pub position: u64,
    pub retries_left: u32,
    pub bad_blocks: RoaringBlockMarker,
}

/// What a wipe state amounts to.
pub struct WipeStateView {
    pub stage: usize,
    pub at_verification: bool,
    pub position: u64,
    pub retries_left: u32,
    pub bad_blocks: Set<u32>,
}

impl View for WipeState {
    type V = WipeStateView;

    open spec fn view(&self) -> WipeStateView {
        WipeStateView {
            stage: self.stage,
            at_verification: self.at_verification,
            position: self.position,
            retries_left: self.retries_left,
            bad_blocks: self.bad_blocks.marked(),
        }
    }
}

impl Default for WipeState {
    fn default() -> (state: WipeState)
        ensures
            state@ == (WipeStateView {
                stage: 0,
                at_verification: false,
                position: 0,
                retries_left: 0,
                bad_blocks: Set::<u32>::empty(),
            }),
    {
        WipeState {
            stage: 0,
            at_verification: false,
            position: 0,
            retries_left: 0,
            bad_blocks: RoaringBlockMarker::new(),
        }
    }
}

/// What the engine reports.
#[derive(Debug)]
pub enum WipeEvent {
    Started,
    StageStarted,
    Progress(u64),
    MarkBlockAsBad(u64),
    StageCompleted(Option<Rc<WipeError>>),
    Retrying,
    Aborted,
    Completed(Option<Rc<WipeError>>),
    Fatal(Rc<WipeError>),
}

/// The observer of a wipe.
///
/// The engine reasons about a receiver through one observation that exists in
/// proofs only: the reports that have been handed to it, in order. An
/// implementation need not define it, nor keep the reports; what is proved of
/// the reports of a wipe speaks of what the receiver was handed.
pub trait WipeEventReceiver {
    /// The reports received so far, oldest first. Nothing is said of it here:
    /// it is what the contract of `handle` makes it.
    open spec fn received(&self) -> Seq<Notice> {
        arbitrary()
    }

    /// Takes one report.
    fn handle(&mut self, task: &WipeTask, state: &WipeState, event: WipeEvent)
        ensures
            final(self).received() == old(self).received().push(
                Notice { state: state@, event },
            ),
    ;
}

/// The share of the whole blocks of a device that a number of blocks makes
/// up, in percent and rounded down. Of a device without a whole block, no
/// block has a share.
pub fn share_of_blocks(blocks: u32, total_size: u64, block_size: usize) -> (percent: u64)
    requires
        block_size > 0,
    ensures
        percent == if total_size as int / block_size as int == 0 {
            0
        } else {
            blocks * 100 / (total_size as int / block_size as int)
        },
{
    let total_blocks = total_size / block_size as u64;
    if total_blocks == 0 {
        0
    } else {
        blocks as u64 * 100 / total_blocks
    }
}

/// The code by which POSIX systems say that a device is busy.
pub const POSIX_EBUSY: i32 = 16;

/// Whether a failure looks like that of a device that is in use: an error of
/// the operating system with the code for a busy device.
pub fn is_device_busy(code: Option<i32>) -> (busy: bool)
    ensures
        busy == (code == Some(POSIX_EBUSY)),
{
    match code {
        Some(c) => c == POSIX_EBUSY,
        None => false,
    }
}

/// The largest number of blocks a task may have.
pub const MAX_BLOCKS: u64 = 0x1_0000_0000;

impl WipeTask {
    /// Whether the engine can run the task on this machine: blocks are not
    /// empty, and a block and its alignment slack fit into memory.
    pub open spec fn runnable(&self) -> bool {
        &&& self.block_size > 0
        &&& 2 * self.block_size <= usize::MAX
    }

    /// Describes a wipe of `total_size` bytes in blocks of `block_size` bytes.
    /// A device with more than 2^32 whole blocks is refused, since its blocks
    /// could not be told apart by a 32-bit index.
    pub fn new(scheme: Scheme, verify: Verify, total_size: u64, block_size: usize) -> (task:
        Result<WipeTask, WipeError>)
        requires
            block_size > 0,
        ensures
            total_size as int / block_size as int > MAX_BLOCKS ==> task is Err && task->Err_0
                is TaskInvalid,
            total_size as int / block_size as int <= MAX_BLOCKS ==> task is Ok && task->Ok_0
                == (WipeTask { scheme, verify, total_size, block_size }),
    {
        if total_size / block_size as u64 > MAX_BLOCKS {
            Err(WipeError::TaskInvalid)
        } else {
            Ok(WipeTask { scheme, verify, total_size, block_size })
        }
    }
}

/// Whether stage `index` of `count` stages is read back under the
/// verification policy `verify`.
pub open spec fn verifies(verify: Verify, index: int, count: int) -> bool {
    match verify {
        Verify::No => false,
        Verify::Last => index + 1 == count,
        Verify::All => true,
    }
}

/// Decides whether a stage is read back after it has been written.
pub fn have_to_verify(verify: Verify, index: usize, count: usize) -> (needed: bool)
    requires
        index < count,
    ensures
        needed == verifies(verify, index as int, count as int),
{
    match verify {
        Verify::No => false,
        Verify::Last => index + 1 == count,
        Verify::All => true,
    }
}

/// What follows a failed phase.
#[derive(Debug, Clone, Copy, PartialEq, Eq, Structural)]
pub enum AfterFailure {
    /// The stage is attempted again, with one retry fewer left.
    Retry,
    /// The wipe ends with the failure.
    GiveUp,
}

/// Decides what follows a failed phase: another attempt as long as retries
/// are left, the end of the wipe otherwise.
pub fn after_failure(retries_left: u32) -> (next: AfterFailure)
    ensures
        next == if retries_left > 0 {
            AfterFailure::Retry
        } else {
            AfterFailure::GiveUp
        },
{
    if retries_left > 0 {
        AfterFailure::Retry
    } else {
        AfterFailure::GiveUp
    }
}

/// Reports the failure of a phase and decides what follows it. Where the
/// stage is attempted again, one retry is used up and the retry is reported.
fn phase_failed<R: WipeEventReceiver + ?Sized>(
    task: &WipeTask,
    state: &mut WipeState,
    frontend: &mut R,
    error: WipeError,
) -> (outcome: Option<Rc<WipeError>>)
    requires
        synced(old(frontend).received(), old(state)@),
        old(state).position <= task.total_size,
        old(frontend).received().last().event is Progress || old(
            frontend,
        ).received().last().event is MarkBlockAsBad || (old(frontend).received().last().event
            is StageStarted && task.total_size == 0),
    ensures
        grows(task, old(frontend).received(), final(frontend).received()),
        synced(final(frontend).received(), final(state)@),
        tells_failure(
            old(frontend).received(),
            final(frontend).received(),
            error,
            outcome is None,
        ),
        outcome is Some <==> old(state).retries_left == 0,
        match outcome {
            Some(shared) => {
                &&& *shared == error
                &&& final(state)@ == old(state)@
                &&& final(frontend).received().last().event == WipeEvent::StageCompleted(
                    Some(shared),
                )
            },
            None => {
                &&& final(state)@ == (WipeStateView {
                    retries_left: (old(state).retries_left - 1) as u32,
                    at_verification: false,
                    ..old(state)@
                })
                &&& final(frontend).received().last().event is Retrying
            },
        },
{
    let ghost log0 = frontend.received();
    let shared = Rc::new(error);
    publish(frontend, task, state, WipeEvent::StageCompleted(Some(share(&shared))));
    let ghost log1 = frontend.received();
    proof {
        lemma_grows_by_one(task, log0, log1.last());
        assert(log1 == log0.push(log1.last()));
    }
    match after_failure(state.retries_left) {
        AfterFailure::Retry => {
            state.retries_left = state.retries_left - 1;
            state.at_verification = false;
            publish(frontend, task, state, WipeEvent::Retrying);
            proof {
                let retry = Notice { state: state@, event: WipeEvent::Retrying };
                assert(may_follow(task, log1.last(), retry));
                lemma_grows_on(task, log0, log1, retry);
                assert(frontend.received().take(log0.len() as int) =~= log0);
            }
            None
        },
        AfterFailure::GiveUp => {
            proof {
                assert(log1.take(log0.len() as int) =~= log0);
            }
            Some(shared)
        },
    }
}

/// The reports of one phase of a plain wipe, entered in the state `at` at the
/// start of the device: the phase starts, goes through the device block
/// after block, and completes at its end.
pub open spec fn plain_phase(task: &WipeTask, at: WipeStateView) -> Seq<Notice> {
    seq![Notice { state: at, event: WipeEvent::StageStarted }] + phase_strides(task, at) + seq![
        Notice {
            state: WipeStateView { position: task.total_size, ..at },
            event: WipeEvent::StageCompleted(None),
        },
    ]
}

/// The reports of one stage of a plain wipe, entered in the state `at`: the
/// write phase, and the read phase where the stage is read back.
pub open spec fn plain_stage(task: &WipeTask, at: WipeStateView, check: bool) -> Seq<Notice> {
    if check {
        plain_phase(task, at) + plain_phase(task, WipeStateView { at_verification: true, ..at })
    } else {
        plain_phase(task, at)
    }
}

/// The state in which a stage of a plain wipe ends that was entered in the
/// state `at`.
pub open spec fn plain_stage_end(task: &WipeTask, at: WipeStateView, check: bool) -> WipeStateView {
    WipeStateView { at_verification: check, position: task.total_size, ..at }
}

/// Whether a wipe is plain: the device is obliging and holds as many bytes as
/// the task gives, no block is marked bad, and `patterned` tells that the
/// stages have a pattern. Such a wipe meets no failure and no bad block, and
/// its reports are known in full.
pub open spec fn plain(
    obliging: bool,
    held: int,
    bad: Set<u32>,
    task: &WipeTask,
    patterned: bool,
) -> bool {
    &&& obliging
    &&& task.total_size <= held
    &&& patterned
    &&& unmarked(bad)
}

/// The reports of the first `count` stages of a plain wipe.
pub open spec fn plain_stages(task: &WipeTask, base: WipeStateView, count: int) -> Seq<Notice>
    decreases count,
{
    if count <= 0 {
        Seq::empty()
    } else {
        plain_stages(task, base, count - 1) + plain_stage(
            task,
            stage_entry(base, count - 1),
            verifies(task.verify, count - 1, task.scheme.stages@.len() as int),
        )
    }
}

/// The state in which a plain wipe ends.
pub open spec fn plain_end(task: &WipeTask, base: WipeStateView) -> WipeStateView {
    let count = task.scheme.stages@.len() as int;
    if count == 0 {
        base
    } else {
        plain_stage_end(
            task,
            stage_entry(base, count - 1),
            verifies(task.verify, count - 1, count),
        )
    }
}

/// All reports of a plain wipe: the start, stage after stage, and the end
/// without a failure.
pub open spec fn plain_wipe(task: &WipeTask, base: WipeStateView) -> Seq<Notice> {
    seq![Notice { state: base, event: WipeEvent::Started }] + plain_stages(
        task,
        base,
        task.scheme.stages@.len() as int,
    ) + seq![Notice { state: plain_end(task, base), event: WipeEvent::Completed(None) }]
}

/// The reports of one stage of the wipe of a device of no bytes, entered in
/// state `at`: the stage starts and completes, and where it is to be read
/// back, it starts and completes once more, at verification.
pub open spec fn quiet_stage(at: WipeStateView, check: bool) -> Seq<Notice> {
    let checking = WipeStateView { at_verification: true, ..at };
    let written = seq![
        Notice { state: at, event: WipeEvent::StageStarted },
        Notice { state: at, event: WipeEvent::StageCompleted(None) },
    ];
    if check {
        written + seq![
            Notice { state: checking, event: WipeEvent::StageStarted },
            Notice { state: checking, event: WipeEvent::StageCompleted(None) },
        ]
    } else {
        written
    }
}

/// The state in which stage `index` of a wipe is entered, for a wipe that was
/// begun in state `base` and has not marked a block or used a retry since.
pub open spec fn stage_entry(base: WipeStateView, index: int) -> WipeStateView {
    WipeStateView { stage: index as usize, at_verification: false, position: 0, ..base }
}

/// The reports of the first `count` stages of the wipe of a device of no
/// bytes.
pub open spec fn quiet_stages(task: &WipeTask, base: WipeStateView, count: int) -> Seq<Notice>
    decreases count,
{
    if count <= 0 {
        Seq::empty()
    } else {
        quiet_stages(task, base, count - 1) + quiet_stage(
            stage_entry(base, count - 1),
            verifies(task.verify, count - 1, task.scheme.stages@.len() as int),
        )
    }
}

/// The state in which the wipe of a device of no bytes ends.
pub open spec fn quiet_end(task: &WipeTask, base: WipeStateView) -> WipeStateView {
    let count = task.scheme.stages@.len() as int;
    if count == 0 {
        base
    } else {
        WipeStateView {
            at_verification: verifies(task.verify, count - 1, count),
            ..stage_entry(base, count - 1)
        }
    }
}

/// All reports of the wipe of a device of no bytes.
pub open spec fn quiet_wipe(task: &WipeTask, base: WipeStateView) -> Seq<Notice> {
    seq![Notice { state: base, event: WipeEvent::Started }] + quiet_stages(
        task,
        base,
        task.scheme.stages@.len() as int,
    ) + seq![Notice { state: quiet_end(task, base), event: WipeEvent::Completed(None) }]
}

/// The failure that a shared failure holds, if there is one.
pub open spec fn unshared(failure: Option<Rc<WipeError>>) -> Option<WipeError> {
    match failure {
        Some(shared) => Some(*shared),
        None => None,
    }
}

/// The reports of a plain phase, put together.
proof fn lemma_plain_phase_told(
    task: &WipeTask,
    before: Seq<Notice>,
    at: WipeStateView,
    started: Seq<Notice>,
    strode: Seq<Notice>,
    ended: Seq<Notice>,
)
    requires
        started == before.push(Notice { state: at, event: WipeEvent::StageStarted }),
        strode == started + phase_strides(task, at),
        ended == strode.push(
            Notice {
                state: WipeStateView { position: task.total_size, ..at },
                event: WipeEvent::StageCompleted(None),
            },
        ),
    ensures
        ended == before + plain_phase(task, at),
{
    assert(ended =~= before + plain_phase(task, at));
}

/// The reports of the two phases of a plain stage that is read back, put
/// together.
proof fn lemma_plain_phases_told(
    task: &WipeTask,
    before: Seq<Notice>,
    at: WipeStateView,
    written: Seq<Notice>,
    checked: Seq<Notice>,
)
    requires
        written == before + plain_phase(task, at),
        checked == written + plain_phase(task, WipeStateView { at_verification: true, ..at }),
    ensures
        checked == before + plain_stage(task, at, true),
{
    assert(checked =~= before + plain_stage(task, at, true));
}

/// One stage of a wipe: the stage is written, and read back where `check` is
/// set, as often as it takes and retries allow. The answer is the failure the
/// stage ended with, if it did not succeed.
///
/// An attempt resumes where the one before it failed. When the stage
/// succeeds, every block of the device that is not marked bad holds the
/// stage's pattern.
#[verifier::rlimit(80)]
fn run_stage<A: StorageAccess + ?Sized, R: WipeEventReceiver + ?Sized>(
    access: &mut A,
    task: &WipeTask,
    state: &mut WipeState,
    frontend: &mut R,
    stage: &Stage,
    check: bool,
) -> (failure: Option<Rc<WipeError>>)
    requires
        task.runnable(),
        old(frontend).received().len() > 0,
        may_follow(
            task,
            old(frontend).received().last(),
            Notice { state: old(state)@, event: WipeEvent::StageStarted },
        ),
        !old(state).at_verification,
        old(state).position == 0,
        old(state).stage < task.scheme.stages@.len(),
        check == verifies(
            task.verify,
            old(state).stage as int,
            task.scheme.stages@.len() as int,
        ),
        *stage == task.scheme.stages@[old(state).stage as int],
    ensures
        ran_in_phases(
            task,
            old(access).exchanges(),
            final(access).exchanges(),
            old(frontend).received(),
            final(frontend).received(),
        ),
        reads_fit(
            final(access).exchanges(),
            old(access).exchanges().len() as int,
            task.total_size as int,
            task.block_size as int,
        ),
        failure is Some ==> stands_where_it_failed(
            final(access).exchanges(),
            old(access).exchanges().len() as int,
            final(state).position as int,
            task.total_size as int,
        ),
        read_back(
            old(access).exchanges(),
            final(access).exchanges(),
            old(frontend).received(),
            final(frontend).received(),
            old(state)@.bad_blocks,
            final(state)@.bad_blocks,
            *stage,
            task.total_size as int,
            task.block_size as int,
            if check && failure is None {
                task.total_size as int
            } else {
                0
            },
        ),
        plain(
            old(access).obliging(),
            old(access).contents().len() as int,
            old(state)@.bad_blocks,
            task,
            patterned(*stage, task.block_size as int),
        ) ==> {
            &&& final(frontend).received() == old(frontend).received() + plain_stage(
                task,
                old(state)@,
                check,
            )
            &&& final(state)@ == plain_stage_end(task, old(state)@, check)
        },
        old(access).obliging() ==> final(access).obliging(),
        old(access).contents().len() <= final(access).contents().len(),
        old(access).obliging() && task.total_size <= old(access).contents().len() && patterned(
            *stage,
            task.block_size as int,
        ) ==> {
            &&& failure is None
            &&& final(state).retries_left == old(state).retries_left
            &&& final(state)@.bad_blocks == old(state)@.bad_blocks
        },
        grows(task, old(frontend).received(), final(frontend).received()),
        synced(final(frontend).received(), final(state)@),
        final(frontend).received().last().event == WipeEvent::StageCompleted(failure),
        failure is Some ==> final(state).retries_left == 0,
        final(state).stage == old(state).stage,
        final(state).retries_left <= old(state).retries_left,
        final(state).position <= task.total_size,
        old(state)@.bad_blocks.subset_of(final(state)@.bad_blocks),
        failure is None ==> final(state).at_verification == check,
        failure is None && patterned(*stage, task.block_size as int) ==> covered(
            final(access).contents(),
            *stage,
            final(state)@.bad_blocks,
            task.block_size as int,
            task.total_size as int,
        ),
        all_bad(old(state)@.bad_blocks, task.block_size as int, 0, task.total_size as int) ==> {
            &&& failure is None
            &&& final(access).contents() == old(access).contents()
            &&& final(access).cursor() == old(access).cursor()
            &&& final(state)@.bad_blocks == old(state)@.bad_blocks
            &&& final(state).retries_left == old(state).retries_left
            &&& final(state).position == task.total_size
            &&& final(access).exchanges() == old(access).exchanges()
        },
        failure is None ==> final(state).position == task.total_size,
        kept_within(
            final(access).exchanges(),
            old(access).exchanges().len() as int,
            task.total_size as int,
            true,
            check,
        ),
        balanced(
            old(access).exchanges(),
            final(access).exchanges(),
            old(frontend).received(),
            final(frontend).received(),
            old(state).retries_left - final(state).retries_left + if failure is Some {
                1int
            } else {
                0int
            },
            patterned(*stage, task.block_size as int),
        ),
        failure is None ==> settled(
            final(access).contents(),
            *stage,
            task.total_size as int,
            task.block_size as int,
            final(state)@.bad_blocks,
            task.total_size as int,
        ),
        staged(
            old(access).exchanges(),
            final(access).exchanges(),
            old(state)@.bad_blocks,
            final(state)@.bad_blocks,
            *stage,
            task.total_size as int,
            task.block_size as int,
            final(state).position as int,
            final(state).retries_left < old(state).retries_left,
            unshared(failure),
        ),
        task.total_size == 0 ==> {
            &&& final(frontend).received() == old(frontend).received() + quiet_stage(
                old(state)@,
                check,
            )
            &&& final(state)@ == (WipeStateView { at_verification: check, ..old(state)@ })
        },
{
    let ghost log0 = frontend.received();
    let ghost asked0 = access.exchanges();
    let ghost bad0 = state@.bad_blocks;
    let ghost block_size = task.block_size as int;
    let ghost quiet = all_bad(state@.bad_blocks, block_size, 0, task.total_size as int);
    proof {
        lemma_grows_reflexive(task, log0);
        lemma_device_start_is_block_start(task);
        lemma_stage_begins(asked0, bad0, *stage, task.total_size as int, block_size);
        lemma_balance_begins(asked0, log0, patterned(*stage, block_size));
        lemma_course_begins(task, asked0, log0);
        lemma_read_back_begins(asked0, log0, bad0, *stage, task.total_size as int, block_size);
        lemma_settled_begins(
            access.contents(),
            *stage,
            task.total_size as int,
            block_size,
            bad0,
        );
    }
    let ghost mut phases = Seq::<Phase>::empty();
    let ghost easy = plain(
        access.obliging(),
        access.contents().len() as int,
        state@.bad_blocks,
        task,
        patterned(*stage, block_size),
    );
    loop
        invariant
            easy == plain(
                old(access).obliging(),
                old(access).contents().len() as int,
                old(state)@.bad_blocks,
                task,
                patterned(*stage, block_size),
            ),
            easy ==> frontend.received() == log0 && state@ == old(state)@ && state.position == 0,
            old(access).obliging() ==> access.obliging(),
            old(access).contents().len() <= access.contents().len(),
            old(access).obliging() && task.total_size <= old(access).contents().len()
                && patterned(*stage, block_size) ==> state.retries_left == old(
                state,
            ).retries_left && state@.bad_blocks == bad0,
            settled(
                access.contents(),
                *stage,
                task.total_size as int,
                block_size,
                state@.bad_blocks,
                state.position as int,
            ),
            balanced(
                asked0,
                access.exchanges(),
                log0,
                frontend.received(),
                old(state).retries_left - state.retries_left,
                patterned(*stage, block_size),
            ),
            asked0 == old(access).exchanges(),
            bad0 == old(state)@.bad_blocks,
            *stage == task.scheme.stages@[old(state).stage as int],
            course(task, phases, asked0, access.exchanges(), log0, frontend.received()),
            reads_fit(access.exchanges(), asked0.len() as int, task.total_size as int, block_size),
            read_back(
                asked0,
                access.exchanges(),
                log0,
                frontend.received(),
                bad0,
                state@.bad_blocks,
                *stage,
                task.total_size as int,
                block_size,
                state.position as int,
            ),
            kept_within(access.exchanges(), asked0.len() as int, task.total_size as int, true, check),
            resumed(
                asked0,
                access.exchanges(),
                bad0,
                state@.bad_blocks,
                *stage,
                task.total_size as int,
                block_size,
                state.position as int,
                state.retries_left < old(state).retries_left,
            ),
            quiet ==> access.exchanges() == asked0,
            state.position <= task.total_size,
            task.runnable(),
            block_size == task.block_size,
            quiet == all_bad(old(state)@.bad_blocks, block_size, 0, task.total_size as int),
            quiet ==> {
                &&& access.contents() == old(access).contents()
                &&& access.cursor() == old(access).cursor()
                &&& state@.bad_blocks == old(state)@.bad_blocks
                &&& state.retries_left == old(state).retries_left
                &&& state.position == 0
            },
            task.total_size == 0 ==> frontend.received() == log0 && state@ == old(state)@,
            log0 == old(frontend).received(),
            frontend.received().len() > 0,
            grows(task, log0, frontend.received()),
            may_follow(
                task,
                frontend.received().last(),
                Notice { state: state@, event: WipeEvent::StageStarted },
            ),
            !state.at_verification,
            at_block_start(task, state.position as int),
            state.stage == old(state).stage,
            state.stage < task.scheme.stages@.len(),
            check == verifies(task.verify, state.stage as int, task.scheme.stages@.len() as int),
            state.retries_left <= old(state).retries_left,
            old(state)@.bad_blocks.subset_of(state@.bad_blocks),
            patterned(*stage, block_size) ==> covered(
                access.contents(),
                *stage,
                state@.bad_blocks,
                block_size,
                state.position as int,
            ),
        decreases state.retries_left,
    {
        let watermark = state.position;
        let ghost log1 = frontend.received();
        let ghost asked1 = access.exchanges();
        let ghost bad1 = state@.bad_blocks;
        let ghost spent = state.retries_left < old(state).retries_left;
        publish(frontend, task, state, WipeEvent::StageStarted);
        let ghost log2 = frontend.received();
        proof {
            lemma_grows_on(task, log0, log1, log2.last());
            assert(log2 == log1.push(log2.last()));
            lemma_course_told(task, phases, asked0, asked1, log0, log1, log2.last());
            lemma_read_back_report(
                asked0,
                asked1,
                log0,
                log1,
                log2.last(),
                bad0,
                bad1,
                *stage,
                task.total_size as int,
                block_size,
                watermark as int,
            );
            lemma_report_balances(
                task,
                asked0,
                asked1,
                log0,
                log1,
                log2.last(),
                old(state).retries_left - state.retries_left,
                patterned(*stage, block_size),
            );
        }
        let written = fill(access, task, state, frontend, stage);
        proof {
            lemma_grows_transitive(task, log0, log2, frontend.received());
            if access.exchanges().len() > 0 {
                lemma_no_answer_is_a_mismatch(access.exchanges().last());
            }
            lemma_phase_balances(
                task,
                asked0,
                asked1,
                access.exchanges(),
                log0,
                log2,
                frontend.received(),
                old(state).retries_left - state.retries_left,
                patterned(*stage, block_size),
                written,
            );
            lemma_kept_join(
                asked1,
                access.exchanges(),
                asked0.len() as int,
                task.total_size as int,
                true,
                false,
                true,
                check,
            );
            lemma_no_reads_fit(
                access.exchanges(),
                asked1.len() as int,
                task.total_size as int,
                block_size,
                true,
            );
            lemma_reads_fit_join(
                asked1,
                access.exchanges(),
                asked0.len() as int,
                task.total_size as int,
                block_size,
            );
            lemma_read_back_filled(
                task,
                asked0,
                asked1,
                access.exchanges(),
                log0,
                log2,
                frontend.received(),
                bad0,
                bad1,
                state@.bad_blocks,
                *stage,
                task.total_size as int,
                block_size,
                watermark as int,
                watermark as int,
                state.position as int,
                written,
            );
            lemma_attempt_fills(
                asked0,
                asked1,
                access.exchanges(),
                bad0,
                bad1,
                state@.bad_blocks,
                *stage,
                task.total_size as int,
                block_size,
                watermark as int,
                state.position as int,
                spent,
                written,
            );
        }
        match written {
            Ok(_) => {},
            Err(error) => {
                let ghost log3 = frontend.received();
                let ghost paid = old(state).retries_left - state.retries_left + if is_mismatch(written) {
                    0int
                } else {
                    1int
                };
                let outcome = phase_failed(task, state, frontend, error);
                proof {
                    let written_phase = Phase {
                        stage: *stage,
                        asked_before: asked1,
                        asked_after: access.exchanges(),
                        told_before: log2,
                        told_after: log3,
                        told_closed: frontend.received(),
                        done: written,
                    };
                    assert forall|i: int| log3.len() <= i < frontend.received().len() implies !is_step(
                        #[trigger] frontend.received()[i],
                    ) by {}
                    assert(log2.last().state.stage == old(state).stage);
                    assert(phase_ok(task, written_phase));
                    lemma_course_phase(task, phases, asked0, log0, written_phase);
                    phases = phases.push(written_phase);
                    lemma_read_back_grows(
                        task,
                        asked0,
                        access.exchanges(),
                        log0,
                        log3,
                        frontend.received(),
                        bad0,
                        state@.bad_blocks,
                        *stage,
                        task.total_size as int,
                        block_size,
                        state.position as int,
                        if outcome is None {
                            state.position as int
                        } else {
                            0
                        },
                    );
                    lemma_failure_balances(
                        task,
                        asked0,
                        access.exchanges(),
                        log0,
                        log3,
                        frontend.received(),
                        paid,
                        patterned(*stage, block_size),
                        error,
                        outcome is None,
                    );
                    lemma_grows_transitive(task, log0, log3, frontend.received());
                }
                match outcome {
                    Some(shared) => {
                        return Some(shared);
                    },
                    None => {
                        continue ;
                    },
                }
            },
        }
        let ghost log4 = frontend.received();
        publish(frontend, task, state, WipeEvent::StageCompleted(None));
        let ghost log5 = frontend.received();
        proof {
            assert(may_follow(task, log4.last(), log5.last()));
            lemma_grows_on(task, log0, log4, log5.last());
            assert(log5 == log4.push(log5.last()));
            let written_phase = Phase {
                stage: *stage,
                asked_before: asked1,
                asked_after: access.exchanges(),
                told_before: log2,
                told_after: log4,
                told_closed: log5,
                done: written,
            };
            lemma_grows_by_one(task, log4, log5.last());
            assert(log2.last().state.stage == old(state).stage);
            assert(phase_ok(task, written_phase));
            lemma_course_phase(task, phases, asked0, log0, written_phase);
            phases = phases.push(written_phase);
            lemma_read_back_report(
                asked0,
                access.exchanges(),
                log0,
                log4,
                log5.last(),
                bad0,
                state@.bad_blocks,
                *stage,
                task.total_size as int,
                block_size,
                watermark as int,
            );
            if easy {
                lemma_plain_phase_told(task, log0, old(state)@, log2, log4, log5);
            }
            lemma_report_balances(
                task,
                asked0,
                access.exchanges(),
                log0,
                log4,
                log5.last(),
                old(state).retries_left - state.retries_left,
                patterned(*stage, block_size),
            );
        }
        if !check {
            proof {
                lemma_read_back_told(
                    asked0,
                    access.exchanges(),
                    log0,
                    log5,
                    log5,
                    bad0,
                    state@.bad_blocks,
                    *stage,
                    task.total_size as int,
                    block_size,
                    watermark as int,
                    0,
                );
                if task.total_size == 0 {
                    assert(frontend.received() =~= log0 + quiet_stage(old(state)@, check));
                }
            }
            return None;
        }
        let ghost bad5 = state@.bad_blocks;
        let ghost asked5 = access.exchanges();
        state.position = watermark;
        state.at_verification = true;
        publish(frontend, task, state, WipeEvent::StageStarted);
        let ghost log6 = frontend.received();
        proof {
            assert(may_follow(task, log5.last(), log6.last()));
            lemma_grows_on(task, log0, log5, log6.last());
            assert(log6 == log5.push(log6.last()));
            lemma_course_told(task, phases, asked0, asked5, log0, log5, log6.last());
            lemma_read_back_report(
                asked0,
                asked5,
                log0,
                log5,
                log6.last(),
                bad0,
                bad5,
                *stage,
                task.total_size as int,
                block_size,
                watermark as int,
            );
            lemma_report_balances(
                task,
                asked0,
                asked5,
                log0,
                log5,
                log6.last(),
                old(state).retries_left - state.retries_left,
                patterned(*stage, block_size),
            );
        }
        let checked = verify(access, task, state, frontend, stage);
        proof {
            if full_reads(access.exchanges(), asked0.len() as int) {
                lemma_full_reads_within(
                    access.exchanges(),
                    access.exchanges(),
                    asked0.len() as int,
                    asked5.len() as int,
                );
            }
            lemma_phase_balances(
                task,
                asked0,
                asked5,
                access.exchanges(),
                log0,
                log6,
                frontend.received(),
                old(state).retries_left - state.retries_left,
                patterned(*stage, block_size),
                checked,
            );
            lemma_settled_past_bad(
                access.contents(),
                *stage,
                task.total_size as int,
                block_size,
                bad5,
                state@.bad_blocks,
                task.total_size as int,
                state.position as int,
            );
            lemma_kept_join(
                asked5,
                access.exchanges(),
                asked0.len() as int,
                task.total_size as int,
                false,
                true,
                true,
                check,
            );
            lemma_reads_fit_join(
                asked5,
                access.exchanges(),
                asked0.len() as int,
                task.total_size as int,
                block_size,
            );
            lemma_attempt_verifies(
                asked0,
                asked5,
                access.exchanges(),
                bad0,
                bad5,
                state@.bad_blocks,
                *stage,
                task.total_size as int,
                block_size,
                watermark as int,
                state.position as int,
                task.total_size as int,
                spent,
                checked,
            );
            lemma_resumed_before(
                asked0,
                access.exchanges(),
                bad0,
                state@.bad_blocks,
                *stage,
                task.total_size as int,
                block_size,
                task.total_size as int,
                state.position as int,
                spent,
            );
            if checked is Err {
                lemma_resumed_before(
                    asked0,
                    access.exchanges(),
                    bad0,
                    state@.bad_blocks,
                    *stage,
                    task.total_size as int,
                    block_size,
                    task.total_size as int,
                    state.position as int,
                    true,
                );
            }
            lemma_grows_transitive(task, log0, log6, frontend.received());
            lemma_covered_more_bad(
                access.contents(),
                *stage,
                bad5,
                state@.bad_blocks,
                block_size,
                task.total_size as int,
            );
        }
        match checked {
            Ok(_) => {
                proof {
                    lemma_read_back_checked(
                        task,
                        asked0,
                        asked5,
                        access.exchanges(),
                        log0,
                        log6,
                        frontend.received(),
                        frontend.received(),
                        bad0,
                        bad5,
                        state@.bad_blocks,
                        *stage,
                        task.total_size as int,
                        block_size,
                        watermark as int,
                        state.position as int,
                        checked,
                        false,
                    );
                }
            },
            Err(error) => {
                let ghost log7 = frontend.received();
                let ghost paid = old(state).retries_left - state.retries_left + if is_mismatch(checked) {
                    0int
                } else {
                    1int
                };
                let outcome = phase_failed(task, state, frontend, error);
                proof {
                    let read_phase = Phase {
                        stage: *stage,
                        asked_before: asked5,
                        asked_after: access.exchanges(),
                        told_before: log6,
                        told_after: log7,
                        told_closed: frontend.received(),
                        done: checked,
                    };
                    assert forall|i: int| log7.len() <= i < frontend.received().len() implies !is_step(
                        #[trigger] frontend.received()[i],
                    ) by {}
                    assert(log6.last().state.stage == old(state).stage);
                    assert(phase_ok(task, read_phase));
                    lemma_course_phase(task, phases, asked0, log0, read_phase);
                    phases = phases.push(read_phase);
                    lemma_read_back_checked(
                        task,
                        asked0,
                        asked5,
                        access.exchanges(),
                        log0,
                        log6,
                        log7,
                        frontend.received(),
                        bad0,
                        bad5,
                        state@.bad_blocks,
                        *stage,
                        task.total_size as int,
                        block_size,
                        watermark as int,
                        state.position as int,
                        checked,
                        outcome is None,
                    );
                    if outcome is Some {
                        lemma_read_back_told(
                            asked0,
                            access.exchanges(),
                            log0,
                            frontend.received(),
                            frontend.received(),
                            bad0,
                            state@.bad_blocks,
                            *stage,
                            task.total_size as int,
                            block_size,
                            state.position as int,
                            0,
                        );
                    }
                    lemma_failure_balances(
                        task,
                        asked0,
                        access.exchanges(),
                        log0,
                        log7,
                        frontend.received(),
                        paid,
                        patterned(*stage, block_size),
                        error,
                        outcome is None,
                    );
                    lemma_grows_transitive(task, log0, log7, frontend.received());
                }
                match outcome {
                    Some(shared) => {
                        return Some(shared);
                    },
                    None => {
                        continue ;
                    },
                }
            },
        }
        let ghost log8 = frontend.received();
        publish(frontend, task, state, WipeEvent::StageCompleted(None));
        proof {
            let end = frontend.received().last();
            assert(may_follow(task, log8.last(), end));
            lemma_grows_on(task, log0, log8, end);
            assert(frontend.received() == log8.push(end));
            let read_phase = Phase {
                stage: *stage,
                asked_before: asked5,
                asked_after: access.exchanges(),
                told_before: log6,
                told_after: log8,
                told_closed: frontend.received(),
                done: checked,
            };
            lemma_grows_by_one(task, log8, end);
            assert(log6.last().state.stage == old(state).stage);
            assert(phase_ok(task, read_phase));
            lemma_course_phase(task, phases, asked0, log0, read_phase);
            phases = phases.push(read_phase);
            lemma_read_back_report(
                asked0,
                access.exchanges(),
                log0,
                log8,
                end,
                bad0,
                state@.bad_blocks,
                *stage,
                task.total_size as int,
                block_size,
                task.total_size as int,
            );
            if easy {
                let checking = WipeStateView { at_verification: true, ..old(state)@ };
                lemma_plain_phase_told(task, log5, checking, log6, log8, frontend.received());
                lemma_plain_phases_told(task, log0, old(state)@, log5, frontend.received());
            }
            lemma_report_balances(
                task,
                asked0,
                access.exchanges(),
                log0,
                log8,
                end,
                old(state).retries_left - state.retries_left,
                patterned(*stage, block_size),
            );
            if task.total_size == 0 {
                assert(frontend.received() =~= log0 + quiet_stage(old(state)@, check));
            }
        }
        return None;
    }
}

/// Where a wipe began: what the device held, where its cursor stood, the
/// state of the wipe, and the reports up to and with that of the start.
struct WipeOrigin {
    pub contents: Seq<u8>,
    pub cursor: int,
    pub state: WipeStateView,
    pub log: Seq<Notice>,
    pub asked: Seq<Exchange>,
    pub plain: bool,
}

/// What the reports say between the stages of a wipe, when the first `done`
/// stages have succeeded.
#[verifier::opaque]
spec fn told_between(
    task: &WipeTask,
    origin: WipeOrigin,
    now: WipeStateView,
    log: Seq<Notice>,
    done: int,
) -> bool {
    let count = task.scheme.stages@.len() as int;
    &&& origin.log.len() > 0
    &&& origin.log.last() == (Notice { state: origin.state, event: WipeEvent::Started })
    &&& 0 <= done <= count
    &&& grows(task, origin.log, log)
    &&& done == 0 ==> log == origin.log && now == origin.state
    &&& done > 0 ==> {
        &&& log.len() > 0
        &&& log.last() == (Notice { state: now, event: WipeEvent::StageCompleted(None) })
        &&& now.stage == done - 1
        &&& now.at_verification == verifies(task.verify, done - 1, count)
        &&& now.position <= task.total_size
    }
    &&& task.total_size == 0 ==> {
        &&& log == origin.log + quiet_stages(task, origin.state, done)
        &&& done > 0 ==> now == (WipeStateView {
            at_verification: verifies(task.verify, done - 1, count),
            ..stage_entry(origin.state, done - 1)
        })
    }
    &&& origin.plain ==> {
        &&& log == origin.log + plain_stages(task, origin.state, done)
        &&& done > 0 ==> now == plain_stage_end(
            task,
            stage_entry(origin.state, done - 1),
            verifies(task.verify, done - 1, count),
        )
    }
}

/// What holds of the device and of the marks between the stages of a wipe,
/// when the first `done` stages have succeeded.
#[verifier::opaque]
spec fn kept_between(
    task: &WipeTask,
    origin: WipeOrigin,
    contents: Seq<u8>,
    cursor: int,
    now: WipeStateView,
    done: int,
) -> bool {
    let block_size = task.block_size as int;
    let count = task.scheme.stages@.len() as int;
    &&& 0 < done <= count && patterned(task.scheme.stages@[done - 1], block_size) ==> covered(
        contents,
        task.scheme.stages@[done - 1],
        now.bad_blocks,
        block_size,
        task.total_size as int,
    )
    &&& origin.state.bad_blocks.subset_of(now.bad_blocks)
    &&& now.retries_left <= origin.state.retries_left
    &&& all_bad(origin.state.bad_blocks, block_size, 0, task.total_size as int) ==> {
        &&& contents == origin.contents
        &&& cursor == origin.cursor
        &&& now.bad_blocks == origin.state.bad_blocks
        &&& now.retries_left == origin.state.retries_left
    }
}

/// What holds between the stages of a wipe, when the first `done` stages
/// have succeeded.
spec fn between_stages(
    task: &WipeTask,
    origin: WipeOrigin,
    contents: Seq<u8>,
    cursor: int,
    now: WipeStateView,
    log: Seq<Notice>,
    done: int,
) -> bool {
    &&& told_between(task, origin, now, log, done)
    &&& kept_between(task, origin, contents, cursor, now, done)
}

/// What holds when a stage of a wipe has failed for good.
#[verifier::opaque]
spec fn stage_failed(
    task: &WipeTask,
    origin: WipeOrigin,
    now: WipeStateView,
    log: Seq<Notice>,
    failure: Option<Rc<WipeError>>,
) -> bool {
    &&& failure is Some
    &&& grows(task, origin.log, log)
    &&& log.len() > 0
    &&& log.last() == (Notice { state: now, event: WipeEvent::StageCompleted(failure) })
    &&& now.position <= task.total_size
    &&& now.retries_left == 0
    &&& origin.state.bad_blocks.subset_of(now.bad_blocks)
    &&& now.retries_left <= origin.state.retries_left
    &&& !all_bad(
        origin.state.bad_blocks,
        task.block_size as int,
        0,
        task.total_size as int,
    )
    &&& task.total_size != 0
}

/// The state in which stage `i` is entered from the state `now`.
spec fn entered(now: WipeStateView, i: int) -> WipeStateView {
    WipeStateView { stage: i as usize, position: 0, at_verification: false, ..now }
}

/// Between stages the next stage may start.
proof fn lemma_stage_may_start(
    task: &WipeTask,
    origin: WipeOrigin,
    contents: Seq<u8>,
    cursor: int,
    now: WipeStateView,
    log: Seq<Notice>,
    i: int,
)
    requires
        task.runnable(),
        between_stages(task, origin, contents, cursor, now, log, i),
        0 <= i < task.scheme.stages@.len(),
        i <= usize::MAX,
    ensures
        log.len() > 0,
        may_follow(task, log.last(), Notice { state: entered(now, i), event: WipeEvent::StageStarted }),
{
    reveal(told_between);
    lemma_device_start_is_block_start(task);
    let begin = Notice { state: entered(now, i), event: WipeEvent::StageStarted };
    assert(log.last().state == now);
    assert(may_follow(task, log.last(), begin));
}

/// The reports of one more stage of the wipe of a device of no bytes.
proof fn lemma_quiet_stage_joins(
    task: &WipeTask,
    before: Seq<Notice>,
    base: WipeStateView,
    i: int,
    check: bool,
    log: Seq<Notice>,
    log_after: Seq<Notice>,
)
    requires
        0 <= i,
        check == verifies(task.verify, i, task.scheme.stages@.len() as int),
        log == before + quiet_stages(task, base, i),
        log_after == log + quiet_stage(stage_entry(base, i), check),
    ensures
        log_after == before + quiet_stages(task, base, i + 1),
{
    assert(log_after =~= before + quiet_stages(task, base, i + 1));
}

/// The reports of one more stage of a plain wipe.
proof fn lemma_plain_stage_joins(
    task: &WipeTask,
    before: Seq<Notice>,
    base: WipeStateView,
    i: int,
    check: bool,
    log: Seq<Notice>,
    log_after: Seq<Notice>,
)
    requires
        0 <= i,
        check == verifies(task.verify, i, task.scheme.stages@.len() as int),
        log == before + plain_stages(task, base, i),
        log_after == log + plain_stage(task, stage_entry(base, i), check),
    ensures
        log_after == before + plain_stages(task, base, i + 1),
{
    assert(log_after =~= before + plain_stages(task, base, i + 1));
}

/// What one stage has done to the device and the marks, as one stage after
/// others. A stage that fails has had a block to work on.
proof fn lemma_stage_is_kept(
    task: &WipeTask,
    origin: WipeOrigin,
    contents: Seq<u8>,
    cursor: int,
    now: WipeStateView,
    i: int,
    contents_after: Seq<u8>,
    cursor_after: int,
    after: WipeStateView,
    failure: Option<Rc<WipeError>>,
)
    requires
        kept_between(task, origin, contents, cursor, now, i),
        0 <= i < task.scheme.stages@.len(),
        after.retries_left <= now.retries_left,
        now.bad_blocks.subset_of(after.bad_blocks),
        failure is None && patterned(task.scheme.stages@[i], task.block_size as int) ==> covered(
            contents_after,
            task.scheme.stages@[i],
            after.bad_blocks,
            task.block_size as int,
            task.total_size as int,
        ),
        all_bad(now.bad_blocks, task.block_size as int, 0, task.total_size as int) ==> {
            &&& failure is None
            &&& contents_after == contents
            &&& cursor_after == cursor
            &&& after.bad_blocks == now.bad_blocks
            &&& after.retries_left == now.retries_left
        },
    ensures
        failure is None ==> kept_between(task, origin, contents_after, cursor_after, after, i + 1),
        origin.state.bad_blocks.subset_of(after.bad_blocks),
        after.retries_left <= origin.state.retries_left,
        failure is Some ==> !all_bad(
            origin.state.bad_blocks,
            task.block_size as int,
            0,
            task.total_size as int,
        ),
{
    reveal(kept_between);
}

/// What one stage has reported, as one stage after others.
#[verifier::rlimit(40)]
proof fn lemma_stage_is_told(
    task: &WipeTask,
    origin: WipeOrigin,
    now: WipeStateView,
    log: Seq<Notice>,
    i: int,
    check: bool,
    after: WipeStateView,
    log_after: Seq<Notice>,
    failure: Option<Rc<WipeError>>,
)
    requires
        told_between(task, origin, now, log, i),
        0 <= i < task.scheme.stages@.len(),
        i <= usize::MAX,
        check == verifies(task.verify, i, task.scheme.stages@.len() as int),
        grows(task, log, log_after),
        synced(log_after, after),
        log_after.last().event == WipeEvent::StageCompleted(failure),
        failure is Some ==> after.retries_left == 0,
        after.stage == i,
        after.position <= task.total_size,
        failure is None ==> after.at_verification == check,
        origin.state.bad_blocks.subset_of(after.bad_blocks),
        after.retries_left <= origin.state.retries_left,
        failure is Some ==> !all_bad(
            origin.state.bad_blocks,
            task.block_size as int,
            0,
            task.total_size as int,
        ),
        task.total_size == 0 ==> {
            &&& log_after == log + quiet_stage(entered(now, i), check)
            &&& after == (WipeStateView { at_verification: check, ..entered(now, i) })
        },
        origin.plain ==> {
            &&& log_after == log + plain_stage(task, entered(now, i), check)
            &&& after == plain_stage_end(task, entered(now, i), check)
        },
    ensures
        failure is None ==> told_between(task, origin, after, log_after, i + 1),
        failure is Some ==> stage_failed(task, origin, after, log_after, failure),
{
    reveal(told_between);
    reveal(stage_failed);
    lemma_grows_transitive(task, origin.log, log, log_after);
    if task.total_size == 0 {
        assert(all_bad(origin.state.bad_blocks, task.block_size as int, 0, 0));
        assert(entered(now, i) == stage_entry(origin.state, i));
        lemma_quiet_stage_joins(task, origin.log, origin.state, i, check, log, log_after);
    }
    if origin.plain {
        assert(entered(now, i) == stage_entry(origin.state, i));
        lemma_plain_stage_joins(task, origin.log, origin.state, i, check, log, log_after);
    }
}

/// Between stages the exchanges and the reports are those of the start of
/// the wipe, carried on.
proof fn lemma_so_far(
    task: &WipeTask,
    origin: WipeOrigin,
    contents: Seq<u8>,
    cursor: int,
    now: WipeStateView,
    log: Seq<Notice>,
    asked: Seq<Exchange>,
    i: int,
    spent: bool,
)
    requires
        between_stages(task, origin, contents, cursor, now, log, i),
        progressed(
            origin.asked,
            asked,
            origin.state.bad_blocks,
            now.bad_blocks,
            task.scheme.stages@,
            task.total_size as int,
            task.block_size as int,
            i,
            spent,
        ),
    ensures
        grows(task, origin.log, log),
        carried(origin.asked, asked),
        now.bad_blocks == origin.state.bad_blocks.union(
            refusals(asked, origin.asked.len() as int, task.block_size as int),
        ),
{
    reveal(told_between);
    reveal(progressed);
}

/// Stage `i` of a wipe, entered from the end of the stage before it.
fn enter_stage<A: StorageAccess + ?Sized, R: WipeEventReceiver + ?Sized>(
    access: &mut A,
    task: &WipeTask,
    state: &mut WipeState,
    frontend: &mut R,
    i: usize,
    Ghost(origin): Ghost<WipeOrigin>,
) -> (failure: Option<Rc<WipeError>>)
    requires
        task.runnable(),
        i < task.scheme.stages@.len(),
        between_stages(
            task,
            origin,
            old(access).contents(),
            old(access).cursor(),
            old(state)@,
            old(frontend).received(),
            i as int,
        ),
        progressed(
            origin.asked,
            old(access).exchanges(),
            origin.state.bad_blocks,
            old(state)@.bad_blocks,
            task.scheme.stages@,
            task.total_size as int,
            task.block_size as int,
            i as int,
            old(state).retries_left < origin.state.retries_left,
        ),
        balanced(
            origin.asked,
            old(access).exchanges(),
            origin.log,
            old(frontend).received(),
            origin.state.retries_left - old(state).retries_left,
            all_patterned(task.scheme.stages@, task.block_size as int),
        ),
        kept_within(
            old(access).exchanges(),
            origin.asked.len() as int,
            task.total_size as int,
            true,
            !(task.verify is No),
        ),
        origin.plain ==> plain(
            old(access).obliging(),
            old(access).contents().len() as int,
            old(state)@.bad_blocks,
            task,
            all_patterned(task.scheme.stages@, task.block_size as int),
        ),
        read_back_wipe(
            origin.asked,
            old(access).exchanges(),
            origin.log,
            old(frontend).received(),
            origin.state.bad_blocks,
            old(state)@.bad_blocks,
            task.scheme.stages@,
            task.verify,
            task.total_size as int,
            task.block_size as int,
            i as int,
        ),
        reads_fit(
            old(access).exchanges(),
            origin.asked.len() as int,
            task.total_size as int,
            task.block_size as int,
        ),
        ran_in_phases(
            task,
            origin.asked,
            old(access).exchanges(),
            origin.log,
            old(frontend).received(),
        ),
    ensures
        ran_in_phases(
            task,
            origin.asked,
            final(access).exchanges(),
            origin.log,
            final(frontend).received(),
        ),
        reads_fit(
            final(access).exchanges(),
            origin.asked.len() as int,
            task.total_size as int,
            task.block_size as int,
        ),
        failure is Some ==> stands_where_it_failed(
            final(access).exchanges(),
            origin.asked.len() as int,
            final(state).position as int,
            task.total_size as int,
        ),
        read_back_wipe(
            origin.asked,
            final(access).exchanges(),
            origin.log,
            final(frontend).received(),
            origin.state.bad_blocks,
            final(state)@.bad_blocks,
            task.scheme.stages@,
            task.verify,
            task.total_size as int,
            task.block_size as int,
            if failure is None {
                i + 1
            } else {
                i as int
            },
        ),
        origin.plain ==> plain(
            final(access).obliging(),
            final(access).contents().len() as int,
            final(state)@.bad_blocks,
            task,
            all_patterned(task.scheme.stages@, task.block_size as int),
        ),
        old(access).obliging() ==> final(access).obliging(),
        old(access).contents().len() <= final(access).contents().len(),
        old(access).obliging() && task.total_size <= old(access).contents().len()
            && all_patterned(task.scheme.stages@, task.block_size as int) ==> {
            &&& failure is None
            &&& final(state).retries_left == old(state).retries_left
            &&& final(state)@.bad_blocks == old(state)@.bad_blocks
        },
        kept_within(
            final(access).exchanges(),
            origin.asked.len() as int,
            task.total_size as int,
            true,
            !(task.verify is No),
        ),
        balanced(
            origin.asked,
            final(access).exchanges(),
            origin.log,
            final(frontend).received(),
            origin.state.retries_left - final(state).retries_left + if failure is Some {
                1int
            } else {
                0int
            },
            all_patterned(task.scheme.stages@, task.block_size as int),
        ),
        failure is None ==> between_stages(
            task,
            origin,
            final(access).contents(),
            final(access).cursor(),
            final(state)@,
            final(frontend).received(),
            i + 1,
        ),
        failure is Some ==> stage_failed(
            task,
            origin,
            final(state)@,
            final(frontend).received(),
            failure,
        ),
        failure is None ==> progressed(
            origin.asked,
            final(access).exchanges(),
            origin.state.bad_blocks,
            final(state)@.bad_blocks,
            task.scheme.stages@,
            task.total_size as int,
            task.block_size as int,
            i + 1,
            final(state).retries_left < origin.state.retries_left,
        ),
        failure is None ==> settled(
            final(access).contents(),
            task.scheme.stages@[i as int],
            task.total_size as int,
            task.block_size as int,
            final(state)@.bad_blocks,
            task.total_size as int,
        ),
        failure is Some ==> final(state).stage == i && wiped(
            origin.asked,
            final(access).exchanges(),
            origin.state.bad_blocks,
            final(state)@.bad_blocks,
            task.scheme.stages@,
            task.total_size as int,
            task.block_size as int,
            i as int,
            final(state).position as int,
            final(state).retries_left < origin.state.retries_left,
            unshared(failure),
        ),
{
    let count = task.scheme.stages.len();
    let check = have_to_verify(task.verify, i, count);
    let ghost now = state@;
    let ghost log = frontend.received();
    let ghost contents = access.contents();
    let ghost cursor = access.cursor();
    let ghost asked = access.exchanges();
    state.stage = i;
    state.position = 0;
    state.at_verification = false;
    proof {
        assert(state@ == entered(now, i as int));
        lemma_stage_may_start(task, origin, contents, cursor, now, log, i as int);
    }
    let stage_error = run_stage(access, task, state, frontend, &task.scheme.stages[i], check);
    proof {
        lemma_stage_is_kept(
            task,
            origin,
            contents,
            cursor,
            now,
            i as int,
            access.contents(),
            access.cursor(),
            state@,
            stage_error,
        );
        lemma_stage_is_told(
            task,
            origin,
            now,
            log,
            i as int,
            check,
            state@,
            frontend.received(),
            stage_error,
        );
        lemma_so_far(
            task,
            origin,
            contents,
            cursor,
            now,
            log,
            asked,
            i as int,
            now.retries_left < origin.state.retries_left,
        );
        lemma_kept_join(
            asked,
            access.exchanges(),
            origin.asked.len() as int,
            task.total_size as int,
            true,
            check,
            true,
            !(task.verify is No),
        );
        if full_reads(access.exchanges(), origin.asked.len() as int) {
            lemma_full_reads_within(
                access.exchanges(),
                access.exchanges(),
                origin.asked.len() as int,
                asked.len() as int,
            );
        }
        let so_far = choose|phases: Seq<Phase>|
            course(task, phases, origin.asked, asked, origin.log, log);
        let since = choose|phases: Seq<Phase>|
            course(task, phases, asked, access.exchanges(), log, frontend.received());
        lemma_course_joins(
            task,
            so_far,
            since,
            origin.asked,
            asked,
            access.exchanges(),
            origin.log,
            log,
            frontend.received(),
        );
        lemma_reads_fit_join(
            asked,
            access.exchanges(),
            origin.asked.len() as int,
            task.total_size as int,
            task.block_size as int,
        );
        lemma_mismatches_add_up(task, log, frontend.received(), origin.log.len() as int);
        lemma_read_back_joins(
            origin.asked,
            asked,
            access.exchanges(),
            origin.log,
            log,
            frontend.received(),
            origin.state.bad_blocks,
            now.bad_blocks,
            state@.bad_blocks,
            task.scheme.stages@,
            task.verify,
            task.total_size as int,
            task.block_size as int,
            i as int,
            if check && stage_error is None {
                task.total_size as int
            } else {
                0
            },
            if stage_error is None {
                i + 1
            } else {
                i as int
            },
        );
        lemma_balances_add(
            task,
            origin.asked,
            asked,
            access.exchanges(),
            origin.log,
            log,
            frontend.received(),
            origin.state.retries_left - now.retries_left,
            now.retries_left - state.retries_left + if stage_error is Some {
                1int
            } else {
                0int
            },
            all_patterned(task.scheme.stages@, task.block_size as int),
            patterned(task.scheme.stages@[i as int], task.block_size as int),
        );
        lemma_stage_joins(
            origin.asked,
            asked,
            access.exchanges(),
            origin.state.bad_blocks,
            now.bad_blocks,
            state@.bad_blocks,
            task.scheme.stages@,
            task.total_size as int,
            task.block_size as int,
            i as int,
            state.position as int,
            now.retries_left < origin.state.retries_left,
            state.retries_left < now.retries_left,
            state.retries_left < origin.state.retries_left,
            unshared(stage_error),
        );
    }
    stage_error
}

/// The stages of a wipe, one after the other, up to the first that fails
/// for good. The answer is that failure, if there was one.
fn run_stages<A: StorageAccess + ?Sized, R: WipeEventReceiver + ?Sized>(
    access: &mut A,
    task: &WipeTask,
    state: &mut WipeState,
    frontend: &mut R,
) -> (failure: Option<Rc<WipeError>>)
    requires
        task.runnable(),
        old(frontend).received().len() > 0,
        old(frontend).received().last() == (Notice {
            state: old(state)@,
            event: WipeEvent::Started,
        }),
    ensures
        ran_in_phases(
            task,
            old(access).exchanges(),
            final(access).exchanges(),
            old(frontend).received(),
            final(frontend).received(),
        ),
        reads_fit(
            final(access).exchanges(),
            old(access).exchanges().len() as int,
            task.total_size as int,
            task.block_size as int,
        ),
        failure is Some ==> stands_where_it_failed(
            final(access).exchanges(),
            old(access).exchanges().len() as int,
            final(state).position as int,
            task.total_size as int,
        ),
        read_back_wipe(
            old(access).exchanges(),
            final(access).exchanges(),
            old(frontend).received(),
            final(frontend).received(),
            old(state)@.bad_blocks,
            final(state)@.bad_blocks,
            task.scheme.stages@,
            task.verify,
            task.total_size as int,
            task.block_size as int,
            if failure is None {
                task.scheme.stages@.len() as int
            } else {
                final(state).stage as int
            },
        ),
        plain(
            old(access).obliging(),
            old(access).contents().len() as int,
            old(state)@.bad_blocks,
            task,
            all_patterned(task.scheme.stages@, task.block_size as int),
        ) ==> {
            &&& final(frontend).received() == old(frontend).received() + plain_stages(
                task,
                old(state)@,
                task.scheme.stages@.len() as int,
            )
            &&& final(state)@ == plain_end(task, old(state)@)
        },
        old(access).obliging() && task.total_size <= old(access).contents().len()
            && all_patterned(task.scheme.stages@, task.block_size as int) ==> {
            &&& failure is None
            &&& final(state).retries_left == old(state).retries_left
            &&& final(state)@.bad_blocks == old(state)@.bad_blocks
        },
        grows(task, old(frontend).received(), final(frontend).received()),
        old(state)@.bad_blocks.subset_of(final(state)@.bad_blocks),
        final(state).retries_left <= old(state).retries_left,
        task.scheme.stages@.len() == 0 ==> final(frontend).received() == old(frontend).received()
            && final(state)@ == old(state)@ && failure is None,
        task.scheme.stages@.len() > 0 ==> {
            &&& synced(final(frontend).received(), final(state)@)
            &&& final(frontend).received().last().event == WipeEvent::StageCompleted(failure)
            &&& final(state).position <= task.total_size
            &&& failure is Some ==> final(state).retries_left == 0
            &&& failure is None ==> final(state).stage + 1 == task.scheme.stages@.len()
                && final(state).at_verification == verifies(
                task.verify,
                final(state).stage as int,
                task.scheme.stages@.len() as int,
            )
        },
        failure is None && task.scheme.stages@.len() > 0 ==> settled(
            final(access).contents(),
            task.scheme.stages@.last(),
            task.total_size as int,
            task.block_size as int,
            final(state)@.bad_blocks,
            task.total_size as int,
        ),
        failure is None && task.scheme.stages@.len() > 0 && patterned(
            task.scheme.stages@.last(),
            task.block_size as int,
        ) ==> covered(
            final(access).contents(),
            task.scheme.stages@.last(),
            final(state)@.bad_blocks,
            task.block_size as int,
            task.total_size as int,
        ),
        all_bad(old(state)@.bad_blocks, task.block_size as int, 0, task.total_size as int) ==> {
            &&& failure is None
            &&& final(access).contents() == old(access).contents()
            &&& final(access).cursor() == old(access).cursor()
            &&& final(state)@.bad_blocks == old(state)@.bad_blocks
            &&& final(state).retries_left == old(state).retries_left
        },
        task.total_size == 0 ==> {
            &&& final(frontend).received() == old(frontend).received() + quiet_stages(
                task,
                old(state)@,
                task.scheme.stages@.len() as int,
            )
            &&& final(state)@ == quiet_end(task, old(state)@)
        },
        wiped(
            old(access).exchanges(),
            final(access).exchanges(),
            old(state)@.bad_blocks,
            final(state)@.bad_blocks,
            task.scheme.stages@,
            task.total_size as int,
            task.block_size as int,
            final(state).stage as int,
            final(state).position as int,
            final(state).retries_left < old(state).retries_left,
            unshared(failure),
        ),
        balanced(
            old(access).exchanges(),
            final(access).exchanges(),
            old(frontend).received(),
            final(frontend).received(),
            old(state).retries_left - final(state).retries_left + if failure is Some {
                1int
            } else {
                0int
            },
            all_patterned(task.scheme.stages@, task.block_size as int),
        ),
        kept_within(
            final(access).exchanges(),
            old(access).exchanges().len() as int,
            task.total_size as int,
            true,
            !(task.verify is No),
        ),
{
    let ghost origin = WipeOrigin {
        contents: access.contents(),
        cursor: access.cursor(),
        state: state@,
        log: frontend.received(),
        asked: access.exchanges(),
        plain: plain(
            access.obliging(),
            access.contents().len() as int,
            state@.bad_blocks,
            task,
            all_patterned(task.scheme.stages@, task.block_size as int),
        ),
    };
    let count = task.scheme.stages.len();
    let mut i: usize = 0;
    proof {
        reveal(told_between);
        reveal(kept_between);
        lemma_grows_reflexive(task, origin.log);
        assert(origin.log =~= origin.log + quiet_stages(task, state@, 0));
        assert(origin.log =~= origin.log + plain_stages(task, state@, 0));
        lemma_balance_begins(
            origin.asked,
            origin.log,
            all_patterned(task.scheme.stages@, task.block_size as int),
        );
        lemma_course_begins(task, origin.asked, origin.log);
        lemma_read_back_wipe_begins(
            origin.asked,
            origin.log,
            origin.state.bad_blocks,
            task.scheme.stages@,
            task.verify,
            task.total_size as int,
            task.block_size as int,
        );
        lemma_wipe_begins(
            origin.asked,
            origin.state.bad_blocks,
            task.scheme.stages@,
            task.total_size as int,
            task.block_size as int,
        );
    }
    while i < count
        invariant
            old(access).obliging() ==> access.obliging(),
            old(access).contents().len() <= access.contents().len(),
            old(access).obliging() && task.total_size <= old(access).contents().len()
                && all_patterned(task.scheme.stages@, task.block_size as int)
                ==> state.retries_left == old(state).retries_left && state@.bad_blocks == old(
                state,
            )@.bad_blocks,
            task.runnable(),
            count == task.scheme.stages@.len(),
            i <= count,
            origin == (WipeOrigin {
                contents: old(access).contents(),
                cursor: old(access).cursor(),
                state: old(state)@,
                log: old(frontend).received(),
                asked: old(access).exchanges(),
                plain: plain(
                    old(access).obliging(),
                    old(access).contents().len() as int,
                    old(state)@.bad_blocks,
                    task,
                    all_patterned(task.scheme.stages@, task.block_size as int),
                ),
            }),
            origin.plain ==> plain(
                access.obliging(),
                access.contents().len() as int,
                state@.bad_blocks,
                task,
                all_patterned(task.scheme.stages@, task.block_size as int),
            ),
            read_back_wipe(
                origin.asked,
                access.exchanges(),
                origin.log,
                frontend.received(),
                origin.state.bad_blocks,
                state@.bad_blocks,
                task.scheme.stages@,
                task.verify,
                task.total_size as int,
                task.block_size as int,
                i as int,
            ),
            reads_fit(
                access.exchanges(),
                origin.asked.len() as int,
                task.total_size as int,
                task.block_size as int,
            ),
            ran_in_phases(
                task,
                origin.asked,
                access.exchanges(),
                origin.log,
                frontend.received(),
            ),
            progressed(
                origin.asked,
                access.exchanges(),
                origin.state.bad_blocks,
                state@.bad_blocks,
                task.scheme.stages@,
                task.total_size as int,
                task.block_size as int,
                i as int,
                state.retries_left < origin.state.retries_left,
            ),
            balanced(
                origin.asked,
                access.exchanges(),
                origin.log,
                frontend.received(),
                origin.state.retries_left - state.retries_left,
                all_patterned(task.scheme.stages@, task.block_size as int),
            ),
            kept_within(
                access.exchanges(),
                origin.asked.len() as int,
                task.total_size as int,
                true,
                !(task.verify is No),
            ),
            i > 0 ==> settled(
                access.contents(),
                task.scheme.stages@[i - 1],
                task.total_size as int,
                task.block_size as int,
                state@.bad_blocks,
                task.total_size as int,
            ),
            between_stages(
                task,
                origin,
                access.contents(),
                access.cursor(),
                state@,
                frontend.received(),
                i as int,
            ),
        decreases count - i,
    {
        let stage_error = enter_stage(access, task, state, frontend, i, Ghost(origin));
        if stage_error.is_some() {
            proof {
                reveal(stage_failed);
            }
            return stage_error;
        }
        i = i + 1;
    }
    proof {
        reveal(told_between);
        reveal(kept_between);
        if count > 0 {
            assert(task.scheme.stages@.last() == task.scheme.stages@[count - 1]);
        }
        lemma_wipe_is_over(
            origin.asked,
            access.exchanges(),
            origin.state.bad_blocks,
            state@.bad_blocks,
            task.scheme.stages@,
            task.total_size as int,
            task.block_size as int,
            state.stage as int,
            state.position as int,
            state.retries_left < origin.state.retries_left,
        );
    }
    None
}

/// The failure that the last report gives as the end of the wipe, if that
/// report is the end of a wipe and gives one.
pub open spec fn reported_failure(log: Seq<Notice>) -> Option<WipeError> {
    if log.len() > 0 {
        match log.last().event {
            WipeEvent::Completed(failure) => unshared(failure),
            _ => None,
        }
    } else {
        None
    }
}

/// The reports of a plain wipe, put together.
proof fn lemma_plain_wipe(
    task: &WipeTask,
    before: Seq<Notice>,
    base: WipeStateView,
    middle: Seq<Notice>,
)
    requires
        middle == before.push(Notice { state: base, event: WipeEvent::Started }) + plain_stages(
            task,
            base,
            task.scheme.stages@.len() as int,
        ),
    ensures
        middle.push(
            Notice { state: plain_end(task, base), event: WipeEvent::Completed(None) },
        ) == before + plain_wipe(task, base),
{
    let end = Notice { state: plain_end(task, base), event: WipeEvent::Completed(None) };
    assert(middle.push(end) =~= before + plain_wipe(task, base));
}

/// The reports of the wipe of a device of no bytes, put together.
proof fn lemma_quiet_wipe(
    task: &WipeTask,
    before: Seq<Notice>,
    base: WipeStateView,
    middle: Seq<Notice>,
)
    requires
        middle == before.push(Notice { state: base, event: WipeEvent::Started }) + quiet_stages(
            task,
            base,
            task.scheme.stages@.len() as int,
        ),
    ensures
        middle.push(
            Notice { state: quiet_end(task, base), event: WipeEvent::Completed(None) },
        ) == before + quiet_wipe(task, base),
{
    let end = Notice { state: quiet_end(task, base), event: WipeEvent::Completed(None) };
    assert(middle.push(end) =~= before + quiet_wipe(task, base));
}

impl WipeTask {
    /// Wipes the device behind `access`: stage after stage of the scheme, the
    /// device is filled with the stage's pattern from its first byte to its
    /// last and read back where the verification policy asks for it. Tells
    /// whether every stage succeeded.
    ///
    /// Every step is reported to `frontend`, in the order that `may_follow`
    /// lays down. Blocks once marked bad stay marked, and retries are only
    /// ever used up. After a successful wipe every block of the device that
    /// is not marked bad holds what a stream of the last stage yields for it.
    /// Where the attempts at a stage agree on a pattern, which they do for a
    /// constant stage and for a random stage too when blocks are made of whole
    /// keystream words, every byte in such a block holds that pattern.
    ///
    /// The wipe keeps within the device, as `kept_within` lays down: no write
    /// goes beyond the size that the task gives, and nothing is read unless
    /// the task asks for verification.
    ///
    /// What the wipe comes to is tied to what the device answered, as
    /// `wiped` lays down over the exchanges with the device: a block is
    /// marked exactly if the device refused a seek or a write there; a retry
    /// is used up, and the wipe fails, only over an exchange that ends an
    /// attempt at a stage, over a read that did not fill the buffer, or over
    /// a read that found what the stage did not write; a wipe that fails was
    /// given up over the last exchange, with the failure that this exchange
    /// stands for; and after a wipe that succeeds every block not marked bad
    /// has had a write of what the last stage yields there, which the device
    /// answered with success.
    ///
    /// The wipe runs its course in phases, as `course` lays down: every
    /// exchange with the device belongs to one write phase or read phase, and
    /// so does every report of progress or of a marking; and each phase is to
    /// the device what `filled` and `verified` say, over the exchanges and
    /// the reports that are its own. So what the device answered in a phase
    /// and what was reported in it can be held against each other.
    ///
    /// A wipe that fails stands where its last exchange left it: at the
    /// block whose seek, write or read failed.
    ///
    /// Every read is made at the start of a block and asks for no more than
    /// what is left of the device, as long as the reads before it filled
    /// their buffers (`reads_fit`); so on a device that fills the buffer of
    /// every such read, all reads are full.
    ///
    /// What is read back is handed on, as `read_back_wipe` lays down, as long
    /// as every read filled its buffer: no read is made in a block marked
    /// bad; after every stage that is read back and succeeds, every block
    /// that is not marked bad was read and found right, from the highest
    /// place where a writing broke off to the end of the device; nothing is
    /// read that was not written; and a read that finds what no stage that
    /// is read back yields is not passed over without the report of a
    /// mismatch.
    ///
    /// The retries are accounted for, as `balanced` lays down: as many
    /// attempts at a stage failed as exchanges end an attempt and reports
    /// tell of a mismatch, and each of them cost a retry, or the wipe where
    /// no retry was left. On a device that keeps what it was given and fills
    /// the buffer at every read, no mismatch is found where the stages have a
    /// pattern.
    ///
    /// On an obliging device, one that does whatever it is asked within the
    /// bytes it holds, a wipe of no more bytes than it holds succeeds where
    /// the stages have a pattern: it uses no retry and marks no block. Where
    /// no block was marked to begin with, its reports are known in full, as
    /// `plain_wipe` lists them: each phase starts, reports the start of the
    /// device, then the end of each block, and completes.
    ///
    /// Where every block of the device is marked bad to begin with, and so
    /// too on a device of no bytes, the wipe succeeds without touching the
    /// device, whatever the device would have done. On a device of no bytes
    /// the reports are known in full: each stage starts and completes, twice
    /// where it is read back, and no progress is reported.
    #[verifier::rlimit(80)]
    pub fn run<A: StorageAccess + ?Sized, R: WipeEventReceiver + ?Sized>(
        self,
        access: &mut A,
        state: &mut WipeState,
        frontend: &mut R,
    ) -> (success: bool)
        requires
            self.runnable(),
        ensures
            ran_in_phases(
                &self,
                old(access).exchanges(),
                final(access).exchanges(),
                old(frontend).received().push(
                    Notice { state: old(state)@, event: WipeEvent::Started },
                ),
                final(frontend).received(),
            ),
            reads_fit(
                final(access).exchanges(),
                old(access).exchanges().len() as int,
                self.total_size as int,
                self.block_size as int,
            ),
            !success ==> stands_where_it_failed(
                final(access).exchanges(),
                old(access).exchanges().len() as int,
                final(state).position as int,
                self.total_size as int,
            ),
            read_back_wipe(
                old(access).exchanges(),
                final(access).exchanges(),
                old(frontend).received(),
                final(frontend).received(),
                old(state)@.bad_blocks,
                final(state)@.bad_blocks,
                self.scheme.stages@,
                self.verify,
                self.total_size as int,
                self.block_size as int,
                if success {
                    self.scheme.stages@.len() as int
                } else {
                    final(state).stage as int
                },
            ),
            old(access).obliging() && self.total_size <= old(access).contents().len()
                && all_patterned(self.scheme.stages@, self.block_size as int) ==> {
                &&& success
                &&& final(state).retries_left == old(state).retries_left
                &&& final(state)@.bad_blocks == old(state)@.bad_blocks
            },
            plain(
                old(access).obliging(),
                old(access).contents().len() as int,
                old(state)@.bad_blocks,
                &self,
                all_patterned(self.scheme.stages@, self.block_size as int),
            ) ==> final(frontend).received() == old(frontend).received() + plain_wipe(
                &self,
                old(state)@,
            ),
            reports_wipe(
                &self,
                old(frontend).received(),
                final(frontend).received(),
                old(state)@,
                final(state)@,
                success,
            ),
            old(state)@.bad_blocks.subset_of(final(state)@.bad_blocks),
            final(state).retries_left <= old(state).retries_left,
            self.scheme.stages@.len() > 0 ==> final(state).position <= self.total_size,
            success && self.scheme.stages@.len() > 0 ==> settled(
                final(access).contents(),
                self.scheme.stages@.last(),
                self.total_size as int,
                self.block_size as int,
                final(state)@.bad_blocks,
                self.total_size as int,
            ),
            success && self.scheme.stages@.len() > 0 && patterned(
                self.scheme.stages@.last(),
                self.block_size as int,
            ) ==> covered(
                final(access).contents(),
                self.scheme.stages@.last(),
                final(state)@.bad_blocks,
                self.block_size as int,
                self.total_size as int,
            ),
            all_bad(old(state)@.bad_blocks, self.block_size as int, 0, self.total_size as int)
                ==> {
                &&& success
                &&& final(access).contents() == old(access).contents()
                &&& final(access).cursor() == old(access).cursor()
                &&& final(state)@.bad_blocks == old(state)@.bad_blocks
                &&& final(state).retries_left == old(state).retries_left
            },
            self.total_size == 0 ==> final(frontend).received() == old(frontend).received()
                + quiet_wipe(&self, old(state)@),
            success == (reported_failure(final(frontend).received()) is None),
            wiped(
                old(access).exchanges(),
                final(access).exchanges(),
                old(state)@.bad_blocks,
                final(state)@.bad_blocks,
                self.scheme.stages@,
                self.total_size as int,
                self.block_size as int,
                final(state).stage as int,
                final(state).position as int,
                final(state).retries_left < old(state).retries_left,
                reported_failure(final(frontend).received()),
            ),
            balanced(
                old(access).exchanges(),
                final(access).exchanges(),
                old(frontend).received(),
                final(frontend).received(),
                old(state).retries_left - final(state).retries_left + if success {
                    0int
                } else {
                    1int
                },
                all_patterned(self.scheme.stages@, self.block_size as int),
            ),
            kept_within(
                final(access).exchanges(),
                old(access).exchanges().len() as int,
                self.total_size as int,
                true,
                !(self.verify is No),
            ),
    {
        let task = &self;
        let ghost log0 = frontend.received();
        publish(frontend, task, state, WipeEvent::Started);
        let ghost log1 = frontend.received();
        let wipe_error = run_stages(access, task, state, frontend);
        let success = wipe_error.is_none();
        let ghost log3 = frontend.received();
        let ghost last = state@;
        publish(frontend, task, state, WipeEvent::Completed(wipe_error));
        proof {
            let begin = Notice { state: old(state)@, event: WipeEvent::Started };
            let end = Notice { state: last, event: WipeEvent::Completed(wipe_error) };
            assert(log1 == log0.push(begin));
            assert(frontend.received() == log3.push(end));
            assert(may_follow(task, log3.last(), end));
            lemma_whole_wipe(task, log0, begin, log3, end);
            lemma_one_more_report(log0, log0.len() as int, begin);
            lemma_mismatches_add_up(task, log1, log3, log0.len() as int);
            lemma_one_more_report(log3, log0.len() as int, end);
            let phases = choose|phases: Seq<Phase>|
                course(task, phases, old(access).exchanges(), access.exchanges(), log1, log3);
            lemma_course_told(
                task,
                phases,
                old(access).exchanges(),
                access.exchanges(),
                log1,
                log3,
                end,
            );
            lemma_read_back_wipe_told(
                old(access).exchanges(),
                access.exchanges(),
                log1,
                log3,
                log0,
                frontend.received(),
                old(state)@.bad_blocks,
                state@.bad_blocks,
                task.scheme.stages@,
                task.verify,
                task.total_size as int,
                task.block_size as int,
                if success {
                    task.scheme.stages@.len() as int
                } else {
                    state.stage as int
                },
            );
            if task.total_size == 0 {
                assert(all_bad(old(state)@.bad_blocks, task.block_size as int, 0, 0));
                lemma_quiet_wipe(task, log0, old(state)@, log3);
            }
            if plain(
                old(access).obliging(),
                old(access).contents().len() as int,
                old(state)@.bad_blocks,
                task,
                all_patterned(task.scheme.stages@, task.block_size as int),
            ) {
                lemma_plain_wipe(task, log0, old(state)@, log3);
            }
        }
        success
    }
}

} // verus!
