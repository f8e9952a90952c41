//! A receiver that keeps the reports it is handed.

use crate::actions::marker::BlockMarker;
use crate::actions::report::Notice;
use crate::actions::wipe::WipeEvent;
use crate::actions::wipe::WipeEventReceiver;
use crate::actions::wipe::WipeState;
use crate::actions::wipe::WipeTask;
use vstd::prelude::*;

verus! {

/// A report as the recorder keeps it: the event, and a copy of the state of
/// the wipe at the moment of the report.
#[derive(Debug)]
pub struct Seen {
    pub state: WipeState,
    pub event: WipeEvent,
}

/// A receiver that keeps every report, in order. It does as the receiver
/// contract asks, and serves where the course of a wipe is to be looked at
/// afterwards.
#[derive(Debug)]
pub struct Recorder {
    seen: Vec<Seen>,
}

impl Recorder {
    /// A recorder that has not been handed a report yet.
    pub fn new() -> (recorder: Recorder)
        ensures
            recorder.received() == Seq::<Notice>::empty(),
    {
        let recorder = Recorder { seen: Vec::new() };
        assert(recorder.received() =~= Seq::<Notice>::empty());
        recorder
    }

    /// The reports kept so far, oldest first.
    pub fn seen(&self) -> (seen: &Vec<Seen>)
        ensures
            seen@.len() == self.received().len(),
            forall|i: int|
                0 <= i < seen@.len() ==> self.received()[i] == (Notice {
                    state: seen@[i].state@,
                    event: seen@[i].event,
                }),
    {
        &self.seen
    }
}

impl WipeEventReceiver for Recorder {
    closed spec fn received(&self) -> Seq<Notice> {
        Seq::new(
            self.seen@.len(),
            |i: int| Notice { state: self.seen@[i].state@, event: self.seen@[i].event },
        )
    }

    fn handle(&mut self, task: &WipeTask, state: &WipeState, event: WipeEvent) {
        let copy = WipeState {
            stage: state.stage,
            at_verification: state.at_verification,
            position: state.position,
            retries_left: state.retries_left,
            bad_blocks: state.bad_blocks.duplicate(),
        };
        self.seen.push(Seen { state: copy, event });
        assert(self.received() =~= old(self).received().push(Notice { state: state@, event }));
    }
}

} // verus!
