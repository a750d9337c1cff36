//! The measuring loop of the monitor, as a state machine.
//!
//! Each round takes a sample of the metrics, waits one interval (over which
//! network traffic is measured) and writes one record. A shutdown request
//! ends the wait early; the round is then incomplete and no record is
//! written. After a record has been written, and only then, systemd's
//! watchdog is pinged, so that a monitor that runs but cannot write stops
//! pinging and is restarted. In one-shot mode the loop stops after its first
//! record.
//!
//! The caller performs each action and reports how it went; the machine says
//! what to do next.
use vstd::prelude::*;

verus! {

#[derive(Clone, Copy, Debug, PartialEq, Eq, Structural)]
pub enum Phase {
    Measure,
    Wait,
    Record,
    Ping,
    Stopped,
}

/// What the caller is to do next.
#[derive(Clone, Copy, Debug, PartialEq, Eq, Structural)]
pub enum Action {
    /// Sample CPU, memory and disk usage.
    TakeSample,
    /// Wait one interval, waking early on a shutdown request.
    WaitInterval,
    /// Measure the interval's traffic and write the record.
    WriteRecord,
    /// Ping systemd's watchdog.
    PingWatchdog,
    /// Leave the loop.
    Stop,
}

/// How the last action went.
#[derive(Clone, Copy, Debug, PartialEq, Eq, Structural)]
pub enum Outcome {
    Completed,
    /// A shutdown was requested (only a wait reports it).
    ShutdownRequested,
    /// The record could not be written (only a write reports it).
    Failed,
}

pub struct MonitorLoop {
    pub once: bool,
    pub phase: Phase,
}

pub open spec fn action_of(phase: Phase) -> Action {
    match phase {
        Phase::Measure => Action::TakeSample,
        Phase::Wait => Action::WaitInterval,
        Phase::Record => Action::WriteRecord,
        Phase::Ping => Action::PingWatchdog,
        Phase::Stopped => Action::Stop,
    }
}

/// Where a round ends: the loop stops in one-shot mode and starts the next
/// round otherwise.
pub open spec fn round_end(once: bool) -> Phase {
    if once {
        Phase::Stopped
    } else {
        Phase::Measure
    }
}

/// The phase after `phase` once its action has had the outcome `outcome`.
pub open spec fn next_phase(once: bool, phase: Phase, outcome: Outcome) -> Phase {
    match phase {
        Phase::Measure => Phase::Wait,
        Phase::Wait => if outcome == Outcome::ShutdownRequested {
            Phase::Stopped
        } else {
            Phase::Record
        },
        Phase::Record => if outcome == Outcome::Failed {
            round_end(once)
        } else {
            Phase::Ping
        },
        Phase::Ping => round_end(once),
        Phase::Stopped => Phase::Stopped,
    }
}

/// The phase reached from `phase` through the outcomes `outcomes`, in order.
pub open spec fn phase_after(once: bool, phase: Phase, outcomes: Seq<Outcome>) -> Phase
    decreases outcomes.len(),
{
    if outcomes.len() == 0 {
        phase
    } else {
        next_phase(once, phase_after(once, phase, outcomes.drop_last()), outcomes.last())
    }
}

impl MonitorLoop {
    pub fn new(once: bool) -> (res: Self)
        ensures
            res.once == once,
            res.phase == Phase::Measure,
    {
        MonitorLoop { once, phase: Phase::Measure }
    }

    /// The action to perform now.
    pub fn action(&self) -> (res: Action)
        ensures
            res == action_of(self.phase),
    {
        match self.phase {
            Phase::Measure => Action::TakeSample,
            Phase::Wait => Action::WaitInterval,
            Phase::Record => Action::WriteRecord,
            Phase::Ping => Action::PingWatchdog,
            Phase::Stopped => Action::Stop,
        }
    }

    /// Takes the outcome of the current action and returns the next action.
    pub fn step(&mut self, outcome: Outcome) -> (res: Action)
        ensures
            final(self).once == old(self).once,
            final(self).phase == next_phase(old(self).once, old(self).phase, outcome),
            res == action_of(final(self).phase),
            res == Action::WriteRecord ==> old(self).phase == Phase::Wait && outcome
                != Outcome::ShutdownRequested,
            res == Action::PingWatchdog ==> old(self).phase == Phase::Record && outcome
                != Outcome::Failed,
            old(self).phase == Phase::Stopped ==> res == Action::Stop,
            old(self).phase == Phase::Wait && outcome == Outcome::ShutdownRequested ==> res
                == Action::Stop,
            old(self).phase == Phase::Measure ==> res == Action::WaitInterval,
            old(self).phase == Phase::Wait && outcome != Outcome::ShutdownRequested ==> res
                == Action::WriteRecord,
            old(self).phase == Phase::Record && outcome != Outcome::Failed ==> res
                == Action::PingWatchdog,
            old(self).phase == Phase::Record && outcome == Outcome::Failed ==> res == (if old(
                self,
            ).once {
                Action::Stop
            } else {
                Action::TakeSample
            }),
            old(self).phase == Phase::Ping ==> res == (if old(self).once {
                Action::Stop
            } else {
                Action::TakeSample
            }),
    {
        let next = match self.phase {
            Phase::Measure => Phase::Wait,
            Phase::Wait => match outcome {
                Outcome::ShutdownRequested => Phase::Stopped,
                _ => Phase::Record,
            },
            Phase::Record => match outcome {
                Outcome::Failed => if self.once {
                    Phase::Stopped
                } else {
                    Phase::Measure
                },
                _ => Phase::Ping,
            },
            Phase::Ping => if self.once {
                Phase::Stopped
            } else {
                Phase::Measure
            },
            Phase::Stopped => Phase::Stopped,
        };
        self.phase = next;
        self.action()
    }
}

/// Once stopped, the loop stays stopped whatever is reported.
pub proof fn lemma_stopped_stays(once: bool, outcomes: Seq<Outcome>)
    ensures
        phase_after(once, Phase::Stopped, outcomes) == Phase::Stopped,
    decreases outcomes.len(),
{
    if outcomes.len() > 0 {
        lemma_stopped_stays(once, outcomes.drop_last());
    }
}

proof fn lemma_after_record_once(outcomes: Seq<Outcome>, i: int, j: int)
    requires
        0 <= i < j <= outcomes.len(),
        phase_after(true, Phase::Measure, outcomes.take(i)) == Phase::Record,
    ensures
        phase_after(true, Phase::Measure, outcomes.take(j)) == Phase::Ping || phase_after(
            true,
            Phase::Measure,
            outcomes.take(j),
        ) == Phase::Stopped,
    decreases j - i,
{
    assert(outcomes.take(j).drop_last() =~= outcomes.take(j - 1));
    if j - 1 > i {
        lemma_after_record_once(outcomes, i, j - 1);
    }
}

/// In one-shot mode at most one record is written: whatever the outcomes,
/// the machine asks for `WriteRecord` at no more than one point.
pub proof fn lemma_once_writes_at_most_one_record(outcomes: Seq<Outcome>, i: int, j: int)
    requires
        0 <= i < j <= outcomes.len(),
        action_of(phase_after(true, Phase::Measure, outcomes.take(i))) == Action::WriteRecord,
    ensures
        action_of(phase_after(true, Phase::Measure, outcomes.take(j))) != Action::WriteRecord,
{
    lemma_after_record_once(outcomes, i, j);
}

/// The watchdog is pinged only right after a record was written: wherever
/// the machine asks for `PingWatchdog`, it asked for `WriteRecord` just
/// before and the write did not fail.
pub proof fn lemma_ping_follows_written_record(once: bool, outcomes: Seq<Outcome>, i: int)
    requires
        0 < i <= outcomes.len(),
        action_of(phase_after(once, Phase::Measure, outcomes.take(i))) == Action::PingWatchdog,
    ensures
        action_of(phase_after(once, Phase::Measure, outcomes.take(i - 1))) == Action::WriteRecord,
        outcomes[i - 1] != Outcome::Failed,
{
    assert(outcomes.take(i).drop_last() =~= outcomes.take(i - 1));
}

/// A shutdown request reported by a wait ends the loop, in either mode: from
/// then on the machine asks for nothing but `Stop`, so no record is written.
pub proof fn lemma_shutdown_during_wait_stops(once: bool, outcomes: Seq<Outcome>, i: int, j: int)
    requires
        0 <= i < j <= outcomes.len(),
        action_of(phase_after(once, Phase::Measure, outcomes.take(i))) == Action::WaitInterval,
        outcomes[i] == Outcome::ShutdownRequested,
    ensures
        action_of(phase_after(once, Phase::Measure, outcomes.take(j))) == Action::Stop,
    decreases j - i,
{
    assert(outcomes.take(j).drop_last() =~= outcomes.take(j - 1));
    if j - 1 > i {
        lemma_shutdown_during_wait_stops(once, outcomes, i, j - 1);
    } else {
        assert(outcomes.take(j).last() == outcomes[i]);
    }
}

/// In continuous mode the loop stops only when a wait reports a shutdown
/// request.
pub proof fn lemma_continuous_stops_only_on_shutdown(outcomes: Seq<Outcome>)
    requires
        phase_after(false, Phase::Measure, outcomes) == Phase::Stopped,
    ensures
        exists|i: int|
            0 <= i < outcomes.len() && phase_after(false, Phase::Measure, #[trigger] outcomes.take(i))
                == Phase::Wait && outcomes[i] == Outcome::ShutdownRequested,
    decreases outcomes.len(),
{
    let before = outcomes.drop_last();
    let k = outcomes.len() - 1;
    assert(outcomes.take(k) =~= before);
    if phase_after(false, Phase::Measure, before) == Phase::Stopped {
        lemma_continuous_stops_only_on_shutdown(before);
        let i = choose|i: int|
            0 <= i < before.len() && phase_after(false, Phase::Measure, #[trigger] before.take(i))
                == Phase::Wait && before[i] == Outcome::ShutdownRequested;
        assert(outcomes.take(i) =~= before.take(i));
    }
}

} // verus!
