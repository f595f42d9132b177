//! Letting the target run: one step, or until it stops.
//!
//! The target only produces RTT output while it runs, so RTT is polled all the while, and
//! flushed once the target has stopped.

use crate::stub::{IrisGdbStub, Watch, WatchKind};
use vstd::prelude::*;

verus! {

broadcast use vstd::std_specs::hash::group_hash_axioms;

/// How the target is to be resumed.
#[derive(Debug, Clone, Copy, PartialEq, Eq, Structural)]
pub enum Action {
    Continue,
    Step,
    ContinueWithSignal(u8),
    StepWithSignal(u8),
}

/// Why the target has stopped.
#[derive(Debug, Clone, Copy, PartialEq, Eq, Structural)]
pub enum Stop {
    /// The step is done.
    DoneStep,
    /// gdb has interrupted it.
    GdbInterrupt,
    /// It has run into a breakpoint.
    HwBreak,
    /// It has run into a watchpoint.
    Watch { kind: WatchKind, addr: u32 },
}

/// What a step is counted in.
#[derive(Debug, Clone, Copy, PartialEq, Eq, Structural)]
pub enum Unit {
    Instruction,
}

/// A CPU that is to be set up to run for some steps only.
#[derive(Debug, Clone, Copy, PartialEq, Eq, Structural)]
pub struct StepSetup {
    pub inst: u32,
    pub steps: u64,
    pub unit: Unit,
}

/// What a resumption wants next.
#[derive(Debug)]
pub enum ResumeNext {
    /// Set the CPU up; [`Run::set_up`] is what follows.
    SetUp(StepSetup, Run),
    /// Let the simulation run; [`Run::running`] is what follows.
    Start(u32, Run),
    /// Ask whether the simulation runs; [`Run::asked`] is what follows.
    Ask(u32, Run),
    /// Poll RTT; [`Run::polled`] is what follows.
    Poll(Run),
    /// Look whether gdb has interrupted; [`Run::looked`] is what follows.
    Look(Run),
    /// Flush RTT, since gdb has interrupted; [`Run::flushed_to_stop`] is what follows.
    FlushToStop(Run),
    /// Stop the simulation; [`Run::stopped`] is what follows.
    Stop(u32, Run),
    /// Flush RTT, since the simulation has stopped; [`Run::flushed`] is what follows.
    Flush(Run),
    /// See which breakpoint was hit, if any; [`Run::hit`] is what follows.
    Hit(Run),
    /// The target has stopped, or could not be run.
    Done(Result<Stop, ()>),
}

/// The target while it is resumed.
#[derive(Debug, Clone, Copy)]
pub struct Run {
    /// The CPU.
    pub inst: u32,
    /// The simulation engine.
    pub sim: u32,
    /// It is to run for one step.
    pub step: bool,
}

/// The address of a watchpoint with the number `id`.
pub open spec fn watched(watchpoints: Map<u32, Watch>, id: u64, addr: u32) -> bool {
    watchpoints.contains_key(addr) && watchpoints[addr].id == id
}

/// No watchpoint has the number `id`.
pub open spec fn unwatched(watchpoints: Map<u32, Watch>, id: u64) -> bool {
    forall|addr: u32| !#[trigger] watched(watchpoints, id, addr)
}

/// How a resumption of the CPU `inst` of the simulation `sim` begins.
pub open spec fn begun(inst: u32, sim: u32, act: Action) -> ResumeNext {
    match act {
        Action::Step => ResumeNext::SetUp(
            StepSetup { inst, steps: 1, unit: Unit::Instruction },
            Run { inst, sim, step: true },
        ),
        Action::Continue => ResumeNext::Start(sim, Run { inst, sim, step: false }),
        _ => ResumeNext::Done(Err(())),
    }
}

impl IrisGdbStub {
    /// Begins to resume the target, for one instruction or until it stops. With a signal
    /// it cannot be resumed.
    pub fn resume(&self, act: Action) -> (next: ResumeNext)
        ensures
            next == begun(self.instance_id, self.sim, act),
    {
        let inst: u32 = self.instance_id;
        let sim: u32 = self.sim;
        match act {
            Action::Step => ResumeNext::SetUp(
                StepSetup { inst, steps: 1, unit: Unit::Instruction },
                Run { inst, sim, step: true },
            ),
            Action::Continue => ResumeNext::Start(sim, Run { inst, sim, step: false }),
            _ => ResumeNext::Done(Err(())),
        }
    }

    /// The watchpoint that has the number `id`, if there is one.
    pub fn find_watch(&self, id: u64) -> (r: Option<(u32, WatchKind)>)
        ensures
            match r {
                Some((addr, kind)) => watched(self@.watchpoints, id, addr)
                    && self@.watchpoints[addr].kind == kind,
                None => unwatched(self@.watchpoints, id),
            },
    {
        let mut i: usize = 0;
        let mut all: Vec<u32> = Vec::new();
        for addr in iter: self.watchpoints.keys()
            invariant
                all@ == iter.seq().unref().take(iter.index() as int),
                iter.seq().unref().to_set() == self.watchpoints@.dom(),
                iter.index() == iter.seq().len() ==> all@ == iter.seq().unref(),
        {
            all.push(*addr);
            assert(all@ =~= iter.seq().unref().take(iter.index() + 1));
        }
        assert(all@.to_set() == self.watchpoints@.dom());
        while i < all.len()
            invariant
                i <= all@.len(),
                all@.to_set() == self.watchpoints@.dom(),
                forall|j: int| 0 <= j < i ==> !watched(self.watchpoints@, id, #[trigger] all@[j]),
            decreases all@.len() - i,
        {
            let addr: u32 = all[i];
            if let Some(watch) = self.watchpoints.get(&addr) {
                if watch.id == id {
                    return Some((addr, watch.kind));
                }
            }
            i = i + 1;
        }
        assert forall|addr: u32| !#[trigger] watched(self@.watchpoints, id, addr) by {
            if self@.watchpoints.contains_key(addr) {
                assert(all@.to_set().contains(addr));
                let j = choose|j: int| 0 <= j < all@.len() && all@[j] == addr;
                assert(!watched(self.watchpoints@, id, all@[j]));
            }
        }
        None
    }
}

impl Run {
    /// What follows the setting up of the step.
    pub open spec fn after_set_up(self, r: Result<(), ()>) -> ResumeNext {
        match r {
            Ok(_) => ResumeNext::Start(self.sim, self),
            Err(_) => ResumeNext::Done(Err(())),
        }
    }

    /// What follows the start of the simulation.
    pub open spec fn after_running(self, r: Result<(), ()>) -> ResumeNext {
        match r {
            Ok(_) => ResumeNext::Ask(self.sim, self),
            Err(_) => ResumeNext::Done(Err(())),
        }
    }

    /// What follows the question whether the simulation runs.
    pub open spec fn after_asked(self, runs: Result<bool, ()>) -> ResumeNext {
        match runs {
            Ok(true) => ResumeNext::Poll(self),
            Ok(false) => ResumeNext::Flush(self),
            Err(_) => ResumeNext::Done(Err(())),
        }
    }

    /// What follows a poll of RTT.
    pub open spec fn after_polled(self) -> ResumeNext {
        ResumeNext::Look(self)
    }

    /// What follows the look for an interrupt.
    pub open spec fn after_looked(self, interrupted: bool) -> ResumeNext {
        if interrupted {
            ResumeNext::FlushToStop(self)
        } else {
            ResumeNext::Ask(self.sim, self)
        }
    }

    /// What follows the flush before an interrupted simulation is stopped.
    pub open spec fn after_flushed_to_stop(self) -> ResumeNext {
        ResumeNext::Stop(self.sim, self)
    }

    /// What follows the stopping of the simulation.
    pub open spec fn after_stopped(self, r: Result<(), ()>) -> ResumeNext {
        match r {
            Ok(_) => ResumeNext::Done(Ok(Stop::GdbInterrupt)),
            Err(_) => ResumeNext::Done(Err(())),
        }
    }

    /// What follows the flush of a simulation that has stopped by itself.
    pub open spec fn after_flushed(self) -> ResumeNext {
        ResumeNext::Hit(self)
    }

    /// Goes on once the step has been set up.
    pub fn set_up(self, r: Result<(), ()>) -> (next: ResumeNext)
        ensures
            next == self.after_set_up(r),
    {
        match r {
            Ok(_) => ResumeNext::Start(self.sim, self),
            Err(_) => ResumeNext::Done(Err(())),
        }
    }

    /// Goes on once the simulation has been let run.
    pub fn running(self, r: Result<(), ()>) -> (next: ResumeNext)
        ensures
            next == self.after_running(r),
    {
        match r {
            Ok(_) => ResumeNext::Ask(self.sim, self),
            Err(_) => ResumeNext::Done(Err(())),
        }
    }

    /// Goes on once it is known whether the simulation runs.
    pub fn asked(self, runs: Result<bool, ()>) -> (next: ResumeNext)
        ensures
            next == self.after_asked(runs),
    {
        match runs {
            Ok(true) => ResumeNext::Poll(self),
            Ok(false) => ResumeNext::Flush(self),
            Err(_) => ResumeNext::Done(Err(())),
        }
    }

    /// Goes on once RTT has been polled.
    pub fn polled(self) -> (next: ResumeNext)
        ensures
            next == self.after_polled(),
    {
        ResumeNext::Look(self)
    }

    /// Goes on once it is known whether gdb has interrupted.
    pub fn looked(self, interrupted: bool) -> (next: ResumeNext)
        ensures
            next == self.after_looked(interrupted),
    {
        if interrupted {
            ResumeNext::FlushToStop(self)
        } else {
            ResumeNext::Ask(self.sim, self)
        }
    }

    /// Goes on once RTT has been flushed before an interrupted simulation is stopped.
    pub fn flushed_to_stop(self) -> (next: ResumeNext)
        ensures
            next == self.after_flushed_to_stop(),
    {
        ResumeNext::Stop(self.sim, self)
    }

    /// Goes on once the simulation has been stopped.
    pub fn stopped(self, r: Result<(), ()>) -> (next: ResumeNext)
        ensures
            next == self.after_stopped(r),
    {
        match r {
            Ok(_) => ResumeNext::Done(Ok(Stop::GdbInterrupt)),
            Err(_) => ResumeNext::Done(Err(())),
        }
    }

    /// Goes on once RTT has been flushed after the simulation has stopped by itself.
    pub fn flushed(self) -> (next: ResumeNext)
        ensures
            next == self.after_flushed(),
    {
        ResumeNext::Hit(self)
    }

    /// Goes on once it is known which breakpoint was hit, if any. A hit watchpoint is
    /// what the stop is put down to; else a step is done, and a target that was let run
    /// has met a breakpoint.
    pub fn hit(self, stub: &IrisGdbStub, id: Option<u64>) -> (next: ResumeNext)
        ensures
            self.ends(stub@.watchpoints, id, next),
    {
        if let Some(id) = id {
            if let Some((addr, kind)) = stub.find_watch(id) {
                return ResumeNext::Done(Ok(Stop::Watch { kind, addr }));
            }
        }
        if self.step {
            ResumeNext::Done(Ok(Stop::DoneStep))
        } else {
            ResumeNext::Done(Ok(Stop::HwBreak))
        }
    }

    /// What the stop is put down to.
    pub open spec fn ends(
        self,
        watchpoints: Map<u32, Watch>,
        id: Option<u64>,
        next: ResumeNext,
    ) -> bool {
        if id is Some && exists|addr: u32| #[trigger] watched(watchpoints, id->Some_0, addr) {
            next matches ResumeNext::Done(Ok(Stop::Watch { kind, addr })) && watched(
                watchpoints,
                id->Some_0,
                addr,
            ) && watchpoints[addr].kind == kind
        } else if self.step {
            next == ResumeNext::Done(Ok(Stop::DoneStep))
        } else {
            next == ResumeNext::Done(Ok(Stop::HwBreak))
        }
    }
}

/// A resumption goes on from `now` to `next`: what was asked for has been done, whatever
/// the server or gdb has answered, and the answer has been handed over.
pub open spec fn goes_on(now: ResumeNext, next: ResumeNext) -> bool {
    match now {
        ResumeNext::SetUp(_, run) => exists|r: Result<(), ()>|
            next == #[trigger] run.after_set_up(r),
        ResumeNext::Start(_, run) => exists|r: Result<(), ()>|
            next == #[trigger] run.after_running(r),
        ResumeNext::Ask(_, run) => exists|runs: Result<bool, ()>|
            next == #[trigger] run.after_asked(runs),
        ResumeNext::Poll(run) => next == run.after_polled(),
        ResumeNext::Look(run) => exists|interrupted: bool|
            next == #[trigger] run.after_looked(interrupted),
        ResumeNext::FlushToStop(run) => next == run.after_flushed_to_stop(),
        ResumeNext::Stop(_, run) => exists|r: Result<(), ()>|
            next == #[trigger] run.after_stopped(r),
        ResumeNext::Flush(run) => next == run.after_flushed(),
        ResumeNext::Hit(run) => exists|watchpoints: Map<u32, Watch>, id: Option<u64>| #[trigger]
            run.ends(watchpoints, id, next),
        ResumeNext::Done(_) => false,
    }
}

/// A resumption that ends with a stop has flushed RTT just before, so the last bytes are
/// not left behind. It ends as interrupted if and only if gdb was seen to interrupt and
/// the simulation was stopped for that.
pub proof fn a_stop_comes_flushed(
    inst: u32,
    sim: u32,
    act: Action,
    path: Seq<ResumeNext>,
    stop: Stop,
)
    requires
        path.len() > 0,
        path[0] == begun(inst, sim, act),
        forall|i: int|
            0 <= i < path.len() - 1 ==> #[trigger] goes_on(path[i], path[i + 1]),
        path.last() == ResumeNext::Done(Ok(stop)),
    ensures
        path.len() >= 5,
        stop == Stop::GdbInterrupt ==> path[path.len() - 2] is Stop && path[path.len() - 3]
            is FlushToStop && path[path.len() - 4] is Look,
        stop != Stop::GdbInterrupt ==> path[path.len() - 2] is Hit && path[path.len() - 3]
            is Flush && path[path.len() - 4] is Ask,
{
    let n = path.len() as int;
    assert(n >= 2);
    assert(goes_on(path[n - 2], path[n - 2 + 1]));
    assert(n >= 3);
    assert(goes_on(path[n - 3], path[n - 3 + 1]));
    assert(n >= 4);
    assert(goes_on(path[n - 4], path[n - 4 + 1]));
    assert(n >= 5);
}

} // verus!
