//! Letting the target run.

use crate::resume::{begun, watched, Action, ResumeNext, Run, Stop, Unit};
use crate::stub::{IrisGdbStub, WatchKind};
use vstd::prelude::*;

verus! {

/// What a resumption is told.
pub enum Told {
    /// Whether the step could be set up.
    SetUp(Result<(), ()>),
    /// Whether the simulation could be let run.
    Started(Result<(), ()>),
    /// Whether the simulation runs.
    Runs(Result<bool, ()>),
    /// RTT has been polled.
    Polled,
    /// Whether gdb has interrupted.
    Interrupted(bool),
    /// RTT has been flushed.
    Flushed,
    /// Whether the simulation could be stopped.
    Stopped(Result<(), ()>),
    /// The number of the breakpoint that was hit, if any.
    Hit(Option<u64>),
}

/// Told `told`, a resumption in the session `stub` that wanted `now` wants `next`.
pub open spec fn follows(
    stub: &IrisGdbStub,
    now: ResumeNext,
    told: Told,
    next: ResumeNext,
) -> bool {
    match (now, told) {
        (ResumeNext::SetUp(_, run), Told::SetUp(r)) => call_ensures(Run::set_up, (run, r), next),
        (ResumeNext::Start(_, run), Told::Started(r)) => call_ensures(
            Run::running,
            (run, r),
            next,
        ),
        (ResumeNext::Ask(_, run), Told::Runs(r)) => call_ensures(Run::asked, (run, r), next),
        (ResumeNext::Poll(run), Told::Polled) => call_ensures(Run::polled, (run,), next),
        (ResumeNext::Look(run), Told::Interrupted(r)) => call_ensures(
            Run::looked,
            (run, r),
            next,
        ),
        (ResumeNext::FlushToStop(run), Told::Flushed) => call_ensures(
            Run::flushed_to_stop,
            (run,),
            next,
        ),
        (ResumeNext::Stop(_, run), Told::Stopped(r)) => call_ensures(
            Run::stopped,
            (run, r),
            next,
        ),
        (ResumeNext::Flush(run), Told::Flushed) => call_ensures(Run::flushed, (run,), next),
        (ResumeNext::Hit(run), Told::Hit(id)) => call_ensures(Run::hit, (run, stub, id), next),
        _ => false,
    }
}

/// A resumption in the session `stub`: `path` is what it wants, one after the other, and
/// `told` what it is told in between.
pub open spec fn runs(
    stub: &IrisGdbStub,
    act: Action,
    path: Seq<ResumeNext>,
    told: Seq<Told>,
) -> bool {
    &&& path.len() == told.len() + 1
    &&& call_ensures(IrisGdbStub::resume, (stub, act), path[0])
    &&& forall|i: int|
        0 <= i < told.len() ==> follows(stub, path[i], #[trigger] told[i], path[i + 1])
}

/// What is wanted is wanted of the session's CPU and simulation, and for as long as the
/// action says.
spec fn is_for(stub: &IrisGdbStub, act: Action, next: ResumeNext) -> bool {
    let ours = |run: Run|
        run.inst == stub.instance_id && run.sim == stub.sim && run.step == (act == Action::Step);
    match next {
        ResumeNext::SetUp(setup, run) => {
            &&& ours(run)
            &&& act == Action::Step
            &&& setup.inst == stub.instance_id
            &&& setup.steps == 1
            &&& setup.unit == Unit::Instruction
        },
        ResumeNext::Start(sim, run) => ours(run) && sim == stub.sim,
        ResumeNext::Ask(sim, run) => ours(run) && sim == stub.sim,
        ResumeNext::Poll(run) => ours(run),
        ResumeNext::Look(run) => ours(run),
        ResumeNext::FlushToStop(run) => ours(run),
        ResumeNext::Stop(sim, run) => ours(run) && sim == stub.sim,
        ResumeNext::Flush(run) => ours(run),
        ResumeNext::Hit(run) => ours(run),
        ResumeNext::Done(_) => true,
    }
}

proof fn lemma_is_for(
    stub: &IrisGdbStub,
    act: Action,
    path: Seq<ResumeNext>,
    told: Seq<Told>,
    i: int,
)
    requires
        runs(stub, act, path, told),
        0 <= i < path.len(),
    ensures
        is_for(stub, act, path[i]),
        i > 0 ==> !(path[i] is SetUp),
        i == 0 && path[i] is Done ==> path[i] == ResumeNext::Done(Err(())),
    decreases i,
{
    if i > 0 {
        lemma_is_for(stub, act, path, told, i - 1);
        assert(follows(stub, path[i - 1], told[i - 1], path[i - 1 + 1]));
    }
}

/// A step sets up one instruction and lets the simulation run, and a continue lets it run
/// at once. Resuming with a signal is refused. All of it is asked of the session's CPU and
/// simulation.
pub proof fn a_resumption_lets_the_target_run(
    stub: &IrisGdbStub,
    act: Action,
    path: Seq<ResumeNext>,
    told: Seq<Told>,
    i: int,
)
    requires
        runs(stub, act, path, told),
        0 <= i < path.len(),
    ensures
        match path[i] {
            ResumeNext::SetUp(setup, _) => {
                &&& i == 0
                &&& act == Action::Step
                &&& setup.inst == stub.instance_id
                &&& setup.steps == 1
                &&& setup.unit == Unit::Instruction
            },
            ResumeNext::Start(sim, _) => {
                &&& sim == stub.sim
                &&& i == (if act == Action::Step {
                    1int
                } else {
                    0
                })
            },
            ResumeNext::Ask(sim, _) => sim == stub.sim,
            ResumeNext::Stop(sim, _) => sim == stub.sim,
            _ => true,
        },
        match act {
            Action::Step => path[0] is SetUp && (told.len() > 0 && told[0] is SetUp
                && told[0]->SetUp_0 is Ok ==> path[1] is Start),
            Action::Continue => path[0] is Start,
            _ => path.len() == 1 && path[0] == ResumeNext::Done(Err(())),
        },
{
    lemma_is_for(stub, act, path, told, i);
    if told.len() > 0 {
        assert(follows(stub, path[0], told[0], path[0int + 1]));
    }
    if i > 0 {
        assert(follows(stub, path[i - 1], told[i - 1], path[i - 1 + 1]));
        lemma_is_for(stub, act, path, told, i - 1);
        if path[i] is Start {
            assert(path[i - 1] is SetUp);
        }
    }
}

/// A resumption that is not told of an error goes on, and comes to its end. Once the
/// simulation has been let run it is asked whether it runs. Once it is said to run no more,
/// RTT is flushed, it is seen what was hit, and the stop is reported. Once gdb has
/// interrupted, RTT is flushed, the simulation is stopped, and that is reported.
pub proof fn a_resumption_goes_on_to_its_end(
    stub: &IrisGdbStub,
    act: Action,
    path: Seq<ResumeNext>,
    told: Seq<Told>,
    i: int,
)
    requires
        runs(stub, act, path, told),
        0 <= i < told.len(),
    ensures
        match told[i] {
            Told::SetUp(r) => r is Ok ==> path[i + 1] is Start,
            Told::Started(r) => r is Ok ==> path[i + 1] is Ask,
            Told::Runs(r) => {
                &&& r == Ok::<bool, ()>(true) ==> path[i + 1] is Poll
                &&& r == Ok::<bool, ()>(false) ==> path[i + 1] is Flush
            },
            Told::Polled => path[i + 1] is Look,
            Told::Interrupted(true) => path[i + 1] is FlushToStop,
            Told::Interrupted(false) => path[i + 1] is Ask,
            Told::Flushed => if path[i] is Flush {
                path[i + 1] is Hit
            } else {
                path[i + 1] is Stop
            },
            Told::Stopped(r) => r is Ok ==> path[i + 1] == ResumeNext::Done(
                Ok(Stop::GdbInterrupt),
            ),
            Told::Hit(_) => path[i + 1] is Done && path[i + 1]->Done_0 is Ok,
        },
{
    assert(follows(stub, path[i], told[i], path[i + 1]));
}

/// As long as the simulation is said to run, RTT is polled, gdb is looked for, and unless
/// it has interrupted the question is asked again.
pub proof fn a_running_target_is_watched(
    stub: &IrisGdbStub,
    act: Action,
    path: Seq<ResumeNext>,
    told: Seq<Told>,
    i: int,
)
    requires
        runs(stub, act, path, told),
        0 <= i,
        i + 3 < path.len(),
        told[i] == Told::Runs(Ok(true)),
    ensures
        path[i] is Ask,
        path[i + 1] is Poll,
        path[i + 2] is Look,
        told[i + 2] == Told::Interrupted(false) ==> path[i + 3] is Ask,
        told[i + 2] == Told::Interrupted(true) ==> path[i + 3] is FlushToStop,
{
    assert(follows(stub, path[i], told[i], path[i + 1]));
    assert(follows(stub, path[i + 1], told[i + 1], path[i + 1 + 1]));
    assert(follows(stub, path[i + 2], told[i + 2], path[i + 2 + 1]));
}

/// A resumption ends with a stop only once the target has stopped, and RTT has been flushed
/// since: either the last answer to the question whether the simulation runs was no, or gdb
/// has interrupted and the simulation has been stopped for that.
pub proof fn a_stop_is_reported_once_the_target_has_stopped(
    stub: &IrisGdbStub,
    act: Action,
    path: Seq<ResumeNext>,
    told: Seq<Told>,
    stop: Stop,
)
    requires
        runs(stub, act, path, told),
        path.last() == ResumeNext::Done(Ok(stop)),
    ensures
        ({
            let n = path.len() as int;
            &&& n >= 5
            &&& stop == Stop::GdbInterrupt ==> {
                &&& path[n - 4] is Look
                &&& told[n - 4] == Told::Interrupted(true)
                &&& path[n - 3] is FlushToStop
                &&& path[n - 2] is Stop
                &&& told[n - 2] matches Told::Stopped(Ok(_))
            }
            &&& stop != Stop::GdbInterrupt ==> {
                &&& path[n - 4] is Ask
                &&& told[n - 4] == Told::Runs(Ok(false))
                &&& path[n - 3] is Flush
                &&& path[n - 2] is Hit
            }
        }),
{
    let n = path.len() as int;
    assert(path[0] == begun(stub.instance_id, stub.sim, act));
    assert(n >= 2);
    assert(follows(stub, path[n - 2], told[n - 2], path[n - 2 + 1]));
    assert(n >= 3);
    assert(follows(stub, path[n - 3], told[n - 3], path[n - 3 + 1]));
    assert(n >= 4);
    assert(follows(stub, path[n - 4], told[n - 4], path[n - 4 + 1]));
    assert(n >= 5);
    if stop == Stop::GdbInterrupt {
        assert(path[n - 2] is Stop);
    } else {
        assert(path[n - 2] is Hit);
    }
}

/// What a stop is put down to: a watchpoint whose number was hit, with its address and its
/// kind; else a step is done after a step, and a breakpoint was met after a continue.
pub proof fn a_stop_tells_its_reason(
    stub: &IrisGdbStub,
    act: Action,
    path: Seq<ResumeNext>,
    told: Seq<Told>,
    stop: Stop,
)
    requires
        runs(stub, act, path, told),
        path.last() == ResumeNext::Done(Ok(stop)),
    ensures
        stop != Stop::GdbInterrupt ==> {
            let hit = told.last()->Hit_0;
            let watches = stub.watchpoints@;
            &&& told.last() is Hit
            &&& match stop {
                Stop::Watch { kind, addr } => {
                    &&& hit is Some
                    &&& watches.contains_key(addr)
                    &&& watches[addr].id == hit->Some_0
                    &&& watches[addr].kind == kind
                },
                Stop::DoneStep => {
                    &&& act == Action::Step
                    &&& hit matches Some(id) ==> forall|addr: u32| #[trigger]
                        watches.contains_key(addr) ==> watches[addr].id != id
                },
                Stop::HwBreak => {
                    &&& act == Action::Continue
                    &&& hit matches Some(id) ==> forall|addr: u32| #[trigger]
                        watches.contains_key(addr) ==> watches[addr].id != id
                },
                Stop::GdbInterrupt => true,
            }
        },
{
    let n = path.len() as int;
    a_stop_is_reported_once_the_target_has_stopped(stub, act, path, told, stop);
    assert(follows(stub, path[n - 2], told[n - 2], path[n - 2 + 1]));
    lemma_is_for(stub, act, path, told, n - 2);
    a_resumption_lets_the_target_run(stub, act, path, told, 0);
    if stop != Stop::GdbInterrupt {
        let hit = told.last()->Hit_0;
        if let Some(id) = hit {
            assert forall|addr: u32|
                !(stop is Watch) && #[trigger] stub.watchpoints@.contains_key(
                    addr,
                ) implies stub.watchpoints@[addr].id != id by {
                if stub.watchpoints@[addr].id == id {
                    assert(watched(stub@.watchpoints, id, addr));
                }
            }
        }
    }
}

/// A resumption that is refused was told of an error, or asked for with a signal: nothing
/// else ends it without a stop.
pub proof fn only_an_error_ends_without_a_stop(
    stub: &IrisGdbStub,
    act: Action,
    path: Seq<ResumeNext>,
    told: Seq<Told>,
)
    requires
        runs(stub, act, path, told),
        path.last() == ResumeNext::Done(Err(())),
        act == Action::Step || act == Action::Continue,
    ensures
        told.len() > 0,
        match told.last() {
            Told::SetUp(r) => r is Err,
            Told::Started(r) => r is Err,
            Told::Runs(r) => r is Err,
            Told::Stopped(r) => r is Err,
            _ => false,
        },
{
    let n = path.len() as int;
    if n >= 2 {
        assert(follows(stub, path[n - 2], told[n - 2], path[n - 2 + 1]));
    }
}

/// Nor does an error let it go on.
pub proof fn an_error_ends_a_resumption(
    stub: &IrisGdbStub,
    act: Action,
    path: Seq<ResumeNext>,
    told: Seq<Told>,
    i: int,
)
    requires
        runs(stub, act, path, told),
        0 <= i < told.len(),
        match told[i] {
            Told::SetUp(r) => r is Err,
            Told::Started(r) => r is Err,
            Told::Runs(r) => r is Err,
            Told::Stopped(r) => r is Err,
            _ => false,
        },
    ensures
        i == told.len() - 1,
        path.last() == ResumeNext::Done(Err(())),
{
    assert(follows(stub, path[i], told[i], path[i + 1]));
    if i + 1 < told.len() {
        assert(follows(stub, path[i + 1], told[i + 1], path[i + 1 + 1]));
    }
}

/// The watchpoint that is found for a number has that number, and where none is found no
/// watchpoint has it.
pub proof fn a_hit_is_found_among_the_watchpoints(
    stub: &IrisGdbStub,
    id: u64,
    r: Option<(u32, WatchKind)>,
)
    requires
        call_ensures(IrisGdbStub::find_watch, (stub, id), r),
    ensures
        match r {
            Some((addr, kind)) => {
                &&& stub.watchpoints@.contains_key(addr)
                &&& stub.watchpoints@[addr].id == id
                &&& stub.watchpoints@[addr].kind == kind
            },
            None => forall|addr: u32| #[trigger]
                stub.watchpoints@.contains_key(addr) ==> stub.watchpoints@[addr].id != id,
        },
{
    if r is None {
        assert forall|addr: u32| #[trigger]
            stub.watchpoints@.contains_key(addr) implies stub.watchpoints@[addr].id != id by {
            assert(!watched(stub@.watchpoints, id, addr));
        }
    }
}

} // verus!
