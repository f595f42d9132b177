//! A debug session's breakpoints and watchpoints, and gdb's pipe.

use crate::laws::state::{lemma_queue, lemma_same, lemma_servers, queue_of, same_rtt};
use crate::pipe::{GdbOverPipe, Heard};
use crate::rtt::RttView;
use crate::stub::{AddWatchpoint, Delete, IrisGdbStub, SetBreakpoint, WatchKind};
use vstd::prelude::*;

verus! {

/// A session begins with the CPU and the engine that it is given, and with nothing set or
/// served. Without an engine there is none.
pub proof fn a_session_begins_empty(
    instance_id: u32,
    engine: Result<u32, String>,
    r: Result<IrisGdbStub, String>,
    name: &'static str,
)
    requires
        call_ensures(IrisGdbStub::from_instance, (instance_id, engine), r),
        call_ensures(IrisGdbStub::engine_name, (), name),
    ensures
        name@ == "framework.SimulationEngine"@,
        match engine {
            Err(e) => r == Err::<IrisGdbStub, String>(e),
            Ok(sim) => {
                &&& r is Ok
                &&& r->Ok_0.instance_id == instance_id
                &&& r->Ok_0.sim == sim
                &&& r->Ok_0.breakpoints@ == Map::<u32, u64>::empty()
                &&& forall|addr: u32| !#[trigger] r->Ok_0.watchpoints@.contains_key(addr)
                &&& r->Ok_0.rtt.search is None
                &&& r->Ok_0.rtt.control_block is None
                &&& r->Ok_0.rtt.poll_counter == 0
                &&& r->Ok_0.rtt.servers@.len() == 0
                &&& forall|ch: u32| #[trigger] queue_of(r->Ok_0.rtt.pending_down@, ch).len() == 0
            },
        },
{
    if engine is Ok {
        let rtt = r->Ok_0.rtt;
        assert(rtt@ == RttView::initial());
        lemma_servers(rtt);
        assert forall|ch: u32| #[trigger] queue_of(rtt.pending_down@, ch).len() == 0 by {
            lemma_queue(rtt.pending_down@, ch);
        }
    }
}

/// A breakpoint is set on the CPU at the address that gdb names, in space zero, and so that
/// it stops; unless there is one. For it to be gone, the one there is deleted by the number
/// that the server gave it. Software breakpoints are the same.
pub proof fn a_breakpoint_is_set_where_it_is_wanted(
    stub: &IrisGdbStub,
    addr: u32,
    add: Option<SetBreakpoint>,
    add_sw: Option<SetBreakpoint>,
    remove: Option<Delete>,
    remove_sw: Option<Delete>,
)
    requires
        call_ensures(IrisGdbStub::add_hw_breakpoint, (stub, addr), add),
        call_ensures(IrisGdbStub::add_sw_breakpoint, (stub, addr), add_sw),
        call_ensures(IrisGdbStub::remove_hw_breakpoint, (stub, addr), remove),
        call_ensures(IrisGdbStub::remove_sw_breakpoint, (stub, addr), remove_sw),
    ensures
        add_sw == add,
        remove_sw == remove,
        add is None <==> stub.breakpoints@.contains_key(addr),
        remove is Some <==> stub.breakpoints@.contains_key(addr),
        add matches Some(set) ==> {
            &&& set.inst == stub.instance_id
            &&& set.addr == addr
            &&& set.size is None
            &&& set.space == 0
            &&& !set.dont_stop
        },
        remove matches Some(delete) ==> {
            &&& delete.inst == stub.instance_id
            &&& delete.id == stub.breakpoints@[addr]
        },
{
}

/// A breakpoint that the server has set is noted under its number, one that it has deleted
/// is forgotten, and nothing else changes. Where the server has not done it nothing
/// changes, and gdb is told.
pub proof fn a_breakpoint_is_noted_as_it_is(
    stub: &mut IrisGdbStub,
    addr: u32,
    id: Option<u64>,
    added: bool,
    other: &mut IrisGdbStub,
    deleted: bool,
    removed: bool,
)
    requires
        call_ensures(IrisGdbStub::hw_breakpoint_added, (stub, addr, id), added),
        call_ensures(IrisGdbStub::hw_breakpoint_removed, (other, addr, deleted), removed),
    ensures
        added == id is Some,
        removed == deleted,
        forall|a: u32| #[trigger]
            final(stub).breakpoints@.contains_key(a) <==> old(stub).breakpoints@.contains_key(a)
                || a == addr && added,
        forall|a: u32| #[trigger]
            final(stub).breakpoints@.contains_key(a) ==> final(stub).breakpoints@[a] == (if a
                == addr && added {
                id->Some_0
            } else {
                old(stub).breakpoints@[a]
            }),
        forall|a: u32| #[trigger]
            final(other).breakpoints@.contains_key(a) <==> old(other).breakpoints@.contains_key(a)
                && !(a == addr && deleted),
        forall|a: u32| #[trigger]
            final(other).breakpoints@.contains_key(a) ==> final(other).breakpoints@[a]
                == old(other).breakpoints@[a],
        final(stub).watchpoints@ == old(stub).watchpoints@,
        final(stub).instance_id == old(stub).instance_id,
        final(stub).sim == old(stub).sim,
        same_rtt(final(stub).rtt, old(stub).rtt),
        final(other).watchpoints@ == old(other).watchpoints@,
        final(other).instance_id == old(other).instance_id,
        final(other).sim == old(other).sim,
        same_rtt(final(other).rtt, old(other).rtt),
{
    lemma_same(final(stub).rtt, old(stub).rtt);
    lemma_same(final(other).rtt, old(other).rtt);
}

/// A watchpoint is set on the CPU at the address and of the kind that gdb names, in space
/// zero, and so that it stops; unless there is one of that kind. One of another kind at the
/// address is in the way. For it to be gone, the one of that kind is deleted by the number
/// that the server gave it.
pub proof fn a_watchpoint_is_set_where_it_is_wanted(
    stub: &IrisGdbStub,
    addr: u32,
    kind: WatchKind,
    add: AddWatchpoint,
    remove: Option<Delete>,
)
    requires
        call_ensures(IrisGdbStub::add_hw_watchpoint, (stub, addr, kind), add),
        call_ensures(IrisGdbStub::remove_hw_watchpoint, (stub, addr, kind), remove),
    ensures
        ({
            let set = stub.watchpoints@.contains_key(addr);
            let same = set && stub.watchpoints@[addr].kind == kind;
            &&& add is Needed <==> !set
            &&& add is There <==> same
            &&& remove is Some <==> same
            &&& add matches AddWatchpoint::Needed(w) ==> {
                &&& w.inst == stub.instance_id
                &&& w.addr == addr
                &&& w.size is None
                &&& w.space == 0
                &&& w.kind == kind
                &&& !w.dont_stop
            }
            &&& remove matches Some(delete) ==> {
                &&& delete.inst == stub.instance_id
                &&& delete.id == stub.watchpoints@[addr].id
            }
        }),
{
}

/// A watchpoint that the server has set is noted with its number and its kind, one that it
/// has deleted is forgotten, and nothing else changes. Where the server has not done it
/// nothing changes, and gdb is told.
pub proof fn a_watchpoint_is_noted_as_it_is(
    stub: &mut IrisGdbStub,
    addr: u32,
    kind: WatchKind,
    id: Option<u64>,
    added: bool,
    other: &mut IrisGdbStub,
    deleted: bool,
    removed: bool,
)
    requires
        call_ensures(IrisGdbStub::hw_watchpoint_added, (stub, addr, kind, id), added),
        call_ensures(IrisGdbStub::hw_watchpoint_removed, (other, addr, deleted), removed),
    ensures
        added == id is Some,
        removed == deleted,
        forall|a: u32| #[trigger]
            final(stub).watchpoints@.contains_key(a) <==> old(stub).watchpoints@.contains_key(a)
                || a == addr && added,
        added ==> final(stub).watchpoints@[addr].id == id->Some_0 && final(
            stub
        ).watchpoints@[addr].kind == kind,
        forall|a: u32| #[trigger]
            final(stub).watchpoints@.contains_key(a) && !(a == addr && added) ==> final(
                stub
            ).watchpoints@[a] == old(stub).watchpoints@[a],
        forall|a: u32| #[trigger]
            final(other).watchpoints@.contains_key(a) <==> old(other).watchpoints@.contains_key(a)
                && !(a == addr && deleted),
        forall|a: u32| #[trigger]
            final(other).watchpoints@.contains_key(a) ==> final(other).watchpoints@[a]
                == old(other).watchpoints@[a],
        final(stub).breakpoints@ == old(stub).breakpoints@,
        final(stub).instance_id == old(stub).instance_id,
        final(stub).sim == old(stub).sim,
        same_rtt(final(stub).rtt, old(stub).rtt),
        final(other).breakpoints@ == old(other).breakpoints@,
        final(other).instance_id == old(other).instance_id,
        final(other).sim == old(other).sim,
        same_rtt(final(other).rtt, old(other).rtt),
{
    lemma_same(final(stub).rtt, old(stub).rtt);
    lemma_same(final(other).rtt, old(other).rtt);
}

/// A breakpoint that was set is there for the next one who asks, and can be removed by its
/// number; once that is done it is wanted anew.
pub proof fn a_breakpoint_comes_and_goes(
    stub: &mut IrisGdbStub,
    addr: u32,
    id: u64,
    again: Option<SetBreakpoint>,
    remove: Option<Delete>,
    then: &mut IrisGdbStub,
    anew: Option<SetBreakpoint>,
    added: bool,
    removed: bool,
)
    requires
        call_ensures(IrisGdbStub::hw_breakpoint_added, (stub, addr, Some(id)), added),
        call_ensures(IrisGdbStub::add_hw_breakpoint, (final(stub), addr), again),
        call_ensures(IrisGdbStub::remove_hw_breakpoint, (final(stub), addr), remove),
        *old(then) == *final(stub),
        call_ensures(IrisGdbStub::hw_breakpoint_removed, (then, addr, true), removed),
        call_ensures(IrisGdbStub::add_hw_breakpoint, (final(then), addr), anew),
    ensures
        again is None,
        remove is Some && remove->Some_0.id == id,
        anew is Some,
{
}

/// What comes in over the pipe is given in its order, each once: bytes, and errors where
/// they stand among them. What came in before the end is still given, and then the end is
/// told; until there is an end, whoever waits goes on waiting.
pub proof fn a_pipe_gives_what_came_in<E>(
    pipe: &mut GdbOverPipe<E>,
    came: Result<Option<u8>, E>,
    on: bool,
    then: &mut GdbOverPipe<E>,
    heard: Heard<E>,
    other: &mut GdbOverPipe<E>,
    peeked: Result<Option<u8>, E>,
    empty: GdbOverPipe<E>,
)
    requires
        call_ensures(GdbOverPipe::<E>::new, (), empty),
        call_ensures(GdbOverPipe::<E>::heard, (pipe, came), on),
        call_ensures(GdbOverPipe::<E>::read, (then,), heard),
        call_ensures(GdbOverPipe::<E>::peek, (other,), peeked),
    ensures
        empty.queue@.len() == 0 && !empty.hung_up,
        // What comes in stands behind what has come in.
        on <==> !(came matches Ok(None)),
        final(pipe).hung_up <==> old(pipe).hung_up || !on,
        ({
            let n = old(pipe).queue@.len() as int;
            &&& final(pipe).queue@.len() == n + (if on {
                1int
            } else {
                0
            })
            &&& forall|i: int|
                0 <= i < n ==> #[trigger] final(pipe).queue@[i] == old(pipe).queue@[i]
            &&& came matches Ok(Some(byte)) ==> final(pipe).queue@[n] == Ok::<u8, E>(byte)
            &&& came matches Err(e) ==> final(pipe).queue@[n] == Err::<u8, E>(e)
        }),
        // The oldest is given first.
        old(then).queue@.len() > 0 ==> {
            &&& heard == Heard::Item(old(then).queue@[0])
            &&& final(then).queue@.len() == old(then).queue@.len() - 1
            &&& forall|i: int|
                0 <= i < final(then).queue@.len() ==> #[trigger] final(then).queue@[i]
                    == old(then).queue@[i + 1]
        },
        old(then).queue@.len() == 0 ==> (heard is Reset <==> old(then).hung_up) && (heard is Wait
            <==> !old(then).hung_up) && final(then).queue@.len() == 0,
        final(then).hung_up == old(then).hung_up,
        old(other).queue@.len() > 0 ==> {
            &&& match old(other).queue@[0] {
                Ok(byte) => peeked == Ok::<Option<u8>, E>(Some(byte)),
                Err(e) => peeked == Err::<Option<u8>, E>(e),
            }
            &&& final(other).queue@.len() == old(other).queue@.len() - 1
            &&& forall|i: int|
                0 <= i < final(other).queue@.len() ==> #[trigger] final(other).queue@[i]
                    == old(other).queue@[i + 1]
        },
        old(other).queue@.len() == 0 ==> {
            &&& peeked == Ok::<Option<u8>, E>(None)
            &&& final(other).queue@.len() == 0
        },
        final(other).hung_up == old(other).hung_up,
{
}

} // verus!
