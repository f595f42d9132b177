//! A debug session with one CPU: its breakpoints and watchpoints, its memory, and its RTT.

use crate::access::{lemma_bytes_stored, lemma_read_served};
use crate::dialogue::{contents, effect, mapped, served};
use crate::memory::{
    bytes_of, overlaid, overlay, pack_le, unpack_le, words_of, Reply, Request, SPACE,
};
use crate::rtt::{Rtt, RttView};
use std::collections::HashMap;
use vstd::prelude::*;

verus! {

broadcast use vstd::std_specs::hash::group_hash_axioms;

/// Which accesses a watchpoint stops at.
#[derive(Debug, Clone, Copy, PartialEq, Eq, Structural)]
pub enum WatchKind {
    Write,
    Read,
    ReadWrite,
}

/// A watchpoint that has been set.
#[derive(Debug, Clone, Copy)]
pub struct Watch {
    /// The number that the server gave it.
    pub id: u64,
    pub kind: WatchKind,
}

/// The state of a debug session with one CPU instance.
#[derive(Debug)]
pub struct IrisGdbStub {
    /// The CPU.
    pub instance_id: u32,
    /// The simulation engine.
    pub sim: u32,
    /// The breakpoints that have been set: per address the number that the server gave it.
    pub breakpoints: HashMap<u32, u64>,
    /// The watchpoints that have been set, one per address.
    pub watchpoints: HashMap<u32, Watch>,
    pub rtt: Rtt,
}

/// The state of a debug session, as it is spoken of.
#[verifier::ext_equal]
pub struct StubView {
    pub instance_id: u32,
    pub sim: u32,
    pub breakpoints: Map<u32, u64>,
    pub watchpoints: Map<u32, Watch>,
    pub rtt: RttView,
}

impl View for IrisGdbStub {
    type V = StubView;

    open spec fn view(&self) -> StubView {
        StubView {
            instance_id: self.instance_id,
            sim: self.sim,
            breakpoints: self.breakpoints@,
            watchpoints: self.watchpoints@,
            rtt: self.rtt@,
        }
    }
}

/// A breakpoint on code that is to be set.
#[derive(Debug)]
pub struct SetBreakpoint {
    pub inst: u32,
    pub addr: u64,
    /// How many bytes it covers; left to the server where it is not given.
    pub size: Option<u64>,
    /// The memory space of the address.
    pub space: u64,
    /// It is only reported, and the simulation goes on.
    pub dont_stop: bool,
}

/// A breakpoint on data that is to be set.
#[derive(Debug)]
pub struct SetWatchpoint {
    pub inst: u32,
    pub addr: u64,
    /// How many bytes it covers; left to the server where it is not given.
    pub size: Option<u64>,
    /// The memory space of the address.
    pub space: u64,
    pub kind: WatchKind,
    /// It is only reported, and the simulation goes on.
    pub dont_stop: bool,
}

impl SetBreakpoint {
    /// A breakpoint at `addr` that stops the simulation.
    pub open spec fn at(inst: u32, addr: u32) -> SetBreakpoint {
        SetBreakpoint { inst, addr: addr as u64, size: None, space: SPACE, dont_stop: false }
    }
}

impl SetWatchpoint {
    /// A watchpoint at `addr` that stops the simulation.
    pub open spec fn at(inst: u32, addr: u32, kind: WatchKind) -> SetWatchpoint {
        SetWatchpoint {
            inst,
            addr: addr as u64,
            size: None,
            space: SPACE,
            kind,
            dont_stop: false,
        }
    }
}

/// What is to be done for a watchpoint to be there.
#[derive(Debug)]
pub enum AddWatchpoint {
    /// Nothing: it is there already.
    There,
    /// It cannot be: there is one of another kind at the address, which has room for one.
    Refused,
    /// It is to be set.
    Needed(SetWatchpoint),
}

/// A breakpoint or a watchpoint that is to be deleted.
#[derive(Debug)]
pub struct Delete {
    pub inst: u32,
    pub id: u64,
}

impl IrisGdbStub {
    /// The name under which the simulation engine is registered.
    pub fn engine_name() -> (r: &'static str)
        ensures
            r@ == "framework.SimulationEngine"@,
    {
        "framework.SimulationEngine"
    }

    /// A session with the CPU `instance_id`. `engine` is what the instance registry
    /// answered when it was asked for the simulation engine.
    pub fn from_instance(instance_id: u32, engine: Result<u32, String>) -> (r: Result<
        IrisGdbStub,
        String,
    >)
        ensures
            match engine {
                Ok(sim) => r is Ok && r->Ok_0@ == (StubView {
                    instance_id,
                    sim,
                    breakpoints: Map::empty(),
                    watchpoints: Map::empty(),
                    rtt: RttView::initial(),
                }),
                Err(e) => r == Err::<IrisGdbStub, String>(e),
            },
    {
        match engine {
            Ok(sim) => Ok(
                IrisGdbStub {
                    instance_id,
                    sim,
                    breakpoints: HashMap::new(),
                    watchpoints: HashMap::new(),
                    rtt: Rtt::default(),
                },
            ),
            Err(e) => Err(e),
        }
    }

    /// The breakpoint to set for a breakpoint at `addr`; none where there is one already,
    /// which is as good.
    pub fn add_hw_breakpoint(&self, addr: u32) -> (r: Option<SetBreakpoint>)
        ensures
            r == (if self@.breakpoints.contains_key(addr) {
                None
            } else {
                Some(SetBreakpoint::at(self.instance_id, addr))
            }),
    {
        if self.breakpoints.contains_key(&addr) {
            None
        } else {
            Some(
                SetBreakpoint {
                    inst: self.instance_id,
                    addr: addr as u64,
                    size: None,
                    space: SPACE,
                    dont_stop: false,
                },
            )
        }
    }

    /// Notes that the server has set the breakpoint at `addr`, under the number `id`, or
    /// that it has not. Tells whether it has.
    pub fn hw_breakpoint_added(&mut self, addr: u32, id: Option<u64>) -> (r: bool)
        ensures
            r == id is Some,
            final(self)@ == (match id {
                Some(id) => StubView {
                    breakpoints: old(self)@.breakpoints.insert(addr, id),
                    ..old(self)@
                },
                None => old(self)@,
            }),
    {
        match id {
            Some(id) => {
                self.breakpoints.insert(addr, id);
                true
            },
            None => false,
        }
    }

    /// The breakpoint to delete for a breakpoint at `addr` to be gone; none where there is
    /// none, which is as good.
    pub fn remove_hw_breakpoint(&self, addr: u32) -> (r: Option<Delete>)
        ensures
            r == (if self@.breakpoints.contains_key(addr) {
                Some(Delete { inst: self.instance_id, id: self@.breakpoints[addr] })
            } else {
                None
            }),
    {
        match self.breakpoints.get(&addr) {
            Some(id) => Some(Delete { inst: self.instance_id, id: *id }),
            None => None,
        }
    }

    /// Notes that the server has deleted the breakpoint at `addr`, or that it has not.
    /// Tells whether it has.
    pub fn hw_breakpoint_removed(&mut self, addr: u32, deleted: bool) -> (r: bool)
        ensures
            r == deleted,
            final(self)@ == (if deleted {
                StubView { breakpoints: old(self)@.breakpoints.remove(addr), ..old(self)@ }
            } else {
                old(self)@
            }),
    {
        if deleted {
            let _ = self.breakpoints.remove(&addr);
        }
        deleted
    }

    /// Software breakpoints are hardware breakpoints.
    pub fn add_sw_breakpoint(&self, addr: u32) -> (r: Option<SetBreakpoint>)
        ensures
            r == (if self@.breakpoints.contains_key(addr) {
                None
            } else {
                Some(SetBreakpoint::at(self.instance_id, addr))
            }),
    {
        self.add_hw_breakpoint(addr)
    }

    /// Software breakpoints are hardware breakpoints.
    pub fn remove_sw_breakpoint(&self, addr: u32) -> (r: Option<Delete>)
        ensures
            r == (if self@.breakpoints.contains_key(addr) {
                Some(Delete { inst: self.instance_id, id: self@.breakpoints[addr] })
            } else {
                None
            }),
    {
        self.remove_hw_breakpoint(addr)
    }

    /// What is to be done for a watchpoint of the kind `kind` at `addr` to be there.
    pub fn add_hw_watchpoint(&self, addr: u32, kind: WatchKind) -> (r: AddWatchpoint)
        ensures
            r == (if !self@.watchpoints.contains_key(addr) {
                AddWatchpoint::Needed(SetWatchpoint::at(self.instance_id, addr, kind))
            } else if self@.watchpoints[addr].kind == kind {
                AddWatchpoint::There
            } else {
                AddWatchpoint::Refused
            }),
    {
        match self.watchpoints.get(&addr) {
            None => AddWatchpoint::Needed(
                SetWatchpoint {
                    inst: self.instance_id,
                    addr: addr as u64,
                    size: None,
                    space: SPACE,
                    kind,
                    dont_stop: false,
                },
            ),
            Some(watch) => {
                if watch.kind == kind {
                    AddWatchpoint::There
                } else {
                    AddWatchpoint::Refused
                }
            },
        }
    }

    /// Notes that the server has set the watchpoint at `addr`, under the number `id`, or
    /// that it has not. Tells whether it has.
    pub fn hw_watchpoint_added(&mut self, addr: u32, kind: WatchKind, id: Option<u64>) -> (r: bool)
        ensures
            r == id is Some,
            final(self)@ == (match id {
                Some(id) => StubView {
                    watchpoints: old(self)@.watchpoints.insert(addr, Watch { id, kind }),
                    ..old(self)@
                },
                None => old(self)@,
            }),
    {
        match id {
            Some(id) => {
                self.watchpoints.insert(addr, Watch { id, kind });
                true
            },
            None => false,
        }
    }

    /// The watchpoint to delete for a watchpoint of the kind `kind` at `addr` to be gone;
    /// none where there is none of that kind, which is as good.
    pub fn remove_hw_watchpoint(&self, addr: u32, kind: WatchKind) -> (r: Option<Delete>)
        ensures
            r == (if self@.watchpoints.contains_key(addr) && self@.watchpoints[addr].kind
                == kind {
                Some(Delete { inst: self.instance_id, id: self@.watchpoints[addr].id })
            } else {
                None
            }),
    {
        if let Some(watch) = self.watchpoints.get(&addr) {
            if watch.kind == kind {
                return Some(Delete { inst: self.instance_id, id: watch.id });
            }
        }
        None
    }

    /// Notes that the server has deleted the watchpoint at `addr`, or that it has not.
    /// Tells whether it has.
    pub fn hw_watchpoint_removed(&mut self, addr: u32, deleted: bool) -> (r: bool)
        ensures
            r == deleted,
            final(self)@ == (if deleted {
                StubView { watchpoints: old(self)@.watchpoints.remove(addr), ..old(self)@ }
            } else {
                old(self)@
            }),
    {
        if deleted {
            let _ = self.watchpoints.remove(&addr);
        }
        deleted
    }

    /// The request that reads `len` bytes at `start_addr`.
    pub fn read_addrs(&self, start_addr: u32, len: usize) -> (r: Request)
        ensures
            r.reads(self.instance_id, start_addr as u64, len as u64),
    {
        Request::Read {
            inst: self.instance_id,
            space: SPACE,
            addr: start_addr as u64,
            width: 1,
            count: len as u64,
        }
    }

    /// The request that writes `data` at `start_addr`.
    pub fn write_addrs(&self, start_addr: u32, data: &[u8]) -> (r: Request)
        ensures
            r.writes(
                self.instance_id,
                start_addr as u64,
                1,
                data@.len() as u64,
                words_of(data@),
            ),
    {
        Request::Write {
            inst: self.instance_id,
            space: SPACE,
            addr: start_addr as u64,
            width: 1,
            count: data.len() as u64,
            data: pack_le(data),
        }
    }
}

/// Takes over what the reply to a read says. A reply that is too short leaves the rest of
/// `data` as it is.
pub fn addrs_read(reply: Reply, data: &mut [u8]) -> (r: Result<(), ()>)
    ensures
        match reply {
            Reply::Failed(_) => r is Err && final(data)@ == old(data)@,
            Reply::Words(words) => r is Ok && final(data)@ == overlaid(
                old(data)@,
                bytes_of(words@),
            ),
        },
{
    match reply {
        Reply::Failed(_) => Err(()),
        Reply::Words(words) => {
            overlay(data, &unpack_le(&words));
            Ok(())
        },
    }
}

/// What the reply to a write says.
pub fn addrs_written(reply: Reply) -> (r: Result<(), ()>)
    ensures
        r is Ok <==> reply is Words,
{
    match reply {
        Reply::Failed(_) => Err(()),
        Reply::Words(_) => Ok(()),
    }
}

/// A breakpoint or watchpoint that is set and then removed leaves those that there were
/// before, and one that is set is found.
pub proof fn removing_undoes_adding<V>(set: Map<u32, V>, addr: u32, v: V)
    requires
        !set.contains_key(addr),
    ensures
        set.insert(addr, v).contains_key(addr),
        set.insert(addr, v)[addr] == v,
        set.insert(addr, v).remove(addr) == set,
{
    assert(set.insert(addr, v).remove(addr) =~= set);
}

/// What is written at an address is what a read there gives back.
pub proof fn a_read_gives_back_what_was_written(
    inst: u32,
    addr: u32,
    data: Seq<u8>,
    mem: Map<int, u8>,
    write: Request,
    read: Request,
    reply: Reply,
    before: Seq<u8>,
)
    requires
        data.len() <= u64::MAX,
        before.len() == data.len(),
        write.writes(inst, addr as u64, 1, data.len() as u64, words_of(data)),
        read.reads(inst, addr as u64, data.len() as u64),
        mapped(mem, addr as int, data.len() as int),
        served(effect(mem, write), read, reply),
    ensures
        reply matches Reply::Words(words) && overlaid(before, bytes_of(words@)) == data,
{
    lemma_bytes_stored(mem, write, inst, addr as u64, data);
    let after = effect(mem, write);
    let n = data.len() as u64;
    assert(mapped(after, addr as int, n as int));
    lemma_read_served(after, read, reply, inst, addr as u64, n);
    assert(contents(after, addr as int, data.len()) =~= data);
    let bytes = bytes_of(reply->Words_0@);
    assert(bytes.take(n as int) == data);
    assert forall|i: int| 0 <= i < n implies bytes[i] == data[i] by {
        assert(bytes.take(n as int)[i] == bytes[i]);
    }
    assert(overlaid(before, bytes) =~= data);
}

} // verus!
