//! The core's registers, moved between the server's resources and gdb's register block.
//!
//! The server lists the resources of an instance, registers among them, and reads or
//! writes one at a time. A transfer asks for one access at a time, and goes on when it is
//! told what came of it.

use crate::memory::{le_u32, overlaid, overlay, push_u32_le, u32_from_le, u32_le};
use crate::registers::{regnum, regnum_of, GuestState, Register};
use crate::stub::IrisGdbStub;
use vstd::prelude::*;

verus! {

/// A resource of an instance.
#[derive(Debug)]
pub struct Resource {
    pub id: u64,
    pub name: String,
    /// The server reports that it cannot be written.
    pub read_only: bool,
}

/// A resource of the instance `inst` that is to be read.
#[derive(Debug)]
pub struct ReadResource {
    pub inst: u32,
    pub id: u64,
}

/// A resource of the instance `inst` that is to be written, and its value.
#[derive(Debug)]
pub struct WriteResource {
    pub inst: u32,
    pub id: u64,
    pub val: u32,
}

/// What a transfer from the core wants next.
#[derive(Debug)]
pub enum ReadNext {
    /// Read the resource, then go on with what came of it.
    Read(ReadResource, ReadWait),
    /// The transfer is over: the registers, and whether all could be read.
    Done(GuestState, Result<(), ()>),
}

/// A transfer from the core that waits for the value of register `num`.
#[derive(Debug)]
pub struct ReadWait {
    pub inst: u32,
    pub regs: GuestState,
    pub num: usize,
    /// The resources that come after it.
    pub rest: Vec<Resource>,
}

/// `regs` with the value `val` in register `num`.
pub open spec fn with_register(regs: Seq<u32>, num: int, val: u32) -> Seq<u32> {
    if 0 <= num < regs.len() {
        regs.update(num, val)
    } else {
        regs
    }
}

/// The low half of a value.
pub open spec fn low(val: u64) -> u32 {
    (val % 0x1_0000_0000) as u32
}

/// `regs` once the server has given `data` for register `num`. A register without a value
/// stays as it is.
pub open spec fn with_data(regs: Seq<u32>, num: int, data: Seq<u64>) -> Seq<u32> {
    if data.len() == 0 {
        regs
    } else {
        with_register(regs, num, low(data[0]))
    }
}

impl ReadNext {
    /// The transfer goes on with the first of `rest` that is a register.
    pub open spec fn goes_on(self, inst: u32, regs: Seq<u32>, rest: Seq<Resource>) -> bool
        decreases rest.len(),
    {
        if rest.len() == 0 {
            self matches ReadNext::Done(r, all) && r.regs@ == regs && all is Ok
        } else {
            match regnum(rest[0].name@) {
                None => self.goes_on(inst, regs, rest.drop_first()),
                Some(num) => self matches ReadNext::Read(read, wait) && read == (ReadResource {
                    inst,
                    id: rest[0].id,
                }) && wait.inst == inst && wait.regs.regs@ == regs && wait.num == num
                    && wait.rest@ == rest.drop_first(),
            }
        }
    }
}

/// Goes on with the first of `rest` that is a register.
fn next_read(inst: u32, regs: GuestState, rest: Vec<Resource>) -> (next: ReadNext)
    ensures
        next.goes_on(inst, regs.regs@, rest@),
    decreases rest@.len(),
{
    let mut rest = rest;
    if rest.len() == 0 {
        return ReadNext::Done(regs, Ok(()));
    }
    let resource = rest.remove(0);
    match regnum_of(resource.name.as_str()) {
        None => next_read(inst, regs, rest),
        Some(num) => ReadNext::Read(
            ReadResource { inst, id: resource.id },
            ReadWait { inst, regs, num, rest },
        ),
    }
}

impl IrisGdbStub {
    /// Begins to read the registers into `regs`. `list` is what the server answered when
    /// it was asked for the resources.
    pub fn read_registers(&self, regs: GuestState, list: Result<Vec<Resource>, ()>) -> (next:
        ReadNext)
        ensures
            match list {
                Ok(list) => next.goes_on(self.instance_id, regs.regs@, list@),
                Err(_) => next == ReadNext::Done(regs, Err(())),
            },
    {
        match list {
            Ok(list) => next_read(self.instance_id, regs, list),
            Err(_) => ReadNext::Done(regs, Err(())),
        }
    }

    /// Begins to write `regs` to the registers. `list` is what the server answered when it
    /// was asked for the resources. Those that it reports as read-only are skipped.
    pub fn write_registers(&self, regs: GuestState, list: Result<Vec<Resource>, ()>) -> (next:
        WriteNext)
        ensures
            match list {
                Ok(list) => next.goes_on(self.instance_id, regs.regs@, list@),
                Err(_) => next == WriteNext::Done(Err(())),
            },
    {
        match list {
            Ok(list) => next_write(self.instance_id, regs, list),
            Err(_) => WriteNext::Done(Err(())),
        }
    }

    /// The resource to read for the register `reg`; none where the core has no such
    /// register.
    pub fn read_register(&self, list: &Vec<Resource>, reg: &Register) -> (r: Option<ReadResource>)
        ensures
            r == (match first_named(list@, reg.number()) {
                Some(resource) => Some(
                    ReadResource { inst: self.instance_id, id: resource.id },
                ),
                None => None,
            }),
    {
        match find_named(list, reg.block_index()) {
            Some(i) => Some(ReadResource { inst: self.instance_id, id: list[i].id }),
            None => None,
        }
    }

    /// The resource to write for the register `reg`, and the value; none where the core
    /// has no such register, it is read-only, or `val` is too short.
    pub fn write_register(&self, list: &Vec<Resource>, reg: &Register, val: &[u8]) -> (r: Option<
        WriteResource,
    >)
        ensures
            r == (match first_named(list@, reg.number()) {
                Some(resource) => if resource.read_only || val@.len() < 4 {
                    None
                } else {
                    Some(
                        WriteResource {
                            inst: self.instance_id,
                            id: resource.id,
                            val: le_u32(val@),
                        },
                    )
                },
                None => None,
            }),
    {
        match find_named(list, reg.block_index()) {
            Some(i) => {
                if list[i].read_only || val.len() < 4 {
                    return None;
                }
                assert(val@.skip(0) =~= val@);
                Some(
                    WriteResource {
                        inst: self.instance_id,
                        id: list[i].id,
                        val: u32_from_le(val, 0),
                    },
                )
            },
            None => None,
        }
    }
}

impl ReadWait {
    /// Told what came of reading the resource, the transfer goes on with `next`. One that
    /// cannot be read ends it.
    pub open spec fn continues(self, data: Result<Vec<u64>, ()>, next: ReadNext) -> bool {
        match data {
            Ok(data) => next.goes_on(
                self.inst,
                with_data(self.regs.regs@, self.num as int, data@),
                self.rest@,
            ),
            Err(_) => next == ReadNext::Done(self.regs, Err(())),
        }
    }

    /// Goes on with what came of reading the resource.
    pub fn resume(self, data: Result<Vec<u64>, ()>) -> (next: ReadNext)
        ensures
            self.continues(data, next),
    {
        let ReadWait { inst, regs, num, rest } = self;
        let mut regs = regs;
        match data {
            Ok(data) => {
                if data.len() > 0 && num < 26 {
                    let val: u32 = (data[0] % 0x1_0000_0000) as u32;
                    regs.regs[num] = val;
                }
                assert(regs.regs@ =~= with_data(self.regs.regs@, num as int, data@));
                next_read(inst, regs, rest)
            },
            Err(_) => ReadNext::Done(regs, Err(())),
        }
    }
}

/// What a transfer to the core wants next.
#[derive(Debug)]
pub enum WriteNext {
    /// Write the resource, then go on with what came of it.
    Write(WriteResource, WriteWait),
    /// The transfer is over: whether all could be written.
    Done(Result<(), ()>),
}

/// A transfer to the core that waits for a register to be written.
#[derive(Debug)]
pub struct WriteWait {
    pub inst: u32,
    pub regs: GuestState,
    /// The resources that come after it.
    pub rest: Vec<Resource>,
}

impl WriteNext {
    /// The transfer goes on with the first of `rest` that is a register and can be
    /// written.
    pub open spec fn goes_on(self, inst: u32, regs: Seq<u32>, rest: Seq<Resource>) -> bool
        decreases rest.len(),
    {
        if rest.len() == 0 {
            self == WriteNext::Done(Ok(()))
        } else {
            match regnum(rest[0].name@) {
                Some(num) if !rest[0].read_only => self matches WriteNext::Write(write, wait)
                    && write == (WriteResource {
                    inst,
                    id: rest[0].id,
                    val: regs[num as int],
                }) && wait.inst == inst && wait.regs.regs@ == regs && wait.rest@
                    == rest.drop_first(),
                _ => self.goes_on(inst, regs, rest.drop_first()),
            }
        }
    }
}

/// Goes on with the first of `rest` that is a register and can be written.
fn next_write(inst: u32, regs: GuestState, rest: Vec<Resource>) -> (next: WriteNext)
    ensures
        next.goes_on(inst, regs.regs@, rest@),
    decreases rest@.len(),
{
    let mut rest = rest;
    if rest.len() == 0 {
        return WriteNext::Done(Ok(()));
    }
    let resource = rest.remove(0);
    match regnum_of(resource.name.as_str()) {
        Some(num) if !resource.read_only => {
            let val: u32 = regs.regs[num];
            WriteNext::Write(
                WriteResource { inst, id: resource.id, val },
                WriteWait { inst, regs, rest },
            )
        },
        _ => next_write(inst, regs, rest),
    }
}

impl WriteWait {
    /// Told what came of writing the resource, the transfer goes on with `next`. One that
    /// cannot be written ends it.
    pub open spec fn continues(self, r: Result<(), ()>, next: WriteNext) -> bool {
        match r {
            Ok(_) => next.goes_on(self.inst, self.regs.regs@, self.rest@),
            Err(_) => next == WriteNext::Done(Err(())),
        }
    }

    /// Goes on with what came of writing the resource.
    pub fn resume(self, r: Result<(), ()>) -> (next: WriteNext)
        ensures
            self.continues(r, next),
    {
        match r {
            Ok(_) => next_write(self.inst, self.regs, self.rest),
            Err(_) => WriteNext::Done(Err(())),
        }
    }
}

/// The first of `list` that is register number `num`.
pub open spec fn first_named(list: Seq<Resource>, num: usize) -> Option<Resource>
    decreases list.len(),
{
    if list.len() == 0 {
        None
    } else if regnum(list[0].name@) == Some(num) {
        Some(list[0])
    } else {
        first_named(list.drop_first(), num)
    }
}

/// Where the first of `list` that is register number `num` stands.
fn find_named(list: &Vec<Resource>, num: usize) -> (r: Option<usize>)
    ensures
        match first_named(list@, num) {
            Some(resource) => r matches Some(i) && i < list@.len() && list@[i as int] == resource,
            None => r is None,
        },
{
    let mut i: usize = 0;
    assert(list@.skip(0) =~= list@);
    while i < list.len()
        invariant
            i <= list@.len(),
            first_named(list@, num) == first_named(list@.skip(i as int), num),
        decreases list@.len() - i,
    {
        assert(list@.skip(i as int)[0] == list@[i as int]);
        if let Some(n) = regnum_of(list[i].name.as_str()) {
            if n == num {
                return Some(i);
            }
        }
        assert(list@.skip(i as int).drop_first() =~= list@.skip(i + 1));
        i = i + 1;
    }
    None
}

/// Takes over the value of a register. One without a value is an error.
pub fn register_read(data: Result<Vec<u64>, ()>, dst: &mut [u8]) -> (r: Result<(), ()>)
    ensures
        match data {
            Ok(data) if data@.len() > 0 => r is Ok && final(dst)@ == overlaid(
                old(dst)@,
                u32_le(low(data@[0])),
            ),
            _ => r is Err && final(dst)@ == old(dst)@,
        },
{
    let val: u32 = match data {
        Ok(data) => {
            if data.len() == 0 {
                return Err(());
            }
            (data[0] % 0x1_0000_0000) as u32
        },
        Err(_) => {
            return Err(());
        },
    };
    let mut bytes: Vec<u8> = Vec::new();
    push_u32_le(&mut bytes, val);
    assert(bytes@ =~= u32_le(val));
    overlay(dst, &bytes);
    Ok(())
}

/// `talk` is a conversation that leads a transfer from `first` to `last`, where the server
/// answers each read with the value that the resource has in `core`.
pub open spec fn reads_from(
    first: ReadNext,
    core: Map<u64, u64>,
    talk: Seq<(Vec<u64>, ReadNext)>,
    last: ReadNext,
) -> bool
    decreases talk.len(),
{
    if talk.len() == 0 {
        last == first
    } else {
        &&& first matches ReadNext::Read(read, wait) && talk[0].0@ == seq![core[read.id]]
            && wait.continues(Ok(talk[0].0), talk[0].1)
        &&& reads_from(talk[0].1, core, talk.drop_first(), last)
    }
}

/// `talk` is a conversation that leads a transfer from `first` to `last`, where the server
/// carries out each write, and the resources from `before` to `after`.
pub open spec fn writes_to(
    first: WriteNext,
    before: Map<u64, u64>,
    talk: Seq<WriteNext>,
    last: WriteNext,
    after: Map<u64, u64>,
) -> bool
    decreases talk.len(),
{
    if talk.len() == 0 {
        last == first && after == before
    } else {
        &&& first is Write
        &&& first->Write_1.continues(Ok(()), talk[0])
        &&& writes_to(
            talk[0],
            before.insert(first->Write_0.id, first->Write_0.val as u64),
            talk.drop_first(),
            last,
            after,
        )
    }
}

/// `regs` once those that are in `list` have been read.
pub open spec fn loaded(regs: Seq<u32>, list: Seq<Resource>, core: Map<u64, u64>) -> Seq<u32>
    decreases list.len(),
{
    if list.len() == 0 {
        regs
    } else {
        match regnum(list[0].name@) {
            None => loaded(regs, list.drop_first(), core),
            Some(num) => loaded(
                with_register(regs, num as int, low(core[list[0].id])),
                list.drop_first(),
                core,
            ),
        }
    }
}

/// The resources once `regs` have been written to those in `list`.
pub open spec fn put(core: Map<u64, u64>, list: Seq<Resource>, regs: Seq<u32>) -> Map<u64, u64>
    decreases list.len(),
{
    if list.len() == 0 {
        core
    } else {
        match regnum(list[0].name@) {
            Some(num) if !list[0].read_only => put(
                core.insert(list[0].id, regs[num as int] as u64),
                list.drop_first(),
                regs,
            ),
            _ => put(core, list.drop_first(), regs),
        }
    }
}

/// A transfer from the core reads each register of the list, and no more than that.
pub proof fn reading_loads_the_registers(
    inst: u32,
    regs: Seq<u32>,
    list: Seq<Resource>,
    core: Map<u64, u64>,
    first: ReadNext,
    talk: Seq<(Vec<u64>, ReadNext)>,
    last: ReadNext,
)
    requires
        first.goes_on(inst, regs, list),
        reads_from(first, core, talk, last),
    ensures
        talk.len() <= list.len(),
        last matches ReadNext::Done(r, all) ==> all is Ok && r.regs@ == loaded(regs, list, core),
    decreases list.len(),
{
    if list.len() > 0 {
        let rest = list.drop_first();
        match regnum(list[0].name@) {
            None => {
                reading_loads_the_registers(inst, regs, rest, core, first, talk, last);
            },
            Some(num) => {
                if talk.len() > 0 {
                    reading_loads_the_registers(
                        inst,
                        with_register(regs, num as int, low(core[list[0].id])),
                        rest,
                        core,
                        talk[0].1,
                        talk.drop_first(),
                        last,
                    );
                }
            },
        }
    }
}

/// A transfer to the core writes each register of the list that can be written, and no
/// more than that.
pub proof fn writing_puts_the_registers(
    inst: u32,
    regs: Seq<u32>,
    list: Seq<Resource>,
    core: Map<u64, u64>,
    first: WriteNext,
    talk: Seq<WriteNext>,
    last: WriteNext,
    after: Map<u64, u64>,
)
    requires
        first.goes_on(inst, regs, list),
        writes_to(first, core, talk, last, after),
    ensures
        talk.len() <= list.len(),
        last matches WriteNext::Done(all) ==> all is Ok && after == put(core, list, regs),
    decreases list.len(),
{
    if list.len() > 0 {
        let rest = list.drop_first();
        match regnum(list[0].name@) {
            Some(num) if !list[0].read_only => {
                if talk.len() > 0 {
                    writing_puts_the_registers(
                        inst,
                        regs,
                        rest,
                        core.insert(list[0].id, regs[num as int] as u64),
                        talk[0],
                        talk.drop_first(),
                        last,
                        after,
                    );
                }
            },
            _ => {
                writing_puts_the_registers(inst, regs, rest, core, first, talk, last, after);
            },
        }
    }
}

/// No two registers of the list share a number or a name.
pub open spec fn told_apart(list: Seq<Resource>) -> bool {
    forall|i: int, j: int|
        0 <= i < j < list.len() && regnum((#[trigger] list[i]).name@) is Some && regnum(
            (#[trigger] list[j]).name@,
        ) is Some ==> list[i].id != list[j].id && regnum(list[i].name@) != regnum(list[j].name@)
}

/// A resource that no register of the list has is not written.
proof fn lemma_put_other(core: Map<u64, u64>, list: Seq<Resource>, regs: Seq<u32>, id: u64)
    requires
        forall|i: int|
            0 <= i < list.len() && regnum((#[trigger] list[i]).name@) is Some ==> list[i].id != id,
    ensures
        put(core, list, regs)[id] == core[id],
        put(core, list, regs).contains_key(id) == core.contains_key(id),
    decreases list.len(),
{
    if list.len() > 0 {
        let rest = list.drop_first();
        assert forall|i: int|
            0 <= i < rest.len() && regnum((#[trigger] rest[i]).name@) is Some implies rest[i].id
            != id by {
            assert(rest[i] == list[i + 1]);
        }
        match regnum(list[0].name@) {
            Some(num) if !list[0].read_only => {
                assert(list[0].id != id);
                lemma_put_other(
                    core.insert(list[0].id, regs[num as int] as u64),
                    rest,
                    regs,
                    id,
                );
            },
            _ => {
                lemma_put_other(core, rest, regs, id);
            },
        }
    }
}

/// Each register that can be written has its value.
proof fn lemma_put(core: Map<u64, u64>, list: Seq<Resource>, regs: Seq<u32>, i: int)
    requires
        told_apart(list),
        0 <= i < list.len(),
        regnum(list[i].name@) is Some,
        !list[i].read_only,
    ensures
        put(core, list, regs)[list[i].id] == regs[regnum(list[i].name@)->Some_0 as int] as u64,
    decreases list.len(),
{
    let rest = list.drop_first();
    assert(told_apart(rest)) by {
        assert(forall|k: int| 0 <= k < rest.len() ==> #[trigger] rest[k] == list[k + 1]);
    }
    let now = match regnum(list[0].name@) {
        Some(num) if !list[0].read_only => core.insert(list[0].id, regs[num as int] as u64),
        _ => core,
    };
    if i == 0 {
        assert forall|k: int|
            0 <= k < rest.len() && regnum((#[trigger] rest[k]).name@) is Some implies rest[k].id
            != list[0].id by {
            assert(rest[k] == list[k + 1]);
        }
        lemma_put_other(now, rest, regs, list[0].id);
    } else {
        assert(rest[i - 1] == list[i]);
        lemma_put(now, rest, regs, i - 1);
    }
}

/// A register that no resource of the list is keeps its value.
proof fn lemma_loaded_other(regs: Seq<u32>, list: Seq<Resource>, core: Map<u64, u64>, num: usize)
    requires
        num < regs.len(),
        forall|i: int| 0 <= i < list.len() ==> regnum((#[trigger] list[i]).name@) != Some(num),
    ensures
        loaded(regs, list, core).len() == regs.len(),
        loaded(regs, list, core)[num as int] == regs[num as int],
    decreases list.len(),
{
    if list.len() > 0 {
        let rest = list.drop_first();
        assert forall|i: int| 0 <= i < rest.len() implies regnum((#[trigger] rest[i]).name@)
            != Some(num) by {
            assert(rest[i] == list[i + 1]);
        }
        match regnum(list[0].name@) {
            None => {
                lemma_loaded_other(regs, rest, core, num);
            },
            Some(n) => {
                assert(n != num);
                lemma_loaded_other(
                    with_register(regs, n as int, low(core[list[0].id])),
                    rest,
                    core,
                    num,
                );
            },
        }
    }
}

/// Each register of the list has the value of its resource.
proof fn lemma_loaded(regs: Seq<u32>, list: Seq<Resource>, core: Map<u64, u64>, i: int)
    requires
        regs.len() == 26,
        told_apart(list),
        0 <= i < list.len(),
        regnum(list[i].name@) is Some,
    ensures
        loaded(regs, list, core)[regnum(list[i].name@)->Some_0 as int] == low(core[list[i].id]),
    decreases list.len(),
{
    let rest = list.drop_first();
    assert(told_apart(rest)) by {
        assert(forall|k: int| 0 <= k < rest.len() ==> #[trigger] rest[k] == list[k + 1]);
    }
    let now = match regnum(list[0].name@) {
        None => regs,
        Some(num) => with_register(regs, num as int, low(core[list[0].id])),
    };
    if i == 0 {
        let num = regnum(list[0].name@)->Some_0;
        assert forall|k: int| 0 <= k < rest.len() implies regnum((#[trigger] rest[k]).name@)
            != Some(num) by {
            assert(rest[k] == list[k + 1]);
        }
        lemma_loaded_other(now, rest, core, num);
    } else {
        assert(rest[i - 1] == list[i]);
        lemma_loaded(now, rest, core, i - 1);
    }
}

/// Registers that were written are read back: each one that can be written has the value
/// that was written, each one that cannot has the value that it had before, and a place
/// in the block that is no register of the core stays as it is.
pub proof fn registers_read_back(
    core: Map<u64, u64>,
    list: Seq<Resource>,
    regs: Seq<u32>,
    before: Seq<u32>,
    num: usize,
)
    requires
        told_apart(list),
        before.len() == 26,
        num < 26,
    ensures
        ({
            let after = loaded(before, list, put(core, list, regs));
            &&& forall|i: int|
                0 <= i < list.len() && regnum((#[trigger] list[i]).name@) == Some(num)
                    ==> after[num as int] == (if list[i].read_only {
                    low(core[list[i].id])
                } else {
                    regs[num as int]
                })
            &&& (forall|i: int|
                0 <= i < list.len() ==> regnum((#[trigger] list[i]).name@) != Some(num))
                ==> after[num as int] == before[num as int]
        }),
{
    let now = put(core, list, regs);
    assert forall|i: int|
        0 <= i < list.len() && regnum((#[trigger] list[i]).name@) == Some(num) implies loaded(
        before,
        list,
        now,
    )[num as int] == (if list[i].read_only {
        low(core[list[i].id])
    } else {
        regs[num as int]
    }) by {
        lemma_loaded(before, list, now, i);
        if list[i].read_only {
            lemma_put_read_only(core, list, regs, i);
        } else {
            lemma_put(core, list, regs, i);
        }
    }
    if forall|i: int| 0 <= i < list.len() ==> regnum((#[trigger] list[i]).name@) != Some(num) {
        lemma_loaded_other(before, list, now, num);
    }
}

/// A register that is read-only keeps its value.
proof fn lemma_put_read_only(core: Map<u64, u64>, list: Seq<Resource>, regs: Seq<u32>, i: int)
    requires
        told_apart(list),
        0 <= i < list.len(),
        regnum(list[i].name@) is Some,
        list[i].read_only,
    ensures
        put(core, list, regs)[list[i].id] == core[list[i].id],
    decreases list.len(),
{
    let rest = list.drop_first();
    assert(told_apart(rest)) by {
        assert(forall|k: int| 0 <= k < rest.len() ==> #[trigger] rest[k] == list[k + 1]);
    }
    if i == 0 {
        assert forall|k: int|
            0 <= k < rest.len() && regnum((#[trigger] rest[k]).name@) is Some implies rest[k].id
            != list[0].id by {
            assert(rest[k] == list[k + 1]);
        }
        lemma_put_other(core, rest, regs, list[0].id);
    } else {
        assert(rest[i - 1] == list[i]);
        let now = match regnum(list[0].name@) {
            Some(num) if !list[0].read_only => core.insert(list[0].id, regs[num as int] as u64),
            _ => core,
        };
        if regnum(list[0].name@) is Some {
            assert(list[0].id != list[i].id);
        }
        lemma_put_read_only(now, rest, regs, i - 1);
    }
}

} // verus!
