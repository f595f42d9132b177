//! Registers moved between gdb and the core.

use crate::laws::registers::{is_name, lemma_regnum, number_at};
use crate::memory::{le_u32, overlaid, u32_le, u32_round_trips};
use crate::model::{byte_of, lemma_weights, number_of};
use crate::registers::{regnum, GuestState, Register};
use crate::stub::IrisGdbStub;
use crate::transfer::{
    first_named, low, register_read, with_data, ReadNext, ReadResource, ReadWait, Resource,
    WriteNext, WriteResource, WriteWait,
};
use vstd::prelude::*;

verus! {

/// The core as its resources: `core[id]` is what the server gives for resource `id`.
/// `talk` leads a transfer from `first` to `last` while the server answers from it.
pub open spec fn reads_on(
    first: ReadNext,
    core: Map<u64, Seq<u64>>,
    talk: Seq<(Vec<u64>, ReadNext)>,
    last: ReadNext,
) -> bool
    decreases talk.len(),
{
    if talk.len() == 0 {
        last == first
    } else {
        &&& first is Read
        &&& talk[0].0@ == core[first->Read_0.id]
        &&& call_ensures(ReadWait::resume, (first->Read_1, Ok(talk[0].0)), talk[0].1)
        &&& reads_on(talk[0].1, core, talk.drop_first(), last)
    }
}

/// Resource number `j` of the list is register number `num`, and has a value.
pub open spec fn gives(
    list: Seq<Resource>,
    core: Map<u64, Seq<u64>>,
    j: int,
    num: int,
) -> bool {
    &&& 0 <= j < list.len()
    &&& is_name(list[j].name@, num)
    &&& core[list[j].id].len() > 0
}

/// The last of the list that gives register `num` a value is number `j`.
pub open spec fn gives_last(
    list: Seq<Resource>,
    core: Map<u64, Seq<u64>>,
    j: int,
    num: int,
) -> bool {
    &&& gives(list, core, j, num)
    &&& forall|k: int| j < k < list.len() ==> !#[trigger] gives(list, core, k, num)
}

/// The registers `regs`, once those of the list have been read, are `now`.
spec fn is_loaded(
    list: Seq<Resource>,
    core: Map<u64, Seq<u64>>,
    regs: Seq<u32>,
    now: Seq<u32>,
    num: int,
) -> bool {
    &&& forall|j: int| #[trigger]
        gives_last(list, core, j, num) ==> now[num] == core[list[j].id][0] % 0x1_0000_0000
    &&& (forall|j: int| !#[trigger] gives(list, core, j, num)) ==> now[num] == regs[num]
}

/// One more resource at the front.
proof fn lemma_front(
    list: Seq<Resource>,
    core: Map<u64, Seq<u64>>,
    regs: Seq<u32>,
    between: Seq<u32>,
    now: Seq<u32>,
    num: int,
)
    requires
        list.len() > 0,
        is_loaded(list.drop_first(), core, between, now, num),
        gives(list, core, 0, num) ==> between[num] == core[list[0].id][0] % 0x1_0000_0000,
        !gives(list, core, 0, num) ==> between[num] == regs[num],
    ensures
        is_loaded(list, core, regs, now, num),
{
    let rest = list.drop_first();
    assert forall|k: int| 0 <= k implies (#[trigger] gives(rest, core, k, num) <==> gives(
        list,
        core,
        k + 1,
        num,
    )) by {
        if k < rest.len() {
            assert(rest[k] == list[k + 1]);
        }
    }
    assert forall|j: int| #[trigger] gives_last(list, core, j, num) implies now[num]
        == core[list[j].id][0] % 0x1_0000_0000 by {
        if j > 0 {
            assert(rest[j - 1] == list[j]);
            assert(gives(rest, core, j - 1, num));
            assert forall|k: int| j - 1 < k < rest.len() implies !#[trigger] gives(
                rest,
                core,
                k,
                num,
            ) by {
                assert(!gives(list, core, k + 1, num));
            }
            assert(gives_last(rest, core, j - 1, num));
        } else {
            assert forall|k: int| !#[trigger] gives(rest, core, k, num) by {
                if 0 <= k < rest.len() {
                    assert(!gives(list, core, k + 1, num));
                }
            }
        }
    }
    if forall|j: int| !#[trigger] gives(list, core, j, num) {
        assert forall|k: int| !#[trigger] gives(rest, core, k, num) by {
            if 0 <= k < rest.len() {
                assert(!gives(list, core, k + 1, num));
            }
        }
        assert(!gives(list, core, 0, num));
    }
}

/// From `first` on, with the resources of `list` to come.
proof fn lemma_reads(
    inst: u32,
    regs: Seq<u32>,
    list: Seq<Resource>,
    core: Map<u64, Seq<u64>>,
    first: ReadNext,
    talk: Seq<(Vec<u64>, ReadNext)>,
    last: ReadNext,
    num: int,
)
    requires
        regs.len() == 26,
        0 <= num < 26,
        first.goes_on(inst, regs, list),
        reads_on(first, core, talk, last),
    ensures
        talk.len() <= list.len(),
        match last {
            ReadNext::Read(read, wait) => {
                &&& read.inst == inst
                &&& exists|j: int, n: int|
                    0 <= j < list.len() && #[trigger] is_name(list[j].name@, n) && list[j].id
                        == read.id
            },
            ReadNext::Done(r, all) => all is Ok && is_loaded(list, core, regs, r.regs@, num),
        },
    decreases list.len(),
{
    if list.len() == 0 {
        assert(forall|j: int| !#[trigger] gives(list, core, j, num));
    } else {
        let rest = list.drop_first();
        let name = list[0].name@;
        match regnum(name) {
            None => {
                lemma_regnum(name, num);
                lemma_reads(inst, regs, rest, core, first, talk, last, num);
                if last is Done {
                    lemma_front(list, core, regs, regs, last->Done_0.regs@, num);
                }
            },
            Some(n) => {
                lemma_regnum(name, num);
                lemma_regnum(name, n as int);
                if talk.len() > 0 {
                    let data = talk[0].0@;
                    let now = with_data(regs, n as int, data);
                    assert(first->Read_1.continues(Ok(talk[0].0), talk[0].1));
                    lemma_reads(
                        inst,
                        now,
                        rest,
                        core,
                        talk[0].1,
                        talk.drop_first(),
                        last,
                        num,
                    );
                    if last is Done {
                        lemma_front(list, core, regs, now, last->Done_0.regs@, num);
                    }
                } else {
                    assert(is_name(list[0].name@, n as int));
                }
            },
        }
        if let ReadNext::Read(read, wait) = last {
            if exists|j: int, m: int|
                0 <= j < rest.len() && #[trigger] is_name(rest[j].name@, m) && rest[j].id
                    == read.id {
                let (j, m) = choose|j: int, m: int|
                    0 <= j < rest.len() && #[trigger] is_name(rest[j].name@, m) && rest[j].id
                        == read.id;
                assert(is_name(list[j + 1].name@, m));
            }
        }
    }
}

/// A transfer from the core reads resources that are registers, of the CPU, and gives each
/// register the low half of the value that its resource has; where several are the same
/// register, that of the last one. A register that none of them gives a value keeps its
/// own.
pub proof fn reading_gives_each_register_its_value(
    stub: &IrisGdbStub,
    regs: GuestState,
    list: Vec<Resource>,
    core: Map<u64, Seq<u64>>,
    first: ReadNext,
    talk: Seq<(Vec<u64>, ReadNext)>,
    last: ReadNext,
    num: int,
    j: int,
)
    requires
        0 <= num < 26,
        call_ensures(IrisGdbStub::read_registers, (stub, regs, Ok(list)), first),
        reads_on(first, core, talk, last),
    ensures
        talk.len() <= list@.len(),
        match last {
            ReadNext::Read(read, wait) => {
                &&& read.inst == stub.instance_id
                &&& exists|i: int, n: int|
                    0 <= i < list@.len() && #[trigger] is_name(list@[i].name@, n) && list@[i].id
                        == read.id
            },
            ReadNext::Done(now, all) => {
                &&& all is Ok
                &&& gives_last(list@, core, j, num) ==> now.regs@[num] == core[list@[j].id][0]
                    % 0x1_0000_0000
                &&& (forall|i: int| !#[trigger] gives(list@, core, i, num)) ==> now.regs@[num]
                    == regs.regs@[num]
            },
        },
{
    lemma_reads(stub.instance_id, regs.regs@, list@, core, first, talk, last, num);
}

/// Where the resources cannot be listed, or one of them cannot be read, a transfer from
/// the core ends with an error, and keeps what it has.
pub proof fn reading_ends_with_an_error(
    stub: &IrisGdbStub,
    regs: GuestState,
    unlisted: ReadNext,
    wait: ReadWait,
    unread: ReadNext,
)
    requires
        call_ensures(IrisGdbStub::read_registers, (stub, regs, Err(())), unlisted),
        call_ensures(ReadWait::resume, (wait, Err(())), unread),
    ensures
        unlisted matches ReadNext::Done(now, all) && now.regs@ == regs.regs@ && all is Err,
        unread matches ReadNext::Done(now, all) && now.regs@ == wait.regs.regs@ && all is Err,
{
}

/// `talk` leads a transfer to the core from `first` to `last`, while the server carries
/// out each write, and the resources from `before` to `after`.
pub open spec fn writes_on(
    first: WriteNext,
    before: Map<u64, u64>,
    talk: Seq<WriteNext>,
    last: WriteNext,
    after: Map<u64, u64>,
) -> bool
    decreases talk.len(),
{
    if talk.len() == 0 {
        last == first && after == before
    } else {
        &&& first is Write
        &&& call_ensures(WriteWait::resume, (first->Write_1, Ok(())), talk[0])
        &&& writes_on(
            talk[0],
            before.insert(first->Write_0.id, first->Write_0.val as u64),
            talk.drop_first(),
            last,
            after,
        )
    }
}

/// Resource number `j` of the list is register number `num`, and can be written.
pub open spec fn takes(list: Seq<Resource>, j: int, num: int) -> bool {
    &&& 0 <= j < list.len()
    &&& is_name(list[j].name@, num)
    &&& !list[j].read_only
}

/// Some resource of the list, from number `from` on, has the number `id` and can be
/// written.
pub open spec fn is_taken(list: Seq<Resource>, from: int, id: u64) -> bool {
    exists|j: int, num: int| from <= j && #[trigger] takes(list, j, num) && list[j].id == id
}

/// The resources `core`, once the registers have been written, are `now`.
spec fn is_put(
    list: Seq<Resource>,
    regs: Seq<u32>,
    core: Map<u64, u64>,
    now: Map<u64, u64>,
    id: u64,
) -> bool {
    &&& forall|j: int, num: int| #[trigger]
        takes(list, j, num) && list[j].id == id && !is_taken(list, j + 1, id) ==> now[id]
            == regs[num]
    &&& !is_taken(list, 0, id) ==> now[id] == core[id] && now.contains_key(id)
        == core.contains_key(id)
}

/// Taking out the first resource.
proof fn lemma_taken(list: Seq<Resource>, from: int, id: u64)
    requires
        list.len() > 0,
        from >= 0,
    ensures
        is_taken(list.drop_first(), from, id) <==> is_taken(list, from + 1, id),
{
    let rest = list.drop_first();
    if is_taken(rest, from, id) {
        let (j, num) = choose|j: int, num: int|
            from <= j && #[trigger] takes(rest, j, num) && rest[j].id == id;
        assert(rest[j] == list[j + 1]);
        assert(takes(list, j + 1, num));
    }
    if is_taken(list, from + 1, id) {
        let (j, num) = choose|j: int, num: int|
            from + 1 <= j && #[trigger] takes(list, j, num) && list[j].id == id;
        assert(rest[j - 1] == list[j]);
        assert(takes(rest, j - 1, num));
    }
}

/// A name is that of one register.
proof fn lemma_one(name: Seq<char>, a: int, b: int)
    requires
        is_name(name, a),
        is_name(name, b),
    ensures
        a == b,
{
    lemma_regnum(name, a);
    lemma_regnum(name, b);
}

/// One more resource at the front.
proof fn lemma_front_put(
    list: Seq<Resource>,
    regs: Seq<u32>,
    core: Map<u64, u64>,
    between: Map<u64, u64>,
    now: Map<u64, u64>,
    id: u64,
    n: int,
)
    requires
        list.len() > 0,
        is_put(list.drop_first(), regs, between, now, id),
        takes(list, 0, n) && list[0].id == id ==> between[id] == regs[n],
        !(takes(list, 0, n) && list[0].id == id) ==> between[id] == core[id]
            && between.contains_key(id) == core.contains_key(id),
        forall|m: int| #[trigger] takes(list, 0, m) ==> m == n,
    ensures
        is_put(list, regs, core, now, id),
{
    let rest = list.drop_first();
    assert forall|j: int, num: int| #[trigger]
        takes(list, j, num) && list[j].id == id && !is_taken(list, j + 1, id) implies now[id]
        == regs[num] by {
        if j > 0 {
            assert(rest[j - 1] == list[j]);
            lemma_taken(list, j, id);
            assert(takes(rest, j - 1, num));
            assert(!is_taken(rest, j - 1 + 1, id));
        } else {
            lemma_taken(list, 0, id);
        }
    }
    if !is_taken(list, 0, id) {
        assert(!is_taken(list, 1, id)) by {
            if is_taken(list, 1, id) {
                let (j, num) = choose|j: int, num: int|
                    1 <= j && #[trigger] takes(list, j, num) && list[j].id == id;
                assert(takes(list, j, num));
            }
        }
        lemma_taken(list, 0, id);
        if takes(list, 0, n) && list[0].id == id {
            assert(is_taken(list, 0, id));
        }
    }
}

/// From `first` on, with the resources of `list` to come.
proof fn lemma_writes(
    inst: u32,
    regs: Seq<u32>,
    list: Seq<Resource>,
    core: Map<u64, u64>,
    first: WriteNext,
    talk: Seq<WriteNext>,
    last: WriteNext,
    after: Map<u64, u64>,
    id: u64,
)
    requires
        first.goes_on(inst, regs, list),
        writes_on(first, core, talk, last, after),
    ensures
        talk.len() <= list.len(),
        match last {
            WriteNext::Write(write, wait) => {
                &&& write.inst == inst
                &&& exists|j: int, n: int| #[trigger]
                    takes(list, j, n) && list[j].id == write.id && write.val == regs[n]
            },
            WriteNext::Done(all) => all is Ok && is_put(list, regs, core, after, id),
        },
    decreases list.len(),
{
    if list.len() == 0 {
        assert(!is_taken(list, 0, id));
    } else {
        let rest = list.drop_first();
        let name = list[0].name@;
        match regnum(name) {
            Some(n) if !list[0].read_only => {
                lemma_regnum(name, n as int);
                assert(takes(list, 0, n as int));
                if talk.len() > 0 {
                    let now = core.insert(list[0].id, regs[n as int] as u64);
                    assert(first->Write_1.continues(Ok(()), talk[0]));
                    lemma_writes(
                        inst,
                        regs,
                        rest,
                        now,
                        talk[0],
                        talk.drop_first(),
                        last,
                        after,
                        id,
                    );
                    if last is Done {
                        assert forall|m: int| #[trigger] takes(list, 0, m) implies m == n by {
                            lemma_one(name, m, n as int);
                        }
                        lemma_front_put(list, regs, core, now, after, id, n as int);
                    }
                }
            },
            _ => {
                lemma_writes(inst, regs, rest, core, first, talk, last, after, id);
                if last is Done {
                    assert forall|m: int| !#[trigger] takes(list, 0, m) by {
                        lemma_regnum(name, m);
                    }
                    lemma_front_put(list, regs, core, core, after, id, 0);
                }
            },
        }
        if let WriteNext::Write(write, wait) = last {
            if exists|j: int, m: int| #[trigger]
                takes(rest, j, m) && rest[j].id == write.id && write.val == regs[m] {
                let (j, m) = choose|j: int, m: int| #[trigger]
                    takes(rest, j, m) && rest[j].id == write.id && write.val == regs[m];
                assert(rest[j] == list[j + 1]);
                assert(takes(list, j + 1, m));
            }
        }
    }
}

/// A transfer to the core writes to each resource that is a register and can be written,
/// of the CPU, the value of that register, and to no other resource anything.
pub proof fn writing_gives_each_resource_its_register(
    stub: &IrisGdbStub,
    regs: GuestState,
    list: Vec<Resource>,
    core: Map<u64, u64>,
    first: WriteNext,
    talk: Seq<WriteNext>,
    last: WriteNext,
    after: Map<u64, u64>,
    id: u64,
    j: int,
    num: int,
)
    requires
        call_ensures(IrisGdbStub::write_registers, (stub, regs, Ok(list)), first),
        writes_on(first, core, talk, last, after),
    ensures
        talk.len() <= list@.len(),
        match last {
            WriteNext::Write(write, wait) => {
                &&& write.inst == stub.instance_id
                &&& exists|i: int, n: int| #[trigger]
                    takes(list@, i, n) && list@[i].id == write.id && write.val == regs.regs@[n]
            },
            WriteNext::Done(all) => {
                &&& all is Ok
                &&& takes(list@, j, num) && list@[j].id == id && !is_taken(list@, j + 1, id)
                    ==> after[id] == regs.regs@[num]
                &&& !is_taken(list@, 0, id) ==> after[id] == core[id] && after.contains_key(id)
                    == core.contains_key(id)
            },
        },
{
    lemma_writes(stub.instance_id, regs.regs@, list@, core, first, talk, last, after, id);
}

/// Where the resources cannot be listed, or one of them cannot be written, a transfer to
/// the core ends with an error.
pub proof fn writing_ends_with_an_error(
    stub: &IrisGdbStub,
    regs: GuestState,
    unlisted: WriteNext,
    wait: WriteWait,
    unwritten: WriteNext,
)
    requires
        call_ensures(IrisGdbStub::write_registers, (stub, regs, Err(())), unlisted),
        call_ensures(WriteWait::resume, (wait, Err(())), unwritten),
    ensures
        unlisted matches WriteNext::Done(all) && all is Err,
        unwritten matches WriteNext::Done(all) && all is Err,
{
}

/// The first of the list that is register number `num` is number `j`.
pub open spec fn is_first(list: Seq<Resource>, num: int, j: int) -> bool {
    &&& 0 <= j < list.len()
    &&& is_name(list[j].name@, num)
    &&& forall|k: int| 0 <= k < j ==> !is_name(#[trigger] list[k].name@, num)
}

/// The first of a list.
proof fn lemma_first_named(list: Seq<Resource>, num: usize)
    ensures
        match first_named(list, num) {
            Some(resource) => exists|j: int| #[trigger]
                is_first(list, num as int, j) && list[j] == resource,
            None => forall|j: int|
                0 <= j < list.len() ==> !is_name(#[trigger] list[j].name@, num as int),
        },
    decreases list.len(),
{
    if list.len() > 0 {
        let rest = list.drop_first();
        lemma_regnum(list[0].name@, num as int);
        if regnum(list[0].name@) == Some(num) {
            assert(is_first(list, num as int, 0));
        } else {
            lemma_first_named(rest, num);
            if let Some(resource) = first_named(rest, num) {
                let j = choose|j: int| #[trigger]
                    is_first(rest, num as int, j) && rest[j] == resource;
                assert forall|k: int| 0 <= k < j + 1 implies !is_name(
                    #[trigger] list[k].name@,
                    num as int,
                ) by {
                    if k > 0 {
                        assert(rest[k - 1] == list[k]);
                        assert(!is_name(rest[k - 1].name@, num as int));
                    }
                }
                assert(list[j + 1] == rest[j]);
                assert(is_first(list, num as int, j + 1));
            } else {
                assert forall|j: int| 0 <= j < list.len() implies !is_name(
                    #[trigger] list[j].name@,
                    num as int,
                ) by {
                    if j > 0 {
                        assert(rest[j - 1] == list[j]);
                        assert(!is_name(rest[j - 1].name@, num as int));
                    }
                }
            }
        }
    }
}

/// A single register is read from and written to the first resource that is that register,
/// of the CPU. It is written with the number that the first four bytes make. One that is
/// read-only, or for which there are too few bytes, is not written, and one that the core
/// does not have is neither read nor written.
pub proof fn a_register_is_accessed_by_itself(
    stub: &IrisGdbStub,
    list: Vec<Resource>,
    reg: &Register,
    index: usize,
    val: &[u8],
    read: Option<ReadResource>,
    write: Option<WriteResource>,
    j: int,
)
    requires
        call_ensures(Register::block_index, (reg,), index),
        call_ensures(IrisGdbStub::read_register, (stub, &list, reg), read),
        call_ensures(IrisGdbStub::write_register, (stub, &list, reg, val), write),
    ensures
        is_first(list@, index as int, j) ==> {
            &&& read is Some
            &&& read->Some_0.inst == stub.instance_id
            &&& read->Some_0.id == list@[j].id
            &&& write is Some <==> !list@[j].read_only && val@.len() >= 4
            &&& write is Some ==> {
                &&& write->Some_0.inst == stub.instance_id
                &&& write->Some_0.id == list@[j].id
                &&& write->Some_0.val == number_at(val@, 0)
            }
        },
        (forall|k: int| 0 <= k < list@.len() ==> !is_name(#[trigger] list@[k].name@, index as int))
            ==> read is None && write is None,
{
    lemma_first_named(list@, index);
    if is_first(list@, index as int, j) {
        assert(is_name(list@[j].name@, index as int));
        let resource = first_named(list@, index)->Some_0;
        let i = choose|i: int| #[trigger]
            is_first(list@, index as int, i) && list@[i] == resource;
        if i < j {
            assert(!is_name(list@[i].name@, index as int));
        }
        if j < i {
            assert(!is_name(list@[j].name@, index as int));
        }
    }
}

/// gdb is given the low half of a register's value, least significant byte first, as far as
/// it has room. A register without a value is an error, and changes nothing.
pub proof fn a_register_is_given_to_gdb(
    data: Result<Vec<u64>, ()>,
    dst: &mut [u8],
    r: Result<(), ()>,
)
    requires
        call_ensures(register_read, (data, dst), r),
    ensures
        final(dst)@.len() == old(dst)@.len(),
        r is Ok <==> data is Ok && data->Ok_0@.len() > 0,
        r is Err ==> final(dst)@ == old(dst)@,
        r is Ok ==> forall|k: int|
            4 <= k < final(dst)@.len() ==> #[trigger] final(dst)@[k] == old(dst)@[k],
        r is Ok ==> forall|k: int|
            0 <= k < 4 && k < final(dst)@.len() ==> #[trigger] final(dst)@[k] as int == byte_of(
                data->Ok_0@[0],
                k,
            ),
        r is Ok && final(dst)@.len() >= 4 ==> number_at(final(dst)@, 0) == data->Ok_0@[0]
            % 0x1_0000_0000,
{
    if r is Ok {
        let word = data->Ok_0@[0];
        let val = low(word);
        let w = u32_le(val);
        u32_round_trips(val);
        assert(final(dst)@ == overlaid(old(dst)@, w));
        lemma_weights();
        lemma_low_bytes(word);
        let d = final(dst)@;
        assert forall|k: int| 0 <= k < 4 && k < d.len() implies #[trigger] d[k] as int == byte_of(
            word,
            k,
        ) by {
            assert(d[k] == w[k]);
        }
        if d.len() >= 4 {
            assert(d[0] == w[0] && d[1] == w[1] && d[2] == w[2] && d[3] == w[3]);
            let n = number_of(w[0], w[1], w[2], w[3]);
            assert(0 <= n <= u32::MAX);
            assert(le_u32(w) == n);
        }
    }
}

/// The four low bytes of a word are those of its low half.
proof fn lemma_low_bytes(word: u64)
    by (bit_vector)
    ensures
        (word % 0x1_0000_0000) % 0x100 == word % 0x100,
        (word % 0x1_0000_0000) / 0x100 % 0x100 == word / 0x100 % 0x100,
        (word % 0x1_0000_0000) / 0x1_0000 % 0x100 == word / 0x1_0000 % 0x100,
        (word % 0x1_0000_0000) / 0x100_0000 == word / 0x100_0000 % 0x100,
{
}

} // verus!
