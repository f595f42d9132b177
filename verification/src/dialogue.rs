//! Conversations with the target's memory.
//!
//! An operation that alternates memory accesses and decisions is a value that
//! stands for where it has got to. It asks for one access at a time, and goes on
//! when it is handed the reply. Whoever owns the connection runs the loop.
//!
//! The second half of this module models the other side: a target memory, and a
//! server that answers from it.

use crate::memory::{Reply, Request};
use crate::model::carried;
use vstd::prelude::*;

verus! {

/// What an operation wants next.
#[derive(Debug)]
pub enum Next<S, T> {
    /// Send the request, then resume the operation with the reply.
    Ask(Request, S),
    /// The operation is over.
    Done(T),
}

/// An operation that waits for the reply to a memory access.
pub trait Dialogue: Sized {
    /// What the operation results in.
    type Out;

    /// Handed `reply`, the operation goes on with `next`.
    spec fn continues(self, reply: Reply, next: Next<Self, Self::Out>) -> bool;

    /// Goes on with the reply to the access that was asked for.
    fn resume(self, reply: Reply) -> (next: Next<Self, Self::Out>)
        ensures
            self.continues(reply, next),
    ;
}

/// All of `[addr, addr + n)` is mapped.
pub open spec fn mapped(mem: Map<int, u8>, addr: int, n: int) -> bool {
    forall|a: int| addr <= a < addr + n ==> #[trigger] mem.contains_key(a)
}

/// The contents of `[addr, addr + n)`.
pub open spec fn contents(mem: Map<int, u8>, addr: int, n: nat) -> Seq<u8> {
    Seq::new(n, |k: int| mem[addr + k])
}

/// The memory once `bytes` have been written at `addr`.
pub open spec fn stored(mem: Map<int, u8>, addr: int, bytes: Seq<u8>) -> Map<int, u8> {
    Map::new(
        |a: int| mem.contains_key(a) || addr <= a < addr + bytes.len(),
        |a: int|
            if addr <= a < addr + bytes.len() {
                bytes[a - addr]
            } else {
                mem[a]
            },
    )
}

/// The bytes that a server finds in `words`, which carry `n` of them.
pub open spec fn unpacked(words: Seq<u64>, n: nat) -> Seq<u8> {
    Seq::new(n, |k: int| carried(words, k) as u8)
}

/// `reply` is what a server with the memory `mem` answers to `request`. The memory is the
/// one of space zero. An access to another space, or one that touches an unmapped address,
/// fails as a whole; any other goes through.
pub open spec fn served(mem: Map<int, u8>, request: Request, reply: Reply) -> bool {
    match request {
        Request::Read { space, addr, width, count, .. } => if space == 0 && mapped(
            mem,
            addr as int,
            width * count,
        ) {
            &&& reply is Words
            &&& 8 * reply->Words_0@.len() >= width * count
            &&& unpacked(reply->Words_0@, (width * count) as nat) == contents(
                mem,
                addr as int,
                (width * count) as nat,
            )
        } else {
            reply is Failed
        },
        Request::Write { space, addr, width, count, .. } => if space == 0 && mapped(
            mem,
            addr as int,
            width * count,
        ) {
            reply is Words
        } else {
            reply is Failed
        },
    }
}

/// The memory once the server has carried out `request`.
pub open spec fn effect(mem: Map<int, u8>, request: Request) -> Map<int, u8> {
    match request {
        Request::Write { space, addr, width, count, data, .. } if space == 0 && mapped(
            mem,
            addr as int,
            width * count,
        ) => stored(mem, addr as int, unpacked(data@, (width * count) as nat)),
        _ => mem,
    }
}

/// `talk` is a conversation that leads an operation from `first` to `last`, and the
/// memory that answers it from `before` to `after`. Each exchange is the reply to
/// what was asked and what the operation went on with.
pub open spec fn converses<M: Dialogue>(
    first: Next<M, M::Out>,
    before: Map<int, u8>,
    talk: Seq<(Reply, Next<M, M::Out>)>,
    last: Next<M, M::Out>,
    after: Map<int, u8>,
) -> bool
    decreases talk.len(),
{
    if talk.len() == 0 {
        &&& last == first
        &&& after == before
    } else {
        &&& first is Ask
        &&& served(before, first->Ask_0, talk[0].0)
        &&& first->Ask_1.continues(talk[0].0, talk[0].1)
        &&& converses(
            talk[0].1,
            effect(before, first->Ask_0),
            talk.drop_first(),
            last,
            after,
        )
    }
}

/// The same, told by what the operation does when it is resumed.
pub open spec fn talks<M: Dialogue>(
    first: Next<M, M::Out>,
    before: Map<int, u8>,
    talk: Seq<(Reply, Next<M, M::Out>)>,
    last: Next<M, M::Out>,
    after: Map<int, u8>,
) -> bool
    decreases talk.len(),
{
    if talk.len() == 0 {
        &&& last == first
        &&& after == before
    } else {
        &&& first is Ask
        &&& served(before, first->Ask_0, talk[0].0)
        &&& call_ensures(M::resume, (first->Ask_1, talk[0].0), talk[0].1)
        &&& talks(
            talk[0].1,
            effect(before, first->Ask_0),
            talk.drop_first(),
            last,
            after,
        )
    }
}

/// An operation that is resumed continues.
pub proof fn lemma_talks<M: Dialogue>(
    first: Next<M, M::Out>,
    before: Map<int, u8>,
    talk: Seq<(Reply, Next<M, M::Out>)>,
    last: Next<M, M::Out>,
    after: Map<int, u8>,
)
    requires
        talks(first, before, talk, last, after),
    ensures
        converses(first, before, talk, last, after),
    decreases talk.len(),
{
    if talk.len() > 0 {
        lemma_talks(
            talk[0].1,
            effect(before, first->Ask_0),
            talk.drop_first(),
            last,
            after,
        );
    }
}

} // verus!
