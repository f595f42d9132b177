//! What the target has to say: the up channels that are served, drained one after the
//! other.

use crate::dialogue::{converses, effect, mapped, stored, Dialogue, Next};
use crate::error::RttError;
use crate::memory::{u32_le, Reply};
use crate::ring::{
    described, descriptor, field, in_descriptor, in_field, lemma_descriptors, lemma_same_ring,
    lemma_same_waiting, ring_in, same_buffer, Ring, BUF_RDOFF,
};
use crate::rtt::{views, Server, ServerView};
use crate::up::{
    drain_takes_what_waits, drain_up_channel, drained, lemma_readable, DrainNext, DrainUp,
};
use vstd::prelude::*;

verus! {

/// The bytes that a channel had to say. There is at least one.
#[derive(Debug)]
pub struct Output {
    pub channel: u32,
    pub bytes: Vec<u8>,
}

/// The numbers ascend, so none occurs twice.
pub open spec fn ascending(channels: Seq<u32>) -> bool {
    forall|i: int, j: int| 0 <= i < j < channels.len() ==> channels[i] < channels[j]
}

/// Some server serves the channel.
pub open spec fn is_served(servers: Seq<ServerView>, channel: u32) -> bool {
    exists|i: int| 0 <= i < servers.len() && (#[trigger] servers[i]).channel == channel
}

/// `channels` are the served ones, each listed once, in ascending order.
pub open spec fn lists_served(channels: Seq<u32>, servers: Seq<ServerView>) -> bool {
    &&& ascending(channels)
    &&& forall|ch: u32| channels.contains(ch) <==> #[trigger] is_served(servers, ch)
}

/// The served channels, each listed once, in ascending order.
pub fn served_channels(servers: &Vec<Server>) -> (channels: Vec<u32>)
    ensures
        lists_served(channels@, views(servers@)),
{
    let mut channels: Vec<u32> = Vec::new();
    let mut i: usize = 0;
    while i < servers.len()
        invariant
            i <= servers@.len(),
            lists_served(channels@, views(servers@).take(i as int)),
        decreases servers@.len() - i,
    {
        let ghost before = channels@;
        let channel: u32 = servers[i].channel;
        let mut at: usize = 0;
        while at < channels.len() && channels[at] < channel
            invariant
                at <= channels@.len(),
                forall|j: int| 0 <= j < at ==> channels@[j] < channel,
            decreases channels@.len() - at,
        {
            at = at + 1;
        }
        if at == channels.len() || channels[at] != channel {
            channels.insert(at, channel);
            assert(channels@ =~= before.insert(at as int, channel));
            assert forall|ch: u32| channels@.contains(ch) <==> before.contains(ch) || ch
                == channel by {
                if before.contains(ch) {
                    let k = choose|k: int| 0 <= k < before.len() && before[k] == ch;
                    if k < at {
                        assert(channels@[k] == ch);
                    } else {
                        assert(channels@[k + 1] == ch);
                    }
                }
                if ch == channel {
                    assert(channels@[at as int] == ch);
                }
                if channels@.contains(ch) {
                    let k = choose|k: int| 0 <= k < channels@.len() && channels@[k] == ch;
                    if k < at {
                        assert(before[k] == ch);
                    } else if k > at {
                        assert(before[k - 1] == ch);
                    }
                }
            }
        } else {
            assert(channels@[at as int] == channel);
        }
        proof {
            let now = views(servers@).take(i + 1);
            let then = views(servers@).take(i as int);
            assert(now[i as int] == servers@[i as int]@);
            assert forall|ch: u32| channels@.contains(ch) <==> #[trigger] is_served(now, ch) by {
                if is_served(then, ch) {
                    let k = choose|k: int|
                        0 <= k < then.len() && (#[trigger] then[k]).channel == ch;
                    assert(now[k].channel == ch);
                }
                if is_served(now, ch) && ch != channel {
                    let k = choose|k: int| 0 <= k < now.len() && (#[trigger] now[k]).channel == ch;
                    assert(then[k].channel == ch);
                }
                assert(before.contains(ch) <==> is_served(then, ch));
            }
        }
        i = i + 1;
    }
    assert(views(servers@).take(servers@.len() as int) =~= views(servers@));
    channels
}

/// A round of drains that waits for a memory access.
#[derive(Debug)]
pub struct Drains {
    pub inst: u32,
    pub cb: u64,
    /// The channel that is being drained.
    pub ch: u32,
    pub drain: DrainUp,
    /// The channels that come after it.
    pub rest: Vec<u32>,
    /// What the channels before it had to say.
    pub outputs: Vec<Output>,
}

/// What a round of drains wants next. It results in what the channels had to say.
pub type DrainsNext = Next<Drains, Vec<Output>>;

/// The outputs once the drain of `ch` has come to `r`. A drain that failed or found
/// nothing adds none.
pub open spec fn collected(
    outputs: Seq<Output>,
    ch: u32,
    r: Result<Vec<u8>, RttError>,
) -> Seq<Output> {
    match r {
        Ok(bytes) if bytes@.len() > 0 => outputs.push(Output { channel: ch, bytes }),
        _ => outputs,
    }
}

impl Drains {
    /// The round goes on with the first of the channels `rest`, if there is one.
    pub open spec fn goes_on(
        inst: u32,
        cb: u64,
        rest: Seq<u32>,
        outputs: Seq<Output>,
        next: DrainsNext,
    ) -> bool {
        if rest.len() == 0 {
            next matches Next::Done(all) && all@ == outputs
        } else {
            let begun = DrainUp::begins(inst, cb, rest[0]);
            &&& next is Ask
            &&& next->Ask_0 == begun->Ask_0
            &&& next->Ask_1.inst == inst
            &&& next->Ask_1.cb == cb
            &&& next->Ask_1.ch == rest[0]
            &&& next->Ask_1.drain == begun->Ask_1
            &&& next->Ask_1.rest@ == rest.drop_first()
            &&& next->Ask_1.outputs@ == outputs
        }
    }

    /// What follows a step of the drain at hand.
    pub open spec fn after_drain(self, drain: DrainNext, next: DrainsNext) -> bool {
        match drain {
            Next::Ask(request, drain) => next == DrainsNext::Ask(
                request,
                Drains { drain, ..self },
            ),
            Next::Done(r) => Drains::goes_on(
                self.inst,
                self.cb,
                self.rest@,
                collected(self.outputs@, self.ch, r),
                next,
            ),
        }
    }
}

/// Begins to drain `channels` of the control block at `cb`, one after the other.
pub fn drain_channels(
    inst: u32,
    cb: u64,
    channels: Vec<u32>,
    outputs: Vec<Output>,
) -> (next: DrainsNext)
    ensures
        Drains::goes_on(inst, cb, channels@, outputs@, next),
{
    let mut rest = channels;
    if rest.len() == 0 {
        return Next::Done(outputs);
    }
    let ch: u32 = rest.remove(0);
    assert(rest@ =~= channels@.drop_first());
    let (request, drain) = drain_up_channel(inst, cb, ch);
    Next::Ask(request, Drains { inst, cb, ch, drain, rest, outputs })
}

impl Dialogue for Drains {
    type Out = Vec<Output>;

    open spec fn continues(self, reply: Reply, next: DrainsNext) -> bool {
        exists|drain: DrainNext| #[trigger]
            self.drain.continues(reply, drain) && self.after_drain(drain, next)
    }

    fn resume(self, reply: Reply) -> (next: DrainsNext) {
        let Drains { inst, cb, ch, drain, rest, outputs } = self;
        let step = drain.resume(reply);
        let ghost taken = step;
        let next = match step {
            Next::Ask(request, drain) => Next::Ask(
                request,
                Drains { inst, cb, ch, drain, rest, outputs },
            ),
            Next::Done(r) => {
                let mut outputs = outputs;
                if let Ok(bytes) = r {
                    if bytes.len() > 0 {
                        outputs.push(Output { channel: ch, bytes });
                    }
                }
                drain_channels(inst, cb, rest, outputs)
            },
        };
        assert(self.drain.continues(reply, taken) && self.after_drain(taken, next));
        next
    }
}

/// The ring of up channel `ch` of the control block at `cb`.
pub open spec fn up_ring(mem: Map<int, u8>, cb: u64, ch: u32) -> Ring {
    ring_in(mem, descriptor(cb, ch as int))
}

/// `a` lies in the read offset of up channel `ch`.
pub open spec fn in_rdoff(cb: u64, ch: u32, a: int) -> bool {
    in_field(descriptor(cb, ch as int), BUF_RDOFF, a)
}

/// Two memories differ in the read offsets of `channels` only.
pub open spec fn only_read(
    mem: Map<int, u8>,
    after: Map<int, u8>,
    cb: u64,
    channels: Seq<u32>,
) -> bool {
    &&& forall|a: int| #[trigger] mem.contains_key(a) == after.contains_key(a)
    &&& forall|a: int|
        mem.contains_key(a) && (forall|i: int|
            0 <= i < channels.len() ==> !in_rdoff(cb, #[trigger] channels[i], a)) ==> #[trigger]
        mem[a] == after[a]
}

/// The buffer of `ring` does not hold the read offset of channel `ch`.
pub open spec fn clear(cb: u64, ring: Ring, ch: u32) -> bool {
    ring.beside(field(descriptor(cb, ch as int), BUF_RDOFF))
}

/// The descriptor of channel `ch` is in memory, its buffer too, and the buffer holds none
/// of the read offsets of `channels`.
pub open spec fn drainable(mem: Map<int, u8>, cb: u64, ch: u32, channels: Seq<u32>) -> bool {
    let ring = up_ring(mem, cb, ch);
    &&& described(mem, descriptor(cb, ch as int))
    &&& ring.usable() ==> {
        &&& mapped(mem, ring.pbuffer as int, ring.size as int)
        &&& forall|i: int| 0 <= i < channels.len() ==> clear(cb, ring, #[trigger] channels[i])
    }
}

/// What `channels` have to say, in their order, those with nothing to say left out.
pub open spec fn sayings(mem: Map<int, u8>, cb: u64, channels: Seq<u32>) -> Seq<(u32, Seq<u8>)>
    decreases channels.len(),
{
    if channels.len() == 0 {
        Seq::empty()
    } else {
        let said = drained(mem, up_ring(mem, cb, channels[0]));
        let others = sayings(mem, cb, channels.drop_first());
        if said.len() == 0 {
            others
        } else {
            seq![(channels[0], said)] + others
        }
    }
}

/// The contents of the outputs.
pub open spec fn told(outputs: Seq<Output>) -> Seq<(u32, Seq<u8>)> {
    outputs.map_values(|o: Output| (o.channel, o.bytes@))
}

/// What is mapped in one of two memories that differ in read offsets is mapped in both.
proof fn lemma_still_mapped(
    mem: Map<int, u8>,
    after: Map<int, u8>,
    cb: u64,
    channels: Seq<u32>,
    addr: int,
    n: int,
)
    requires
        only_read(mem, after, cb, channels),
        mapped(mem, addr, n),
    ensures
        mapped(after, addr, n),
{
    assert forall|a: int| addr <= a < addr + n implies #[trigger] after.contains_key(a) by {
        assert(mem.contains_key(a));
    }
}

/// A descriptor that is in memory stays there.
proof fn lemma_still_described(
    mem: Map<int, u8>,
    after: Map<int, u8>,
    cb: u64,
    channels: Seq<u32>,
    base: u64,
)
    requires
        only_read(mem, after, cb, channels),
        described(mem, base),
    ensures
        described(after, base),
{
    assert forall|a: int| in_descriptor(base, a) implies #[trigger] after.contains_key(a) by {
        assert(mem.contains_key(a));
    }
}

/// Two memories that differ in read offsets of other channels agree on a channel's
/// descriptor.
proof fn lemma_same_descriptor(
    mem: Map<int, u8>,
    after: Map<int, u8>,
    cb: u64,
    ch: u32,
    channels: Seq<u32>,
    a: int,
)
    requires
        only_read(mem, after, cb, channels),
        forall|i: int| 0 <= i < channels.len() ==> #[trigger] channels[i] != ch,
        mem.contains_key(a),
        in_descriptor(descriptor(cb, ch as int), a),
    ensures
        mem[a] == after[a],
{
    assert forall|i: int| 0 <= i < channels.len() implies !in_rdoff(
        cb,
        #[trigger] channels[i],
        a,
    ) by {
        lemma_descriptors(cb, ch as int, channels[i] as int, a);
    }
}

/// They agree on a buffer that is clear of those read offsets, too.
proof fn lemma_same_buffer(
    mem: Map<int, u8>,
    after: Map<int, u8>,
    cb: u64,
    ring: Ring,
    channels: Seq<u32>,
    all: Seq<u32>,
    a: int,
)
    requires
        only_read(mem, after, cb, channels),
        forall|i: int| 0 <= i < channels.len() ==> all.contains(#[trigger] channels[i]),
        forall|i: int| 0 <= i < all.len() ==> clear(cb, ring, #[trigger] all[i]),
        mem.contains_key(a),
        ring.holds(a),
    ensures
        mem[a] == after[a],
{
    assert forall|i: int| 0 <= i < channels.len() implies !in_rdoff(
        cb,
        #[trigger] channels[i],
        a,
    ) by {
        let j = choose|j: int| 0 <= j < all.len() && all[j] == channels[i];
        assert(clear(cb, ring, all[j]));
    }
}

/// The read offsets of other channels do not matter for a channel.
proof fn lemma_other_channels(
    mem: Map<int, u8>,
    after: Map<int, u8>,
    cb: u64,
    ch: u32,
    channels: Seq<u32>,
    all: Seq<u32>,
)
    requires
        only_read(mem, after, cb, channels),
        drainable(mem, cb, ch, all),
        forall|i: int| 0 <= i < channels.len() ==> all.contains(#[trigger] channels[i]),
        forall|i: int| 0 <= i < channels.len() ==> #[trigger] channels[i] != ch,
    ensures
        up_ring(after, cb, ch) == up_ring(mem, cb, ch),
        drained(after, up_ring(after, cb, ch)) == drained(mem, up_ring(mem, cb, ch)),
        drainable(after, cb, ch, all),
{
    let base = descriptor(cb, ch as int);
    let ring = up_ring(mem, cb, ch);
    assert forall|a: int| in_descriptor(base, a) implies #[trigger] mem[a] == after[a] by {
        assert(mem.contains_key(a));
        lemma_same_descriptor(mem, after, cb, ch, channels, a);
    }
    lemma_same_ring(mem, after, base);
    lemma_still_described(mem, after, cb, channels, base);
    if ring.usable() {
        assert(same_buffer(mem, after, ring)) by {
            assert forall|a: int| ring.holds(a) implies #[trigger] mem[a] == after[a] by {
                assert(mem.contains_key(a));
                lemma_same_buffer(mem, after, cb, ring, channels, all, a);
            }
        }
        lemma_same_waiting(mem, after, ring);
        lemma_still_mapped(mem, after, cb, channels, ring.pbuffer as int, ring.size as int);
    }
}

/// The first part of a round is the drain at hand, which ends where the rest of the round
/// begins.
proof fn lemma_drain_part(
    round: Drains,
    drain: DrainNext,
    next: DrainsNext,
    mem: Map<int, u8>,
    talk: Seq<(Reply, DrainsNext)>,
    last: DrainsNext,
    after: Map<int, u8>,
) -> (r: (
    Seq<(Reply, DrainNext)>,
    DrainNext,
    Map<int, u8>,
    DrainsNext,
    Seq<(Reply, DrainsNext)>,
))
    requires
        round.after_drain(drain, next),
        converses(next, mem, talk, last, after),
    ensures
        converses(drain, mem, r.0, r.1, r.2),
        round.after_drain(r.1, r.3),
        converses(r.3, r.2, r.4, last, after),
        r.1 is Ask ==> r.4.len() == 0,
        talk.len() == r.0.len() + r.4.len(),
    decreases talk.len(),
{
    if drain is Ask && talk.len() > 0 {
        let reply = talk[0].0;
        let then = choose|then: DrainNext| #[trigger]
            drain->Ask_1.continues(reply, then) && next->Ask_1.after_drain(then, talk[0].1);
        assert(round.after_drain(then, talk[0].1));
        let m = effect(mem, drain->Ask_0);
        let r = lemma_drain_part(round, then, talk[0].1, m, talk.drop_first(), last, after);
        let whole = seq![(reply, then)] + r.0;
        assert(whole.drop_first() =~= r.0);
        assert(whole[0] == (reply, then));
        (whole, r.1, r.2, r.3, r.4)
    } else {
        (Seq::empty(), drain, mem, next, talk)
    }
}

/// What is to hold of a round of drains that has come to `last`.
pub open spec fn round_holds(
    mem: Map<int, u8>,
    cb: u64,
    channels: Seq<u32>,
    before: Seq<Output>,
    last: DrainsNext,
    after: Map<int, u8>,
) -> bool {
    &&& only_read(mem, after, cb, channels)
    &&& last matches Next::Done(all) ==> {
        &&& told(all@) == told(before) + sayings(mem, cb, channels)
        &&& forall|i: int|
            0 <= i < channels.len() ==> drained(
                after,
                up_ring(after, cb, #[trigger] channels[i]),
            ).len() == 0
    }
}

/// What a channel's own drain does to the memory.
proof fn lemma_one_drained(mem: Map<int, u8>, after: Map<int, u8>, cb: u64, ch: u32)
    requires
        drainable(mem, cb, ch, seq![ch]),
        after == mem || after == stored(
            mem,
            field(descriptor(cb, ch as int), BUF_RDOFF),
            u32_le(up_ring(mem, cb, ch).wroff),
        ),
    ensures
        only_read(mem, after, cb, seq![ch]),
{
    assert forall|a: int| #[trigger] mem.contains_key(a) == after.contains_key(a) by {}
    assert forall|a: int|
        mem.contains_key(a) && (forall|i: int|
            0 <= i < seq![ch].len() ==> !in_rdoff(cb, #[trigger] seq![ch][i], a)) implies #[trigger]
    mem[a] == after[a] by {
        assert(!in_rdoff(cb, seq![ch][0], a));
    }
}

/// Changes one after the other are changes.
proof fn lemma_read_in_turn(
    mem: Map<int, u8>,
    between: Map<int, u8>,
    after: Map<int, u8>,
    cb: u64,
    channels: Seq<u32>,
)
    requires
        channels.len() > 0,
        only_read(mem, between, cb, seq![channels[0]]),
        only_read(between, after, cb, channels.drop_first()),
    ensures
        only_read(mem, after, cb, channels),
{
    assert forall|a: int| #[trigger] mem.contains_key(a) == after.contains_key(a) by {
        assert(between.contains_key(a) == mem.contains_key(a));
    }
    assert forall|a: int|
        mem.contains_key(a) && (forall|i: int|
            0 <= i < channels.len() ==> !in_rdoff(
                cb,
                #[trigger] channels[i],
                a,
            )) implies #[trigger] mem[a] == after[a] by {
        assert(!in_rdoff(cb, channels[0], a));
        assert(mem.contains_key(a) == between.contains_key(a));
        assert(mem[a] == between[a]);
        let rest = channels.drop_first();
        assert forall|i: int| 0 <= i < rest.len() implies !in_rdoff(cb, #[trigger] rest[i], a) by {
            assert(rest[i] == channels[i + 1]);
        }
        assert(between[a] == after[a]);
    }
}

/// What other channels have to say does not change while a channel is drained.
proof fn lemma_same_sayings(
    mem: Map<int, u8>,
    after: Map<int, u8>,
    cb: u64,
    ch: u32,
    channels: Seq<u32>,
    all: Seq<u32>,
)
    requires
        only_read(mem, after, cb, seq![ch]),
        all.contains(ch),
        forall|i: int|
            0 <= i < channels.len() ==> #[trigger] channels[i] != ch && drainable(
                mem,
                cb,
                channels[i],
                all,
            ),
    ensures
        sayings(after, cb, channels) == sayings(mem, cb, channels),
        forall|i: int|
            0 <= i < channels.len() ==> drainable(after, cb, #[trigger] channels[i], all),
    decreases channels.len(),
{
    if channels.len() > 0 {
        let rest = channels.drop_first();
        assert forall|i: int| 0 <= i < rest.len() implies #[trigger] rest[i] != ch && drainable(
            mem,
            cb,
            rest[i],
            all,
        ) by {
            assert(rest[i] == channels[i + 1]);
        }
        lemma_same_sayings(mem, after, cb, ch, rest, all);
        lemma_other_channels(mem, after, cb, channels[0], seq![ch], all);
        assert forall|i: int| 0 <= i < channels.len() implies drainable(
            after,
            cb,
            #[trigger] channels[i],
            all,
        ) by {
            if i > 0 {
                assert(rest[i - 1] == channels[i]);
            }
        }
    }
}

/// A channel that has been drained can be drained again.
proof fn lemma_drainable_after(
    mem: Map<int, u8>,
    after: Map<int, u8>,
    cb: u64,
    ch: u32,
    all: Seq<u32>,
)
    requires
        drainable(mem, cb, ch, all),
        only_read(mem, after, cb, seq![ch]),
        up_ring(after, cb, ch).pbuffer == up_ring(mem, cb, ch).pbuffer,
        up_ring(after, cb, ch).size == up_ring(mem, cb, ch).size,
        up_ring(after, cb, ch).usable() ==> up_ring(mem, cb, ch).usable(),
    ensures
        drainable(after, cb, ch, all),
{
    let ring = up_ring(mem, cb, ch);
    let base = descriptor(cb, ch as int);
    lemma_still_described(mem, after, cb, seq![ch], base);
    if ring.usable() {
        lemma_still_mapped(mem, after, cb, seq![ch], ring.pbuffer as int, ring.size as int);
        assert forall|i: int| 0 <= i < all.len() implies clear(
            cb,
            up_ring(after, cb, ch),
            #[trigger] all[i],
        ) by {
            assert(clear(cb, ring, all[i]));
        }
    }
}

/// The drain of one of the channels `all`.
proof fn lemma_drain(
    inst: u32,
    cb: u64,
    ch: u32,
    mem: Map<int, u8>,
    talk: Seq<(Reply, DrainNext)>,
    last: DrainNext,
    after: Map<int, u8>,
    all: Seq<u32>,
)
    requires
        converses(DrainUp::begins(inst, cb, ch), mem, talk, last, after),
        drainable(mem, cb, ch, all),
        all.contains(ch),
    ensures
        talk.len() <= 7,
        only_read(mem, after, cb, seq![ch]),
        last matches Next::Done(r) ==> {
            &&& r is Ok
            &&& r->Ok_0@ == drained(mem, up_ring(mem, cb, ch))
            &&& drained(after, up_ring(after, cb, ch)).len() == 0
            &&& drainable(after, cb, ch, all)
        },
{
    lemma_readable(mem, descriptor(cb, ch as int));
    drain_takes_what_waits(inst, cb, ch, mem, talk, last, after);
    assert(drainable(mem, cb, ch, seq![ch])) by {
        let j = choose|j: int| 0 <= j < all.len() && all[j] == ch;
        assert(up_ring(mem, cb, ch).usable() ==> clear(cb, up_ring(mem, cb, ch), all[j]));
    }
    lemma_one_drained(mem, after, cb, ch);
    if last is Done {
        lemma_drainable_after(mem, after, cb, ch, all);
    }
}

/// What a channel had to say is told behind what was told before, and before what the
/// others have to say.
proof fn lemma_told(
    before: Seq<Output>,
    ch: u32,
    what: Seq<u8>,
    r: Result<Vec<u8>, RttError>,
    others: Seq<(u32, Seq<u8>)>,
)
    requires
        r is Ok,
        r->Ok_0@ == what,
    ensures
        told(collected(before, ch, r)) + others == told(before) + (if what.len() == 0 {
            others
        } else {
            seq![(ch, what)] + others
        }),
{
    let said = collected(before, ch, r);
    if what.len() == 0 {
        assert(said =~= before);
    } else {
        assert(told(said) =~= told(before) + seq![(ch, what)]);
        assert(told(said) + others =~= told(before) + (seq![(ch, what)] + others));
    }
}

/// Where the first channel has been drained, then the others, nothing waits in any.
proof fn lemma_all_drained(
    between: Map<int, u8>,
    after: Map<int, u8>,
    cb: u64,
    channels: Seq<u32>,
    all: Seq<u32>,
)
    requires
        channels.len() > 0,
        ascending(channels),
        only_read(between, after, cb, channels.drop_first()),
        drainable(between, cb, channels[0], all),
        forall|i: int| 0 <= i < channels.len() ==> all.contains(#[trigger] channels[i]),
        drained(between, up_ring(between, cb, channels[0])).len() == 0,
        forall|i: int|
            0 <= i < channels.drop_first().len() ==> drained(
                after,
                up_ring(after, cb, #[trigger] channels.drop_first()[i]),
            ).len() == 0,
    ensures
        forall|i: int|
            0 <= i < channels.len() ==> drained(
                after,
                up_ring(after, cb, #[trigger] channels[i]),
            ).len() == 0,
{
    let rest = channels.drop_first();
    assert forall|i: int| 0 <= i < rest.len() implies all.contains(#[trigger] rest[i]) by {
        assert(rest[i] == channels[i + 1]);
    }
    lemma_other_channels(between, after, cb, channels[0], rest, all);
    assert forall|i: int| 0 <= i < channels.len() implies drained(
        after,
        up_ring(after, cb, #[trigger] channels[i]),
    ).len() == 0 by {
        if i > 0 {
            assert(rest[i - 1] == channels[i]);
        }
    }
}

/// From the first of `channels` on.
#[verifier::rlimit(60)]
#[verifier::spinoff_prover]
proof fn lemma_round(
    inst: u32,
    cb: u64,
    channels: Seq<u32>,
    before: Seq<Output>,
    next: DrainsNext,
    mem: Map<int, u8>,
    talk: Seq<(Reply, DrainsNext)>,
    last: DrainsNext,
    after: Map<int, u8>,
    all: Seq<u32>,
)
    requires
        Drains::goes_on(inst, cb, channels, before, next),
        converses(next, mem, talk, last, after),
        ascending(channels),
        forall|i: int|
            0 <= i < channels.len() ==> all.contains(#[trigger] channels[i]) && drainable(
                mem,
                cb,
                channels[i],
                all,
            ),
    ensures
        talk.len() <= 7 * channels.len(),
        round_holds(mem, cb, channels, before, last, after),
    decreases channels.len(),
{
    if channels.len() > 0 {
        let ch = channels[0];
        let rest = channels.drop_first();
        let round = next->Ask_1;
        let r = lemma_drain_part(
            round,
            DrainUp::begins(inst, cb, ch),
            next,
            mem,
            talk,
            last,
            after,
        );
        let m = r.2;
        assert(all.contains(channels[0]));
        lemma_drain(inst, cb, ch, mem, r.0, r.1, m, all);
        assert(only_read(m, m, cb, rest));
        if r.1 is Ask {
            assert(after == m);
            lemma_read_in_turn(mem, m, after, cb, channels);
        } else {
            assert forall|i: int| 0 <= i < rest.len() implies #[trigger] rest[i] != ch
                && all.contains(rest[i]) && drainable(mem, cb, rest[i], all) by {
                assert(rest[i] == channels[i + 1]);
            }
            lemma_same_sayings(mem, m, cb, ch, rest, all);
            assert(ascending(rest));
            let said = collected(before, ch, r.1->Done_0);
            lemma_round(inst, cb, rest, said, r.3, m, r.4, last, after, all);
            lemma_read_in_turn(mem, m, after, cb, channels);
            if last is Done {
                let what = drained(mem, up_ring(mem, cb, ch));
                lemma_told(before, ch, what, r.1->Done_0, sayings(mem, cb, rest));
                lemma_all_drained(m, after, cb, channels, all);
            }
        }
    } else {
        assert(told(before) + sayings(mem, cb, channels) =~= told(before));
    }
}

/// A round of drains gives what each of the channels has to say, in their order, and
/// nothing waits in any of them afterwards. Nothing but their read offsets changes. It
/// takes at most seven accesses a channel.
pub proof fn round_drains_each_channel(
    inst: u32,
    cb: u64,
    channels: Seq<u32>,
    before: Seq<Output>,
    first: DrainsNext,
    mem: Map<int, u8>,
    talk: Seq<(Reply, DrainsNext)>,
    last: DrainsNext,
    after: Map<int, u8>,
)
    requires
        Drains::goes_on(inst, cb, channels, before, first),
        converses(first, mem, talk, last, after),
        ascending(channels),
        forall|i: int|
            0 <= i < channels.len() ==> drainable(mem, cb, #[trigger] channels[i], channels),
    ensures
        talk.len() <= 7 * channels.len(),
        round_holds(mem, cb, channels, before, last, after),
{
    lemma_round(inst, cb, channels, before, first, mem, talk, last, after, channels);
}

} // verus!
