//! The pump: it drains the served up channels, serves the sockets, and fills the down
//! channels with what came in from them.
//!
//! The connection to the target and the sockets are owned elsewhere. The pump asks for
//! one memory access or one socket operation at a time, and goes on when it is told what
//! came of it. It holds the state of RTT meanwhile, and hands it back at the end.

use crate::dialogue::{Dialogue, Next};
use crate::down::FillNext;
use crate::inputs::{
    deliverable, fill_channels, has_buffer, lists_waiting, taken, Fills, FillsNext,
};
use crate::locate::{locate, Block, Locate, LocateNext, Located};
use crate::memory::{Reply, Request};
use crate::outputs::{
    drain_channels, lists_served, served_channels, told, Drains, DrainsNext, Output,
};
use crate::rtt::{
    bounded, distinct_ports, newest, newest_of_newest, queue_input, queued, views, waits, Rtt,
    RttView, Server, ServerView,
};
use vstd::prelude::*;
use vstd::slice::slice_to_vec;
use vstd::utf8::encode_utf8;

verus! {

/// What came of reading from a client, without waiting.
#[derive(Debug)]
pub enum Received {
    /// The bytes that were there; none where the client has closed its end.
    Bytes(Vec<u8>),
    /// There is nothing to read now.
    WouldBlock,
    /// The read was interrupted before anything was read.
    Interrupted,
    /// The connection is broken.
    Failed,
}

/// What came of writing to a client, without waiting.
#[derive(Debug)]
pub enum Sent {
    /// All bytes have been written.
    Whole,
    /// The client does not take them now.
    WouldBlock,
    /// The connection is broken.
    Failed,
}

/// What the pump wants next.
#[derive(Debug)]
pub enum PumpNext {
    /// Send the request to the server, then resume with the reply.
    Memory(Request, MemoryWait),
    /// Accept a connection on the port, if one is there.
    Accept(u16, AcceptWait),
    /// Read from a client of the port.
    Receive(u16, u64, ReceiveWait),
    /// Write to a client of the port.
    Send(u16, u64, Vec<u8>, SendWait),
    /// The pump is done.
    Done(Rtt),
}

/// A pump that waits for a memory access.
#[derive(Debug)]
pub enum MemoryWait {
    /// The control block is being looked for.
    Resolving { inst: u32, rtt: Rtt, locate: Locate },
    /// The up channels are being drained.
    Draining { inst: u32, cb: u64, rtt: Rtt, drains: Drains },
    /// The down channels are being filled.
    Filling(Fills),
}

/// Where the round over the servers has got to.
#[derive(Debug)]
pub struct Round {
    pub inst: u32,
    pub cb: u64,
    /// The state of RTT, with the servers that have had their turn.
    pub rtt: Rtt,
    pub outputs: Vec<Output>,
    /// The servers that have not.
    pub rest: Vec<Server>,
}

/// Where the round over the servers has got to, as it is spoken of.
#[verifier::ext_equal]
pub struct RoundView {
    pub inst: u32,
    pub cb: u64,
    pub rtt: RttView,
    pub outputs: Seq<(u32, Seq<u8>)>,
    pub rest: Seq<ServerView>,
}

impl View for Round {
    type V = RoundView;

    open spec fn view(&self) -> RoundView {
        RoundView {
            inst: self.inst,
            cb: self.cb,
            rtt: self.rtt@,
            outputs: told(self.outputs@),
            rest: views(self.rest@),
        }
    }
}

/// A pump that waits for a connection to `server`.
#[derive(Debug)]
pub struct AcceptWait {
    pub round: Round,
    pub server: Server,
}

/// Where the round over the clients of a server has got to.
#[derive(Debug)]
pub struct Turn {
    pub round: Round,
    /// The server, with the clients that have had their turn and stay.
    pub server: Server,
    /// The client whose turn it is.
    pub client: u64,
    /// The clients that come after it.
    pub others: Vec<u64>,
    /// What the clients have sent.
    pub got: Vec<u8>,
}

/// Where the round over the clients of a server has got to, as it is spoken of.
#[verifier::ext_equal]
pub struct TurnView {
    pub round: RoundView,
    pub server: ServerView,
    pub client: u64,
    pub others: Seq<u64>,
    pub got: Seq<u8>,
}

impl View for Turn {
    type V = TurnView;

    open spec fn view(&self) -> TurnView {
        TurnView {
            round: self.round@,
            server: self.server@,
            client: self.client,
            others: self.others@,
            got: self.got@,
        }
    }
}

/// A pump that waits for what a client sends.
#[derive(Debug)]
pub struct ReceiveWait {
    pub turn: Turn,
}

/// A pump that waits for a client to take what it is sent.
#[derive(Debug)]
pub struct SendWait {
    pub turn: Turn,
}

/// What channel `ch` had to say, if anything.
pub open spec fn output_for(outputs: Seq<(u32, Seq<u8>)>, ch: u32) -> Option<Seq<u8>>
    decreases outputs.len(),
{
    if outputs.len() == 0 {
        None
    } else if outputs[0].0 == ch {
        Some(outputs[0].1)
    } else {
        output_for(outputs.drop_first(), ch)
    }
}

/// A copy of what channel `ch` had to say, if anything.
fn output_of(outputs: &Vec<Output>, ch: u32) -> (r: Option<Vec<u8>>)
    ensures
        match output_for(told(outputs@), ch) {
            Some(bytes) => r is Some && r->Some_0@ == bytes,
            None => r is None,
        },
{
    let ghost all = told(outputs@);
    assert(all.skip(0) =~= all);
    let mut i: usize = 0;
    while i < outputs.len()
        invariant
            i <= outputs@.len(),
            all == told(outputs@),
            output_for(all, ch) == output_for(all.skip(i as int), ch),
        decreases outputs@.len() - i,
    {
        assert(all.skip(i as int)[0] == (outputs@[i as int].channel, outputs@[i as int].bytes@));
        if outputs[i].channel == ch {
            let bytes = outputs[i].bytes.clone();
            assert(bytes@ =~= outputs@[i as int].bytes@);
            return Some(bytes);
        }
        assert(all.skip(i as int).drop_first() =~= all.skip(i + 1));
        i = i + 1;
    }
    None
}

/// The queues once a server has had its turn: what its clients have sent waits for its
/// channel.
pub open spec fn queued_up(queues: Map<u32, Seq<u8>>, ch: u32, got: Seq<u8>) -> Map<u32, Seq<u8>> {
    if got.len() == 0 {
        queues
    } else {
        queued(queues, ch, got)
    }
}

/// The control block that was found, where a number of up channels that could not be read
/// counts as zero.
pub open spec fn block_found(found: Located) -> Option<Block> {
    match found {
        Located::Nowhere => None,
        Located::UpUnread { cb, .. } => Some(Block { cb, num_up: 0, num_down: None }),
        Located::DownUnread { cb, num_up, .. } => Some(Block { cb, num_up, num_down: None }),
        Located::At(block) => Some(block),
    }
}

impl PumpNext {
    /// The pump ends with the state `state`.
    pub open spec fn ends(self, state: RttView) -> bool {
        self matches PumpNext::Done(rtt) && rtt@ == state
    }

    /// What follows a step of the fills.
    pub open spec fn after_fills(self, fills: FillsNext) -> bool {
        match fills {
            Next::Ask(request, fills) => self == PumpNext::Memory(
                request,
                MemoryWait::Filling(fills),
            ),
            Next::Done(rtt) => self == PumpNext::Done(rtt),
        }
    }

    /// The pump goes on to fill the down channels.
    pub open spec fn fills(self, inst: u32, cb: u64, state: RttView) -> bool {
        exists|fills: FillsNext| #[trigger]
            Fills::begins(inst, cb, state, fills) && self.after_fills(fills)
    }

    /// The pump goes on to the next server: connections to it are accepted first.
    pub open spec fn services(self, round: RoundView) -> bool {
        if round.rest.len() == 0 {
            self.fills(round.inst, round.cb, round.rtt)
        } else {
            self.accepts(RoundView { rest: round.rest.drop_first(), ..round }, round.rest[0])
        }
    }

    /// A connection to `server` is to be accepted.
    pub open spec fn accepts(self, round: RoundView, server: ServerView) -> bool {
        self matches PumpNext::Accept(port, wait) && port == server.port && wait.round@ == round
            && wait.server@ == server
    }

    /// The pump goes on to the next of the clients `others` of `server`, which has its
    /// turn behind it where there is none.
    pub open spec fn turns(
        self,
        round: RoundView,
        server: ServerView,
        others: Seq<u64>,
        got: Seq<u8>,
    ) -> bool {
        if others.len() == 0 {
            self.services(
                RoundView {
                    rtt: RttView {
                        servers: round.rtt.servers.push(server),
                        queues: queued_up(round.rtt.queues, server.channel, got),
                        ..round.rtt
                    },
                    ..round
                },
            )
        } else {
            self.receives(
                TurnView { round, server, client: others[0], others: others.drop_first(), got },
            )
        }
    }

    /// The client whose turn it is, is to be read from.
    pub open spec fn receives(self, turn: TurnView) -> bool {
        self matches PumpNext::Receive(port, client, wait) && port == turn.server.port && client
            == turn.client && wait.turn@ == turn
    }

    /// `bytes` are to be written to the client whose turn it is.
    pub open spec fn sends(self, turn: TurnView, bytes: Seq<u8>) -> bool {
        self matches PumpNext::Send(port, client, out, wait) && port == turn.server.port && client
            == turn.client && out@ == bytes && wait.turn@ == turn
    }

    /// What follows a step of the drains.
    pub open spec fn after_drains(
        self,
        inst: u32,
        cb: u64,
        state: RttView,
        drains: DrainsNext,
    ) -> bool {
        match drains {
            Next::Ask(request, drains) => self matches PumpNext::Memory(
                r,
                MemoryWait::Draining { inst: i, cb: c, rtt, drains: d },
            ) && r == request && i == inst && c == cb && rtt@ == state && d == drains,
            Next::Done(outputs) => self.services(
                RoundView {
                    inst,
                    cb,
                    rtt: RttView { servers: Seq::empty(), ..state },
                    outputs: told(outputs@),
                    rest: state.servers,
                },
            ),
        }
    }

    /// The pump goes on to drain the served channels, each once.
    pub open spec fn drains(self, inst: u32, cb: u64, state: RttView) -> bool {
        exists|channels: Seq<u32>, drains: DrainsNext| #[trigger]
            lists_served(channels, state.servers) && #[trigger] Drains::goes_on(
                inst,
                cb,
                channels,
                Seq::empty(),
                drains,
            ) && self.after_drains(inst, cb, state, drains)
    }

    /// What follows a step of the looking for the control block. Where there is none the
    /// pump ends.
    pub open spec fn after_locate(self, inst: u32, state: RttView, locate: LocateNext) -> bool {
        match locate {
            Next::Ask(request, locate) => self matches PumpNext::Memory(
                r,
                MemoryWait::Resolving { inst: i, rtt, locate: l },
            ) && r == request && i == inst && rtt@ == state && l == locate,
            Next::Done(found) => match block_found(found) {
                None => self.ends(state),
                Some(block) => self.drains(inst, block.cb, state.with_block(block)),
            },
        }
    }

    /// The pump begins: with the channels where the control block is known, else with
    /// the looking for it, if it is known where to look.
    pub open spec fn pumps(self, inst: u32, state: RttView) -> bool {
        match state.control_block {
            Some(cb) => self.drains(inst, cb, state),
            None => match state.search {
                None => self.ends(state),
                Some((addr, size, id)) => self.looks(inst, state, addr, size, encode_utf8(id)),
            },
        }
    }

    /// The control block is looked for.
    pub open spec fn looks(
        self,
        inst: u32,
        state: RttView,
        addr: u64,
        size: u64,
        id: Seq<u8>,
    ) -> bool {
        exists|locate: LocateNext| #[trigger]
            Locate::begins(inst, true, addr, size, id, locate) && self.after_locate(
                inst,
                state,
                locate,
            )
    }
}

fn follow_fills(fills: FillsNext) -> (next: PumpNext)
    ensures
        next.after_fills(fills),
{
    match fills {
        Next::Ask(request, fills) => PumpNext::Memory(request, MemoryWait::Filling(fills)),
        Next::Done(rtt) => PumpNext::Done(rtt),
    }
}

/// Goes on to the next server.
fn next_server(round: Round) -> (next: PumpNext)
    ensures
        next.services(round@),
{
    let Round { inst, cb, rtt, outputs, rest } = round;
    let mut rest = rest;
    assert(views(round.rest@).len() == round.rest@.len());
    if rest.len() == 0 {
        let fills = fill_channels(inst, cb, rtt);
        return follow_fills(fills);
    }
    let server = rest.remove(0);
    let port: u16 = server.port;
    assert(views(rest@) =~= views(round.rest@).drop_first());
    assert(server@ == views(round.rest@)[0]);
    PumpNext::Accept(port, AcceptWait { round: Round { inst, cb, rtt, outputs, rest }, server })
}

/// Goes on to the next client.
fn next_client(round: Round, server: Server, others: Vec<u64>, got: Vec<u8>) -> (next: PumpNext)
    ensures
        next.turns(round@, server@, others@, got@),
{
    let mut others = others;
    if others.len() == 0 {
        let mut round = round;
        if got.len() > 0 {
            queue_input(&mut round.rtt.pending_down, server.channel, got);
        }
        let ghost served = round.rtt.servers@;
        round.rtt.servers.push(server);
        assert(views(round.rtt.servers@) =~= views(served).push(server@));
        return next_server(round);
    }
    let client: u64 = others.remove(0);
    let port: u16 = server.port;
    PumpNext::Receive(
        port,
        client,
        ReceiveWait { turn: Turn { round, server, client, others, got } },
    )
}

impl AcceptWait {
    /// Told whether a connection was there, the pump goes on with `next`.
    pub open spec fn goes_on(self, client: Option<u64>, next: PumpNext) -> bool {
        match client {
            Some(client) => next.accepts(
                self.round@,
                ServerView { clients: self.server@.clients.push(client), ..self.server@ },
            ),
            None => next.turns(
                self.round@,
                ServerView { clients: Seq::empty(), ..self.server@ },
                self.server@.clients,
                Seq::empty(),
            ),
        }
    }

    /// Goes on once it is known whether a connection was there; the number that it goes
    /// by, if so. All that are there are accepted, then the clients have their turns.
    pub fn accepted(self, client: Option<u64>) -> (next: PumpNext)
        ensures
            self.goes_on(client, next),
    {
        let AcceptWait { round, server } = self;
        let mut server = server;
        let port: u16 = server.port;
        match client {
            Some(client) => {
                server.clients.push(client);
                PumpNext::Accept(port, AcceptWait { round, server })
            },
            None => {
                let Server { port: _, channel, clients } = server;
                let server = Server { port, channel, clients: Vec::new() };
                let got: Vec<u8> = Vec::new();
                assert(server@ =~= ServerView { clients: Seq::empty(), ..self.server@ });
                assert(got@ =~= Seq::empty());
                next_client(round, server, clients, got)
            },
        }
    }
}

impl ReceiveWait {
    /// Told what came of reading from the client, the pump goes on with `next`.
    pub open spec fn goes_on(self, r: Received, next: PumpNext) -> bool {
        let turn = self.turn@;
        match r {
            Received::Bytes(bytes) => if bytes@.len() > 0 {
                next.receives(TurnView { got: turn.got + bytes@, ..turn })
            } else {
                next.turns(turn.round, turn.server, turn.others, turn.got)
            },
            Received::Interrupted => next.receives(turn),
            Received::Failed => next.turns(turn.round, turn.server, turn.others, turn.got),
            Received::WouldBlock => match output_for(turn.round.outputs, turn.server.channel) {
                Some(bytes) => next.sends(turn, bytes),
                None => next.turns(turn.round, turn.stays(), turn.others, turn.got),
            },
        }
    }

    /// Goes on with what came of reading from the client. It is read until there is
    /// nothing more, then it is sent what its channel had to say. One that has closed its
    /// end, or whose connection is broken, is dropped.
    pub fn received(self, r: Received) -> (next: PumpNext)
        ensures
            self.goes_on(r, next),
    {
        let mut turn = self.turn;
        let port: u16 = turn.server.port;
        let client: u64 = turn.client;
        match r {
            Received::Bytes(bytes) => {
                if bytes.len() == 0 {
                    return next_client(turn.round, turn.server, turn.others, turn.got);
                }
                let mut bytes = bytes;
                turn.got.append(&mut bytes);
                PumpNext::Receive(port, client, ReceiveWait { turn })
            },
            Received::Interrupted => PumpNext::Receive(port, client, ReceiveWait { turn }),
            Received::Failed => next_client(turn.round, turn.server, turn.others, turn.got),
            Received::WouldBlock => match output_of(&turn.round.outputs, turn.server.channel) {
                Some(bytes) => PumpNext::Send(port, client, bytes, SendWait { turn }),
                None => turn.keep(),
            },
        }
    }
}

impl SendWait {
    /// Told what came of writing to the client, the pump goes on with `next`.
    pub open spec fn goes_on(self, r: Sent, next: PumpNext) -> bool {
        let turn = self.turn@;
        match r {
            Sent::Failed => next.turns(turn.round, turn.server, turn.others, turn.got),
            _ => next.turns(turn.round, turn.stays(), turn.others, turn.got),
        }
    }

    /// Goes on with what came of writing to the client. One whose connection is broken
    /// is dropped.
    pub fn sent(self, r: Sent) -> (next: PumpNext)
        ensures
            self.goes_on(r, next),
    {
        let turn = self.turn;
        match r {
            Sent::Failed => next_client(turn.round, turn.server, turn.others, turn.got),
            _ => turn.keep(),
        }
    }
}

impl TurnView {
    /// The server, once the client whose turn it is has stayed.
    pub open spec fn stays(self) -> ServerView {
        ServerView { clients: self.server.clients.push(self.client), ..self.server }
    }
}

impl Turn {
    /// The client whose turn it is stays, and the next one has its turn.
    fn keep(self) -> (next: PumpNext)
        ensures
            next.turns(self@.round, self@.stays(), self@.others, self@.got),
    {
        let Turn { round, server, client, others, got } = self;
        let mut server = server;
        server.clients.push(client);
        next_client(round, server, others, got)
    }
}

fn follow_drains(inst: u32, cb: u64, rtt: Rtt, drains: DrainsNext) -> (next: PumpNext)
    ensures
        next.after_drains(inst, cb, rtt@, drains),
{
    match drains {
        Next::Ask(request, drains) => PumpNext::Memory(
            request,
            MemoryWait::Draining { inst, cb, rtt, drains },
        ),
        Next::Done(outputs) => {
            let mut rtt = rtt;
            let mut rest: Vec<Server> = Vec::new();
            std::mem::swap(&mut rest, &mut rtt.servers);
            assert(rtt@.servers =~= Seq::empty());
            next_server(Round { inst, cb, rtt, outputs, rest })
        },
    }
}

/// Goes on to drain the served channels.
fn drain_served(inst: u32, cb: u64, rtt: Rtt) -> (next: PumpNext)
    ensures
        next.drains(inst, cb, rtt@),
{
    let channels = served_channels(&rtt.servers);
    let ghost listed = channels@;
    let outputs: Vec<Output> = Vec::new();
    let drains = drain_channels(inst, cb, channels, outputs);
    assert(outputs@ =~= Seq::empty());
    assert(lists_served(listed, rtt@.servers));
    assert(Drains::goes_on(inst, cb, listed, Seq::empty(), drains));
    follow_drains(inst, cb, rtt, drains)
}

fn follow_locate(inst: u32, rtt: Rtt, locate: LocateNext) -> (next: PumpNext)
    ensures
        next.after_locate(inst, rtt@, locate),
{
    let block = match locate {
        Next::Ask(request, locate) => {
            return PumpNext::Memory(request, MemoryWait::Resolving { inst, rtt, locate });
        },
        Next::Done(Located::Nowhere) => {
            return PumpNext::Done(rtt);
        },
        Next::Done(Located::UpUnread { cb, error: _ }) => Block {
            cb,
            num_up: 0,
            num_down: None,
        },
        Next::Done(Located::DownUnread { cb, num_up, error: _ }) => Block {
            cb,
            num_up,
            num_down: None,
        },
        Next::Done(Located::At(block)) => block,
    };
    let mut rtt = rtt;
    rtt.control_block = Some(block.cb);
    rtt.num_up = block.num_up;
    rtt.num_down = block.num_down;
    drain_served(inst, block.cb, rtt)
}

impl MemoryWait {
    /// Handed `reply`, the pump goes on with `next`.
    pub open spec fn continues(self, reply: Reply, next: PumpNext) -> bool {
        match self {
            MemoryWait::Resolving { inst, rtt, locate } => exists|then: LocateNext| #[trigger]
                locate.continues(reply, then) && next.after_locate(inst, rtt@, then),
            MemoryWait::Draining { inst, cb, rtt, drains } => exists|then: DrainsNext| #[trigger]
                drains.continues(reply, then) && next.after_drains(inst, cb, rtt@, then),
            MemoryWait::Filling(fills) => exists|then: FillsNext| #[trigger]
                fills.continues(reply, then) && next.after_fills(then),
        }
    }

    /// Goes on with the reply to the access that was asked for.
    pub fn resume(self, reply: Reply) -> (next: PumpNext)
        ensures
            self.continues(reply, next),
    {
        match self {
            MemoryWait::Resolving { inst, rtt, locate } => {
                let then = locate.resume(reply);
                follow_locate(inst, rtt, then)
            },
            MemoryWait::Draining { inst, cb, rtt, drains } => {
                let then = drains.resume(reply);
                follow_drains(inst, cb, rtt, then)
            },
            MemoryWait::Filling(fills) => {
                let then = fills.resume(reply);
                follow_fills(then)
            },
        }
    }
}

impl Rtt {
    /// Begins to pump.
    fn pump(self, inst: u32) -> (next: PumpNext)
        ensures
            next.pumps(inst, self@),
    {
        if let Some(cb) = self.control_block {
            return drain_served(inst, cb, self);
        }
        match &self.search {
            None => PumpNext::Done(self),
            Some((addr, size, id)) => {
                let bytes = slice_to_vec(id.as_str().as_bytes());
                let looked = locate(inst, true, *addr, *size, bytes);
                let next = follow_locate(inst, self, looked);
                assert(next.looks(inst, self@, *addr, *size, encode_utf8(id@)));
                next
            },
        }
    }

    /// Pumps on every fourth call, so that the server is not flooded. Does nothing as
    /// long as no channel is served. To be called over and over while the target runs.
    pub fn poll(self, inst: u32) -> (next: PumpNext)
        ensures
            ({
                let count = self@.poll_counter.wrapping_add(1);
                let counted = RttView { poll_counter: count, ..self@ };
                if self@.servers.len() == 0 {
                    next.ends(self@)
                } else if count % 4 != 0 {
                    next.ends(counted)
                } else {
                    next.pumps(inst, counted)
                }
            }),
    {
        let mut rtt = self;
        if rtt.servers.len() == 0 {
            return PumpNext::Done(rtt);
        }
        rtt.poll_counter = rtt.poll_counter.wrapping_add(1);
        if rtt.poll_counter % 4 != 0 {
            return PumpNext::Done(rtt);
        }
        rtt.pump(inst)
    }

    /// Pumps. To be called once the target has stopped, so that its last bytes are not
    /// left behind.
    pub fn flush(self, inst: u32) -> (next: PumpNext)
        ensures
            if self@.servers.len() == 0 {
                next.ends(self@)
            } else {
                next.pumps(inst, self@)
            },
    {
        if self.servers.len() == 0 {
            return PumpNext::Done(self);
        }
        self.pump(inst)
    }
}

/// The servers, without their clients.
pub open spec fn roster(servers: Seq<ServerView>) -> Seq<(u16, u32)> {
    servers.map_values(|s: ServerView| (s.port, s.channel))
}

/// What no step of the pump changes from `a` to `b`: which channel is served on which
/// port, the region to search, the count of polls, and that no more waits for a channel
/// than may.
pub open spec fn keeps(a: RttView, b: RttView) -> bool {
    &&& roster(b.servers) == roster(a.servers)
    &&& b.search == a.search
    &&& b.poll_counter == a.poll_counter
    &&& bounded(a.queues) ==> bounded(b.queues)
}

impl RoundView {
    /// The state of RTT with all servers, `server` having its turn.
    pub open spec fn whole(self, server: ServerView) -> RttView {
        RttView { servers: self.rtt.servers.push(server) + self.rest, ..self.rtt }
    }
}

impl PumpNext {
    /// The state of RTT as the pump has changed it so far.
    pub open spec fn state(self) -> RttView {
        match self {
            PumpNext::Memory(_, wait) => wait.state(),
            PumpNext::Accept(_, wait) => wait.round@.whole(wait.server@),
            PumpNext::Receive(_, _, wait) => wait.turn@.round.whole(wait.turn@.server),
            PumpNext::Send(_, _, _, wait) => wait.turn@.round.whole(wait.turn@.server),
            PumpNext::Done(rtt) => rtt@,
        }
    }
}

impl MemoryWait {
    /// The state of RTT as the pump has changed it so far.
    pub open spec fn state(self) -> RttView {
        match self {
            MemoryWait::Resolving { rtt, .. } => rtt@,
            MemoryWait::Draining { rtt, .. } => rtt@,
            MemoryWait::Filling(fills) => fills.rtt@,
        }
    }
}

/// A round of fills changes nothing but what waits.
proof fn lemma_fills_on(inst: u32, cb: u64, state: RttView, rest: Seq<u32>, fills: FillsNext)
    requires
        Fills::goes_on(inst, cb, state, rest, fills),
    ensures
        match fills {
            Next::Ask(_, fills) => fills.rtt@ == state,
            Next::Done(rtt) => rtt@ == state,
        },
    decreases rest.len(),
{
    if rest.len() > 0 && waits(state.queues, rest[0]).len() == 0 {
        lemma_fills_on(inst, cb, state, rest.drop_first(), fills);
    }
}

proof fn lemma_fills(next: PumpNext, inst: u32, cb: u64, state: RttView)
    requires
        next.fills(inst, cb, state),
    ensures
        keeps(state, next.state()),
{
    let fills = choose|fills: FillsNext| #[trigger]
        Fills::begins(inst, cb, state, fills) && next.after_fills(fills);
    let queues = deliverable(state.queues, state.num_down);
    let channels = choose|channels: Seq<u32>| #[trigger]
        lists_waiting(channels, queues, state.num_down) && Fills::goes_on(
            inst,
            cb,
            RttView { queues, ..state },
            channels,
            fills,
        );
    lemma_fills_on(inst, cb, RttView { queues, ..state }, channels, fills);
}

proof fn lemma_services(next: PumpNext, round: RoundView)
    requires
        next.services(round),
    ensures
        keeps(
            RttView { servers: round.rtt.servers + round.rest, ..round.rtt },
            next.state(),
        ),
{
    let servers = round.rtt.servers + round.rest;
    if round.rest.len() == 0 {
        lemma_fills(next, round.inst, round.cb, round.rtt);
        assert(servers =~= round.rtt.servers);
    } else {
        assert(round.rtt.servers.push(round.rest[0]) + round.rest.drop_first() =~= servers);
    }
}

proof fn lemma_turns(
    next: PumpNext,
    round: RoundView,
    server: ServerView,
    others: Seq<u64>,
    got: Seq<u8>,
)
    requires
        next.turns(round, server, others, got),
    ensures
        keeps(round.whole(server), next.state()),
{
    if others.len() == 0 {
        let queues = queued_up(round.rtt.queues, server.channel, got);
        let after = RoundView {
            rtt: RttView { servers: round.rtt.servers.push(server), queues, ..round.rtt },
            ..round
        };
        lemma_services(next, after);
        newest_of_newest(waits(round.rtt.queues, server.channel) + got, Seq::empty());
    }
}

/// The clients of a server do not matter for what is kept.
proof fn lemma_clients(round: RoundView, a: ServerView, b: ServerView)
    requires
        a.port == b.port,
        a.channel == b.channel,
    ensures
        keeps(round.whole(a), round.whole(b)),
{
    assert(roster(round.whole(a).servers) =~= roster(round.whole(b).servers));
}

proof fn lemma_drains(next: PumpNext, inst: u32, cb: u64, state: RttView, drains: DrainsNext)
    requires
        next.after_drains(inst, cb, state, drains),
    ensures
        keeps(state, next.state()),
{
    if let Next::Done(outputs) = drains {
        let round = RoundView {
            inst,
            cb,
            rtt: RttView { servers: Seq::empty(), ..state },
            outputs: told(outputs@),
            rest: state.servers,
        };
        lemma_services(next, round);
        assert(round.rtt.servers + round.rest =~= state.servers);
    }
}

proof fn lemma_draining(next: PumpNext, inst: u32, cb: u64, state: RttView)
    requires
        next.drains(inst, cb, state),
    ensures
        keeps(state, next.state()),
{
    let (channels, drains) = choose|channels: Seq<u32>, drains: DrainsNext| #[trigger]
        lists_served(channels, state.servers) && #[trigger] Drains::goes_on(
            inst,
            cb,
            channels,
            Seq::empty(),
            drains,
        ) && next.after_drains(inst, cb, state, drains);
    lemma_drains(next, inst, cb, state, drains);
}

proof fn lemma_locate(next: PumpNext, inst: u32, state: RttView, locate: LocateNext)
    requires
        next.after_locate(inst, state, locate),
    ensures
        keeps(state, next.state()),
{
    if let Next::Done(found) = locate {
        if let Some(block) = block_found(found) {
            lemma_draining(next, inst, block.cb, state.with_block(block));
        }
    }
}

/// The pump goes on from `now` to `next`, whatever the target or a socket answers.
pub open spec fn steps(now: PumpNext, next: PumpNext) -> bool {
    match now {
        PumpNext::Memory(_, wait) => exists|reply: Reply| #[trigger] wait.continues(reply, next),
        PumpNext::Accept(_, wait) => exists|r: Option<u64>| #[trigger] wait.goes_on(r, next),
        PumpNext::Receive(_, _, wait) => exists|r: Received| #[trigger] wait.goes_on(r, next),
        PumpNext::Send(_, _, _, wait) => exists|r: Sent| #[trigger] wait.goes_on(r, next),
        PumpNext::Done(_) => false,
    }
}

proof fn lemma_memory(wait: MemoryWait, reply: Reply, next: PumpNext)
    requires
        wait.continues(reply, next),
    ensures
        keeps(wait.state(), next.state()),
{
    match wait {
        MemoryWait::Resolving { inst, rtt, locate } => {
            let then = choose|then: LocateNext| #[trigger]
                locate.continues(reply, then) && next.after_locate(inst, rtt@, then);
            lemma_locate(next, inst, rtt@, then);
        },
        MemoryWait::Draining { inst, cb, rtt, drains } => {
            let then = choose|then: DrainsNext| #[trigger]
                drains.continues(reply, then) && next.after_drains(inst, cb, rtt@, then);
            lemma_drains(next, inst, cb, rtt@, then);
        },
        MemoryWait::Filling(fills) => {
            let then = choose|then: FillsNext| #[trigger]
                fills.continues(reply, then) && next.after_fills(then);
            let fill = choose|fill: FillNext| #[trigger]
                fills.fill.continues(reply, fill) && fills.after_fill(fill, then);
            if let Next::Done(r) = fill {
                let state = RttView {
                    queues: taken(fills.rtt@.queues, fills.ch, r),
                    ..fills.rtt@
                };
                lemma_fills_on(fills.inst, fills.cb, state, fills.rest@, then);
            }
        },
    }
}

/// Whatever the target and the sockets answer, no step of the pump changes which channel
/// is served on which port, the region to search or the count of polls, and none lets
/// more wait for a channel than may.
pub proof fn every_step_keeps(now: PumpNext, next: PumpNext)
    requires
        steps(now, next),
    ensures
        keeps(now.state(), next.state()),
        now.state().wf() ==> next.state().wf(),
{
    match now {
        PumpNext::Memory(_, wait) => {
            let reply = choose|reply: Reply| #[trigger] wait.continues(reply, next);
            lemma_memory(wait, reply, next);
        },
        PumpNext::Accept(_, wait) => {
            let r = choose|r: Option<u64>| #[trigger] wait.goes_on(r, next);
            let server = match r {
                Some(client) => ServerView {
                    clients: wait.server@.clients.push(client),
                    ..wait.server@
                },
                None => ServerView { clients: Seq::empty(), ..wait.server@ },
            };
            lemma_clients(wait.round@, wait.server@, server);
            if r is None {
                lemma_turns(next, wait.round@, server, wait.server@.clients, Seq::empty());
            }
        },
        PumpNext::Receive(_, _, wait) => {
            let r = choose|r: Received| #[trigger] wait.goes_on(r, next);
            let turn = wait.turn@;
            lemma_clients(turn.round, turn.server, turn.stays());
            if next.turns(turn.round, turn.server, turn.others, turn.got) {
                lemma_turns(next, turn.round, turn.server, turn.others, turn.got);
            } else if next.turns(turn.round, turn.stays(), turn.others, turn.got) {
                lemma_turns(next, turn.round, turn.stays(), turn.others, turn.got);
            }
        },
        PumpNext::Send(_, _, _, wait) => {
            let turn = wait.turn@;
            lemma_clients(turn.round, turn.server, turn.stays());
            if next.turns(turn.round, turn.server, turn.others, turn.got) {
                lemma_turns(next, turn.round, turn.server, turn.others, turn.got);
            } else {
                lemma_turns(next, turn.round, turn.stays(), turn.others, turn.got);
            }
        },
        PumpNext::Done(_) => {},
    }
    lemma_ports(now.state().servers, next.state().servers);
}

/// The beginning of a pump keeps what every step keeps.
proof fn lemma_pumps(next: PumpNext, inst: u32, state: RttView)
    requires
        next.pumps(inst, state),
    ensures
        keeps(state, next.state()),
{
    if let Some(cb) = state.control_block {
        lemma_draining(next, inst, cb, state);
    } else if let Some((addr, size, id)) = state.search {
        let locate = choose|locate: LocateNext| #[trigger]
            Locate::begins(inst, true, addr, size, encode_utf8(id), locate) && next.after_locate(
                inst,
                state,
                locate,
            );
        lemma_locate(next, inst, state, locate);
    }
}

/// Every state that a pump reaches, whatever the target and the sockets answer on the way,
/// has the servers, the region to search and the count of polls that the pump began with,
/// and in none does more wait for a channel than may.
pub proof fn every_reachable_state_keeps(inst: u32, state: RttView, path: Seq<PumpNext>, n: int)
    requires
        0 <= n < path.len(),
        path[0].pumps(inst, state),
        forall|i: int| 0 <= i < path.len() - 1 ==> #[trigger] steps(path[i], path[i + 1]),
    ensures
        keeps(state, path[n].state()),
        state.wf() ==> path[n].state().wf(),
    decreases n,
{
    if n == 0 {
        lemma_pumps(path[0], inst, state);
    } else {
        every_reachable_state_keeps(inst, state, path, n - 1);
        assert(steps(path[n - 1], path[n - 1 + 1]));
        every_step_keeps(path[n - 1], path[n]);
    }
    lemma_ports(state.servers, path[n].state().servers);
}

/// A client is only ever sent what its own server's channel had to say.
pub proof fn clients_hear_their_channel(now: PumpNext, next: PumpNext)
    requires
        steps(now, next),
        next is Send,
    ensures
        next matches PumpNext::Send(port, client, bytes, wait) && {
            let turn = wait.turn@;
            &&& port == turn.server.port
            &&& client == turn.client
            &&& output_for(turn.round.outputs, turn.server.channel) == Some(bytes@)
        },
{
    match now {
        PumpNext::Receive(_, _, wait) => {
            let r = choose|r: Received| #[trigger] wait.goes_on(r, next);
            assert(wait.goes_on(r, next));
        },
        PumpNext::Memory(_, wait) => {
            let reply = choose|reply: Reply| #[trigger] wait.continues(reply, next);
            assert(wait.continues(reply, next));
        },
        PumpNext::Accept(_, wait) => {
            let r = choose|r: Option<u64>| #[trigger] wait.goes_on(r, next);
            assert(wait.goes_on(r, next));
        },
        PumpNext::Send(_, _, _, wait) => {
            let r = choose|r: Sent| #[trigger] wait.goes_on(r, next);
            assert(wait.goes_on(r, next));
        },
        PumpNext::Done(_) => {},
    }
}

/// What has come in for channel `ch` so far and waits to be delivered.
pub open spec fn stream(next: PumpNext, ch: u32) -> Seq<u8> {
    let queue = waits(next.state().queues, ch);
    match next {
        PumpNext::Receive(_, _, wait) if wait.turn@.server.channel == ch => newest(
            queue + wait.turn@.got,
        ),
        PumpNext::Send(_, _, _, wait) if wait.turn@.server.channel == ch => newest(
            queue + wait.turn@.got,
        ),
        _ => queue,
    }
}

/// The bytes that were read from a client.
pub open spec fn read_of(r: Received) -> Seq<u8> {
    match r {
        Received::Bytes(bytes) => bytes@,
        _ => Seq::empty(),
    }
}

/// The end of a turn keeps what has come in.
proof fn lemma_stream(
    next: PumpNext,
    round: RoundView,
    server: ServerView,
    others: Seq<u64>,
    got: Seq<u8>,
    ch: u32,
)
    requires
        bounded(round.rtt.queues),
        next.turns(round, server, others, got),
        round.rtt.num_down is None || has_buffer(round.rtt.num_down, ch),
    ensures
        stream(next, ch) == (if server.channel == ch {
            newest(waits(round.rtt.queues, ch) + got)
        } else {
            waits(round.rtt.queues, ch)
        }),
{
    let queue = waits(round.rtt.queues, ch);
    assert(newest(queue) == queue);
    assert(got.len() == 0 ==> queue + got =~= queue);
    if others.len() == 0 {
        let queues = queued_up(round.rtt.queues, server.channel, got);
        let after = RttView { servers: round.rtt.servers.push(server), queues, ..round.rtt };
        if round.rest.len() == 0 {
            assert(next.fills(round.inst, round.cb, after));
            let fills = choose|fills: FillsNext| #[trigger]
                Fills::begins(round.inst, round.cb, after, fills) && next.after_fills(fills);
            let kept = deliverable(queues, after.num_down);
            let channels = choose|channels: Seq<u32>| #[trigger]
                lists_waiting(channels, kept, after.num_down) && Fills::goes_on(
                    round.inst,
                    round.cb,
                    RttView { queues: kept, ..after },
                    channels,
                    fills,
                );
            lemma_fills_on(
                round.inst,
                round.cb,
                RttView { queues: kept, ..after },
                channels,
                fills,
            );
            assert(waits(kept, ch) == waits(queues, ch));
        }
    }
}

/// What a client sends waits for the channel of its server, behind what has come in
/// before, and no step of the round over the clients loses any of it, unless the channel
/// is known to have no down buffer; only where more comes in than may wait are the oldest
/// bytes given up.
pub proof fn input_waits_in_order(now: PumpNext, r: Received, next: PumpNext, ch: u32)
    requires
        bounded(now.state().queues),
        now.state().num_down is None || has_buffer(now.state().num_down, ch),
        match now {
            PumpNext::Receive(_, _, wait) => wait.goes_on(r, next),
            PumpNext::Send(_, _, _, wait) => read_of(r).len() == 0 && steps(now, next),
            PumpNext::Accept(_, wait) => read_of(r).len() == 0 && steps(now, next),
            _ => false,
        },
    ensures
        ({
            let came = match now {
                PumpNext::Receive(_, _, wait) if wait.turn@.server.channel == ch => read_of(r),
                _ => Seq::empty(),
            };
            stream(next, ch) == newest(stream(now, ch) + came)
        }),
{
    let queue = waits(now.state().queues, ch);
    assert(newest(queue) == queue);
    match now {
        PumpNext::Receive(_, _, wait) => {
            let turn = wait.turn@;
            newest_of_newest(queue + turn.got, read_of(r));
            assert(queue + turn.got + read_of(r) =~= queue + (turn.got + read_of(r)));
            assert(newest(queue + turn.got) + Seq::<u8>::empty() =~= newest(queue + turn.got));
            assert(queue + Seq::<u8>::empty() =~= queue);
            if next.turns(turn.round, turn.server, turn.others, turn.got) {
                lemma_stream(next, turn.round, turn.server, turn.others, turn.got, ch);
            } else if next.turns(turn.round, turn.stays(), turn.others, turn.got) {
                lemma_stream(next, turn.round, turn.stays(), turn.others, turn.got, ch);
            }
            assert(read_of(r).len() == 0 ==> read_of(r) =~= Seq::empty());
        },
        PumpNext::Send(_, _, _, wait) => {
            let turn = wait.turn@;
            let s = choose|s: Sent| #[trigger] wait.goes_on(s, next);
            newest_of_newest(queue + turn.got, Seq::empty());
            assert(newest(queue + turn.got) + Seq::<u8>::empty() =~= newest(queue + turn.got));
            assert(queue + Seq::<u8>::empty() =~= queue);
            if next.turns(turn.round, turn.server, turn.others, turn.got) {
                lemma_stream(next, turn.round, turn.server, turn.others, turn.got, ch);
            } else {
                lemma_stream(next, turn.round, turn.stays(), turn.others, turn.got, ch);
            }
        },
        PumpNext::Accept(_, wait) => {
            let c = choose|c: Option<u64>| #[trigger] wait.goes_on(c, next);
            assert(queue + Seq::<u8>::empty() =~= queue);
            if c is None {
                lemma_stream(
                    next,
                    wait.round@,
                    ServerView { clients: Seq::empty(), ..wait.server@ },
                    wait.server@.clients,
                    Seq::empty(),
                    ch,
                );
            }
        },
        _ => {},
    }
}

/// Servers with the same roster have the same ports.
proof fn lemma_ports(a: Seq<ServerView>, b: Seq<ServerView>)
    requires
        roster(a) == roster(b),
    ensures
        distinct_ports(a) ==> distinct_ports(b),
{
    assert(roster(a).len() == a.len() && roster(b).len() == b.len());
    assert forall|i: int| 0 <= i < b.len() implies a[i].port == (#[trigger] b[i]).port by {
        assert(roster(a)[i] == roster(b)[i]);
    }
}

/// 1 for a poll that pumps, 0 for any other.
pub open spec fn pumping(count: u32) -> int {
    if count % 4 == 0 {
        1
    } else {
        0
    }
}

/// Out of four polls in a row one pumps, also where the counter starts again.
pub proof fn one_poll_in_four(counter: u32)
    ensures
        ({
            let a = counter.wrapping_add(1);
            let b = a.wrapping_add(1);
            let c = b.wrapping_add(1);
            let d = c.wrapping_add(1);
            pumping(a) + pumping(b) + pumping(c) + pumping(d) == 1
        }),
{
    let a = counter.wrapping_add(1);
    let b = a.wrapping_add(1);
    let c = b.wrapping_add(1);
    let d = c.wrapping_add(1);
    assert(a == (counter + 1) % 0x1_0000_0000 && b == (counter + 2) % 0x1_0000_0000 && c == (counter
        + 3) % 0x1_0000_0000 && d == (counter + 4) % 0x1_0000_0000);
}

} // verus!
