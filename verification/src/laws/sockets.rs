//! The sockets: who stays connected, what is sent to whom, and what becomes of what comes
//! in.

use crate::inputs::{deliverable, lists_waiting, Fills, FillsNext};
use crate::laws::state::{about, lemma_queue, lemma_servers, queue_of, servers_of};
use crate::memory::Reply;
use crate::model::smaller;
use crate::outputs::{told, Output};
use crate::pump::{
    input_waits_in_order, output_for, steps, stream, AcceptWait, MemoryWait, PumpNext, ReceiveWait,
    Received, Round, RoundView, SendWait, Sent, Turn,
};
use crate::rtt::{bounded, newest, waits, Rtt, RttView, ServerView};
use vstd::prelude::*;

verus! {

/// What a pump is told.
pub enum Answer {
    /// The reply to a memory access.
    Memory(Reply),
    /// Whether a connection was there.
    Accepted(Option<u64>),
    /// What came of reading from a client.
    Received(Received),
    /// What came of writing to a client.
    Sent(Sent),
}

/// Told `answer`, a pump that wanted `now` wants `next`.
pub open spec fn goes(now: PumpNext, answer: Answer, next: PumpNext) -> bool {
    match (now, answer) {
        (PumpNext::Memory(_, wait), Answer::Memory(reply)) => call_ensures(
            MemoryWait::resume,
            (wait, reply),
            next,
        ),
        (PumpNext::Accept(_, wait), Answer::Accepted(client)) => call_ensures(
            AcceptWait::accepted,
            (wait, client),
            next,
        ),
        (PumpNext::Receive(_, _, wait), Answer::Received(r)) => call_ensures(
            ReceiveWait::received,
            (wait, r),
            next,
        ),
        (PumpNext::Send(_, _, _, wait), Answer::Sent(r)) => call_ensures(
            SendWait::sent,
            (wait, r),
            next,
        ),
        _ => false,
    }
}

/// The state of RTT that a pump holds.
pub open spec fn rtt_of(next: PumpNext) -> Rtt {
    match next {
        PumpNext::Memory(_, MemoryWait::Resolving { rtt, .. }) => rtt,
        PumpNext::Memory(_, MemoryWait::Draining { rtt, .. }) => rtt,
        PumpNext::Memory(_, MemoryWait::Filling(fills)) => fills.rtt,
        PumpNext::Accept(_, wait) => wait.round.rtt,
        PumpNext::Receive(_, _, wait) => wait.turn.round.rtt,
        PumpNext::Send(_, _, _, wait) => wait.turn.round.rtt,
        PumpNext::Done(rtt) => rtt,
    }
}

/// The servers that have not had their turn.
pub open spec fn to_come(round: Round) -> Seq<(u16, u32, Seq<u64>)> {
    Seq::new(round.rest@.len(), |i: int| about(round.rest@[i]))
}

/// The server whose client has its turn, with all its clients: those that have had their
/// turn, the one that has it, and those that come after it.
pub open spec fn at_turn(turn: Turn) -> (u16, u32, Seq<u64>) {
    (
        turn.server.port,
        turn.server.channel,
        turn.server.clients@ + seq![turn.client] + turn.others@,
    )
}

/// All servers, in their order, with their clients.
pub open spec fn present(next: PumpNext) -> Seq<(u16, u32, Seq<u64>)> {
    match next {
        PumpNext::Memory(_, _) => servers_of(rtt_of(next)),
        PumpNext::Accept(_, wait) => servers_of(wait.round.rtt) + seq![about(wait.server)]
            + to_come(wait.round),
        PumpNext::Receive(_, _, wait) => servers_of(wait.turn.round.rtt) + seq![
            at_turn(wait.turn),
        ] + to_come(wait.turn.round),
        PumpNext::Send(_, _, _, wait) => servers_of(wait.turn.round.rtt) + seq![
            at_turn(wait.turn),
        ] + to_come(wait.turn.round),
        PumpNext::Done(rtt) => servers_of(rtt),
    }
}

/// Which of them has its turn.
pub open spec fn whose(next: PumpNext) -> int {
    rtt_of(next).servers@.len() as int
}

/// The clients of the server that has its turn, without the one that has it.
pub open spec fn without(turn: Turn) -> Seq<u64> {
    turn.server.clients@ + turn.others@
}

/// Servers in the words of the state.
pub open spec fn roll(servers: Seq<ServerView>) -> Seq<(u16, u32, Seq<u64>)> {
    servers.map_values(|s: ServerView| (s.port, s.channel, s.clients))
}

pub proof fn lemma_roll(rtt: Rtt)
    ensures
        servers_of(rtt) == roll(rtt@.servers),
{
    lemma_servers(rtt);
    assert(servers_of(rtt) =~= roll(rtt@.servers));
}

proof fn lemma_to_come(round: Round)
    ensures
        to_come(round) == roll(round@.rest),
{
    assert forall|i: int| 0 <= i < round.rest@.len() implies #[trigger] to_come(round)[i] == roll(
        round@.rest,
    )[i] by {
        assert(round@.rest[i] == round.rest@[i]@);
    }
    assert(to_come(round) =~= roll(round@.rest));
}

/// A round of fills keeps the servers.
proof fn lemma_fills_keep(inst: u32, cb: u64, state: RttView, rest: Seq<u32>, fills: FillsNext)
    requires
        Fills::goes_on(inst, cb, state, rest, fills),
    ensures
        match fills {
            crate::dialogue::Next::Ask(_, fills) => fills.rtt@ == state,
            crate::dialogue::Next::Done(rtt) => rtt@ == state,
        },
    decreases rest.len(),
{
    if rest.len() > 0 && waits(state.queues, rest[0]).len() == 0 {
        lemma_fills_keep(inst, cb, state, rest.drop_first(), fills);
    }
}

proof fn lemma_fills_present(next: PumpNext, inst: u32, cb: u64, state: RttView)
    requires
        next.fills(inst, cb, state),
    ensures
        present(next) == roll(state.servers),
        next is Memory || next is Done,
{
    let fills = choose|fills: FillsNext| #[trigger]
        Fills::begins(inst, cb, state, fills) && next.after_fills(fills);
    let queues = deliverable(state.queues, state.num_down);
    let channels = choose|channels: Seq<u32>| #[trigger]
        lists_waiting(channels, queues, state.num_down) && Fills::goes_on(
            inst,
            cb,
            RttView { queues, ..state },
            channels,
            fills,
        );
    lemma_fills_keep(inst, cb, RttView { queues, ..state }, channels, fills);
    lemma_roll(rtt_of(next));
}

pub proof fn lemma_services_present(next: PumpNext, round: RoundView)
    requires
        next.services(round),
    ensures
        present(next) == roll(round.rtt.servers) + roll(round.rest),
        next !is Receive,
        next !is Send,
        round.rest.len() > 0 ==> next is Accept && next->Accept_0 == round.rest[0].port,
        round.rest.len() == 0 ==> next !is Accept,
{
    if round.rest.len() == 0 {
        lemma_fills_present(next, round.inst, round.cb, round.rtt);
        assert(roll(round.rtt.servers) + roll(round.rest) =~= roll(round.rtt.servers));
    } else {
        let wait = next->Accept_1;
        lemma_roll(wait.round.rtt);
        lemma_to_come(wait.round);
        let server = round.rest[0];
        assert(about(wait.server) == (server.port, server.channel, server.clients));
        assert(seq![about(wait.server)] + roll(round.rest.drop_first()) =~= roll(round.rest));
        assert(present(next) =~= roll(round.rtt.servers) + roll(round.rest));
    }
}

proof fn lemma_turns_present(
    next: PumpNext,
    round: RoundView,
    server: ServerView,
    others: Seq<u64>,
    got: Seq<u8>,
)
    requires
        next.turns(round, server, others, got),
    ensures
        present(next) == roll(round.rtt.servers) + seq![
            (server.port, server.channel, server.clients + others),
        ] + roll(round.rest),
        next !is Send,
        others.len() > 0 ==> next is Receive && next->Receive_0 == server.port && next->Receive_1
            == others[0],
        others.len() == 0 && round.rest.len() > 0 ==> next is Accept && next->Accept_0
            == round.rest[0].port,
        others.len() == 0 && round.rest.len() == 0 ==> next is Memory || next is Done,
{
    if others.len() == 0 {
        let after = RoundView {
            rtt: RttView {
                servers: round.rtt.servers.push(server),
                queues: crate::pump::queued_up(round.rtt.queues, server.channel, got),
                ..round.rtt
            },
            ..round
        };
        lemma_services_present(next, after);
        assert(server.clients + others =~= server.clients);
        assert(roll(round.rtt.servers.push(server)) =~= roll(round.rtt.servers) + seq![
            (server.port, server.channel, server.clients + others),
        ]);
    } else {
        let turn = next->Receive_2.turn;
        lemma_roll(turn.round.rtt);
        lemma_to_come(turn.round);
        assert(turn@.server == server);
        assert(turn.server.clients@ + seq![turn.client] + turn.others@ =~= server.clients
            + others);
    }
}

/// Who is connected changes with what happens on the sockets, and in no other way: whoever
/// is accepted is there from then on, and whoever has closed its end or broken the
/// connection is gone. All others stay, and all servers, in their order. In particular a
/// client that does not take what it is sent stays.
pub proof fn only_the_gone_are_gone(now: PumpNext, answer: Answer, next: PumpNext)
    requires
        goes(now, answer, next),
        !(now is Memory),
    ensures
        ({
            let here = present(now)[whose(now)];
            match (now, answer) {
                (PumpNext::Accept(_, wait), Answer::Accepted(Some(client))) => present(next)
                    == present(now).update(whose(now), (here.0, here.1, here.2.push(client))),
                (PumpNext::Receive(_, _, wait), Answer::Received(r)) => present(next) == (
                if r is Failed || r is Bytes && r->Bytes_0@.len() == 0 {
                    present(now).update(whose(now), (here.0, here.1, without(wait.turn)))
                } else {
                    present(now)
                }),
                (PumpNext::Send(_, _, _, wait), Answer::Sent(r)) => present(next) == (
                if r is Failed {
                    present(now).update(whose(now), (here.0, here.1, without(wait.turn)))
                } else {
                    present(now)
                }),
                _ => present(next) == present(now),
            }
        }),
{
    lemma_roll(rtt_of(now));
    match (now, answer) {
        (PumpNext::Accept(_, wait), Answer::Accepted(client)) => {
            lemma_to_come(wait.round);
            lemma_servers(wait.round.rtt);
            match client {
                Some(client) => {
                    let then = next->Accept_1;
                    lemma_roll(then.round.rtt);
                    lemma_to_come(then.round);
                    assert(about(then.server) == (
                        wait.server.port,
                        wait.server.channel,
                        wait.server.clients@.push(client),
                    ));
                    assert(present(next) =~= present(now).update(
                        whose(now),
                        about(then.server),
                    ));
                },
                None => {
                    let server = ServerView { clients: Seq::empty(), ..wait.server@ };
                    lemma_turns_present(
                        next,
                        wait.round@,
                        server,
                        wait.server@.clients,
                        Seq::empty(),
                    );
                    assert(server.clients + wait.server@.clients =~= wait.server.clients@);
                    assert(present(next) =~= present(now));
                },
            }
        },
        (PumpNext::Receive(_, _, wait), Answer::Received(r)) => {
            lemma_turn(now, next, wait.turn);
        },
        (PumpNext::Send(_, _, _, wait), Answer::Sent(r)) => {
            lemma_turn(now, next, wait.turn);
        },
        _ => {},
    }
}

/// What becomes of the servers in a client's turn.
proof fn lemma_turn(now: PumpNext, next: PumpNext, turn: Turn)
    requires
        now is Receive && now->Receive_2.turn == turn || now is Send && now->Send_3.turn == turn,
    ensures
        next.turns(turn@.round, turn@.server, turn@.others, turn@.got) ==> present(next)
            == present(now).update(
            whose(now),
            (turn.server.port, turn.server.channel, without(turn)),
        ),
        next.turns(turn@.round, turn@.stays(), turn@.others, turn@.got) ==> present(next)
            == present(now),
        next is Receive && next->Receive_2.turn@.round == turn@.round
            && next->Receive_2.turn@.server == turn@.server && next->Receive_2.turn@.client
            == turn@.client && next->Receive_2.turn@.others == turn@.others ==> present(next)
            == present(now),
        next is Send && next->Send_3.turn@ == turn@ ==> present(next) == present(now),
        present(now)[whose(now)] == at_turn(turn),
{
    lemma_roll(turn.round.rtt);
    lemma_to_come(turn.round);
    lemma_servers(turn.round.rtt);
    if next.turns(turn@.round, turn@.server, turn@.others, turn@.got) {
        lemma_turns_present(next, turn@.round, turn@.server, turn@.others, turn@.got);
        assert(present(next) =~= present(now).update(
            whose(now),
            (turn.server.port, turn.server.channel, without(turn)),
        ));
    }
    if next.turns(turn@.round, turn@.stays(), turn@.others, turn@.got) {
        lemma_turns_present(next, turn@.round, turn@.stays(), turn@.others, turn@.got);
        assert(turn@.stays().clients + turn@.others =~= turn.server.clients@ + seq![turn.client]
            + turn.others@);
    }
    if next is Receive {
        lemma_roll(next->Receive_2.turn.round.rtt);
        lemma_to_come(next->Receive_2.turn.round);
    }
    if next is Send {
        lemma_roll(next->Send_3.turn.round.rtt);
        lemma_to_come(next->Send_3.turn.round);
    }
}

/// What channel `ch` had to say, in a round.
pub open spec fn said(outputs: Seq<Output>, ch: u32, bytes: Seq<u8>) -> bool {
    exists|i: int|
        0 <= i < outputs.len() && (#[trigger] outputs[i]).channel == ch && outputs[i].bytes@
            == bytes && forall|j: int| 0 <= j < i ==> (#[trigger] outputs[j]).channel != ch
}

/// Channel `ch` had nothing to say.
pub open spec fn silent(outputs: Seq<Output>, ch: u32) -> bool {
    forall|i: int| 0 <= i < outputs.len() ==> (#[trigger] outputs[i]).channel != ch
}

/// What a channel had to say, in the words of the pump.
pub proof fn lemma_said(outputs: Seq<Output>, ch: u32)
    ensures
        match output_for(told(outputs), ch) {
            Some(bytes) => said(outputs, ch, bytes) && !silent(outputs, ch),
            None => silent(outputs, ch),
        },
    decreases outputs.len(),
{
    if outputs.len() > 0 {
        let rest = outputs.drop_first();
        assert(told(outputs)[0] == (outputs[0].channel, outputs[0].bytes@));
        assert(told(outputs).drop_first() =~= told(rest));
        if outputs[0].channel != ch {
            lemma_said(rest, ch);
            match output_for(told(rest), ch) {
                Some(bytes) => {
                    let i = choose|i: int|
                        0 <= i < rest.len() && (#[trigger] rest[i]).channel == ch && rest[i].bytes@
                            == bytes && forall|j: int|
                            0 <= j < i ==> (#[trigger] rest[j]).channel != ch;
                    assert(outputs[i + 1] == rest[i]);
                    assert forall|j: int| 0 <= j < i + 1 implies (#[trigger] outputs[j]).channel
                        != ch by {
                        if j > 0 {
                            assert(rest[j - 1] == outputs[j]);
                            assert(rest[j - 1].channel != ch);
                        }
                    }
                },
                None => {
                    assert forall|i: int| 0 <= i < outputs.len() implies (
                    #[trigger] outputs[i]).channel != ch by {
                        if i > 0 {
                            assert(rest[i - 1] == outputs[i]);
                            assert(rest[i - 1].channel != ch);
                        }
                    }
                },
            }
        }
    } else {
        assert(told(outputs) =~= Seq::empty());
    }
}

/// The turn of a client is over: the next client of the server has its turn, else the next
/// server, else the servers are through.
pub open spec fn turn_is_over(turn: Turn, next: PumpNext) -> bool {
    if turn.others@.len() > 0 {
        &&& next is Receive
        &&& next->Receive_0 == turn.server.port
        &&& next->Receive_1 == turn.others@[0]
    } else if turn.round.rest@.len() > 0 {
        &&& next is Accept
        &&& next->Accept_0 == turn.round.rest@[0].port
    } else {
        next is Memory || next is Done
    }
}

/// A client is read from until it has nothing more to read, and then it is sent what its
/// channel had to say, if it had anything; then its turn is over. The turn of one that is
/// gone is over at once. So all clients of all servers have their turns, in their order,
/// and every one of them is sent all that its channel had to say.
pub proof fn each_client_has_its_turn(wait: ReceiveWait, r: Received, next: PumpNext)
    requires
        call_ensures(ReceiveWait::received, (wait, r), next),
    ensures
        match r {
            Received::Bytes(bytes) => if bytes@.len() > 0 {
                &&& next is Receive
                &&& next->Receive_0 == wait.turn.server.port
                &&& next->Receive_1 == wait.turn.client
            } else {
                turn_is_over(wait.turn, next)
            },
            Received::Interrupted => {
                &&& next is Receive
                &&& next->Receive_0 == wait.turn.server.port
                &&& next->Receive_1 == wait.turn.client
            },
            Received::Failed => turn_is_over(wait.turn, next),
            Received::WouldBlock => {
                let outputs = wait.turn.round.outputs@;
                let ch = wait.turn.server.channel;
                if silent(outputs, ch) {
                    turn_is_over(wait.turn, next)
                } else {
                    &&& next is Send
                    &&& next->Send_0 == wait.turn.server.port
                    &&& next->Send_1 == wait.turn.client
                    &&& said(outputs, ch, next->Send_2@)
                }
            },
        },
{
    let turn = wait.turn;
    lemma_said(turn.round.outputs@, turn.server.channel);
    lemma_over(turn, next);
}

/// A client that was sent to has had its turn.
pub proof fn a_client_is_sent_to_once(wait: SendWait, r: Sent, next: PumpNext)
    requires
        call_ensures(SendWait::sent, (wait, r), next),
    ensures
        turn_is_over(wait.turn, next),
{
    lemma_over(wait.turn, next);
}

proof fn lemma_over(turn: Turn, next: PumpNext)
    ensures
        next.turns(turn@.round, turn@.server, turn@.others, turn@.got) || next.turns(
            turn@.round,
            turn@.stays(),
            turn@.others,
            turn@.got,
        ) ==> turn_is_over(turn, next),
{
    assert(turn@.round.rest.len() == turn.round.rest@.len());
    if turn.round.rest@.len() > 0 {
        assert(turn@.round.rest[0] == turn.round.rest@[0]@);
    }
    if next.turns(turn@.round, turn@.server, turn@.others, turn@.got) {
        lemma_turns_present(next, turn@.round, turn@.server, turn@.others, turn@.got);
    }
    if next.turns(turn@.round, turn@.stays(), turn@.others, turn@.got) {
        lemma_turns_present(next, turn@.round, turn@.stays(), turn@.others, turn@.got);
    }
}

/// All connections that are there are accepted, on the server's port, then the server's
/// clients have their turns.
pub proof fn all_that_come_are_accepted(wait: AcceptWait, client: Option<u64>, next: PumpNext)
    requires
        call_ensures(AcceptWait::accepted, (wait, client), next),
    ensures
        match client {
            Some(_) => next is Accept && next->Accept_0 == wait.server.port,
            None => if wait.server.clients@.len() > 0 {
                &&& next is Receive
                &&& next->Receive_0 == wait.server.port
                &&& next->Receive_1 == wait.server.clients@[0]
            } else if wait.round.rest@.len() > 0 {
                &&& next is Accept
                &&& next->Accept_0 == wait.round.rest@[0].port
            } else {
                next is Memory || next is Done
            },
        },
{
    if client is None {
        let server = ServerView { clients: Seq::empty(), ..wait.server@ };
        assert(wait.round@.rest.len() == wait.round.rest@.len());
        if wait.round.rest@.len() > 0 {
            assert(wait.round@.rest[0] == wait.round.rest@[0]@);
        }
        lemma_turns_present(next, wait.round@, server, wait.server@.clients, Seq::empty());
    }
}

/// The round of the servers.
pub open spec fn round_of(next: PumpNext) -> Option<Round> {
    match next {
        PumpNext::Accept(_, wait) => Some(wait.round),
        PumpNext::Receive(_, _, wait) => Some(wait.turn.round),
        PumpNext::Send(_, _, _, wait) => Some(wait.turn.round),
        _ => None,
    }
}

/// What the channels had to say stays as it is while the servers have their turns, and so
/// does all of the state of RTT but the servers and what waits.
pub proof fn a_round_keeps_what_was_said(now: PumpNext, answer: Answer, next: PumpNext, ch: u32)
    requires
        goes(now, answer, next),
        round_of(now) is Some,
        round_of(next) is Some,
    ensures
        told(round_of(next)->Some_0.outputs@) == told(round_of(now)->Some_0.outputs@),
        silent(round_of(next)->Some_0.outputs@, ch) == silent(
            round_of(now)->Some_0.outputs@,
            ch,
        ),
        forall|bytes: Seq<u8>| #[trigger]
            said(round_of(next)->Some_0.outputs@, ch, bytes) ==> said(
                round_of(now)->Some_0.outputs@,
                ch,
                bytes,
            ),
        round_of(next)->Some_0.inst == round_of(now)->Some_0.inst,
        round_of(next)->Some_0.cb == round_of(now)->Some_0.cb,
        rtt_of(next).num_up == rtt_of(now).num_up,
        rtt_of(next).num_down == rtt_of(now).num_down,
        rtt_of(next).control_block == rtt_of(now).control_block,
        rtt_of(next).poll_counter == rtt_of(now).poll_counter,
{
    let a = round_of(now)->Some_0;
    let b = round_of(next)->Some_0;
    assert(b@.outputs == a@.outputs);
    lemma_said(a.outputs@, ch);
    lemma_said(b.outputs@, ch);
    assert forall|bytes: Seq<u8>| #[trigger] said(b.outputs@, ch, bytes) implies said(
        a.outputs@,
        ch,
        bytes,
    ) by {
        lemma_said_one(b.outputs@, ch, bytes);
    }
    assert(b.rtt@.num_up == a.rtt@.num_up);
}

/// A channel has said one thing.
proof fn lemma_said_one(outputs: Seq<Output>, ch: u32, bytes: Seq<u8>)
    requires
        said(outputs, ch, bytes),
    ensures
        output_for(told(outputs), ch) == Some(bytes),
{
    lemma_said(outputs, ch);
    let i = choose|i: int|
        0 <= i < outputs.len() && (#[trigger] outputs[i]).channel == ch && outputs[i].bytes@
            == bytes && forall|j: int| 0 <= j < i ==> (#[trigger] outputs[j]).channel != ch;
    let other = output_for(told(outputs), ch)->Some_0;
    let k = choose|k: int|
        0 <= k < outputs.len() && (#[trigger] outputs[k]).channel == ch && outputs[k].bytes@
            == other && forall|j: int| 0 <= j < k ==> (#[trigger] outputs[j]).channel != ch;
    if i < k {
        assert(outputs[i].channel != ch);
    }
    if k < i {
        assert(outputs[k].channel != ch);
    }
}

/// The last 65536 of some bytes, or all where there are fewer.
pub open spec fn latest(bytes: Seq<u8>) -> Seq<u8> {
    bytes.skip(bytes.len() - smaller(bytes.len() as int, 65536))
}

/// What has come in for channel `ch` and waits: its queue, and behind it what the clients
/// of the server that has its turn have sent, if that is its channel.
pub open spec fn typed(next: PumpNext, ch: u32) -> Seq<u8> {
    let queue = queue_of(rtt_of(next).pending_down@, ch);
    match next {
        PumpNext::Receive(_, _, wait) if wait.turn.server.channel == ch => latest(
            queue + wait.turn.got@,
        ),
        PumpNext::Send(_, _, _, wait) if wait.turn.server.channel == ch => latest(
            queue + wait.turn.got@,
        ),
        _ => queue,
    }
}

/// What is read from a client of channel `ch`.
pub open spec fn came_in(now: PumpNext, answer: Answer, ch: u32) -> Seq<u8> {
    match (now, answer) {
        (PumpNext::Receive(_, _, wait), Answer::Received(Received::Bytes(bytes))) => if
            wait.turn.server.channel == ch {
            bytes@
        } else {
            Seq::empty()
        },
        _ => Seq::empty(),
    }
}

proof fn lemma_typed(next: PumpNext, ch: u32)
    ensures
        typed(next, ch) == stream(next, ch),
        queue_of(rtt_of(next).pending_down@, ch) == waits(next.state().queues, ch),
{
    lemma_queue(rtt_of(next).pending_down@, ch);
    assert forall|bytes: Seq<u8>| latest(bytes) == #[trigger] newest(bytes) by {
        assert(latest(bytes) =~= newest(bytes));
    }
    let queue = queue_of(rtt_of(next).pending_down@, ch);
    match next {
        PumpNext::Receive(_, _, wait) => {
            assert(latest(queue + wait.turn.got@) == newest(queue + wait.turn.got@));
        },
        PumpNext::Send(_, _, _, wait) => {
            assert(latest(queue + wait.turn.got@) == newest(queue + wait.turn.got@));
        },
        _ => {},
    }
}

/// What a client sends waits for the channel of its server, behind what has come in
/// before, and nothing that happens on the sockets loses any of it: whatever waits for a
/// channel is what has come in for it, in its order, the last 65536 bytes of it. Only where
/// the channel is known to have no down buffer is it dropped in the end.
pub proof fn what_comes_in_waits(now: PumpNext, answer: Answer, next: PumpNext, ch: u32)
    requires
        goes(now, answer, next),
        !(now is Memory),
        rtt_of(now).num_down matches Some(n) ==> ch < n,
        forall|c: u32| #[trigger] queue_of(rtt_of(now).pending_down@, c).len() <= 65536,
    ensures
        typed(next, ch) == latest(typed(now, ch) + came_in(now, answer, ch)),
        forall|c: u32| #[trigger] queue_of(rtt_of(next).pending_down@, c).len() <= 65536,
{
    assert(bounded(now.state().queues)) by {
        assert forall|c: u32| #[trigger] now.state().queues.contains_key(c) implies
            now.state().queues[c].len() <= crate::rtt::MAX_PENDING by {
            lemma_typed(now, c);
            assert(queue_of(rtt_of(now).pending_down@, c).len() <= 65536);
        }
    }
    lemma_typed(now, ch);
    lemma_typed(next, ch);
    let r = match answer {
        Answer::Received(r) => r,
        _ => Received::WouldBlock,
    };
    match (now, answer) {
        (PumpNext::Accept(_, wait), Answer::Accepted(c)) => {
            assert(wait.goes_on(c, next));
        },
        (PumpNext::Receive(_, _, wait), Answer::Received(x)) => {
            assert(wait.goes_on(x, next));
        },
        (PumpNext::Send(_, _, _, wait), Answer::Sent(x)) => {
            assert(wait.goes_on(x, next));
        },
        _ => {},
    }
    assert(steps(now, next));
    input_waits_in_order(now, r, next, ch);
    crate::pump::every_step_keeps(now, next);
    assert(latest(typed(now, ch) + came_in(now, answer, ch)) =~= newest(
        stream(now, ch) + came_in(now, answer, ch),
    ));
    assert forall|c: u32| #[trigger] queue_of(rtt_of(next).pending_down@, c).len() <= 65536 by {
        lemma_typed(next, c);
    }
}

} // verus!
