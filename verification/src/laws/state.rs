//! The state of RTT, and the commands that change it.

use crate::error::RttError;
use crate::locate::{Block, LocateNext, Located};
use crate::model::smaller;
use crate::rtt::{held, newest, queue_input, views, waits, Bind, Rtt, Server, ServerView};
use std::collections::HashMap;
use vstd::prelude::*;

verus! {

/// What a server is: its port, its channel and its open connections.
pub open spec fn about(server: Server) -> (u16, u32, Seq<u64>) {
    (server.port, server.channel, server.clients@)
}

/// What the servers are.
pub open spec fn servers_of(rtt: Rtt) -> Seq<(u16, u32, Seq<u64>)> {
    Seq::new(rtt.servers@.len(), |i: int| about(rtt.servers@[i]))
}

/// What waits for channel `ch`.
pub open spec fn queue_of(pending: Map<u32, Vec<u8>>, ch: u32) -> Seq<u8> {
    if pending.contains_key(ch) {
        pending[ch]@
    } else {
        Seq::empty()
    }
}

/// The region to search is the same.
pub open spec fn same_search(a: Rtt, b: Rtt) -> bool {
    match (a.search, b.search) {
        (Some((x, y, z)), Some((u, v, w))) => x == u && y == v && z@ == w@,
        (None, None) => true,
        _ => false,
    }
}

/// The control block, and what is known of it, is the same.
pub open spec fn same_block(a: Rtt, b: Rtt) -> bool {
    a.control_block == b.control_block && a.num_up == b.num_up && a.num_down == b.num_down
}

/// What waits is the same, for every channel.
pub open spec fn same_queues(a: Rtt, b: Rtt) -> bool {
    forall|ch: u32| #[trigger]
        queue_of(a.pending_down@, ch) == queue_of(b.pending_down@, ch)
}

/// All is the same.
pub open spec fn same_rtt(a: Rtt, b: Rtt) -> bool {
    &&& same_search(a, b)
    &&& same_block(a, b)
    &&& servers_of(a) == servers_of(b)
    &&& same_queues(a, b)
    &&& a.poll_counter == b.poll_counter
}

/// Some server has the port.
pub open spec fn has_port(rtt: Rtt, port: u16) -> bool {
    exists|i: int| 0 <= i < rtt.servers@.len() && (#[trigger] rtt.servers@[i]).port == port
}

/// What is said of an error.
pub open spec fn said_of(error: RttError) -> Seq<char> {
    match error {
        RttError::Transport(text) => text@,
        RttError::ShortRead => "short memory read"@,
        RttError::SetupNotRun => "rtt setup not run"@,
        RttError::NotFound => "RTT control block not found"@,
        RttError::PortInUse => "port already serving"@,
    }
}

/// An error is said as what it is.
pub proof fn an_error_says_what_it_is(error: &RttError, r: String)
    requires
        call_ensures(RttError::message, (error,), r),
    ensures
        r@ == said_of(*error),
{
}

/// The queue of a channel, in the words of the state.
pub proof fn lemma_queue(pending: Map<u32, Vec<u8>>, ch: u32)
    ensures
        queue_of(pending, ch) == waits(held(pending), ch),
{
}

/// The servers, in the words of the state.
pub proof fn lemma_servers(a: Rtt)
    ensures
        servers_of(a).len() == a@.servers.len() == a.servers@.len(),
        forall|i: int|
            0 <= i < a@.servers.len() ==> #[trigger] servers_of(a)[i] == (
                a@.servers[i].port,
                a@.servers[i].channel,
                a@.servers[i].clients,
            ),
        forall|port: u16| #[trigger] has_port(a, port) == a@.serving(port),
{
    assert forall|i: int| 0 <= i < a@.servers.len() implies #[trigger] servers_of(a)[i] == (
        a@.servers[i].port,
        a@.servers[i].channel,
        a@.servers[i].clients,
    ) by {
        assert(a@.servers[i] == a.servers@[i]@);
    }
    assert forall|port: u16| #[trigger] has_port(a, port) == a@.serving(port) by {
        if has_port(a, port) {
            let i = choose|i: int|
                0 <= i < a.servers@.len() && (#[trigger] a.servers@[i]).port == port;
            assert(a@.servers[i].port == port);
        }
        if a@.serving(port) {
            let i = choose|i: int|
                0 <= i < a@.servers.len() && (#[trigger] a@.servers[i]).port == port;
            assert(a.servers@[i].port == port);
        }
    }
}

/// States that are spoken of alike are the same.
pub proof fn lemma_same(a: Rtt, b: Rtt)
    ensures
        a@.servers == b@.servers ==> servers_of(a) == servers_of(b),
        a@.queues == b@.queues ==> same_queues(a, b),
        a@.search == b@.search ==> same_search(a, b),
        a@ == b@ ==> same_rtt(a, b),
{
    lemma_servers(a);
    lemma_servers(b);
    if a@.servers == b@.servers {
        assert(servers_of(a) =~= servers_of(b));
    }
    if a@.queues == b@.queues {
        assert forall|ch: u32| #[trigger]
            queue_of(a.pending_down@, ch) == queue_of(b.pending_down@, ch) by {
            lemma_queue(a.pending_down@, ch);
            lemma_queue(b.pending_down@, ch);
        }
    }
}

/// What comes in for a channel waits behind what does already, the newest 65536 bytes of
/// it all. What waits for any other channel stays.
pub proof fn input_is_queued_up_to_a_limit(
    pending: &mut HashMap<u32, Vec<u8>>,
    ch: u32,
    bytes: Vec<u8>,
    other: u32,
)
    requires
        call_ensures(queue_input, (pending, ch, bytes), ()),
    ensures
        ({
            let all = queue_of(old(pending)@, ch) + bytes@;
            let n = smaller(all.len() as int, 65536);
            let now = queue_of(final(pending)@, ch);
            &&& now.len() == n
            &&& forall|k: int| 0 <= k < n ==> #[trigger] now[k] == all[all.len() - n + k]
        }),
        other != ch ==> queue_of(final(pending)@, other) == queue_of(old(pending)@, other),
{
    lemma_queue(old(pending)@, ch);
    lemma_queue(final(pending)@, ch);
    lemma_queue(old(pending)@, other);
    lemma_queue(final(pending)@, other);
    let all = queue_of(old(pending)@, ch) + bytes@;
    assert(queue_of(final(pending)@, ch) == newest(all));
}

/// At first nothing is set up, known, served or waiting.
pub proof fn at_first_there_is_nothing(rtt: Rtt)
    requires
        call_ensures(Rtt::default, (), rtt),
    ensures
        rtt.search is None,
        rtt.control_block is None,
        rtt.num_up == 0,
        rtt.num_down is None,
        rtt.poll_counter == 0,
        rtt.servers@.len() == 0,
        forall|ch: u32| #[trigger] queue_of(rtt.pending_down@, ch).len() == 0,
{
    lemma_servers(rtt);
    assert forall|ch: u32| #[trigger] queue_of(rtt.pending_down@, ch).len() == 0 by {
        lemma_queue(rtt.pending_down@, ch);
    }
}

/// A setup notes the region and the identifier, and forgets the control block: it is to be
/// found anew. It changes nothing else.
pub proof fn a_setup_notes_its_region(rtt: &mut Rtt, addr: u64, size: u64, id: String)
    requires
        call_ensures(Rtt::setup, (rtt, addr, size, id), ()),
    ensures
        final(rtt).search matches Some((a, s, i)) && a == addr && s == size && i@ == id@,
        final(rtt).control_block is None,
        final(rtt).num_up == old(rtt).num_up,
        final(rtt).num_down == old(rtt).num_down,
        final(rtt).poll_counter == old(rtt).poll_counter,
        servers_of(*final(rtt)) == servers_of(*old(rtt)),
        same_queues(*final(rtt), *old(rtt)),
{
    lemma_same(*final(rtt), *old(rtt));
}

/// A start needs a setup.
pub proof fn a_start_needs_a_setup(rtt: &Rtt, inst: u32, r: Result<LocateNext, RttError>)
    requires
        call_ensures(Rtt::start, (rtt, inst), r),
    ensures
        r is Err <==> rtt.search is None,
        r matches Err(e) ==> e is SetupNotRun,
{
}

/// Once the control block has been found, its place and its numbers of channels are noted;
/// where one of them could not be read, what came before it is. Where none was found
/// nothing changes. What is told is where the block is and how many up channels it has, or
/// what went wrong.
pub proof fn what_was_found_is_noted(
    rtt: &mut Rtt,
    found: Located,
    r: Result<(u64, u32), RttError>,
)
    requires
        call_ensures(Rtt::started, (rtt, found), r),
    ensures
        same_search(*final(rtt), *old(rtt)),
        servers_of(*final(rtt)) == servers_of(*old(rtt)),
        same_queues(*final(rtt), *old(rtt)),
        final(rtt).poll_counter == old(rtt).poll_counter,
        match found {
            Located::Nowhere => {
                &&& same_block(*final(rtt), *old(rtt))
                &&& r matches Err(e) && e is NotFound
            },
            Located::UpUnread { cb, error } => {
                &&& final(rtt).control_block == Some(cb)
                &&& final(rtt).num_up == old(rtt).num_up
                &&& final(rtt).num_down == old(rtt).num_down
                &&& r == Err::<(u64, u32), RttError>(error)
            },
            Located::DownUnread { cb, num_up, error } => {
                &&& final(rtt).control_block == Some(cb)
                &&& final(rtt).num_up == num_up
                &&& final(rtt).num_down == old(rtt).num_down
                &&& r == Err::<(u64, u32), RttError>(error)
            },
            Located::At(Block { cb, num_up, num_down }) => {
                &&& final(rtt).control_block == Some(cb)
                &&& final(rtt).num_up == num_up
                &&& final(rtt).num_down == num_down
                &&& r == Ok::<(u64, u32), RttError>((cb, num_up))
            },
        },
{
    lemma_same(*final(rtt), *old(rtt));
}

/// A server can be started on every port that has none, for every channel, and on no other.
pub proof fn every_free_port_can_be_served(
    rtt: &Rtt,
    port: u16,
    channel: u32,
    serving: bool,
    r: Result<Bind, RttError>,
)
    requires
        call_ensures(Rtt::is_serving, (rtt, port), serving),
        call_ensures(Rtt::server_start, (rtt, port, channel), r),
    ensures
        serving == has_port(*rtt, port),
        match r {
            Ok(bind) => !serving && bind.port == port && bind.channel == channel,
            Err(e) => serving && e is PortInUse,
        },
{
    lemma_servers(*rtt);
}

/// A server whose port has been bound is added, without connections. Where the port could
/// not be bound, or has a server by now, nothing changes.
pub proof fn a_bound_port_is_served(
    rtt: &mut Rtt,
    bind: Bind,
    bound: Result<(), String>,
    r: Result<(), RttError>,
)
    requires
        call_ensures(Rtt::server_started, (rtt, bind, bound), r),
    ensures
        r is Ok <==> !has_port(*old(rtt), bind.port) && bound is Ok,
        r matches Err(e) ==> {
            &&& same_rtt(*final(rtt), *old(rtt))
            &&& has_port(*old(rtt), bind.port) ==> e is PortInUse
            &&& !has_port(*old(rtt), bind.port) ==> e == RttError::Transport(bound->Err_0)
        },
        r is Ok ==> {
            &&& servers_of(*final(rtt)) == servers_of(*old(rtt)).push(
                (bind.port, bind.channel, Seq::empty()),
            )
            &&& same_search(*final(rtt), *old(rtt))
            &&& same_block(*final(rtt), *old(rtt))
            &&& same_queues(*final(rtt), *old(rtt))
            &&& final(rtt).poll_counter == old(rtt).poll_counter
        },
{
    lemma_servers(*old(rtt));
    lemma_servers(*final(rtt));
    lemma_same(*final(rtt), *old(rtt));
    if r is Ok {
        assert(servers_of(*final(rtt)) =~= servers_of(*old(rtt)).push(
            (bind.port, bind.channel, Seq::empty()),
        ));
    }
}

/// Filtering servers by their ports is the same in both words.
proof fn lemma_filter(views: Seq<ServerView>, all: Seq<(u16, u32, Seq<u64>)>, port: u16)
    requires
        views.len() == all.len(),
        forall|i: int|
            0 <= i < views.len() ==> #[trigger] all[i] == (
                views[i].port,
                views[i].channel,
                views[i].clients,
            ),
    ensures
        ({
            let v = views.filter(|s: ServerView| s.port != port);
            let t = all.filter(|s: (u16, u32, Seq<u64>)| s.0 != port);
            &&& v.len() == t.len()
            &&& forall|i: int|
                0 <= i < v.len() ==> #[trigger] t[i] == (v[i].port, v[i].channel, v[i].clients)
        }),
    decreases views.len(),
{
    reveal(Seq::filter);
    if views.len() > 0 {
        assert forall|i: int| 0 <= i < views.drop_last().len() implies #[trigger]
        all.drop_last()[i] == (
            views.drop_last()[i].port,
            views.drop_last()[i].channel,
            views.drop_last()[i].clients,
        ) by {
            assert(all[i] == (views[i].port, views[i].channel, views[i].clients));
        }
        lemma_filter(views.drop_last(), all.drop_last(), port);
        let last = views.last();
        assert(all[all.len() - 1] == (last.port, last.channel, last.clients));
    }
}

/// The servers that are left, in both words.
pub proof fn lemma_filtered(a: Rtt, b: Rtt, port: u16)
    requires
        b@.servers == a@.servers.filter(|s: ServerView| s.port != port),
    ensures
        servers_of(b) == servers_of(a).filter(|s: (u16, u32, Seq<u64>)| s.0 != port),
{
    lemma_servers(a);
    lemma_servers(b);
    lemma_filter(a@.servers, servers_of(a), port);
    assert(servers_of(b) =~= servers_of(a).filter(|s: (u16, u32, Seq<u64>)| s.0 != port));
}

/// Stopping the server of a port takes it away and leaves all others, in their order. It
/// tells whether there was one.
pub proof fn a_stopped_port_is_not_served(rtt: &mut Rtt, port: u16, removed: bool)
    requires
        call_ensures(Rtt::server_stop, (rtt, port), removed),
    ensures
        removed == has_port(*old(rtt), port),
        servers_of(*final(rtt)) == servers_of(*old(rtt)).filter(
            |s: (u16, u32, Seq<u64>)| s.0 != port,
        ),
        same_search(*final(rtt), *old(rtt)),
        same_block(*final(rtt), *old(rtt)),
        same_queues(*final(rtt), *old(rtt)),
        final(rtt).poll_counter == old(rtt).poll_counter,
{
    lemma_servers(*old(rtt));
    lemma_same(*final(rtt), *old(rtt));
    lemma_filtered(*old(rtt), *final(rtt), port);
}

} // verus!
