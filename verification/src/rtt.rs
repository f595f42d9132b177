//! The state of RTT: where the control block is, which channels are served, and what
//! waits to be sent to the target.

use crate::error::RttError;
use crate::locate::{locate, Block, Locate, LocateNext, Located};
use std::collections::HashMap;
use vstd::prelude::*;
use vstd::slice::slice_to_vec;
use vstd::utf8::encode_utf8;

verus! {

broadcast use vstd::std_specs::hash::group_hash_axioms;

/// How many bytes may wait for a down channel: what is typed while the target does not
/// read would otherwise pile up without bound.
pub const MAX_PENDING: usize = 65536;

/// A loopback TCP server for both directions of one channel.
#[derive(Debug)]
pub struct Server {
    pub port: u16,
    pub channel: u32,
    /// The connections that are open, by the numbers that the socket layer gave them.
    pub clients: Vec<u64>,
}

/// A server that is to be started as soon as its port has been bound.
#[derive(Debug)]
pub struct Bind {
    pub port: u16,
    pub channel: u32,
}

/// The state of RTT.
#[derive(Debug)]
pub struct Rtt {
    /// Where to search for the control block, how far, and for which identifier.
    pub search: Option<(u64, u64, String)>,
    /// Where the control block is, once it has been found.
    pub control_block: Option<u64>,
    /// The number of up buffers, behind which the down buffers stand.
    pub num_up: u32,
    /// The number of down buffers, once it has been read.
    pub num_down: Option<u32>,
    pub servers: Vec<Server>,
    /// Per channel, what waits for room in the down buffer.
    pub pending_down: HashMap<u32, Vec<u8>>,
    pub poll_counter: u32,
}

/// What a server is: its port, its channel and its open connections.
#[verifier::ext_equal]
pub struct ServerView {
    pub port: u16,
    pub channel: u32,
    pub clients: Seq<u64>,
}

impl View for Server {
    type V = ServerView;

    open spec fn view(&self) -> ServerView {
        ServerView { port: self.port, channel: self.channel, clients: self.clients@ }
    }
}

/// What each of `servers` is.
pub open spec fn views(servers: Seq<Server>) -> Seq<ServerView> {
    servers.map_values(|server: Server| server@)
}

/// The state of RTT, as it is spoken of.
#[verifier::ext_equal]
pub struct RttView {
    /// Where to search for the control block, how far, and for which identifier.
    pub search: Option<(u64, u64, Seq<char>)>,
    /// Where the control block is, once it has been found.
    pub control_block: Option<u64>,
    pub num_up: u32,
    pub num_down: Option<u32>,
    pub servers: Seq<ServerView>,
    /// What waits for the down channels. A channel without a queue has nothing waiting.
    pub queues: Map<u32, Seq<u8>>,
    pub poll_counter: u32,
}

impl View for Rtt {
    type V = RttView;

    open spec fn view(&self) -> RttView {
        RttView {
            search: match self.search {
                Some((addr, size, id)) => Some((addr, size, id@)),
                None => None,
            },
            control_block: self.control_block,
            num_up: self.num_up,
            num_down: self.num_down,
            servers: views(self.servers@),
            queues: held(self.pending_down@),
            poll_counter: self.poll_counter,
        }
    }
}

impl RttView {
    /// No two servers have the same port, and no more waits for a channel than may.
    pub open spec fn wf(self) -> bool {
        &&& distinct_ports(self.servers)
        &&& bounded(self.queues)
    }

    /// Some server has the port.
    pub open spec fn serving(self, port: u16) -> bool {
        exists|i: int| 0 <= i < self.servers.len() && (#[trigger] self.servers[i]).port == port
    }

    /// The state once the header of the control block has been read.
    pub open spec fn with_block(self, block: Block) -> RttView {
        RttView {
            control_block: Some(block.cb),
            num_up: block.num_up,
            num_down: block.num_down,
            ..self
        }
    }

    /// The state in which nothing has been set up.
    pub open spec fn initial() -> RttView {
        RttView {
            search: None,
            control_block: None,
            num_up: 0,
            num_down: None,
            servers: Seq::empty(),
            queues: Map::empty(),
            poll_counter: 0,
        }
    }
}

/// The newest bytes of `bytes`, as many as may wait.
pub open spec fn newest(bytes: Seq<u8>) -> Seq<u8> {
    if bytes.len() > MAX_PENDING {
        bytes.skip(bytes.len() - MAX_PENDING)
    } else {
        bytes
    }
}

/// Cutting off what is too old at once or bit by bit comes to the same.
pub proof fn newest_of_newest(older: Seq<u8>, newer: Seq<u8>)
    ensures
        newest(newest(older) + newer) == newest(older + newer),
        newest(newest(older)) == newest(older),
        newest(older).len() <= MAX_PENDING,
{
    assert(newest(newest(older) + newer) =~= newest(older + newer));
    assert(newest(newest(older)) =~= newest(older));
}

/// What the queues in `pending` hold.
pub open spec fn held(pending: Map<u32, Vec<u8>>) -> Map<u32, Seq<u8>> {
    pending.map_values(|queue: Vec<u8>| queue@)
}

/// What waits for channel `ch`.
pub open spec fn waits(queues: Map<u32, Seq<u8>>, ch: u32) -> Seq<u8> {
    if queues.contains_key(ch) {
        queues[ch]
    } else {
        Seq::empty()
    }
}

/// The queues once `bytes` have come in for channel `ch`: they wait behind what does
/// already, and where that is too much the oldest bytes are given up.
pub open spec fn queued(queues: Map<u32, Seq<u8>>, ch: u32, bytes: Seq<u8>) -> Map<
    u32,
    Seq<u8>,
> {
    queues.insert(ch, newest(waits(queues, ch) + bytes))
}

/// Puts `bytes` behind what waits for channel `ch`.
pub fn queue_input(pending: &mut HashMap<u32, Vec<u8>>, ch: u32, bytes: Vec<u8>)
    ensures
        held(final(pending)@) == queued(held(old(pending)@), ch, bytes@),
{
    let ghost before = pending@;
    let ghost fresh = bytes@;
    let mut bytes = bytes;
    let mut queue: Vec<u8> = match pending.remove(&ch) {
        Some(queue) => queue,
        None => Vec::new(),
    };
    assert(queue@ == waits(held(before), ch));
    queue.append(&mut bytes);
    if queue.len() > MAX_PENDING {
        let excess: usize = queue.len() - MAX_PENDING;
        queue = queue.split_off(excess);
    }
    assert(queue@ =~= newest(waits(held(before), ch) + fresh));
    pending.insert(ch, queue);
    assert(held(pending@) =~= queued(held(before), ch, fresh));
}

impl Default for Rtt {
    fn default() -> (r: Rtt)
        ensures
            r@ == RttView::initial(),
            r@.wf(),
    {
        let r = Rtt {
            search: None,
            control_block: None,
            num_up: 0,
            num_down: None,
            servers: Vec::new(),
            pending_down: HashMap::new(),
            poll_counter: 0,
        };
        assert(r@ =~= RttView::initial());
        r
    }
}

impl Rtt {
    /// `rtt setup <addr> <size> [id]`: where and what to search for.
    pub fn setup(&mut self, addr: u64, size: u64, id: String)
        ensures
            final(self)@ == (RttView {
                search: Some((addr, size, id@)),
                control_block: None,
                ..old(self)@
            }),
    {
        self.search = Some((addr, size, id));
        self.control_block = None;
    }

    /// `rtt start`: begins to look for the control block.
    pub fn start(&self, inst: u32) -> (r: Result<LocateNext, RttError>)
        ensures
            match self@.search {
                None => r == Err::<LocateNext, RttError>(RttError::SetupNotRun),
                Some((addr, size, id)) => r is Ok && Locate::begins(
                    inst,
                    false,
                    addr,
                    size,
                    encode_utf8(id),
                    r->Ok_0,
                ),
            },
    {
        match &self.search {
            None => Err(RttError::SetupNotRun),
            Some((addr, size, id)) => {
                let bytes = slice_to_vec(id.as_str().as_bytes());
                Ok(locate(inst, false, *addr, *size, bytes))
            },
        }
    }

    /// `rtt start`, once it is known what came of the looking. Gives the address of the
    /// control block and the number of up channels. A block whose header could not be
    /// read is kept all the same.
    pub fn started(&mut self, found: Located) -> (r: Result<(u64, u32), RttError>)
        ensures
            match found {
                Located::Nowhere => {
                    &&& final(self)@ == old(self)@
                    &&& r == Err::<(u64, u32), RttError>(RttError::NotFound)
                },
                Located::UpUnread { cb, error } => {
                    &&& final(self)@ == (RttView { control_block: Some(cb), ..old(self)@ })
                    &&& r == Err::<(u64, u32), RttError>(error)
                },
                Located::DownUnread { cb, num_up, error } => {
                    &&& final(self)@ == (RttView {
                        control_block: Some(cb),
                        num_up,
                        ..old(self)@
                    })
                    &&& r == Err::<(u64, u32), RttError>(error)
                },
                Located::At(block) => {
                    &&& final(self)@ == old(self)@.with_block(block)
                    &&& r == Ok::<(u64, u32), RttError>((block.cb, block.num_up))
                },
            },
    {
        match found {
            Located::Nowhere => Err(RttError::NotFound),
            Located::UpUnread { cb, error } => {
                self.control_block = Some(cb);
                Err(error)
            },
            Located::DownUnread { cb, num_up, error } => {
                self.control_block = Some(cb);
                self.num_up = num_up;
                Err(error)
            },
            Located::At(block) => {
                self.control_block = Some(block.cb);
                self.num_up = block.num_up;
                self.num_down = block.num_down;
                Ok((block.cb, block.num_up))
            },
        }
    }

    /// Whether some server has the port.
    pub fn is_serving(&self, port: u16) -> (r: bool)
        ensures
            r == self@.serving(port),
    {
        let mut i: usize = 0;
        while i < self.servers.len()
            invariant
                i <= self.servers@.len(),
                forall|j: int| 0 <= j < i ==> (#[trigger] self@.servers[j]).port != port,
            decreases self.servers@.len() - i,
        {
            assert(self@.servers[i as int] == self.servers@[i as int]@);
            if self.servers[i].port == port {
                return true;
            }
            i = i + 1;
        }
        false
    }

    /// `rtt server start <port> <channel>`: the port is to be bound, on loopback only,
    /// unless it has a server already.
    pub fn server_start(&self, port: u16, channel: u32) -> (r: Result<Bind, RttError>)
        ensures
            r == (if self@.serving(port) {
                Err::<Bind, RttError>(RttError::PortInUse)
            } else {
                Ok(Bind { port, channel })
            }),
    {
        if self.is_serving(port) {
            Err(RttError::PortInUse)
        } else {
            Ok(Bind { port, channel })
        }
    }

    /// `rtt server start`, once it is known whether the port could be bound.
    pub fn server_started(&mut self, bind: Bind, bound: Result<(), String>) -> (r: Result<
        (),
        RttError,
    >)
        ensures
            old(self)@.serving(bind.port) ==> {
                &&& final(self)@ == old(self)@
                &&& r == Err::<(), RttError>(RttError::PortInUse)
            },
            !old(self)@.serving(bind.port) ==> match bound {
                Err(text) => {
                    &&& final(self)@ == old(self)@
                    &&& r == Err::<(), RttError>(RttError::Transport(text))
                },
                Ok(_) => {
                    &&& final(self)@ == (RttView {
                        servers: old(self)@.servers.push(
                            ServerView {
                                port: bind.port,
                                channel: bind.channel,
                                clients: Seq::empty(),
                            },
                        ),
                        ..old(self)@
                    })
                    &&& r is Ok
                },
            },
            old(self)@.wf() ==> final(self)@.wf(),
    {
        if self.is_serving(bind.port) {
            return Err(RttError::PortInUse);
        }
        match bound {
            Err(text) => Err(RttError::Transport(text)),
            Ok(_) => {
                let server = Server {
                    port: bind.port,
                    channel: bind.channel,
                    clients: Vec::new(),
                };
                assert(server@ =~= ServerView {
                    port: bind.port,
                    channel: bind.channel,
                    clients: Seq::empty(),
                });
                self.servers.push(server);
                assert(self@.servers =~= old(self)@.servers.push(server@));
                Ok(())
            },
        }
    }

    /// `rtt server stop <port>`: tells whether a server was removed.
    pub fn server_stop(&mut self, port: u16) -> (removed: bool)
        ensures
            final(self)@ == (RttView {
                servers: old(self)@.servers.filter(|s: ServerView| s.port != port),
                ..old(self)@
            }),
            removed == old(self)@.serving(port),
            old(self)@.wf() ==> final(self)@.wf(),
    {
        let ghost all = self@.servers;
        let ghost stays = |s: ServerView| s.port != port;
        let mut rest: Vec<Server> = Vec::new();
        std::mem::swap(&mut rest, &mut self.servers);
        let mut kept: Vec<Server> = Vec::new();
        let mut removed = false;
        let ghost mut i: int = 0;
        proof {
            reveal(Seq::filter);
            assert(views(kept@) =~= all.take(0).filter(stays));
            assert(all.skip(0) =~= all);
        }
        while rest.len() > 0
            invariant
                0 <= i <= all.len(),
                views(rest@) == all.skip(i),
                views(kept@) == all.take(i).filter(stays),
                stays == (|s: ServerView| s.port != port),
                removed == exists|j: int| 0 <= j < i && (#[trigger] all[j]).port == port,
            decreases rest@.len(),
        {
            let ghost before = kept@;
            let ghost left = rest@;
            assert(views(left).len() == left.len());
            let server = rest.remove(0);
            proof {
                assert(views(left)[0] == server@);
                assert(server@ == all[i]);
                assert(views(rest@) =~= views(left).drop_first());
                assert(views(rest@) =~= all.skip(i + 1));
                assert(all.take(i + 1).drop_last() =~= all.take(i));
                reveal(Seq::filter);
                i = i + 1;
            }
            if server.port != port {
                kept.push(server);
                assert(views(kept@) =~= views(before).push(server@));
            } else {
                removed = true;
                assert(all[i - 1].port == port);
            }
        }
        assert(i == all.len()) by {
            assert(views(rest@).len() == 0);
        }
        assert(all.take(i) =~= all);
        self.servers = kept;
        proof {
            lemma_filter_keeps_distinct(all, stays);
        }
        removed
    }
}

/// Stopping a server that was just started leaves the servers that there were before.
pub proof fn stop_undoes_start(servers: Seq<ServerView>, server: ServerView)
    requires
        forall|i: int| 0 <= i < servers.len() ==> (#[trigger] servers[i]).port != server.port,
    ensures
        servers.push(server).filter(|s: ServerView| s.port != server.port) == servers,
{
    let stays = |s: ServerView| s.port != server.port;
    reveal(Seq::filter);
    assert(servers.push(server).drop_last() =~= servers);
    lemma_filter_all(servers, stays);
}

/// Once a port's server has been stopped, the port is free for another one, and every
/// other server is still there.
pub proof fn stop_frees_the_port(servers: Seq<ServerView>, port: u16)
    ensures
        ({
            let kept = servers.filter(|s: ServerView| s.port != port);
            &&& forall|i: int| 0 <= i < kept.len() ==> (#[trigger] kept[i]).port != port
            &&& forall|i: int|
                0 <= i < servers.len() && (#[trigger] servers[i]).port != port ==> kept.contains(
                    servers[i],
                )
        }),
{
    let stays = |s: ServerView| s.port != port;
    let kept = servers.filter(stays);
    assert forall|i: int| 0 <= i < kept.len() implies (#[trigger] kept[i]).port != port by {
        servers.lemma_filter_pred(stays, i);
    }
    assert forall|i: int|
        0 <= i < servers.len() && (#[trigger] servers[i]).port != port implies kept.contains(
        servers[i],
    ) by {
        servers.lemma_filter_contains(stays, i);
    }
}

/// Where a filter lets everything pass, nothing is lost.
proof fn lemma_filter_all(servers: Seq<ServerView>, stays: spec_fn(ServerView) -> bool)
    requires
        forall|i: int| 0 <= i < servers.len() ==> stays(#[trigger] servers[i]),
    ensures
        servers.filter(stays) == servers,
    decreases servers.len(),
{
    reveal(Seq::filter);
    if servers.len() > 0 {
        let init = servers.drop_last();
        assert forall|i: int| 0 <= i < init.len() implies stays(#[trigger] init[i]) by {
            assert(init[i] == servers[i]);
        }
        assert(stays(servers[servers.len() - 1]));
        lemma_filter_all(init, stays);
        assert(init.push(servers.last()) =~= servers);
    } else {
        assert(servers.filter(stays) =~= servers);
    }
}

/// No two servers have the same port.
pub open spec fn distinct_ports(servers: Seq<ServerView>) -> bool {
    forall|i: int, j: int|
        0 <= i < j < servers.len() ==> (#[trigger] servers[i]).port != (
        #[trigger] servers[j]).port
}

/// No more waits for a channel than may.
pub open spec fn bounded(queues: Map<u32, Seq<u8>>) -> bool {
    forall|ch: u32| #[trigger] queues.contains_key(ch) ==> queues[ch].len() <= MAX_PENDING
}

/// Servers that are picked out of some with ports of their own have such ports too.
proof fn lemma_filter_keeps_distinct(servers: Seq<ServerView>, stays: spec_fn(ServerView) -> bool)
    ensures
        distinct_ports(servers) ==> distinct_ports(servers.filter(stays)),
        forall|i: int|
            0 <= i < servers.filter(stays).len() ==> servers.contains(
                #[trigger] servers.filter(stays)[i],
            ),
    decreases servers.len(),
{
    reveal(Seq::filter);
    if servers.len() > 0 {
        let init = servers.drop_last();
        lemma_filter_keeps_distinct(init, stays);
        let kept = servers.filter(stays);
        assert forall|i: int| 0 <= i < kept.len() implies servers.contains(#[trigger] kept[i]) by {
            if i < init.filter(stays).len() {
                assert(init.contains(init.filter(stays)[i]));
                let k = choose|k: int| 0 <= k < init.len() && init[k] == kept[i];
                assert(servers[k] == kept[i]);
            } else {
                assert(kept[i] == servers.last());
            }
        }
        if distinct_ports(servers) && stays(servers.last()) {
            assert(distinct_ports(init));
            assert forall|i: int, j: int| 0 <= i < j < kept.len() implies (#[trigger] kept[i]).port
                != (#[trigger] kept[j]).port by {
                if j == kept.len() - 1 {
                    assert(init.contains(init.filter(stays)[i]));
                    let k = choose|k: int| 0 <= k < init.len() && init[k] == kept[i];
                    assert(servers[k] == kept[i]);
                }
            }
        }
    }
}

} // verus!
