//! What monitor commands do to a session, and what they answer.
//!
//! A command comes as text, or as the bytes of text.

use crate::console::{MonitorNext, Reset};
use crate::dialogue::{talks, Next};
use crate::laws::commands::{lemma_command, lemma_denotes_one};
use crate::laws::rings::goes_to;
use crate::laws::search::{is_told, lemma_look};
use crate::laws::state::{
    has_port, lemma_filtered, lemma_same, lemma_servers, said_of, same_block, same_queues,
    same_rtt, same_search, servers_of,
};
use crate::laws::texts::{lemma_inner, lemma_written};
use crate::locate::{Block, LocateNext, Located};
use crate::memory::Reply;
use crate::model::{
    consists_of, denotes, is_blank, is_number, is_space, is_unquoted, is_written, with_blanks,
};
use crate::monitor::{command, CommandView};
use crate::numbers::digits;
use crate::rtt::Bind;
use crate::stub::IrisGdbStub;
use vstd::prelude::*;
use vstd::utf8::{decode_utf8, encode_utf8, valid_utf8};

verus! {

/// All of a session but its RTT is the same.
pub open spec fn same_session(a: IrisGdbStub, b: IrisGdbStub) -> bool {
    &&& a.instance_id == b.instance_id
    &&& a.sim == b.sim
    &&& a.breakpoints@ == b.breakpoints@
    &&& a.watchpoints@ == b.watchpoints@
}

/// All of a session is the same.
pub open spec fn same_stub(a: IrisGdbStub, b: IrisGdbStub) -> bool {
    same_session(a, b) && same_rtt(a.rtt, b.rtt)
}

proof fn lemma_stub(a: IrisGdbStub, b: IrisGdbStub)
    requires
        a@ == b@,
    ensures
        same_stub(a, b),
{
    assert(a@.rtt == b@.rtt);
    lemma_same(a.rtt, b.rtt);
}

/// The command is over, and has said `text`.
pub open spec fn has_said(next: MonitorNext, text: Seq<char>) -> bool {
    next matches MonitorNext::Say(s) && s@ == text
}

/// The command is over, and has said a number between two texts.
pub open spec fn has_said_number(
    next: MonitorNext,
    before: Seq<char>,
    radix: int,
    n: int,
    behind: Seq<char>,
) -> bool {
    exists|x: Seq<char>| #[trigger] is_written(x, radix, n) && has_said(
        next,
        before + x + behind,
    )
}

/// The words of a setup of the region of `size` bytes at `addr`.
pub open spec fn asks_for_setup(ws: Seq<Seq<char>>, addr: u64, size: u64) -> bool {
    &&& ws.len() >= 4
    &&& ws[0] == "rtt"@
    &&& ws[1] == "setup"@
    &&& denotes(ws[2], addr as int)
    &&& denotes(ws[3], size as int)
}

/// A setup notes the region and the identifier that it names, and says which region it
/// will be. It changes nothing else, but that the control block is to be found anew.
pub proof fn a_setup_is_noted_and_confirmed(
    stub: &mut IrisGdbStub,
    text: &str,
    cmd: &[u8],
    next: MonitorNext,
    gaps: Seq<Seq<char>>,
    ws: Seq<Seq<char>>,
    addr: u64,
    size: u64,
)
    requires
        call_ensures(IrisGdbStub::handle_monitor_text, (stub, text), next) || valid_utf8(cmd@)
            && decode_utf8(cmd@) == text@ && call_ensures(
            IrisGdbStub::handle_monitor_cmd,
            (stub, cmd),
            next,
        ),
        consists_of(text@, gaps, ws),
        asks_for_setup(ws, addr, size),
    ensures
        same_session(*final(stub), *old(stub)),
        final(stub).rtt.search matches Some((a, s, id)) && a == addr && s == size && (ws.len() == 4
            ==> id@ == "SEGGER RTT"@) && (ws.len() > 4 ==> is_unquoted(
            with_blanks(ws.skip(4)),
            id@,
        )),
        final(stub).rtt.control_block is None,
        final(stub).rtt.num_up == old(stub).rtt.num_up,
        final(stub).rtt.num_down == old(stub).rtt.num_down,
        final(stub).rtt.poll_counter == old(stub).rtt.poll_counter,
        servers_of(final(stub).rtt) == servers_of(old(stub).rtt),
        same_queues(final(stub).rtt, old(stub).rtt),
        exists|x: Seq<char>, y: Seq<char>| #[trigger]
            is_written(x, 16, addr as int) && #[trigger] is_written(
                y,
                16,
                (addr + size) % 0x1_0000_0000_0000_0000,
            ) && has_said(next, "rtt: search "@ + ("0x"@ + x) + ".."@ + ("0x"@ + y)),
{
    let c = command(text@);
    lemma_command(text@, gaps, ws);
    assert(c is Setup);
    lemma_denotes_one(ws[2], addr as int, c->Setup_addr as int);
    lemma_denotes_one(ws[3], size as int, c->Setup_size as int);
    lemma_same(final(stub).rtt, old(stub).rtt);
    let end = addr.wrapping_add(size);
    lemma_written(addr as nat, 16);
    lemma_written(end as nat, 16);
    let x = digits(addr as nat, 16);
    let y = digits(end as nat, 16);
    assert(is_written(x, 16, addr as int));
    assert(is_written(y, 16, (addr + size) % 0x1_0000_0000_0000_0000));
}

/// A setup whose address or size is no number that fits is refused, and changes nothing.
pub proof fn a_bad_setup_changes_nothing(
    stub: &mut IrisGdbStub,
    text: &str,
    cmd: &[u8],
    next: MonitorNext,
    gaps: Seq<Seq<char>>,
    ws: Seq<Seq<char>>,
)
    requires
        call_ensures(IrisGdbStub::handle_monitor_text, (stub, text), next) || valid_utf8(cmd@)
            && decode_utf8(cmd@) == text@ && call_ensures(
            IrisGdbStub::handle_monitor_cmd,
            (stub, cmd),
            next,
        ),
        consists_of(text@, gaps, ws),
        ws.len() >= 4,
        ws[0] == "rtt"@,
        ws[1] == "setup"@,
        forall|addr: u64, size: u64| !#[trigger] asks_for_setup(ws, addr, size),
    ensures
        same_stub(*final(stub), *old(stub)),
        has_said(next, "rtt setup <addr> <size> [id]: bad address/size"@),
{
    let c = command(text@);
    lemma_command(text@, gaps, ws);
    if let CommandView::Setup { addr, size, id } = c {
        assert(asks_for_setup(ws, addr, size));
    }
    lemma_stub(*final(stub), *old(stub));
}

/// A start looks for the control block in the region that was set up: it finds it where it
/// is, with the numbers of its channels. Without a setup it says so.
pub proof fn a_start_looks_in_the_region(
    stub: &mut IrisGdbStub,
    text: &str,
    cmd: &[u8],
    next: MonitorNext,
    gaps: Seq<Seq<char>>,
    ws: Seq<Seq<char>>,
    mem: Map<int, u8>,
    talk: Seq<(Reply, LocateNext)>,
    last: LocateNext,
    after: Map<int, u8>,
)
    requires
        call_ensures(IrisGdbStub::handle_monitor_text, (stub, text), next) || valid_utf8(cmd@)
            && decode_utf8(cmd@) == text@ && call_ensures(
            IrisGdbStub::handle_monitor_cmd,
            (stub, cmd),
            next,
        ),
        consists_of(text@, gaps, ws),
        ws.len() == 2,
        ws[0] == "rtt"@,
        ws[1] == "start"@,
        next matches MonitorNext::Locate(first) ==> talks(first, mem, talk, last, after),
    ensures
        same_stub(*final(stub), *old(stub)),
        match old(stub).rtt.search {
            None => has_said(next, "rtt start: "@ + "rtt setup not run"@),
            Some((addr, size, id)) => {
                &&& next is Locate
                &&& encode_utf8(id@).len() == 0 ==> next->Locate_0 == LocateNext::Done(
                    Located::Nowhere,
                )
                &&& encode_utf8(id@).len() > 0 ==> {
                    &&& after == mem
                    &&& talk.len() <= 2 * size + 2
                    &&& last matches Next::Ask(request, _) ==> goes_to(
                        request,
                        old(stub).instance_id,
                    )
                    &&& last matches Next::Done(found) ==> is_told(
                        mem,
                        addr,
                        size,
                        encode_utf8(id@),
                        false,
                        found,
                    )
                }
            },
        },
{
    lemma_command(text@, gaps, ws);
    lemma_stub(*final(stub), *old(stub));
    if let Some((addr, size, id)) = old(stub).rtt.search {
        if encode_utf8(id@).len() > 0 {
            lemma_look(
                old(stub).instance_id,
                false,
                addr,
                size,
                encode_utf8(id@),
                next->Locate_0,
                mem,
                talk,
                last,
                after,
            );
        }
    }
}

/// A server start asks for the port that it names to be bound, for the channel that it
/// names, unless the port has a server. It changes nothing yet.
pub proof fn a_server_start_asks_for_its_port(
    stub: &mut IrisGdbStub,
    text: &str,
    cmd: &[u8],
    next: MonitorNext,
    gaps: Seq<Seq<char>>,
    ws: Seq<Seq<char>>,
    port: u16,
    channel: u32,
)
    requires
        call_ensures(IrisGdbStub::handle_monitor_text, (stub, text), next) || valid_utf8(cmd@)
            && decode_utf8(cmd@) == text@ && call_ensures(
            IrisGdbStub::handle_monitor_cmd,
            (stub, cmd),
            next,
        ),
        consists_of(text@, gaps, ws),
        ws.len() == 5,
        ws[0] == "rtt"@,
        ws[1] == "server"@,
        ws[2] == "start"@,
        is_number(ws[3], 10, port as int),
        denotes(ws[4], channel as int),
    ensures
        same_stub(*final(stub), *old(stub)),
        has_port(old(stub).rtt, port) ==> has_said(
            next,
            "rtt server start: "@ + "port already serving"@,
        ),
        !has_port(old(stub).rtt, port) ==> next == MonitorNext::Bind(Bind { port, channel }),
{
    let c = command(text@);
    lemma_command(text@, gaps, ws);
    assert(c is ServerStart);
    lemma_denotes_one(ws[4], channel as int, c->ServerStart_channel as int);
    lemma_stub(*final(stub), *old(stub));
    lemma_servers(old(stub).rtt);
}

/// A server start whose port or channel is no number that fits is refused, and changes
/// nothing.
pub proof fn a_bad_server_start_changes_nothing(
    stub: &mut IrisGdbStub,
    text: &str,
    cmd: &[u8],
    next: MonitorNext,
    gaps: Seq<Seq<char>>,
    ws: Seq<Seq<char>>,
)
    requires
        call_ensures(IrisGdbStub::handle_monitor_text, (stub, text), next) || valid_utf8(cmd@)
            && decode_utf8(cmd@) == text@ && call_ensures(
            IrisGdbStub::handle_monitor_cmd,
            (stub, cmd),
            next,
        ),
        consists_of(text@, gaps, ws),
        ws.len() == 5,
        ws[0] == "rtt"@,
        ws[1] == "server"@,
        ws[2] == "start"@,
        (forall|n: int| n <= 0xffff ==> !#[trigger] is_number(ws[3], 10, n)) || (forall|n: int|
            n <= 0xffff_ffff ==> !#[trigger] denotes(ws[4], n)),
    ensures
        same_stub(*final(stub), *old(stub)),
        has_said(next, "rtt server start <port> <channel>: bad args"@),
{
    lemma_command(text@, gaps, ws);
    lemma_stub(*final(stub), *old(stub));
}

/// A server stop takes away the server of the port that it names, leaves all others, and
/// says whether there was one.
pub proof fn a_server_stop_frees_its_port(
    stub: &mut IrisGdbStub,
    text: &str,
    cmd: &[u8],
    next: MonitorNext,
    gaps: Seq<Seq<char>>,
    ws: Seq<Seq<char>>,
    port: u16,
)
    requires
        call_ensures(IrisGdbStub::handle_monitor_text, (stub, text), next) || valid_utf8(cmd@)
            && decode_utf8(cmd@) == text@ && call_ensures(
            IrisGdbStub::handle_monitor_cmd,
            (stub, cmd),
            next,
        ),
        consists_of(text@, gaps, ws),
        ws.len() == 4,
        ws[0] == "rtt"@,
        ws[1] == "server"@,
        ws[2] == "stop"@,
        is_number(ws[3], 10, port as int),
    ensures
        same_session(*final(stub), *old(stub)),
        servers_of(final(stub).rtt) == servers_of(old(stub).rtt).filter(
            |s: (u16, u32, Seq<u64>)| s.0 != port,
        ),
        same_search(final(stub).rtt, old(stub).rtt),
        same_block(final(stub).rtt, old(stub).rtt),
        same_queues(final(stub).rtt, old(stub).rtt),
        final(stub).rtt.poll_counter == old(stub).rtt.poll_counter,
        has_said_number(
            next,
            "rtt: server :"@,
            10,
            port as int,
            if has_port(old(stub).rtt, port) {
                " "@ + "stopped"@
            } else {
                " "@ + "not running"@
            },
        ),
{
    let c = command(text@);
    lemma_command(text@, gaps, ws);
    assert(c is ServerStop);
    lemma_same(final(stub).rtt, old(stub).rtt);
    lemma_servers(old(stub).rtt);
    lemma_filtered(old(stub).rtt, final(stub).rtt, port);
    lemma_written(port as nat, 10);
    let x = digits(port as nat, 10);
    assert(is_written(x, 10, port as int));
    let state = if has_port(old(stub).rtt, port) {
        "stopped"@
    } else {
        "not running"@
    };
    assert("rtt: server :"@ + x + " "@ + state =~= "rtt: server :"@ + x + (" "@ + state));
}

/// A server stop whose port is no number that fits is refused, and changes nothing.
pub proof fn a_bad_server_stop_changes_nothing(
    stub: &mut IrisGdbStub,
    text: &str,
    cmd: &[u8],
    next: MonitorNext,
    gaps: Seq<Seq<char>>,
    ws: Seq<Seq<char>>,
)
    requires
        call_ensures(IrisGdbStub::handle_monitor_text, (stub, text), next) || valid_utf8(cmd@)
            && decode_utf8(cmd@) == text@ && call_ensures(
            IrisGdbStub::handle_monitor_cmd,
            (stub, cmd),
            next,
        ),
        consists_of(text@, gaps, ws),
        ws.len() == 4,
        ws[0] == "rtt"@,
        ws[1] == "server"@,
        ws[2] == "stop"@,
        forall|n: int| n <= 0xffff ==> !#[trigger] is_number(ws[3], 10, n),
    ensures
        same_stub(*final(stub), *old(stub)),
        has_said(next, "rtt server stop <port>: bad port"@),
{
    lemma_command(text@, gaps, ws);
    lemma_stub(*final(stub), *old(stub));
}

/// `reset` asks for a whole reset of the session's simulation, and `halt` for it to be
/// stopped. Neither changes the session, and without words nothing happens.
pub proof fn a_reset_and_a_halt_are_asked_of_the_simulation(
    stub: &mut IrisGdbStub,
    text: &str,
    cmd: &[u8],
    next: MonitorNext,
    gaps: Seq<Seq<char>>,
    ws: Seq<Seq<char>>,
)
    requires
        call_ensures(IrisGdbStub::handle_monitor_text, (stub, text), next) || valid_utf8(cmd@)
            && decode_utf8(cmd@) == text@ && call_ensures(
            IrisGdbStub::handle_monitor_cmd,
            (stub, cmd),
            next,
        ),
        consists_of(text@, gaps, ws),
    ensures
        ws.len() >= 1 && ws[0] == "reset"@ ==> same_stub(*final(stub), *old(stub)) && next
            == MonitorNext::Reset(Reset { sim: old(stub).sim, allow_partial: false }),
        ws.len() == 1 && ws[0] == "halt"@ ==> same_stub(*final(stub), *old(stub)) && next
            == MonitorNext::Halt(old(stub).sim),
        ws.len() == 0 ==> same_stub(*final(stub), *old(stub)) && next == MonitorNext::Silent,
        next is Reset ==> ws.len() >= 1 && ws[0] == "reset"@,
        next is Halt ==> ws.len() == 1 && ws[0] == "halt"@,
        next is Locate ==> ws.len() == 2 && ws[0] == "rtt"@ && ws[1] == "start"@,
        next is Bind ==> ws.len() == 5 && ws[0] == "rtt"@ && ws[1] == "server"@ && ws[2]
            == "start"@,
{
    lemma_command(text@, gaps, ws);
    if final(stub)@ == old(stub)@ {
        lemma_stub(*final(stub), *old(stub));
    }
}

/// A command that is none of these is named as it is, and changes nothing.
pub proof fn an_unknown_command_changes_nothing(
    stub: &mut IrisGdbStub,
    text: &str,
    cmd: &[u8],
    next: MonitorNext,
    gaps: Seq<Seq<char>>,
    ws: Seq<Seq<char>>,
    left: Seq<char>,
    inner: Seq<char>,
    right: Seq<char>,
)
    requires
        call_ensures(IrisGdbStub::handle_monitor_text, (stub, text), next) || valid_utf8(cmd@)
            && decode_utf8(cmd@) == text@ && call_ensures(
            IrisGdbStub::handle_monitor_cmd,
            (stub, cmd),
            next,
        ),
        consists_of(text@, gaps, ws),
        text@ == left + inner + right,
        is_blank(left),
        is_blank(right),
        inner.len() > 0 ==> !is_space(inner[0]) && !is_space(inner.last()),
        ws.len() >= 1,
        ws[0] != "reset"@,
        ws.len() == 1 ==> ws[0] != "halt"@,
        ws[0] == "rtt"@ ==> {
            &&& !(ws.len() == 2 && ws[1] == "start"@)
            &&& !(ws.len() >= 4 && ws[1] == "setup"@)
            &&& !(ws.len() == 5 && ws[1] == "server"@ && ws[2] == "start"@)
            &&& !(ws.len() == 4 && ws[1] == "server"@ && ws[2] == "stop"@)
        },
    ensures
        same_stub(*final(stub), *old(stub)),
        has_said(next, "Monitor command '"@ + inner + "' not supported"@),
{
    lemma_command(text@, gaps, ws);
    lemma_inner(left, inner, right);
    lemma_stub(*final(stub), *old(stub));
}

/// A reset that was made is waited for and then reported, and one that failed is reported
/// with its error. So is a halt.
pub proof fn what_came_of_a_reset_or_a_halt_is_said(
    stub: &IrisGdbStub,
    r: Result<(), String>,
    reset: MonitorNext,
    waited: MonitorNext,
    halted: MonitorNext,
)
    requires
        call_ensures(IrisGdbStub::was_reset, (stub, r), reset),
        call_ensures(IrisGdbStub::has_waited, (), waited),
        call_ensures(IrisGdbStub::was_halted, (r,), halted),
    ensures
        has_said(waited, "reset"@),
        match r {
            Ok(_) => reset == MonitorNext::Wait(stub.sim) && has_said(halted, "halt"@),
            Err(e) => has_said(reset, "reset unavailable: "@ + e@) && has_said(
                halted,
                "halt unavailable: "@ + e@,
            ),
        },
{
}

/// What was found is noted and told: where the control block is and how many up channels
/// it has, or what went wrong.
pub proof fn what_was_found_is_told(stub: &mut IrisGdbStub, found: Located, next: MonitorNext)
    requires
        call_ensures(IrisGdbStub::was_located, (stub, found), next),
    ensures
        same_session(*final(stub), *old(stub)),
        same_search(final(stub).rtt, old(stub).rtt),
        servers_of(final(stub).rtt) == servers_of(old(stub).rtt),
        same_queues(final(stub).rtt, old(stub).rtt),
        final(stub).rtt.poll_counter == old(stub).rtt.poll_counter,
        match found {
            Located::Nowhere => {
                &&& same_block(final(stub).rtt, old(stub).rtt)
                &&& has_said(next, "rtt start: "@ + "RTT control block not found"@)
            },
            Located::UpUnread { cb, error } => {
                &&& final(stub).rtt.control_block == Some(cb)
                &&& final(stub).rtt.num_up == old(stub).rtt.num_up
                &&& final(stub).rtt.num_down == old(stub).rtt.num_down
                &&& has_said(next, "rtt start: "@ + said_of(error))
            },
            Located::DownUnread { cb, num_up, error } => {
                &&& final(stub).rtt.control_block == Some(cb)
                &&& final(stub).rtt.num_up == num_up
                &&& final(stub).rtt.num_down == old(stub).rtt.num_down
                &&& has_said(next, "rtt start: "@ + said_of(error))
            },
            Located::At(Block { cb, num_up, num_down }) => {
                &&& final(stub).rtt.control_block == Some(cb)
                &&& final(stub).rtt.num_up == num_up
                &&& final(stub).rtt.num_down == num_down
                &&& exists|x: Seq<char>, y: Seq<char>| #[trigger]
                    is_written(x, 16, cb as int) && #[trigger] is_written(y, 10, num_up as int)
                        && has_said(
                        next,
                        "rtt: control block "@ + ("0x"@ + x) + ", "@ + y + " up channel(s)"@,
                    )
            },
        },
{
    lemma_same(final(stub).rtt, old(stub).rtt);
    if let Located::At(Block { cb, num_up, num_down }) = found {
        lemma_written(cb as nat, 16);
        lemma_written(num_up as nat, 10);
        assert(is_written(digits(cb as nat, 16), 16, cb as int));
        assert(is_written(digits(num_up as nat, 10), 10, num_up as int));
    }
}

/// A port that was bound is served for its channel, which is said. Where it could not be
/// bound, or is served by now, nothing changes, and that is said.
pub proof fn a_bound_port_is_served_and_told(
    stub: &mut IrisGdbStub,
    bind: Bind,
    bound: Result<(), String>,
    next: MonitorNext,
)
    requires
        call_ensures(IrisGdbStub::was_bound, (stub, bind, bound), next),
    ensures
        same_session(*final(stub), *old(stub)),
        has_port(old(stub).rtt, bind.port) ==> same_rtt(final(stub).rtt, old(stub).rtt)
            && has_said(next, "rtt server start: "@ + "port already serving"@),
        !has_port(old(stub).rtt, bind.port) ==> match bound {
            Err(error) => same_rtt(final(stub).rtt, old(stub).rtt) && has_said(
                next,
                "rtt server start: "@ + error@,
            ),
            Ok(_) => {
                &&& servers_of(final(stub).rtt) == servers_of(old(stub).rtt).push(
                    (bind.port, bind.channel, Seq::empty()),
                )
                &&& same_search(final(stub).rtt, old(stub).rtt)
                &&& same_block(final(stub).rtt, old(stub).rtt)
                &&& same_queues(final(stub).rtt, old(stub).rtt)
                &&& final(stub).rtt.poll_counter == old(stub).rtt.poll_counter
                &&& exists|x: Seq<char>, y: Seq<char>| #[trigger]
                    is_written(x, 10, bind.channel as int) && #[trigger] is_written(
                        y,
                        10,
                        bind.port as int,
                    ) && has_said(next, "rtt: channel "@ + x + " -> 127.0.0.1:"@ + y)
            },
        },
{
    lemma_same(final(stub).rtt, old(stub).rtt);
    lemma_servers(old(stub).rtt);
    lemma_servers(final(stub).rtt);
    lemma_written(bind.channel as nat, 10);
    lemma_written(bind.port as nat, 10);
    assert(is_written(digits(bind.channel as nat, 10), 10, bind.channel as int));
    assert(is_written(digits(bind.port as nat, 10), 10, bind.port as int));
    if !has_port(old(stub).rtt, bind.port) && bound is Ok {
        assert(servers_of(final(stub).rtt) =~= servers_of(old(stub).rtt).push(
            (bind.port, bind.channel, Seq::empty()),
        ));
    }
}

} // verus!
