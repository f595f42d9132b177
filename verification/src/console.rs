//! The console of a debug session.

use crate::locate::{Locate, LocateNext, Located};
use crate::monitor::{
    command, decimal, error_text, hex, parse_command, serving_text, setup_text, started_text,
    stopped_text, unknown_text, Command, CommandView,
};
use crate::rtt::{Bind, RttView, ServerView};
use crate::stub::{IrisGdbStub, StubView};
use crate::text::owned;
use vstd::prelude::*;
use vstd::utf8::{decode_utf8, encode_utf8, valid_utf8};

verus! {

/// The text that `String::from_utf8_lossy` makes of some bytes.
pub uninterp spec fn utf8_lossy(bytes: Seq<u8>) -> Seq<char>;

/// Calls `String::from_utf8_lossy`. Claimed of it: what it gives depends on the bytes
/// alone, and bytes that are valid UTF-8 are given as the text that they encode.
#[verifier::external_body]
fn decode_lossy(bytes: &[u8]) -> (text: String)
    ensures
        text@ == utf8_lossy(bytes@),
        valid_utf8(bytes@) ==> text@ == decode_utf8(bytes@),
{
    String::from_utf8_lossy(bytes).into_owned()
}

/// A reset that is to be made.
#[derive(Debug)]
pub struct Reset {
    pub sim: u32,
    /// A reset of a part of the system will do.
    pub allow_partial: bool,
}

/// What a monitor command wants next.
#[derive(Debug)]
pub enum MonitorNext {
    /// The command is done, and has nothing to say.
    Silent,
    /// The command is done; a line for the console.
    Say(String),
    /// Reset the simulation; [`IrisGdbStub::was_reset`] is what follows.
    Reset(Reset),
    /// Wait until the simulation has been reset; [`IrisGdbStub::has_waited`] is what
    /// follows, whatever comes of it.
    Wait(u32),
    /// Stop the simulation; [`IrisGdbStub::was_halted`] is what follows.
    Halt(u32),
    /// Look for the control block; [`IrisGdbStub::was_located`] is what follows.
    Locate(LocateNext),
    /// Bind a port on loopback; [`IrisGdbStub::was_bound`] is what follows.
    Bind(Bind),
}

impl MonitorNext {
    /// The command is done, and has `text` to say.
    pub open spec fn says(self, text: Seq<char>) -> bool {
        self matches MonitorNext::Say(s) && s@ == text
    }
}

/// What the command `c` does to a session in the state `before`: it leaves it in the state
/// `after`, and goes on with `next`.
pub open spec fn monitored(
    c: CommandView,
    before: StubView,
    after: StubView,
    next: MonitorNext,
) -> bool {
    match c {
        CommandView::Nothing => after == before && next == MonitorNext::Silent,
        CommandView::Reset => after == before && next == MonitorNext::Reset(
            Reset { sim: before.sim, allow_partial: false },
        ),
        CommandView::Halt => after == before && next == MonitorNext::Halt(before.sim),
        CommandView::Setup { addr, size, id } => {
            &&& after == (StubView {
                rtt: RttView {
                    search: Some((addr, size, id)),
                    control_block: None,
                    ..before.rtt
                },
                ..before
            })
            &&& next.says(
                "rtt: search "@ + hex(addr) + ".."@ + hex(addr.wrapping_add(size)),
            )
        },
        CommandView::BadSetup => {
            &&& after == before
            &&& next.says("rtt setup <addr> <size> [id]: bad address/size"@)
        },
        CommandView::Start => {
            &&& after == before
            &&& match before.rtt.search {
                None => next.says("rtt start: "@ + "rtt setup not run"@),
                Some((addr, size, id)) => next matches MonitorNext::Locate(locate)
                    && Locate::begins(
                    before.instance_id,
                    false,
                    addr,
                    size,
                    encode_utf8(id),
                    locate,
                ),
            }
        },
        CommandView::ServerStart { port, channel } => {
            &&& after == before
            &&& if before.rtt.serving(port) {
                next.says("rtt server start: "@ + "port already serving"@)
            } else {
                next == MonitorNext::Bind(Bind { port, channel })
            }
        },
        CommandView::BadServerStart => {
            &&& after == before
            &&& next.says("rtt server start <port> <channel>: bad args"@)
        },
        CommandView::ServerStop { port } => {
            &&& after == (StubView {
                rtt: RttView {
                    servers: before.rtt.servers.filter(|s: ServerView| s.port != port),
                    ..before.rtt
                },
                ..before
            })
            &&& next.says(
                "rtt: server :"@ + decimal(port as u64) + " "@ + (if before.rtt.serving(port) {
                    "stopped"@
                } else {
                    "not running"@
                }),
            )
        },
        CommandView::BadServerStop => {
            &&& after == before
            &&& next.says("rtt server stop <port>: bad port"@)
        },
        CommandView::Unknown { text } => {
            &&& after == before
            &&& next.says("Monitor command '"@ + text + "' not supported"@)
        },
    }
}

impl IrisGdbStub {
    /// Begins to carry out the monitor command `cmd`, which need not be valid UTF-8.
    pub fn handle_monitor_cmd(&mut self, cmd: &[u8]) -> (next: MonitorNext)
        ensures
            monitored(command(utf8_lossy(cmd@)), old(self)@, final(self)@, next),
            valid_utf8(cmd@) ==> monitored(
                command(decode_utf8(cmd@)),
                old(self)@,
                final(self)@,
                next,
            ),
    {
        let text = decode_lossy(cmd);
        self.handle_monitor_text(text.as_str())
    }

    /// Begins to carry out the monitor command `text`.
    pub fn handle_monitor_text(&mut self, text: &str) -> (next: MonitorNext)
        ensures
            monitored(command(text@), old(self)@, final(self)@, next),
    {
        match parse_command(text) {
            Command::Nothing => MonitorNext::Silent,
            Command::Reset => MonitorNext::Reset(
                Reset { sim: self.sim, allow_partial: false },
            ),
            Command::Halt => MonitorNext::Halt(self.sim),
            Command::Setup { addr, size, id } => {
                self.rtt.setup(addr, size, id);
                MonitorNext::Say(setup_text(addr, size))
            },
            Command::BadSetup => MonitorNext::Say(
                owned("rtt setup <addr> <size> [id]: bad address/size"),
            ),
            Command::Start => match self.rtt.start(self.instance_id) {
                Ok(next) => MonitorNext::Locate(next),
                Err(e) => MonitorNext::Say(error_text("rtt start: ", e.message().as_str())),
            },
            Command::ServerStart { port, channel } => match self.rtt.server_start(port, channel) {
                Ok(bind) => MonitorNext::Bind(bind),
                Err(e) => MonitorNext::Say(
                    error_text("rtt server start: ", e.message().as_str()),
                ),
            },
            Command::BadServerStart => MonitorNext::Say(
                owned("rtt server start <port> <channel>: bad args"),
            ),
            Command::ServerStop { port } => {
                let removed = self.rtt.server_stop(port);
                MonitorNext::Say(stopped_text(port, removed))
            },
            Command::BadServerStop => MonitorNext::Say(owned("rtt server stop <port>: bad port")),
            Command::Unknown { text } => MonitorNext::Say(unknown_text(text.as_str())),
        }
    }

    /// `reset`, once it is known whether the server has done it. Some models cannot be
    /// reset: that is said, and the session goes on.
    pub fn was_reset(&self, r: Result<(), String>) -> (next: MonitorNext)
        ensures
            match r {
                Ok(_) => next == MonitorNext::Wait(self.sim),
                Err(e) => next.says("reset unavailable: "@ + e@),
            },
    {
        match r {
            Ok(_) => MonitorNext::Wait(self.sim),
            Err(e) => MonitorNext::Say(error_text("reset unavailable: ", e.as_str())),
        }
    }

    /// `reset`, at its end.
    pub fn has_waited() -> (next: MonitorNext)
        ensures
            next.says("reset"@),
    {
        MonitorNext::Say(owned("reset"))
    }

    /// `halt`, once it is known whether the server has done it.
    pub fn was_halted(r: Result<(), String>) -> (next: MonitorNext)
        ensures
            match r {
                Ok(_) => next.says("halt"@),
                Err(e) => next.says("halt unavailable: "@ + e@),
            },
    {
        match r {
            Ok(_) => MonitorNext::Say(owned("halt")),
            Err(e) => MonitorNext::Say(error_text("halt unavailable: ", e.as_str())),
        }
    }

    /// `rtt start`, once it is known what came of looking for the control block.
    pub fn was_located(&mut self, found: Located) -> (next: MonitorNext)
        ensures
            match found {
                Located::Nowhere => {
                    &&& final(self)@ == old(self)@
                    &&& next.says("rtt start: "@ + "RTT control block not found"@)
                },
                Located::UpUnread { cb, error } => {
                    &&& final(self)@ == (StubView {
                        rtt: RttView { control_block: Some(cb), ..old(self)@.rtt },
                        ..old(self)@
                    })
                    &&& next.says("rtt start: "@ + error.text())
                },
                Located::DownUnread { cb, num_up, error } => {
                    &&& final(self)@ == (StubView {
                        rtt: RttView { control_block: Some(cb), num_up, ..old(self)@.rtt },
                        ..old(self)@
                    })
                    &&& next.says("rtt start: "@ + error.text())
                },
                Located::At(block) => {
                    &&& final(self)@ == (StubView {
                        rtt: old(self)@.rtt.with_block(block),
                        ..old(self)@
                    })
                    &&& next.says(
                        "rtt: control block "@ + hex(block.cb) + ", "@ + decimal(
                            block.num_up as u64,
                        ) + " up channel(s)"@,
                    )
                },
            },
    {
        match self.rtt.started(found) {
            Ok((cb, num_up)) => MonitorNext::Say(started_text(cb, num_up)),
            Err(e) => MonitorNext::Say(error_text("rtt start: ", e.message().as_str())),
        }
    }

    /// `rtt server start`, once it is known whether the port could be bound.
    pub fn was_bound(&mut self, bind: Bind, bound: Result<(), String>) -> (next: MonitorNext)
        ensures
            ({
                let before = old(self)@;
                if before.rtt.serving(bind.port) {
                    &&& final(self)@ == before
                    &&& next.says("rtt server start: "@ + "port already serving"@)
                } else {
                    match bound {
                        Err(text) => {
                            &&& final(self)@ == before
                            &&& next.says("rtt server start: "@ + text@)
                        },
                        Ok(_) => {
                            &&& final(self)@ == (StubView {
                                rtt: RttView {
                                    servers: before.rtt.servers.push(
                                        ServerView {
                                            port: bind.port,
                                            channel: bind.channel,
                                            clients: Seq::empty(),
                                        },
                                    ),
                                    ..before.rtt
                                },
                                ..before
                            })
                            &&& next.says(
                                "rtt: channel "@ + decimal(bind.channel as u64) + " -> 127.0.0.1:"@
                                    + decimal(bind.port as u64),
                            )
                        },
                    }
                }
            }),
    {
        let port: u16 = bind.port;
        let channel: u32 = bind.channel;
        match self.rtt.server_started(bind, bound) {
            Ok(_) => MonitorNext::Say(serving_text(channel, port)),
            Err(e) => MonitorNext::Say(error_text("rtt server start: ", e.message().as_str())),
        }
    }
}

} // verus!
