//! Monitor commands: what they mean, and what they answer.

use crate::numbers::{append_number, digits, parse_u16, parse_u64, parsed, unsigned};
use crate::text::{join_from, joined, owned, same, split_words, texts, trim, trimmed, words, Rim};
use vstd::prelude::*;
use vstd::string::*;

verus! {

/// A monitor command.
#[derive(Debug)]
pub enum Command {
    /// Nothing was said.
    Nothing,
    /// `reset`, with or without more: reset, and leave the core halted.
    Reset,
    /// `halt`: stop the simulation.
    Halt,
    /// `rtt setup <addr> <size> [id]`.
    Setup { addr: u64, size: u64, id: String },
    /// The same, but the address or the size is no number.
    BadSetup,
    /// `rtt start`.
    Start,
    /// `rtt server start <port> <channel>`.
    ServerStart { port: u16, channel: u32 },
    /// The same, but the port or the channel is no number, or too large a one.
    BadServerStart,
    /// `rtt server stop <port>`.
    ServerStop { port: u16 },
    /// The same, but the port is no number.
    BadServerStop,
    /// Anything else.
    Unknown { text: String },
}

/// A monitor command, as it is spoken of.
#[verifier::ext_equal]
pub enum CommandView {
    Nothing,
    Reset,
    Halt,
    Setup { addr: u64, size: u64, id: Seq<char> },
    BadSetup,
    Start,
    ServerStart { port: u16, channel: u32 },
    BadServerStart,
    ServerStop { port: u16 },
    BadServerStop,
    Unknown { text: Seq<char> },
}

impl View for Command {
    type V = CommandView;

    open spec fn view(&self) -> CommandView {
        match self {
            Command::Nothing => CommandView::Nothing,
            Command::Reset => CommandView::Reset,
            Command::Halt => CommandView::Halt,
            Command::Setup { addr, size, id } => CommandView::Setup {
                addr: *addr,
                size: *size,
                id: id@,
            },
            Command::BadSetup => CommandView::BadSetup,
            Command::Start => CommandView::Start,
            Command::ServerStart { port, channel } => CommandView::ServerStart {
                port: *port,
                channel: *channel,
            },
            Command::BadServerStart => CommandView::BadServerStart,
            Command::ServerStop { port } => CommandView::ServerStop { port: *port },
            Command::BadServerStop => CommandView::BadServerStop,
            Command::Unknown { text } => CommandView::Unknown { text: text@ },
        }
    }
}

/// The identifier that the last words of a setup name: they may stand in quotes, and
/// where there are none it is SEGGER's own.
pub open spec fn setup_id(rest: Seq<Seq<char>>) -> Seq<char> {
    if rest.len() == 0 {
        "SEGGER RTT"@
    } else {
        trimmed(joined(rest), Rim::Quotes)
    }
}

/// What the words `w` of the text `text` mean.
pub open spec fn meaning(text: Seq<char>, w: Seq<Seq<char>>) -> CommandView {
    if w.len() == 0 {
        CommandView::Nothing
    } else if w[0] == "reset"@ {
        CommandView::Reset
    } else if w.len() == 1 && w[0] == "halt"@ {
        CommandView::Halt
    } else if w.len() >= 4 && w[0] == "rtt"@ && w[1] == "setup"@ {
        match (parsed(w[2]), parsed(w[3])) {
            (Some(addr), Some(size)) => CommandView::Setup {
                addr: addr as u64,
                size: size as u64,
                id: setup_id(w.skip(4)),
            },
            _ => CommandView::BadSetup,
        }
    } else if w.len() == 2 && w[0] == "rtt"@ && w[1] == "start"@ {
        CommandView::Start
    } else if w.len() == 5 && w[0] == "rtt"@ && w[1] == "server"@ && w[2] == "start"@ {
        match (unsigned(w[3], 10, u16::MAX as nat), parsed(w[4])) {
            (Some(port), Some(channel)) => if channel <= u32::MAX {
                CommandView::ServerStart { port: port as u16, channel: channel as u32 }
            } else {
                CommandView::BadServerStart
            },
            _ => CommandView::BadServerStart,
        }
    } else if w.len() == 4 && w[0] == "rtt"@ && w[1] == "server"@ && w[2] == "stop"@ {
        match unsigned(w[3], 10, u16::MAX as nat) {
            Some(port) => CommandView::ServerStop { port: port as u16 },
            None => CommandView::BadServerStop,
        }
    } else {
        CommandView::Unknown { text: trimmed(text, Rim::White) }
    }
}

/// What the text means as a monitor command.
pub open spec fn command(text: Seq<char>) -> CommandView {
    meaning(text, words(text))
}

/// Reads a monitor command.
pub fn parse_command(text: &str) -> (r: Command)
    ensures
        r@ == command(text@),
{
    let w = split_words(text);
    let n: usize = w.len();
    let ghost ws = words(text@);
    assert(texts(w@) == ws);
    assert(ws.len() == n);
    assert forall|i: int| 0 <= i < n implies ws[i] == (#[trigger] w@[i])@ by {
        assert(texts(w@)[i] == w@[i]@);
    }
    if n == 0 {
        return Command::Nothing;
    }
    if same(w[0], "reset") {
        return Command::Reset;
    }
    if n == 1 && same(w[0], "halt") {
        return Command::Halt;
    }
    let rtt: bool = same(w[0], "rtt");
    if n >= 4 && rtt && same(w[1], "setup") {
        return match (parse_u64(w[2]), parse_u64(w[3])) {
            (Some(addr), Some(size)) => {
                let id = if n == 4 {
                    owned("SEGGER RTT")
                } else {
                    owned(trim(join_from(&w, 4).as_str(), Rim::Quotes))
                };
                Command::Setup { addr, size, id }
            },
            _ => Command::BadSetup,
        };
    }
    if n == 2 && rtt && same(w[1], "start") {
        return Command::Start;
    }
    if n == 5 && rtt && same(w[1], "server") && same(w[2], "start") {
        return match (parse_u16(w[3]), parse_u64(w[4])) {
            (Some(port), Some(channel)) => {
                if channel <= u32::MAX as u64 {
                    Command::ServerStart { port, channel: channel as u32 }
                } else {
                    Command::BadServerStart
                }
            },
            _ => Command::BadServerStart,
        };
    }
    if n == 4 && rtt && same(w[1], "server") && same(w[2], "stop") {
        return match parse_u16(w[3]) {
            Some(port) => Command::ServerStop { port },
            None => Command::BadServerStop,
        };
    }
    Command::Unknown { text: owned(trim(text, Rim::White)) }
}

/// `n` in hexadecimal.
pub open spec fn hex(n: u64) -> Seq<char> {
    "0x"@ + digits(n as nat, 16)
}

/// `n` in decimal.
pub open spec fn decimal(n: u64) -> Seq<char> {
    digits(n as nat, 10)
}

fn append_hex(text: &mut String, n: u64)
    ensures
        final(text)@ == old(text)@ + hex(n),
{
    text.append("0x");
    append_number(text, n, 16);
    assert(text@ =~= old(text)@ + hex(n));
}

fn append_decimal(text: &mut String, n: u64)
    ensures
        final(text)@ == old(text)@ + decimal(n),
{
    append_number(text, n, 10);
}

/// What a setup answers: the region that will be searched.
pub fn setup_text(addr: u64, size: u64) -> (r: String)
    ensures
        r@ == "rtt: search "@ + hex(addr) + ".."@ + hex(addr.wrapping_add(size)),
{
    let mut r = owned("rtt: search ");
    append_hex(&mut r, addr);
    r.append("..");
    append_hex(&mut r, addr.wrapping_add(size));
    r
}

/// What a start answers that has found the control block.
pub fn started_text(cb: u64, num_up: u32) -> (r: String)
    ensures
        r@ == "rtt: control block "@ + hex(cb) + ", "@ + decimal(num_up as u64)
            + " up channel(s)"@,
{
    let mut r = owned("rtt: control block ");
    append_hex(&mut r, cb);
    r.append(", ");
    append_decimal(&mut r, num_up as u64);
    r.append(" up channel(s)");
    r
}

/// What a server start answers that went well.
pub fn serving_text(channel: u32, port: u16) -> (r: String)
    ensures
        r@ == "rtt: channel "@ + decimal(channel as u64) + " -> 127.0.0.1:"@ + decimal(port as u64),
{
    let mut r = owned("rtt: channel ");
    append_decimal(&mut r, channel as u64);
    r.append(" -> 127.0.0.1:");
    append_decimal(&mut r, port as u64);
    r
}

/// What a server stop answers.
pub fn stopped_text(port: u16, removed: bool) -> (r: String)
    ensures
        r@ == "rtt: server :"@ + decimal(port as u64) + " "@ + (if removed {
            "stopped"@
        } else {
            "not running"@
        }),
{
    let mut r = owned("rtt: server :");
    append_decimal(&mut r, port as u64);
    r.append(" ");
    if removed {
        r.append("stopped");
    } else {
        r.append("not running");
    }
    r
}

/// What is answered to a command that is not known.
pub fn unknown_text(text: &str) -> (r: String)
    ensures
        r@ == "Monitor command '"@ + text@ + "' not supported"@,
{
    let mut r = owned("Monitor command '");
    r.append(text);
    r.append("' not supported");
    r
}

/// `what` with the text of an error behind it.
pub fn error_text(what: &str, error: &str) -> (r: String)
    ensures
        r@ == what@ + error@,
{
    let mut r = owned(what);
    r.append(error);
    r
}

} // verus!
