//! Monitor commands: what they are taken for, what they do, and what they answer.

use crate::laws::texts::{
    lemma_inner, lemma_joined, lemma_parsed, lemma_unquoted, lemma_unsigned, lemma_words,
};
use crate::model::{
    consists_of, denotes, is_blank, is_number, is_space, is_unquoted, is_word, with_blanks,
};
use crate::monitor::{command, meaning, parse_command, Command, CommandView};
use crate::numbers::{parsed, unsigned};
use crate::text::joined;
use vstd::prelude::*;

verus! {

/// The words that commands are made of are told apart.
proof fn lemma_names()
    ensures
        "reset"@ != "halt"@,
        "reset"@ != "rtt"@,
        "halt"@ != "rtt"@,
        "setup"@ != "start"@,
        "setup"@ != "server"@,
        "start"@ != "server"@,
        "start"@ != "stop"@,
{
    reveal_strlit("reset");
    reveal_strlit("halt");
    reveal_strlit("rtt");
    reveal_strlit("setup");
    reveal_strlit("start");
    reveal_strlit("server");
    reveal_strlit("stop");
    assert("reset"@.len() == 5 && "halt"@.len() == 4 && "rtt"@.len() == 3);
    assert("setup"@.len() == 5 && "start"@.len() == 5 && "server"@.len() == 6 && "stop"@.len()
        == 4);
    assert("setup"@[1] == 'e' && "start"@[1] == 't');
}

/// A word denotes what it is read as.
proof fn lemma_word_parsed(w: Seq<char>)
    requires
        is_word(w),
    ensures
        match parsed(w) {
            Some(n) => n <= u64::MAX && denotes(w, n as int),
            None => forall|n: int| n <= u64::MAX ==> !#[trigger] denotes(w, n),
        },
{
    let none = Seq::<char>::empty();
    assert(none + w + none =~= w);
    assert(!is_space(w[0]) && !is_space(w[w.len() - 1]));
    lemma_parsed(none, w, none);
}

/// A number denotes one thing only.
pub proof fn lemma_denotes_one(w: Seq<char>, a: int, b: int)
    requires
        denotes(w, a),
        denotes(w, b),
    ensures
        a == b,
{
}

/// What a text is taken for, in the words of the commands, together.
pub open spec fn is_taken_for(c: CommandView, ws: Seq<Seq<char>>) -> bool {
    &&& c is Nothing <==> ws.len() == 0
    &&& c is Reset <==> ws.len() >= 1 && ws[0] == "reset"@
    &&& c is Halt <==> ws.len() == 1 && ws[0] == "halt"@
    &&& c is Start <==> ws.len() == 2 && ws[0] == "rtt"@ && ws[1] == "start"@
    &&& c is Setup || c is BadSetup <==> ws.len() >= 4 && ws[0] == "rtt"@ && ws[1] == "setup"@
    &&& c matches CommandView::Setup { addr, size, id } ==> {
        &&& denotes(ws[2], addr as int)
        &&& denotes(ws[3], size as int)
        &&& ws.len() == 4 ==> id == "SEGGER RTT"@
        &&& ws.len() > 4 ==> is_unquoted(with_blanks(ws.skip(4)), id)
    }
    &&& c is BadSetup ==> {
        ||| forall|n: int| n <= 0xffff_ffff_ffff_ffff ==> !#[trigger] denotes(ws[2], n)
        ||| forall|n: int| n <= 0xffff_ffff_ffff_ffff ==> !#[trigger] denotes(ws[3], n)
    }
    &&& c is ServerStart || c is BadServerStart <==> ws.len() == 5 && ws[0] == "rtt"@ && ws[1]
        == "server"@ && ws[2] == "start"@
    &&& c matches CommandView::ServerStart { port, channel } ==> {
        &&& is_number(ws[3], 10, port as int)
        &&& denotes(ws[4], channel as int)
    }
    &&& c is BadServerStart ==> {
        ||| forall|n: int| n <= 0xffff ==> !#[trigger] is_number(ws[3], 10, n)
        ||| forall|n: int| n <= 0xffff_ffff ==> !#[trigger] denotes(ws[4], n)
    }
    &&& c is ServerStop || c is BadServerStop <==> ws.len() == 4 && ws[0] == "rtt"@ && ws[1]
        == "server"@ && ws[2] == "stop"@
    &&& c matches CommandView::ServerStop { port } ==> is_number(ws[3], 10, port as int)
    &&& c is BadServerStop ==> forall|n: int|
        n <= 0xffff ==> !#[trigger] is_number(ws[3], 10, n)
}

/// Every text is taken for what its words say.
pub proof fn lemma_command(text: Seq<char>, gaps: Seq<Seq<char>>, ws: Seq<Seq<char>>)
    requires
        consists_of(text, gaps, ws),
    ensures
        is_taken_for(command(text), ws),
{
    lemma_words(text, gaps, ws);
    lemma_names();
    let c = command(text);
    assert(c == meaning(text, ws));
    if ws.len() >= 4 {
        assert(is_word(ws[2]));
        assert(is_word(ws[3]));
        lemma_word_parsed(ws[2]);
        lemma_word_parsed(ws[3]);
        lemma_joined(ws.skip(4));
        lemma_unquoted(joined(ws.skip(4)));
        lemma_unsigned(ws[3], 10, u16::MAX as nat);
    }
    if ws.len() == 5 {
        assert(is_word(ws[4]));
        lemma_word_parsed(ws[4]);
        if c is BadServerStart && unsigned(ws[3], 10, u16::MAX as nat) is Some {
            assert forall|n: int| n <= 0xffff_ffff implies !#[trigger] denotes(ws[4], n) by {
                if denotes(ws[4], n) {
                    let m = parsed(ws[4])->Some_0 as int;
                    lemma_denotes_one(ws[4], m, n);
                }
            }
        }
    }
}

/// `reset`, with or without more, is a reset, `halt` alone is a halt, and `rtt start` is a
/// start. Without words there is nothing to do.
pub proof fn plain_commands_are_taken_for_what_they_are(
    text: &str,
    c: Command,
    gaps: Seq<Seq<char>>,
    ws: Seq<Seq<char>>,
)
    requires
        call_ensures(parse_command, (text,), c),
        consists_of(text@, gaps, ws),
    ensures
        c is Nothing <==> ws.len() == 0,
        c is Reset <==> ws.len() >= 1 && ws[0] == "reset"@,
        c is Halt <==> ws.len() == 1 && ws[0] == "halt"@,
        c is Start <==> ws.len() == 2 && ws[0] == "rtt"@ && ws[1] == "start"@,
{
    lemma_command(text@, gaps, ws);
}

/// `rtt setup` with an address and a size is a setup of that region, and with anything
/// else in their place it is a bad one. The words behind them are the identifier, without
/// the quotes around them; where there are none it is `SEGGER RTT`.
pub proof fn a_setup_is_taken_for_its_region(
    text: &str,
    c: Command,
    gaps: Seq<Seq<char>>,
    ws: Seq<Seq<char>>,
)
    requires
        call_ensures(parse_command, (text,), c),
        consists_of(text@, gaps, ws),
    ensures
        c is Setup || c is BadSetup <==> ws.len() >= 4 && ws[0] == "rtt"@ && ws[1] == "setup"@,
        c matches Command::Setup { addr, size, id } ==> {
            &&& denotes(ws[2], addr as int)
            &&& denotes(ws[3], size as int)
            &&& ws.len() == 4 ==> id@ == "SEGGER RTT"@
            &&& ws.len() > 4 ==> is_unquoted(with_blanks(ws.skip(4)), id@)
        },
        c is BadSetup ==> {
            ||| forall|n: int| n <= 0xffff_ffff_ffff_ffff ==> !#[trigger] denotes(ws[2], n)
            ||| forall|n: int| n <= 0xffff_ffff_ffff_ffff ==> !#[trigger] denotes(ws[3], n)
        },
{
    lemma_command(text@, gaps, ws);
}

/// `rtt server start` with a port and a channel starts a server of that channel on that
/// port, whatever they are, and with anything else in their place it is a bad one.
pub proof fn a_server_start_is_taken_for_its_port_and_channel(
    text: &str,
    c: Command,
    gaps: Seq<Seq<char>>,
    ws: Seq<Seq<char>>,
)
    requires
        call_ensures(parse_command, (text,), c),
        consists_of(text@, gaps, ws),
    ensures
        c is ServerStart || c is BadServerStart <==> ws.len() == 5 && ws[0] == "rtt"@ && ws[1]
            == "server"@ && ws[2] == "start"@,
        c matches Command::ServerStart { port, channel } ==> {
            &&& is_number(ws[3], 10, port as int)
            &&& denotes(ws[4], channel as int)
        },
        c is BadServerStart ==> {
            ||| forall|n: int| n <= 0xffff ==> !#[trigger] is_number(ws[3], 10, n)
            ||| forall|n: int| n <= 0xffff_ffff ==> !#[trigger] denotes(ws[4], n)
        },
{
    lemma_command(text@, gaps, ws);
}

/// `rtt server stop` with a port stops the server on that port, whatever it is, and with
/// anything else in its place it is a bad one.
pub proof fn a_server_stop_is_taken_for_its_port(
    text: &str,
    c: Command,
    gaps: Seq<Seq<char>>,
    ws: Seq<Seq<char>>,
)
    requires
        call_ensures(parse_command, (text,), c),
        consists_of(text@, gaps, ws),
    ensures
        c is ServerStop || c is BadServerStop <==> ws.len() == 4 && ws[0] == "rtt"@ && ws[1]
            == "server"@ && ws[2] == "stop"@,
        c matches Command::ServerStop { port } ==> is_number(ws[3], 10, port as int),
        c is BadServerStop ==> forall|n: int|
            n <= 0xffff ==> !#[trigger] is_number(ws[3], 10, n),
{
    lemma_command(text@, gaps, ws);
}

/// Anything else is not known, and is named without the white space around it.
pub proof fn an_unknown_command_is_named(
    text: &str,
    c: Command,
    left: Seq<char>,
    inner: Seq<char>,
    right: Seq<char>,
)
    requires
        call_ensures(parse_command, (text,), c),
        text@ == left + inner + right,
        is_blank(left),
        is_blank(right),
        inner.len() > 0 ==> !is_space(inner[0]) && !is_space(inner.last()),
    ensures
        c matches Command::Unknown { text: named } ==> named@ == inner,
{
    lemma_inner(left, inner, right);
}

} // verus!
