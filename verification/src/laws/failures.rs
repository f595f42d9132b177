//! What becomes of an access that fails.

use crate::dialogue::Dialogue;
use crate::down::{FillDown, FillNext};
use crate::error::RttError;
use crate::locate::{Locate, LocateNext, Located};
use crate::memory::Reply;
use crate::up::{DrainNext, DrainUp};
use vstd::prelude::*;

verus! {

/// A drain whose access fails ends at once, and says what the server said of it. One that
/// is answered with no bytes at all where it reads the descriptor says that it got too few.
pub proof fn a_drain_says_why_it_failed(
    drain: DrainUp,
    text: String,
    none: Vec<u64>,
    refused: DrainNext,
    short: DrainNext,
)
    requires
        none@.len() == 0,
        call_ensures(DrainUp::resume, (drain, Reply::Failed(text)), refused),
        call_ensures(DrainUp::resume, (drain, Reply::Words(none)), short),
    ensures
        refused == DrainNext::Done(Err(RttError::Transport(text))),
        drain is Header ==> short == DrainNext::Done(Err(RttError::ShortRead)),
        drain matches DrainUp::Commit { bytes } ==> short == DrainNext::Done(Ok(bytes)),
{
    assert(drain.continues(Reply::Failed(text), refused));
    assert(drain.continues(Reply::Words(none), short));
}

/// A fill whose access fails ends at once, and says what the server said of it. One that is
/// answered with no bytes at all where it reads the descriptor says that it got too few.
pub proof fn a_fill_says_why_it_failed(
    fill: FillDown,
    text: String,
    none: Vec<u64>,
    refused: FillNext,
    short: FillNext,
)
    requires
        none@.len() == 0,
        call_ensures(FillDown::resume, (fill, Reply::Failed(text)), refused),
        call_ensures(FillDown::resume, (fill, Reply::Words(none)), short),
    ensures
        refused == FillNext::Done(Err(RttError::Transport(text))),
        fill is Header ==> short == FillNext::Done(Err(RttError::ShortRead)),
        fill matches FillDown::Commit { n } ==> short == FillNext::Done(Ok(n as usize)),
{
    assert(fill.continues(Reply::Failed(text), refused));
    assert(fill.continues(Reply::Words(none), short));
}

/// A look that is not lenient ends where a number of channels cannot be read, and says what
/// the server said of it. One that is lenient goes on to the second number after the first,
/// and ends with the block after the second.
pub proof fn a_look_says_why_it_failed(look: Locate, text: String, next: LocateNext)
    requires
        call_ensures(Locate::resume, (look, Reply::Failed(text)), next),
    ensures
        look matches Locate::Up { lenient, cb, .. } ==> if lenient {
            next is Ask
        } else {
            next == LocateNext::Done(
                Located::UpUnread { cb, error: RttError::Transport(text) },
            )
        },
        look matches Locate::Down { lenient, cb, num_up, .. } ==> if lenient {
            &&& next is Done
            &&& next->Done_0 is At
            &&& next->Done_0->At_0.cb == cb
            &&& next->Done_0->At_0.num_up == num_up
            &&& next->Done_0->At_0.num_down is None
        } else {
            next == LocateNext::Done(
                Located::DownUnread { cb, num_up, error: RttError::Transport(text) },
            )
        },
{
    assert(look.continues(Reply::Failed(text), next));
}

} // verus!
