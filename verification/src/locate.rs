//! The control block: finding it, and reading how many channels it has.

use crate::access::{lemma_read_served, read_u32, u32_in, u32_read};
use crate::dialogue::{contents, converses, effect, mapped, served, Dialogue, Next};
use crate::error::RttError;
use crate::memory::{le_u32, Reply, Request, SPACE};
use crate::ring::{above, address, CB_MAX_DOWN_OFFSET, CB_MAX_UP_OFFSET};
use crate::scan::{
    find_control_block, region_end, scan_finds_the_first, scanned, Scan, ScanNext,
};
use vstd::prelude::*;

verus! {

/// A control block: where it is, and how many channels it has each way.
#[derive(Debug, Clone, Copy)]
pub struct Block {
    pub cb: u64,
    pub num_up: u32,
    /// Not known where it could not be read.
    pub num_down: Option<u32>,
}

/// What came of looking for the control block.
#[derive(Debug)]
pub enum Located {
    /// The region holds none.
    Nowhere,
    /// There is one at `cb`, but the number of its up channels could not be read.
    UpUnread { cb: u64, error: RttError },
    /// There is one at `cb`, but the number of its down channels could not be read.
    DownUnread { cb: u64, num_up: u32, error: RttError },
    /// There is one, and its header has been read.
    At(Block),
}

/// Where the looking has got to. A lenient one takes a number of up channels that cannot
/// be read for zero, and goes without one of down channels; any other ends there.
#[derive(Debug)]
pub enum Locate {
    /// The region is being scanned.
    Scanning { inst: u32, lenient: bool, scan: Scan },
    /// The number of up channels was asked for.
    Up { inst: u32, lenient: bool, cb: u64 },
    /// The number of down channels was asked for.
    Down { inst: u32, lenient: bool, cb: u64, num_up: u32 },
}

/// What the looking wants next.
pub type LocateNext = Next<Locate, Located>;

impl Locate {
    /// The read of the number at `offset` in the block at `cb` that leads to `then`.
    pub open spec fn asks(inst: u32, cb: u64, offset: u64, then: Locate) -> LocateNext {
        Next::Ask(
            Request::Read {
                inst,
                space: SPACE,
                addr: above(cb, offset),
                width: 1,
                count: 4,
            },
            then,
        )
    }

    /// The number of up channels is asked for.
    pub open spec fn asks_up(inst: u32, lenient: bool, cb: u64) -> LocateNext {
        Locate::asks(inst, cb, CB_MAX_UP_OFFSET, Locate::Up { inst, lenient, cb })
    }

    /// The number of down channels is asked for.
    pub open spec fn asks_down(inst: u32, lenient: bool, cb: u64, num_up: u32) -> LocateNext {
        Locate::asks(inst, cb, CB_MAX_DOWN_OFFSET, Locate::Down { inst, lenient, cb, num_up })
    }

    /// What follows a step of the scan.
    pub open spec fn after_scan(inst: u32, lenient: bool, scan: ScanNext) -> LocateNext {
        match scan {
            Next::Ask(request, scan) => Next::Ask(
                request,
                Locate::Scanning { inst, lenient, scan },
            ),
            Next::Done(None) => Next::Done(Located::Nowhere),
            Next::Done(Some(cb)) => Locate::asks_up(inst, lenient, cb),
        }
    }

    /// The beginning of a search of `[addr, addr + size)` for `id`.
    pub open spec fn begins(
        inst: u32,
        lenient: bool,
        addr: u64,
        size: u64,
        id: Seq<u8>,
        next: LocateNext,
    ) -> bool {
        exists|scan: ScanNext| #[trigger]
            Scan::begins(inst, addr, size, id, scan) && next == Locate::after_scan(
                inst,
                lenient,
                scan,
            )
    }

    fn follow(inst: u32, lenient: bool, scan: ScanNext) -> (next: LocateNext)
        ensures
            next == Locate::after_scan(inst, lenient, scan),
    {
        match scan {
            Next::Ask(request, scan) => Next::Ask(
                request,
                Locate::Scanning { inst, lenient, scan },
            ),
            Next::Done(None) => Next::Done(Located::Nowhere),
            Next::Done(Some(cb)) => Next::Ask(
                read_u32(inst, address(cb, CB_MAX_UP_OFFSET)),
                Locate::Up { inst, lenient, cb },
            ),
        }
    }
}

/// Begins to look for the control block with the identifier `id` in `[addr, addr + size)`.
pub fn locate(inst: u32, lenient: bool, addr: u64, size: u64, id: Vec<u8>) -> (next: LocateNext)
    ensures
        Locate::begins(inst, lenient, addr, size, id@, next),
{
    let scan = find_control_block(inst, addr, size, id);
    Locate::follow(inst, lenient, scan)
}

impl Dialogue for Locate {
    type Out = Located;

    open spec fn continues(self, reply: Reply, next: LocateNext) -> bool {
        match self {
            Locate::Scanning { inst, lenient, scan } => exists|then: ScanNext| #[trigger]
                scan.continues(reply, then) && next == Locate::after_scan(inst, lenient, then),
            Locate::Up { inst, lenient, cb } => next == match u32_in(reply) {
                Ok(num_up) => Locate::asks_down(inst, lenient, cb, num_up),
                Err(error) => if lenient {
                    Locate::asks_down(inst, lenient, cb, 0)
                } else {
                    Next::Done(Located::UpUnread { cb, error })
                },
            },
            Locate::Down { inst, lenient, cb, num_up } => next == match u32_in(reply) {
                Ok(num_down) => LocateNext::Done(
                    Located::At(Block { cb, num_up, num_down: Some(num_down) }),
                ),
                Err(error) => if lenient {
                    Next::Done(Located::At(Block { cb, num_up, num_down: None }))
                } else {
                    Next::Done(Located::DownUnread { cb, num_up, error })
                },
            },
        }
    }

    fn resume(self, reply: Reply) -> (next: LocateNext) {
        match self {
            Locate::Scanning { inst, lenient, scan } => {
                let then = scan.resume(reply);
                Locate::follow(inst, lenient, then)
            },
            Locate::Up { inst, lenient, cb } => {
                let num_up: u32 = match u32_read(reply) {
                    Ok(num_up) => num_up,
                    Err(error) => {
                        if !lenient {
                            return Next::Done(Located::UpUnread { cb, error });
                        }
                        0
                    },
                };
                Next::Ask(
                    read_u32(inst, address(cb, CB_MAX_DOWN_OFFSET)),
                    Locate::Down { inst, lenient, cb, num_up },
                )
            },
            Locate::Down { inst: _, lenient, cb, num_up } => {
                let num_down = match u32_read(reply) {
                    Ok(num_down) => Some(num_down),
                    Err(error) => {
                        if !lenient {
                            return Next::Done(Located::DownUnread { cb, num_up, error });
                        }
                        None
                    },
                };
                Next::Done(Located::At(Block { cb, num_up, num_down }))
            },
        }
    }
}

/// The first part of the looking is a scan, which ends where the second part begins.
proof fn lemma_scan_part(
    inst: u32,
    lenient: bool,
    scan: ScanNext,
    mem: Map<int, u8>,
    talk: Seq<(Reply, LocateNext)>,
    last: LocateNext,
    after: Map<int, u8>,
) -> (r: (Seq<(Reply, ScanNext)>, ScanNext, Map<int, u8>, Seq<(Reply, LocateNext)>))
    requires
        converses(Locate::after_scan(inst, lenient, scan), mem, talk, last, after),
    ensures
        converses(scan, mem, r.0, r.1, r.2),
        converses(Locate::after_scan(inst, lenient, r.1), r.2, r.3, last, after),
        r.1 is Ask ==> r.3.len() == 0,
        talk.len() == r.0.len() + r.3.len(),
    decreases talk.len(),
{
    if scan is Ask && talk.len() > 0 {
        let reply = talk[0].0;
        let then = choose|then: ScanNext| #[trigger]
            scan->Ask_1.continues(reply, then) && talk[0].1 == Locate::after_scan(
                inst,
                lenient,
                then,
            );
        let m = effect(mem, scan->Ask_0);
        let r = lemma_scan_part(inst, lenient, then, m, talk.drop_first(), last, after);
        let whole = seq![(reply, then)] + r.0;
        assert(whole.drop_first() =~= r.0);
        assert(whole[0] == (reply, then));
        (whole, r.1, r.2, r.3)
    } else {
        (Seq::empty(), scan, mem, talk)
    }
}

/// The number at `offset` in the header of the block at `cb`, if all of it is mapped.
pub open spec fn number_at(mem: Map<int, u8>, cb: u64, offset: u64) -> Option<u32> {
    let at = above(cb, offset) as int;
    if mapped(mem, at, 4) {
        Some(le_u32(contents(mem, at, 4)))
    } else {
        None
    }
}

/// What is to be made of the header of the block at `cb`.
pub open spec fn header_read(mem: Map<int, u8>, cb: u64, lenient: bool, found: Located) -> bool {
    let up = number_at(mem, cb, CB_MAX_UP_OFFSET);
    let down = number_at(mem, cb, CB_MAX_DOWN_OFFSET);
    match found {
        Located::Nowhere => false,
        Located::UpUnread { cb: c, .. } => c == cb && !lenient && up is None,
        Located::DownUnread { cb: c, num_up, .. } => {
            &&& c == cb
            &&& !lenient
            &&& up == Some(num_up)
            &&& down is None
        },
        Located::At(block) => {
            &&& block.cb == cb
            &&& block.num_up == (match up {
                Some(n) => n,
                None => 0,
            })
            &&& block.num_down == down
            &&& up is None || down is None ==> lenient
        },
    }
}

/// What is to hold of what was found in the memory `mem`.
pub open spec fn located(
    mem: Map<int, u8>,
    addr: int,
    end: int,
    id: Seq<u8>,
    lenient: bool,
    found: Located,
) -> bool {
    match block_at(found) {
        None => scanned(mem, addr, end, id, None),
        Some(cb) => scanned(mem, addr, end, id, Some(cb)) && header_read(mem, cb, lenient, found),
    }
}

/// Where a block was found.
pub open spec fn block_at(found: Located) -> Option<u64> {
    match found {
        Located::Nowhere => None,
        Located::UpUnread { cb, .. } => Some(cb),
        Located::DownUnread { cb, .. } => Some(cb),
        Located::At(block) => Some(block.cb),
    }
}

/// A number in the header is read where all of it is mapped, and only there.
proof fn lemma_number(
    mem: Map<int, u8>,
    request: Request,
    reply: Reply,
    inst: u32,
    cb: u64,
    offset: u64,
)
    requires
        request.reads(inst, above(cb, offset), 4),
        served(mem, request, reply),
    ensures
        match number_at(mem, cb, offset) {
            Some(n) => u32_in(reply) == Ok::<u32, RttError>(n),
            None => u32_in(reply) is Err,
        },
{
    if mapped(mem, above(cb, offset) as int, 4) {
        lemma_read_served(mem, request, reply, inst, above(cb, offset), 4);
    }
}

/// From the read of the first number on.
proof fn lemma_counts(
    inst: u32,
    lenient: bool,
    cb: u64,
    mem: Map<int, u8>,
    talk: Seq<(Reply, LocateNext)>,
    last: LocateNext,
    after: Map<int, u8>,
)
    requires
        converses(Locate::asks_up(inst, lenient, cb), mem, talk, last, after),
    ensures
        talk.len() <= 2,
        after == mem,
        last matches Next::Done(found) ==> header_read(mem, cb, lenient, found),
{
    let first = Locate::asks_up(inst, lenient, cb);
    if talk.len() > 0 {
        let up = talk[0].1;
        let rest = talk.drop_first();
        lemma_number(mem, first->Ask_0, talk[0].0, inst, cb, CB_MAX_UP_OFFSET);
        assert(converses(up, mem, rest, last, after));
        if up is Ask && rest.len() > 0 {
            lemma_number(mem, up->Ask_0, rest[0].0, inst, cb, CB_MAX_DOWN_OFFSET);
            assert(converses(rest[0].1, mem, rest.drop_first(), last, after));
            assert(rest.drop_first().len() == 0);
        }
    }
}

/// Looking for the control block gives the lowest place in the region where the
/// identifier stands, with the numbers of channels that the header there has. Where one
/// cannot be read, a lenient look gives zero up channels, and leaves the number of down
/// channels open; any other look says so. It changes nothing, and takes two reads more than
/// the scan.
pub proof fn locating_reads_the_header(
    inst: u32,
    lenient: bool,
    addr: u64,
    size: u64,
    id: Seq<u8>,
    first: LocateNext,
    mem: Map<int, u8>,
    talk: Seq<(Reply, LocateNext)>,
    last: LocateNext,
    after: Map<int, u8>,
)
    requires
        id.len() > 0,
        Locate::begins(inst, lenient, addr, size, id, first),
        converses(first, mem, talk, last, after),
    ensures
        talk.len() <= 2 * size + 2,
        after == mem,
        last matches Next::Done(found) ==> located(
            mem,
            addr as int,
            region_end(addr, size) as int,
            id,
            lenient,
            found,
        ),
{
    let scan = choose|scan: ScanNext| #[trigger]
        Scan::begins(inst, addr, size, id, scan) && first == Locate::after_scan(
            inst,
            lenient,
            scan,
        );
    let r = lemma_scan_part(inst, lenient, scan, mem, talk, last, after);
    scan_finds_the_first(inst, addr, size, id, scan, mem, r.0, r.1, r.2);
    match r.1 {
        Next::Ask(_, _) => {},
        Next::Done(None) => {},
        Next::Done(Some(cb)) => {
            lemma_counts(inst, lenient, cb, mem, r.3, last, after);
        },
    }
}

} // verus!
