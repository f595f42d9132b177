//! Finding the control block.

use crate::dialogue::{effect, lemma_talks, talks, Dialogue, Next};
use crate::laws::rings::goes_to;
use crate::locate::{
    block_at, locate, located, locating_reads_the_header, Locate, LocateNext, Located,
};
use crate::memory::Reply;
use crate::model::{all_mapped, number_in, smaller, spelled_at, wrapped};
use crate::ring::{above, CB_MAX_DOWN_OFFSET, CB_MAX_UP_OFFSET};
use crate::scan::{
    find_control_block, occurs, position, region_end, scan_finds_the_first, stands, Scan, ScanNext,
};
use vstd::prelude::*;

verus! {

/// `text` stands in `hay` at `j`.
pub open spec fn found_at(hay: Seq<u8>, text: Seq<u8>, j: int) -> bool {
    forall|k: int| 0 <= k < text.len() ==> #[trigger] text[k] == hay[j + k]
}

/// The place that is found is the first where the text stands, and where none is found it
/// stands nowhere.
pub proof fn the_position_is_the_first(hay: Vec<u8>, text: Vec<u8>, r: Option<usize>)
    requires
        call_ensures(position, (&hay, &text), r),
    ensures
        match r {
            Some(i) => {
                &&& i + text@.len() <= hay@.len()
                &&& found_at(hay@, text@, i as int)
                &&& forall|j: int| 0 <= j < i ==> !#[trigger] found_at(hay@, text@, j)
            },
            None => forall|j: int|
                0 <= j && j + text@.len() <= hay@.len() ==> !#[trigger] found_at(hay@, text@, j),
        },
{
    assert forall|j: int| 0 <= j && j + text@.len() <= hay@.len() implies (#[trigger] found_at(
        hay@,
        text@,
        j,
    ) <==> occurs(hay@, text@, j)) by {
        let part = hay@.subrange(j, j + text@.len());
        if occurs(hay@, text@, j) {
            assert forall|k: int| 0 <= k < text@.len() implies #[trigger] text@[k] == hay@[j
                + k] by {
                assert(part[k] == hay@[j + k]);
            }
        }
        if found_at(hay@, text@, j) {
            assert(part =~= text@);
        }
    }
    if let Some(i) = r {
        assert(occurs(hay@, text@, i as int));
        assert forall|j: int| 0 <= j < i implies !#[trigger] found_at(hay@, text@, j) by {
            assert(!occurs(hay@, text@, j));
        }
    }
}

/// The identifier stands in the memory, in the words of the scan.
proof fn lemma_stands(mem: Map<int, u8>, a: int, id: Seq<u8>)
    ensures
        stands(mem, a, id) <==> spelled_at(mem, a, id),
{
    let there = crate::dialogue::contents(mem, a, id.len());
    if stands(mem, a, id) {
        assert forall|k: int| 0 <= k < id.len() implies mem.contains_key(a + k) && #[trigger] id[k]
            == mem[a + k] by {
            assert(mem.contains_key(a + k));
            assert(there[k] == mem[a + k]);
        }
    }
    if spelled_at(mem, a, id) {
        assert forall|x: int| a <= x < a + id.len() implies #[trigger] mem.contains_key(x) by {
            assert(id[x - a] == mem[a + (x - a)]);
        }
        assert(there =~= id);
    }
}

/// Where a region of `size` bytes at `addr` ends: at the end of the address space at the
/// latest.
pub open spec fn end_of(addr: u64, size: u64) -> int {
    smaller(addr + size, 0xffff_ffff_ffff_ffff)
}

/// What is to be found in a region: the lowest address where the identifier stands before
/// the first address that cannot be read. None is found only where it does not stand there.
pub open spec fn is_found(
    mem: Map<int, u8>,
    addr: u64,
    size: u64,
    id: Seq<u8>,
    found: Option<u64>,
) -> bool {
    match found {
        Some(a) => {
            &&& addr <= a
            &&& a + id.len() <= end_of(addr, size)
            &&& all_mapped(mem, addr as int, a + id.len() - addr)
            &&& spelled_at(mem, a as int, id)
            &&& forall|b: int| addr <= b < a ==> !#[trigger] spelled_at(mem, b, id)
        },
        None => forall|b: int|
            addr <= b && b + id.len() <= end_of(addr, size) && all_mapped(
                mem,
                addr as int,
                b + id.len() - addr,
            ) ==> !#[trigger] spelled_at(mem, b, id),
    }
}

proof fn lemma_scanned(mem: Map<int, u8>, addr: u64, size: u64, id: Seq<u8>, found: Option<u64>)
    requires
        crate::scan::scanned(mem, addr as int, region_end(addr, size) as int, id, found),
    ensures
        is_found(mem, addr, size, id, found),
{
    assert forall|b: int| #[trigger] spelled_at(mem, b, id) <==> stands(mem, b, id) by {
        lemma_stands(mem, b, id);
    }
    assert(region_end(addr, size) == end_of(addr, size));
    if let Some(a) = found {
        lemma_stands(mem, a as int, id);
    }
}

/// A scan searches all of its region, up to the first address that cannot be read: what it
/// finds is the lowest address in `[addr, addr + size)` where the identifier stands before
/// that, and where it finds nothing, the identifier does not stand there. It only reads,
/// from inside the region, of the instance, and comes to an end.
pub proof fn a_scan_searches_its_region(
    inst: u32,
    addr: u64,
    size: u64,
    id: Vec<u8>,
    first: ScanNext,
    mem: Map<int, u8>,
    talk: Seq<(Reply, ScanNext)>,
    last: ScanNext,
    after: Map<int, u8>,
)
    requires
        call_ensures(find_control_block, (inst, addr, size, id), first),
        talks(first, mem, talk, last, after),
    ensures
        after == mem,
        talk.len() <= 2 * size,
        id@.len() == 0 ==> last == ScanNext::Done(None),
        id@.len() > 0 ==> match last {
            Next::Ask(request, _) => {
                &&& goes_to(request, inst)
                &&& request is Read
                &&& addr <= request->Read_addr
                &&& request->Read_addr + request->Read_width * request->Read_count <= addr + size
            },
            Next::Done(found) => is_found(mem, addr, size, id@, found),
        },
{
    lemma_talks(first, mem, talk, last, after);
    if id@.len() > 0 {
        scan_finds_the_first(inst, addr, size, id@, first, mem, talk, last, after);
        lemma_scan_stays(inst, addr, region_end(addr, size), first, mem, talk, last, after);
        if let Next::Done(found) = last {
            lemma_scanned(mem, addr, size, id@, found);
        }
    }
}

/// What a step of a scan asks lies in the region.
spec fn scan_is_for(next: ScanNext, inst: u32, addr: u64, end: u64) -> bool {
    match next {
        Next::Done(_) => true,
        Next::Ask(request, wait) => {
            &&& goes_to(request, inst)
            &&& request is Read
            &&& request->Read_width == 1
            &&& addr <= request->Read_addr
            &&& request->Read_addr + request->Read_count <= end
            &&& match wait {
                Scan::Whole(w) => {
                    &&& w.inst == inst
                    &&& addr <= w.pos < w.end
                    &&& w.end == end
                    &&& w.id@.len() > 0
                },
                Scan::Pieces { window: w, held, piece } => {
                    &&& w.inst == inst
                    &&& addr <= w.pos < w.end
                    &&& w.end == end
                    &&& w.id@.len() > 0
                    &&& held@.len() + piece <= w.want()
                },
            }
        },
    }
}

proof fn lemma_scan_stays(
    inst: u32,
    addr: u64,
    end: u64,
    first: ScanNext,
    mem: Map<int, u8>,
    talk: Seq<(Reply, ScanNext)>,
    last: ScanNext,
    after: Map<int, u8>,
)
    requires
        scan_is_for(first, inst, addr, end),
        talks(first, mem, talk, last, after),
    ensures
        scan_is_for(last, inst, addr, end),
    decreases talk.len(),
{
    if talk.len() > 0 {
        lemma_scan_step(inst, addr, end, first, talk[0].0, talk[0].1);
        lemma_scan_stays(
            inst,
            addr,
            end,
            talk[0].1,
            effect(mem, first->Ask_0),
            talk.drop_first(),
            last,
            after,
        );
    }
}

proof fn lemma_scan_step(
    inst: u32,
    addr: u64,
    end: u64,
    now: ScanNext,
    reply: Reply,
    next: ScanNext,
)
    requires
        now is Ask,
        scan_is_for(now, inst, addr, end),
        call_ensures(Scan::resume, (now->Ask_1, reply), next),
    ensures
        scan_is_for(next, inst, addr, end),
{
    let wait = now->Ask_1;
    assert(wait.continues(reply, next));
    if next is Ask {
        match next->Ask_1 {
            Scan::Whole(w) => {},
            Scan::Pieces { window: w, held, piece } => {
                assert(above(w.pos, held@.len() as u64) == w.pos + held@.len());
            },
        }
    }
}

/// What is to be told of the control block: where a scan of the region finds it, and the
/// numbers that stand 16 and 20 bytes above it.
pub open spec fn is_told(
    mem: Map<int, u8>,
    addr: u64,
    size: u64,
    id: Seq<u8>,
    lenient: bool,
    found: Located,
) -> bool {
    match found {
        Located::Nowhere => is_found(mem, addr, size, id, None),
        Located::UpUnread { cb, .. } => {
            &&& is_found(mem, addr, size, id, Some(cb))
            &&& !lenient
            &&& !all_mapped(mem, wrapped(cb + 16), 4)
        },
        Located::DownUnread { cb, num_up, .. } => {
            &&& is_found(mem, addr, size, id, Some(cb))
            &&& !lenient
            &&& all_mapped(mem, wrapped(cb + 16), 4)
            &&& num_up == number_in(mem, wrapped(cb + 16))
            &&& !all_mapped(mem, wrapped(cb + 20), 4)
        },
        Located::At(block) => {
            &&& is_found(mem, addr, size, id, Some(block.cb))
            &&& block.num_up == (if all_mapped(mem, wrapped(block.cb + 16), 4) {
                number_in(mem, wrapped(block.cb + 16))
            } else {
                0
            })
            &&& if all_mapped(mem, wrapped(block.cb + 20), 4) {
                &&& block.num_down is Some
                &&& block.num_down->Some_0 == number_in(mem, wrapped(block.cb + 20))
            } else {
                block.num_down is None
            }
            &&& lenient || all_mapped(mem, wrapped(block.cb + 16), 4) && all_mapped(
                mem,
                wrapped(block.cb + 20),
                4,
            )
        },
    }
}

/// Looking for the control block finds it where a scan of its region does, and tells the
/// numbers that stand 16 and 20 bytes above it: how many up channels it has, and how many
/// down channels. Where the first cannot be read, a lenient look takes it for zero; where
/// the second cannot, it leaves it open. Any other look says which one it was. It only
/// reads, and comes to an end. An empty identifier is found nowhere.
pub proof fn a_look_finds_the_block_and_its_channels(
    inst: u32,
    lenient: bool,
    addr: u64,
    size: u64,
    id: Vec<u8>,
    first: LocateNext,
    mem: Map<int, u8>,
    talk: Seq<(Reply, LocateNext)>,
    last: LocateNext,
    after: Map<int, u8>,
)
    requires
        call_ensures(locate, (inst, lenient, addr, size, id), first),
        talks(first, mem, talk, last, after),
    ensures
        after == mem,
        talk.len() <= 2 * size + 2,
        id@.len() == 0 ==> last == LocateNext::Done(Located::Nowhere),
        id@.len() > 0 ==> match last {
            Next::Ask(request, _) => goes_to(request, inst) && request is Read,
            Next::Done(found) => is_told(mem, addr, size, id@, lenient, found),
        },
{
    if id@.len() > 0 {
        lemma_look(inst, lenient, addr, size, id@, first, mem, talk, last, after);
    }
}

/// The same of a look that has begun.
pub proof fn lemma_look(
    inst: u32,
    lenient: bool,
    addr: u64,
    size: u64,
    id: Seq<u8>,
    first: LocateNext,
    mem: Map<int, u8>,
    talk: Seq<(Reply, LocateNext)>,
    last: LocateNext,
    after: Map<int, u8>,
)
    requires
        id.len() > 0,
        Locate::begins(inst, lenient, addr, size, id, first),
        talks(first, mem, talk, last, after),
    ensures
        after == mem,
        talk.len() <= 2 * size + 2,
        last matches Next::Ask(request, _) ==> goes_to(request, inst) && request is Read,
        last matches Next::Done(found) ==> is_told(mem, addr, size, id, lenient, found),
{
    lemma_talks(first, mem, talk, last, after);
    locating_reads_the_header(inst, lenient, addr, size, id, first, mem, talk, last, after);
    lemma_look_goes_to(inst, first, mem, talk, last, after);
    if let Next::Done(found) = last {
        lemma_located(mem, addr, size, id, lenient, found);
    }
}

/// What was located is told.
pub proof fn lemma_located(
    mem: Map<int, u8>,
    addr: u64,
    size: u64,
    id: Seq<u8>,
    lenient: bool,
    found: Located,
)
    requires
        located(mem, addr as int, region_end(addr, size) as int, id, lenient, found),
    ensures
        is_told(mem, addr, size, id, lenient, found),
{
    lemma_scanned(mem, addr, size, id, block_at(found));
    if let Some(cb) = block_at(found) {
        assert(above(cb, CB_MAX_UP_OFFSET) == wrapped(cb + 16));
        assert(above(cb, CB_MAX_DOWN_OFFSET) == wrapped(cb + 20));
    }
}

/// What a step of a look asks goes to the instance.
pub open spec fn look_is_for(next: LocateNext, inst: u32) -> bool {
    match next {
        Next::Done(_) => true,
        Next::Ask(request, wait) => goes_to(request, inst) && request is Read && match wait {
            Locate::Scanning { inst: i, scan, .. } => i == inst && match scan {
                Scan::Whole(w) => w.inst == inst,
                Scan::Pieces { window: w, .. } => w.inst == inst,
            },
            Locate::Up { inst: i, .. } => i == inst,
            Locate::Down { inst: i, .. } => i == inst,
        },
    }
}

pub proof fn lemma_look_step(inst: u32, now: LocateNext, reply: Reply, next: LocateNext)
    requires
        now is Ask,
        look_is_for(now, inst),
        now->Ask_1.continues(reply, next),
    ensures
        look_is_for(next, inst),
{
    if let Locate::Scanning { inst: i, lenient, scan } = now->Ask_1 {
        let then = choose|then: ScanNext| #[trigger]
            scan.continues(reply, then) && next == Locate::after_scan(i, lenient, then);
        assert(scan.continues(reply, then));
    }
}

proof fn lemma_look_goes_to(
    inst: u32,
    first: LocateNext,
    mem: Map<int, u8>,
    talk: Seq<(Reply, LocateNext)>,
    last: LocateNext,
    after: Map<int, u8>,
)
    requires
        look_is_for(first, inst),
        talks(first, mem, talk, last, after),
    ensures
        look_is_for(last, inst),
    decreases talk.len(),
{
    if talk.len() > 0 {
        assert(first->Ask_1.continues(talk[0].0, talk[0].1));
        lemma_look_step(inst, first, talk[0].0, talk[0].1);
        lemma_look_goes_to(
            inst,
            talk[0].1,
            effect(mem, first->Ask_0),
            talk.drop_first(),
            last,
            after,
        );
    }
}

} // verus!
