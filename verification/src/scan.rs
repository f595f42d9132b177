//! The search for the control block.

use crate::access::{bytes_in, bytes_read, lemma_read_served};
use crate::dialogue::{contents, converses, effect, mapped, Dialogue, Next};
use crate::memory::{Reply, Request, SPACE};
use crate::ring::{above, address};
use vstd::prelude::*;

verus! {

/// How many bytes are read at a time. For an identifier that is longer, it is so many more
/// than the identifier has.
pub const WINDOW: u64 = 4096;

/// `id` stands in `hay` at `i`.
pub open spec fn occurs(hay: Seq<u8>, id: Seq<u8>, i: int) -> bool {
    &&& 0 <= i
    &&& i + id.len() <= hay.len()
    &&& hay.subrange(i, i + id.len()) == id
}

/// `i` is where `id` first stands in `hay`.
pub open spec fn first_at(hay: Seq<u8>, id: Seq<u8>, i: int) -> bool {
    &&& occurs(hay, id, i)
    &&& forall|j: int| 0 <= j < i ==> !#[trigger] occurs(hay, id, j)
}

/// `id` stands nowhere in `hay`.
pub open spec fn absent(hay: Seq<u8>, id: Seq<u8>) -> bool {
    forall|j: int| !#[trigger] occurs(hay, id, j)
}

/// Where `id` first stands in `hay`.
pub fn position(hay: &Vec<u8>, id: &Vec<u8>) -> (r: Option<usize>)
    ensures
        match r {
            Some(i) => first_at(hay@, id@, i as int),
            None => absent(hay@, id@),
        },
{
    if id.len() > hay.len() {
        return None;
    }
    let last: usize = hay.len() - id.len();
    let mut i: usize = 0;
    loop
        invariant
            i <= last,
            last + id.len() == hay.len(),
            forall|j: int| 0 <= j < i ==> !#[trigger] occurs(hay@, id@, j),
        decreases last - i,
    {
        let mut k: usize = 0;
        while k < id.len() && hay[i + k] == id[k]
            invariant
                k <= id.len(),
                i <= last,
                last + id.len() == hay.len(),
                forall|j: int| 0 <= j < k ==> hay@[i + j] == id@[j],
            decreases id@.len() - k,
        {
            k = k + 1;
        }
        if k == id.len() {
            assert(hay@.subrange(i as int, i + id@.len()) =~= id@);
            return Some(i);
        }
        assert(hay@.subrange(i as int, i + id@.len())[k as int] != id@[k as int]);
        if i == last {
            return None;
        }
        i = i + 1;
    }
}

/// The part of a scan that concerns the window at `pos`.
#[derive(Debug)]
pub struct Window {
    pub inst: u32,
    /// Where the window starts.
    pub pos: u64,
    /// Where the search region ends.
    pub end: u64,
    /// What is searched for.
    pub id: Vec<u8>,
}

/// A scan that waits for memory.
#[derive(Debug)]
pub enum Scan {
    /// The whole window was asked for.
    Whole(Window),
    /// The window cannot be read as a whole, so it is read in pieces. `held` is what its
    /// beginning holds, and `piece` bytes behind that were asked for.
    Pieces { window: Window, held: Vec<u8>, piece: u64 },
}

/// What a scan wants next. It results in the address of the control block, if one was
/// found.
pub type ScanNext = Next<Scan, Option<u64>>;

/// The end of the region of `size` bytes at `addr`, cut off at the end of the address
/// space.
pub open spec fn region_end(addr: u64, size: u64) -> u64 {
    if addr + size > u64::MAX {
        u64::MAX
    } else {
        (addr + size) as u64
    }
}

/// How many bytes a whole window has, for an identifier of `len` bytes.
pub open spec fn width(len: nat) -> int {
    if len <= WINDOW {
        WINDOW as int
    } else if len + WINDOW <= u64::MAX {
        len + WINDOW
    } else {
        u64::MAX as int
    }
}

/// How many bytes the window at `pos` has: the last one ends with the region.
pub open spec fn window(pos: u64, end: u64, len: nat) -> u64 {
    if end <= pos {
        0
    } else if width(len) <= end - pos {
        width(len) as u64
    } else {
        (end - pos) as u64
    }
}

/// Where the window behind a whole one at `pos` starts. The two share one byte less than
/// the identifier has.
pub open spec fn next_window(pos: u64, len: nat) -> u64 {
    (pos + width(len) - (len - 1)) as u64
}

impl Window {
    /// The window is the one at `pos` of a scan for `id` that ends at `end`.
    pub open spec fn is(self, inst: u32, pos: u64, end: u64, id: Seq<u8>) -> bool {
        &&& self.inst == inst
        &&& self.pos == pos
        &&& self.end == end
        &&& self.id@ == id
    }

    /// How many bytes the window has.
    pub open spec fn want(self) -> u64 {
        window(self.pos, self.end, self.id@.len())
    }

    fn whole(&self) -> (r: u64)
        ensures
            r == width(self.id@.len()),
    {
        let len: u64 = self.id.len() as u64;
        if len <= WINDOW {
            WINDOW
        } else {
            len.saturating_add(WINDOW)
        }
    }

    fn size(&self) -> (r: u64)
        ensures
            r == self.want(),
    {
        let left: u64 = self.end.saturating_sub(self.pos);
        let whole: u64 = self.whole();
        if whole <= left {
            whole
        } else {
            left
        }
    }
}

impl Scan {
    /// The scan goes on at `pos`: it asks for the window there, or ends where the region
    /// does.
    pub open spec fn looks(inst: u32, pos: u64, end: u64, id: Seq<u8>, next: ScanNext) -> bool {
        if pos < end {
            &&& next matches Next::Ask(request, Scan::Whole(w)) && request.reads(
                inst,
                pos,
                window(pos, end, id.len()),
            ) && w.is(inst, pos, end, id)
        } else {
            next == ScanNext::Done(None)
        }
    }

    /// The scan asks for `piece` bytes of the window behind `held`.
    pub open spec fn asks_piece(w: Window, held: Seq<u8>, piece: u64, next: ScanNext) -> bool {
        next matches Next::Ask(request, Scan::Pieces { window, held: h, piece: p })
            && request.reads(w.inst, above(w.pos, held.len() as u64), piece) && window.is(
            w.inst,
            w.pos,
            w.end,
            w.id@,
        ) && h@ == held && p == piece
    }

    /// What follows once the window is known to begin with `chunk`: the scan ends with the
    /// first place where the identifier stands, if there is one. Else it goes on behind
    /// `chunk`, with at most `piece` bytes, and then with the next window.
    pub open spec fn settles(w: Window, chunk: Seq<u8>, piece: u64, next: ScanNext) -> bool {
        let id = w.id@;
        let want = w.want();
        ||| exists|i: int| #[trigger]
            first_at(chunk, id, i) && next == ScanNext::Done(Some(above(w.pos, i as u64)))
        ||| absent(chunk, id) && if chunk.len() < want {
            Scan::asks_piece(
                w,
                chunk,
                if piece <= want - chunk.len() {
                    piece
                } else {
                    (want - chunk.len()) as u64
                },
                next,
            )
        } else if want < width(id.len()) {
            next == ScanNext::Done(None)
        } else {
            Scan::looks(w.inst, next_window(w.pos, id.len()), w.end, id, next)
        }
    }

    /// What follows a read of `n` bytes behind `held` that failed: a shorter one is tried,
    /// and where a single byte cannot be read the scan ends.
    pub open spec fn fails(w: Window, held: Seq<u8>, n: u64, next: ScanNext) -> bool {
        if n <= 1 {
            next == ScanNext::Done(None)
        } else {
            Scan::asks_piece(w, held, n / 2, next)
        }
    }

    /// The beginning of a scan. Without an identifier there is nothing to look for.
    pub open spec fn begins(inst: u32, addr: u64, size: u64, id: Seq<u8>, next: ScanNext) -> bool {
        if id.len() == 0 {
            next == ScanNext::Done(None)
        } else {
            Scan::looks(inst, addr, region_end(addr, size), id, next)
        }
    }

    fn look(w: Window) -> (next: ScanNext)
        ensures
            Scan::looks(w.inst, w.pos, w.end, w.id@, next),
    {
        if w.pos < w.end {
            let count: u64 = w.size();
            Next::Ask(
                Request::Read { inst: w.inst, space: SPACE, addr: w.pos, width: 1, count },
                Scan::Whole(w),
            )
        } else {
            Next::Done(None)
        }
    }

    fn ask_piece(w: Window, held: Vec<u8>, piece: u64) -> (next: ScanNext)
        ensures
            Scan::asks_piece(w, held@, piece, next),
    {
        let addr: u64 = address(w.pos, held.len() as u64);
        Next::Ask(
            Request::Read { inst: w.inst, space: SPACE, addr, width: 1, count: piece },
            Scan::Pieces { window: w, held, piece },
        )
    }

    fn settle(w: Window, chunk: Vec<u8>, piece: u64) -> (next: ScanNext)
        ensures
            Scan::settles(w, chunk@, piece, next),
    {
        if let Some(off) = position(&chunk, &w.id) {
            assert(first_at(chunk@, w.id@, off as int));
            return Next::Done(Some(address(w.pos, off as u64)));
        }
        let want: u64 = w.size();
        let got: u64 = chunk.len() as u64;
        if got < want {
            let left: u64 = want - got;
            return Scan::ask_piece(
                w,
                chunk,
                if piece <= left {
                    piece
                } else {
                    left
                },
            );
        }
        let whole: u64 = w.whole();
        if want < whole {
            return Next::Done(None);
        }
        assert(w.id@.len() == 0 ==> occurs(chunk@, w.id@, 0)) by {
            assert(chunk@.subrange(0, 0) =~= Seq::empty());
            assert(w.id@.len() == 0 ==> w.id@ =~= Seq::empty());
        }
        let overlap: u64 = w.id.len() as u64 - 1;
        let pos: u64 = w.pos + (whole - overlap);
        Scan::look(Window { pos, ..w })
    }

    fn fail(w: Window, held: Vec<u8>, n: u64) -> (next: ScanNext)
        ensures
            Scan::fails(w, held@, n, next),
    {
        if n <= 1 {
            Next::Done(None)
        } else {
            Scan::ask_piece(w, held, n / 2)
        }
    }
}

/// Begins to scan `[addr, addr + size)` for the control-block identifier `id`.
///
/// The windows overlap, so that an identifier that straddles a window's end is found. The
/// scan stops at the first address that cannot be read: the region often reaches beyond
/// the memory that is there. So a window that cannot be read as a whole is read in pieces,
/// shorter and shorter ones, up to that address.
pub fn find_control_block(inst: u32, addr: u64, size: u64, id: Vec<u8>) -> (next: ScanNext)
    ensures
        Scan::begins(inst, addr, size, id@, next),
{
    if id.len() == 0 {
        return Next::Done(None);
    }
    let end: u64 = addr.saturating_add(size);
    Scan::look(Window { inst, pos: addr, end, id })
}

impl Dialogue for Scan {
    type Out = Option<u64>;

    open spec fn continues(self, reply: Reply, next: ScanNext) -> bool {
        match self {
            Scan::Whole(w) => match bytes_in(reply, w.want()) {
                Ok(chunk) => Scan::settles(w, chunk, w.want(), next),
                Err(_) => Scan::fails(w, Seq::empty(), w.want(), next),
            },
            Scan::Pieces { window, held, piece } => match bytes_in(reply, piece) {
                Ok(bytes) => Scan::settles(window, held@ + bytes, piece, next),
                Err(_) => Scan::fails(window, held@, piece, next),
            },
        }
    }

    fn resume(self, reply: Reply) -> (next: ScanNext) {
        match self {
            Scan::Whole(w) => {
                let want: u64 = w.size();
                match bytes_read(reply, want) {
                    Ok(chunk) => Scan::settle(w, chunk, want),
                    Err(_) => {
                        let held: Vec<u8> = Vec::new();
                        assert(held@ =~= Seq::empty());
                        Scan::fail(w, held, want)
                    },
                }
            },
            Scan::Pieces { window, held, piece } => match bytes_read(reply, piece) {
                Ok(bytes) => {
                    let mut held = held;
                    let mut bytes = bytes;
                    held.append(&mut bytes);
                    Scan::settle(window, held, piece)
                },
                Err(_) => Scan::fail(window, held, piece),
            },
        }
    }
}

/// `id` stands in the memory at `a`.
pub open spec fn stands(mem: Map<int, u8>, a: int, id: Seq<u8>) -> bool {
    &&& mapped(mem, a, id.len() as int)
    &&& contents(mem, a, id.len()) == id
}

/// What a scan of `[pos, end)` for `id` is to give: the lowest address where the
/// identifier stands before the first address that is not mapped, or none if it does not
/// stand there.
pub open spec fn scanned(
    mem: Map<int, u8>,
    pos: int,
    end: int,
    id: Seq<u8>,
    found: Option<u64>,
) -> bool {
    match found {
        Some(a) => {
            &&& pos <= a
            &&& a + id.len() <= end
            &&& mapped(mem, pos, a + id.len() - pos)
            &&& stands(mem, a as int, id)
            &&& forall|b: int| pos <= b < a ==> !#[trigger] stands(mem, b, id)
        },
        None => forall|b: int|
            pos <= b && b + id.len() <= end && mapped(mem, pos, b + id.len() - pos)
                ==> !#[trigger] stands(mem, b, id),
    }
}

/// An identifier that stands inside a window occurs in its contents, and the reverse.
proof fn lemma_window(mem: Map<int, u8>, pos: int, want: nat, id: Seq<u8>)
    requires
        mapped(mem, pos, want as int),
    ensures
        forall|b: int|
            pos <= b && b + id.len() <= pos + want ==> (#[trigger] stands(mem, b, id) <==> occurs(
                contents(mem, pos, want),
                id,
                b - pos,
            )),
{
    let chunk = contents(mem, pos, want);
    assert forall|b: int| pos <= b && b + id.len() <= pos + want implies (#[trigger] stands(
        mem,
        b,
        id,
    ) <==> occurs(chunk, id, b - pos)) by {
        assert(chunk.subrange(b - pos, b - pos + id.len()) =~= contents(mem, b, id.len()));
    }
}

/// The identifier was found in the contents of the window's beginning.
proof fn lemma_found(mem: Map<int, u8>, pos: u64, end: u64, n: nat, id: Seq<u8>, i: int)
    requires
        mapped(mem, pos as int, n as int),
        pos + n <= end,
        id.len() > 0,
        first_at(contents(mem, pos as int, n), id, i),
    ensures
        scanned(mem, pos as int, end as int, id, Some(above(pos, i as u64))),
{
    let chunk = contents(mem, pos as int, n);
    lemma_window(mem, pos as int, n, id);
    assert(occurs(chunk, id, i));
    assert(above(pos, i as u64) == pos + i);
    assert(stands(mem, pos + i, id));
    assert forall|b: int| pos <= b < pos + i implies !#[trigger] stands(mem, b, id) by {
        assert(!occurs(chunk, id, b - pos));
    }
}

/// The identifier does not stand before an address that is not mapped.
proof fn lemma_not_found(mem: Map<int, u8>, pos: u64, end: u64, n: nat, id: Seq<u8>)
    requires
        mapped(mem, pos as int, n as int),
        !mem.contains_key(pos + n),
        absent(contents(mem, pos as int, n), id),
    ensures
        scanned(mem, pos as int, end as int, id, None),
{
    let chunk = contents(mem, pos as int, n);
    lemma_window(mem, pos as int, n, id);
    assert forall|b: int|
        pos <= b && b + id.len() <= end && mapped(
            mem,
            pos as int,
            b + id.len() - pos,
        ) implies !#[trigger] stands(mem, b, id) by {
        if b + id.len() > pos + n {
            assert(mem.contains_key(pos + n));
        } else {
            assert(!occurs(chunk, id, b - pos));
        }
    }
}

/// From a piece of a window on that is not mapped as a whole.
proof fn lemma_pieces(
    w: Window,
    held: Seq<u8>,
    piece: u64,
    next: ScanNext,
    mem: Map<int, u8>,
    talk: Seq<(Reply, ScanNext)>,
    last: ScanNext,
    after: Map<int, u8>,
)
    requires
        w.id@.len() > 0,
        w.pos < w.end,
        held.len() < w.want(),
        0 < piece <= w.want() - held.len(),
        Scan::asks_piece(w, held, piece, next),
        converses(next, mem, talk, last, after),
        mapped(mem, w.pos as int, held.len() as int),
        !mapped(mem, w.pos as int, w.want() as int),
        held == contents(mem, w.pos as int, held.len()),
        absent(held, w.id@),
    ensures
        talk.len() <= w.want() - held.len() + piece,
        after == mem,
        last matches Next::Done(found) ==> scanned(
            mem,
            w.pos as int,
            w.end as int,
            w.id@,
            found,
        ),
    decreases talk.len(),
{
    if talk.len() > 0 {
        let at = above(w.pos, held.len() as u64);
        assert(at == w.pos + held.len());
        let reply = talk[0].0;
        let then = talk[0].1;
        let rest = talk.drop_first();
        assert(effect(mem, next->Ask_0) == mem);
        assert(converses(then, mem, rest, last, after));
        let v = next->Ask_1->window;
        assert(v.want() == w.want());
        if mapped(mem, at as int, piece as int) {
            lemma_read_served(mem, next->Ask_0, reply, v.inst, at, piece);
            let more = contents(mem, at as int, piece as nat);
            let chunk = held + more;
            assert(chunk =~= contents(mem, w.pos as int, chunk.len()));
            assert(mapped(mem, w.pos as int, chunk.len() as int));
            assert(chunk.len() < w.want()) by {
                if chunk.len() == w.want() {
                    assert(mapped(mem, w.pos as int, w.want() as int));
                }
            }
            assert(Scan::settles(v, chunk, piece, then));
            if absent(chunk, v.id@) {
                let left = w.want() - chunk.len();
                let p = if piece <= left {
                    piece
                } else {
                    left as u64
                };
                lemma_pieces(v, chunk, p, then, mem, rest, last, after);
            } else {
                let i = choose|i: int| #[trigger]
                    first_at(chunk, v.id@, i) && then == ScanNext::Done(
                        Some(above(v.pos, i as u64)),
                    );
                lemma_found(mem, w.pos, w.end, chunk.len(), w.id@, i);
            }
        } else {
            assert(1 * piece == piece);
            assert(reply is Failed);
            if piece == 1 {
                lemma_not_found(mem, w.pos, w.end, held.len(), w.id@);
            } else {
                lemma_pieces(v, held, piece / 2, then, mem, rest, last, after);
            }
        }
    }
}

/// From the window at `pos` on.
proof fn lemma_scan(
    inst: u32,
    pos: u64,
    end: u64,
    id: Seq<u8>,
    next: ScanNext,
    mem: Map<int, u8>,
    talk: Seq<(Reply, ScanNext)>,
    last: ScanNext,
    after: Map<int, u8>,
)
    requires
        id.len() > 0,
        Scan::looks(inst, pos, end, id, next),
        converses(next, mem, talk, last, after),
    ensures
        talk.len() <= (if pos < end {
            2 * (end - pos)
        } else {
            0
        }),
        after == mem,
        last matches Next::Done(found) ==> scanned(mem, pos as int, end as int, id, found),
    decreases talk.len(),
{
    if pos < end && talk.len() > 0 {
        let w = next->Ask_1->Whole_0;
        assert(w.id.len() == id.len());
        let want = w.want();
        let reply = talk[0].0;
        let then = talk[0].1;
        let rest = talk.drop_first();
        assert(effect(mem, next->Ask_0) == mem);
        assert(converses(then, mem, rest, last, after));
        if mapped(mem, pos as int, want as int) {
            lemma_read_served(mem, next->Ask_0, reply, inst, pos, want);
            let chunk = contents(mem, pos as int, want as nat);
            lemma_window(mem, pos as int, want as nat, id);
            assert(Scan::settles(w, chunk, want, then));
            if absent(chunk, id) {
                assert forall|b: int| pos <= b && b + id.len() <= pos + want implies
                    !#[trigger] stands(mem, b, id) by {
                    assert(!occurs(chunk, id, b - pos));
                }
                if want == width(id.len()) {
                    let to = next_window(pos, id.len());
                    assert(to == pos + width(id.len()) - (id.len() - 1));
                    lemma_scan(inst, to, end, id, then, mem, rest, last, after);
                    assert(last == ScanNext::Done(None) ==> scanned(
                        mem,
                        pos as int,
                        end as int,
                        id,
                        None,
                    )) by {
                        assert forall|b: int|
                            last == ScanNext::Done(None) && pos <= b && b + id.len() <= end
                                && mapped(
                                mem,
                                pos as int,
                                b + id.len() - pos,
                            ) implies !#[trigger] stands(mem, b, id) by {
                            if b >= to {
                                assert(mapped(mem, to as int, b + id.len() - to));
                            }
                        }
                    }
                }
            } else {
                let i = choose|i: int| #[trigger]
                    first_at(chunk, id, i) && then == ScanNext::Done(
                        Some(above(pos, i as u64)),
                    );
                lemma_found(mem, pos, end, want as nat, id, i);
            }
        } else {
            assert(1 * want == want);
            assert(reply is Failed);
            let held = Seq::<u8>::empty();
            assert(held =~= contents(mem, pos as int, 0));
            if want == 1 {
                lemma_not_found(mem, pos, end, 0, id);
            } else {
                lemma_pieces(w, held, want / 2, then, mem, rest, last, after);
            }
        }
    }
}

/// A scan gives the lowest address in its region where the identifier stands before the
/// first address that is not mapped, or none if it does not. It changes nothing, and takes
/// at most twice as many reads as the region has bytes.
pub proof fn scan_finds_the_first(
    inst: u32,
    addr: u64,
    size: u64,
    id: Seq<u8>,
    first: ScanNext,
    mem: Map<int, u8>,
    talk: Seq<(Reply, ScanNext)>,
    last: ScanNext,
    after: Map<int, u8>,
)
    requires
        id.len() > 0,
        Scan::begins(inst, addr, size, id, first),
        converses(first, mem, talk, last, after),
    ensures
        talk.len() <= 2 * size,
        after == mem,
        last matches Next::Done(found) ==> scanned(
            mem,
            addr as int,
            region_end(addr, size) as int,
            id,
            found,
        ),
{
    lemma_scan(inst, addr, region_end(addr, size), id, first, mem, talk, last, after);
}

} // verus!
