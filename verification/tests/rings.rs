use std::collections::HashMap;

use cornea::dialogue::{Dialogue, Next};
use cornea::down::fill_down_channel;
use cornea::error::RttError;
use cornea::locate::{locate, Located};
use cornea::memory::{pack_le, unpack_le, Reply, Request};
use cornea::outputs::{drain_channels, served_channels};
use cornea::rtt::Server;
use cornea::scan::{find_control_block, position};
use cornea::up::drain_up_channel;

/// A target with some memory that counts its accesses.
struct Target {
    bytes: HashMap<u64, u8>,
    accesses: usize,
}

impl Target {
    fn new(addr: u64, size: u64) -> Target {
        let bytes = (addr..addr + size).map(|a| (a, 0)).collect();
        Target { bytes, accesses: 0 }
    }

    fn put(&mut self, addr: u64, bytes: &[u8]) {
        for (i, b) in bytes.iter().enumerate() {
            self.bytes.insert(addr + i as u64, *b);
        }
    }

    fn get(&self, addr: u64, n: u64) -> Vec<u8> {
        (addr..addr + n).map(|a| self.bytes[&a]).collect()
    }

    fn word(&self, addr: u64) -> u32 {
        let b: Vec<u8> = (0..4).map(|k| self.bytes[&(addr + k)]).collect();
        u32::from_le_bytes([b[0], b[1], b[2], b[3]])
    }

    fn at(&self, addr: u64, k: u64) -> Option<u8> {
        addr.checked_add(k).and_then(|a| self.bytes.get(&a).copied())
    }

    fn answer(&mut self, request: Request) -> Reply {
        self.accesses += 1;
        match request {
            Request::Read { addr, width, count, .. } => {
                let all: Option<Vec<u8>> =
                    (0..width * count).map(|k| self.at(addr, k)).collect();
                match all {
                    Some(bytes) => Reply::Words(pack_le(&bytes)),
                    None => Reply::Failed("unmapped".to_string()),
                }
            }
            Request::Write { addr, width, count, data, .. } => {
                let n = width * count;
                if (0..n).any(|k| self.at(addr, k).is_none()) {
                    return Reply::Failed("unmapped".to_string());
                }
                let bytes = unpack_le(&data);
                self.put(addr, &bytes[..n as usize]);
                Reply::Words(vec![])
            }
        }
    }

    fn run<M: Dialogue>(&mut self, first: Next<M, M::Out>) -> M::Out {
        let mut next = first;
        loop {
            match next {
                Next::Done(out) => return out,
                Next::Ask(request, wait) => {
                    let reply = self.answer(request);
                    next = wait.resume(reply);
                }
            }
        }
    }
}

const CB: u64 = 0x2000_1000;

/// A control block with two up and two down channels, their rings at 0x2000_2000 and up.
fn block() -> Target {
    let mut t = Target::new(0x2000_0000, 0x4000);
    t.put(CB, b"SEGGER RTT\0\0\0\0\0\0");
    t.put(CB + 16, &2u32.to_le_bytes());
    t.put(CB + 20, &2u32.to_le_bytes());
    t
}

fn ring(t: &mut Target, index: u64, pbuffer: u32, size: u32, wroff: u32, rdoff: u32) {
    let base = CB + 24 + 24 * index;
    t.put(base + 4, &pbuffer.to_le_bytes());
    t.put(base + 8, &size.to_le_bytes());
    t.put(base + 12, &wroff.to_le_bytes());
    t.put(base + 16, &rdoff.to_le_bytes());
}

fn drain(t: &mut Target, ch: u32) -> Result<Vec<u8>, RttError> {
    let (request, wait) = drain_up_channel(1, CB, ch);
    t.run(Next::Ask(request, wait))
}

#[test]
fn a_drain_takes_what_waits() {
    let mut t = block();
    ring(&mut t, 0, 0x2000_2000, 16, 7, 2);
    t.put(0x2000_2000, b"abcdefghijklmnop");
    assert_eq!(drain(&mut t, 0).unwrap(), b"cdefg");
    assert_eq!(t.word(CB + 24 + 16), 7);
    assert_eq!(t.accesses, 6);
    assert_eq!(drain(&mut t, 0).unwrap(), b"");
}

#[test]
fn a_drain_follows_the_wrap() {
    let mut t = block();
    ring(&mut t, 1, 0x2000_2000, 16, 3, 12);
    t.put(0x2000_2000, b"abcdefghijklmnop");
    assert_eq!(drain(&mut t, 1).unwrap(), b"mnopabc");
    assert_eq!(t.word(CB + 48 + 16), 3);
    assert_eq!(t.accesses, 7);
}

#[test]
fn a_drain_up_to_the_end_reads_once() {
    let mut t = block();
    ring(&mut t, 0, 0x2000_2000, 16, 0, 12);
    t.put(0x2000_2000, b"abcdefghijklmnop");
    assert_eq!(drain(&mut t, 0).unwrap(), b"mnop");
    assert_eq!(t.word(CB + 24 + 16), 0);
    assert_eq!(t.accesses, 6);
}

#[test]
fn a_drain_of_no_ring_finds_nothing() {
    let bad = [
        (0, 16, 7, 2),
        (0x2000_2000, 0, 7, 2),
        (0x2000_2000, 16, 16, 2),
        (0x2000_2000, 16, 7, 16),
        (0x2000_2000, 16, 7, 7),
    ];
    for (pbuffer, size, wroff, rdoff) in bad {
        let mut t = block();
        ring(&mut t, 0, pbuffer, size, wroff, rdoff);
        assert_eq!(drain(&mut t, 0).unwrap(), b"");
        assert_eq!(t.word(CB + 24 + 16), rdoff);
        assert_eq!(t.accesses, 4);
    }
}

#[test]
fn a_drain_fails_with_its_read() {
    let mut t = block();
    ring(&mut t, 0, 0x3000_0000, 16, 7, 2);
    assert_eq!(drain(&mut t, 0).unwrap_err().message(), "unmapped");
    assert_eq!(t.word(CB + 24 + 16), 2);
    let (request, wait) = drain_up_channel(1, 0x4000_0000, 0);
    assert!(t.run(Next::Ask(request, wait)).is_err());
}

fn fill(t: &mut Target, ch: u32, data: &[u8]) -> Result<usize, RttError> {
    let first = fill_down_channel(1, CB, 2, ch, data.to_vec());
    t.run(first)
}

#[test]
fn a_fill_appends() {
    let mut t = block();
    ring(&mut t, 2, 0x2000_2000, 16, 4, 2);
    t.put(0x2000_2000, b"................");
    assert_eq!(fill(&mut t, 0, b"hello").unwrap(), 5);
    assert_eq!(t.get(0x2000_2000, 16), b"....hello.......");
    assert_eq!(t.word(CB + 72 + 12), 9);
    assert_eq!(t.word(CB + 72 + 16), 2);
    assert_eq!(t.accesses, 6);
}

#[test]
fn a_fill_wraps_and_leaves_one_slot() {
    let mut t = block();
    ring(&mut t, 3, 0x2000_2000, 8, 6, 4);
    t.put(0x2000_2000, b"........");
    assert_eq!(fill(&mut t, 1, b"abcdefgh").unwrap(), 5);
    assert_eq!(t.get(0x2000_2000, 8), b"cde...ab");
    assert_eq!(t.word(CB + 96 + 12), 3);
    assert_eq!(t.accesses, 7);
    assert_eq!(fill(&mut t, 1, b"x").unwrap(), 0);
}

#[test]
fn a_fill_up_to_the_end_moves_the_offset_to_the_front() {
    let mut t = block();
    ring(&mut t, 2, 0x2000_2000, 8, 5, 2);
    assert_eq!(fill(&mut t, 0, b"abc").unwrap(), 3);
    assert_eq!(t.word(CB + 72 + 12), 0);
}

#[test]
fn a_fill_of_nothing_asks_nothing() {
    let mut t = block();
    assert_eq!(fill(&mut t, 0, b"").unwrap(), 0);
    assert_eq!(t.accesses, 0);
}

#[test]
fn a_fill_of_no_ring_takes_nothing() {
    for (pbuffer, size, wroff, rdoff) in
        [(0, 16, 0, 0), (0x2000_2000, 0, 0, 0), (0x2000_2000, 16, 16, 0), (0x2000_2000, 16, 0, 99)]
    {
        let mut t = block();
        ring(&mut t, 2, pbuffer, size, wroff, rdoff);
        assert_eq!(fill(&mut t, 0, b"abc").unwrap(), 0);
        assert_eq!(t.accesses, 4);
    }
}

#[test]
fn what_is_filled_can_be_drained() {
    let mut t = block();
    ring(&mut t, 2, 0x2000_2000, 8, 6, 6);
    assert_eq!(fill(&mut t, 0, b"abcde").unwrap(), 5);
    let (request, wait) = drain_up_channel(1, CB, 2);
    assert_eq!(t.run(Next::Ask(request, wait)).unwrap(), b"abcde");
}

#[test]
fn a_second_fill_takes_nothing_more() {
    for (size, wroff, rdoff) in [(8, 6, 4), (8, 0, 0), (1, 0, 0), (16, 3, 12), (0, 0, 0)] {
        let mut t = block();
        ring(&mut t, 2, 0x2000_2000, size, wroff, rdoff);
        let data: Vec<u8> = (1..=40).collect();
        let n = fill(&mut t, 0, &data).unwrap();
        assert!(n < data.len());
        let before = t.bytes.clone();
        assert_eq!(fill(&mut t, 0, &data[n..]).unwrap(), 0);
        assert_eq!(t.bytes, before);
        // Once the target has read, there is room again.
        if n > 0 {
            let wroff = t.word(CB + 72 + 12);
            t.put(CB + 72 + 16, &wroff.to_le_bytes());
            assert_eq!(fill(&mut t, 0, &data[n..n + 1]).unwrap(), 1);
        }
    }
}

#[test]
fn a_second_drain_gives_nothing_more() {
    for (size, wroff, rdoff) in [(16, 7, 2), (16, 2, 7), (16, 0, 9), (16, 5, 5), (0, 0, 0)] {
        let mut t = block();
        ring(&mut t, 0, 0x2000_2000, size, wroff, rdoff);
        t.put(0x2000_2000, b"abcdefghijklmnop");
        drain(&mut t, 0).unwrap();
        let before = t.bytes.clone();
        assert_eq!(drain(&mut t, 0).unwrap(), b"");
        assert_eq!(t.bytes, before);
    }
}

/// A target whose only descriptor is at `base`, field by field modulo 2^64.
fn at_the_top(base: u64, wroff: u32, rdoff: u32) -> Target {
    let mut t = Target::new(0x2000_2000, 16);
    t.put(0x2000_2000, b"abcdefghijklmnop");
    let fields = [(4, 0x2000_2000u32), (8, 16), (12, wroff), (16, rdoff)];
    for (offset, val) in fields {
        let addr = base.wrapping_add(offset);
        for (k, b) in val.to_le_bytes().iter().enumerate() {
            t.bytes.insert(addr + k as u64, *b);
        }
    }
    t
}

#[test]
fn a_descriptor_may_stand_at_the_top_of_the_address_space() {
    // The last field ends with the address space, lies behind it, or all but the first do.
    for below in [20u64, 16, 12, 8] {
        let base = 0u64.wrapping_sub(below);
        let cb = base.wrapping_sub(24);
        let mut t = at_the_top(base, 3, 12);
        let (request, wait) = drain_up_channel(1, cb, 0);
        assert_eq!(t.run(Next::Ask(request, wait)).unwrap(), b"mnopabc");
        assert_eq!(t.word(base.wrapping_add(16)), 3);
        let (request, wait) = drain_up_channel(1, cb, 0);
        assert_eq!(t.run(Next::Ask(request, wait)).unwrap(), b"");

        let mut t = at_the_top(base, 12, 4);
        let first = fill_down_channel(1, cb, 0, 0, b"123456789".to_vec());
        assert_eq!(t.run(first).unwrap(), 7);
        assert_eq!(t.get(0x2000_2000, 16), b"567defghijkl1234");
        assert_eq!(t.word(base.wrapping_add(12)), 3);
        let again = fill_down_channel(1, cb, 0, 0, b"89".to_vec());
        assert_eq!(t.run(again).unwrap(), 0);
    }
    // A field that runs over the end of the address space cannot be read.
    let (request, wait) = drain_up_channel(1, 0u64.wrapping_sub(42), 0);
    let mut t = Target::new(0u64.wrapping_sub(14), 13);
    t.put(u64::MAX, &[0]);
    assert_eq!(t.run(Next::Ask(request, wait)).unwrap_err().message(), "unmapped");
}

#[test]
fn the_first_occurrence_is_the_position() {
    let hay = b"xxRTxRTTRTT".to_vec();
    assert_eq!(position(&hay, &b"RTT".to_vec()), Some(5));
    assert_eq!(position(&hay, &b"RTTX".to_vec()), None);
    assert_eq!(position(&b"RT".to_vec(), &b"RTT".to_vec()), None);
    assert_eq!(position(&hay, &Vec::new()), Some(0));
}

fn scan(t: &mut Target, addr: u64, size: u64, id: &[u8]) -> Option<u64> {
    let first = find_control_block(1, addr, size, id.to_vec());
    t.run(first)
}

#[test]
fn a_scan_finds_the_block() {
    let mut t = block();
    assert_eq!(scan(&mut t, 0x2000_0000, 0x4000, b"SEGGER RTT"), Some(CB));
    assert_eq!(scan(&mut t, 0x2000_0000, 0x4000, b"SEGGER RTX"), None);
}

#[test]
fn a_scan_finds_what_straddles_two_windows() {
    for at in 4080..4100 {
        let mut t = Target::new(0x2000_0000, 0x4000);
        t.put(0x2000_0000 + at, b"SEGGER RTT");
        assert_eq!(scan(&mut t, 0x2000_0000, 0x4000, b"SEGGER RTT"), Some(0x2000_0000 + at));
    }
}

#[test]
fn a_scan_ends_with_its_region() {
    let mut t = block();
    assert_eq!(scan(&mut t, 0x2000_0000, 0x1009, b"SEGGER RTT"), None);
    assert_eq!(scan(&mut t, 0x2000_0000, 0x100a, b"SEGGER RTT"), Some(CB));
    assert_eq!(scan(&mut t, CB + 1, 0x1000, b"SEGGER RTT"), None);
}

#[test]
fn a_scan_goes_up_to_the_first_unreadable_address() {
    let mut t = block();
    t.put(0x2000_3ffa, b"MARK");
    assert_eq!(scan(&mut t, 0x2000_0000, 0x100_0000, b"MARK"), Some(0x2000_3ffa));
    t.put(0x2000_3ffc, b"ROOM");
    assert_eq!(scan(&mut t, 0x2000_0000, 0x100_0000, b"ROOM"), Some(0x2000_3ffc));
    assert_eq!(scan(&mut t, 0x2000_0000, 0x100_0000, b"SEGGER RTT"), Some(CB));
    assert_eq!(scan(&mut t, 0x2000_0000, 0x100_0000, b"NONE"), None);
    assert_eq!(scan(&mut t, 0x1000_0000, 0x100_0000, b"SEGGER RTT"), None);
}

#[test]
fn a_scan_reads_a_broken_window_in_pieces() {
    for mapped in 0x7f0..0x810 {
        let mut t = Target::new(0x1000, mapped);
        t.put(0x1000, b"SEGGER RTT");
        assert_eq!(scan(&mut t, 0x1000, 0x2000, b"SEGGER RTT"), Some(0x1000));
        t.put(0x1000, b"..........");
        t.put(0x1000 + mapped - 10, b"SEGGER RTT");
        let found = scan(&mut t, 0x1000, 0x2000, b"SEGGER RTT");
        assert_eq!(found, Some(0x1000 + mapped - 10));
        t.bytes.remove(&(0x1000 + mapped - 1));
        t.accesses = 0;
        assert_eq!(scan(&mut t, 0x1000, 0x2000, b"SEGGER RTT"), None);
        assert!(t.accesses <= 40);
    }
}

#[test]
fn a_scan_does_not_look_beyond_a_hole() {
    let mut t = Target::new(0x1000, 0x3000);
    t.bytes.remove(&0x1900);
    t.put(0x2000, b"MARK");
    assert_eq!(scan(&mut t, 0x1000, 0x3000, b"MARK"), None);
    t.put(0x18fc, b"MARK");
    assert_eq!(scan(&mut t, 0x1000, 0x3000, b"MARK"), Some(0x18fc));
    assert_eq!(scan(&mut t, 0x1900, 0x100, b"MARK"), None);
}

#[test]
fn a_scan_for_nothing_asks_nothing() {
    let mut t = block();
    assert_eq!(scan(&mut t, 0x2000_0000, 0x4000, b""), None);
    assert_eq!(scan(&mut t, 0x2000_0000, 0, b"SEGGER RTT"), None);
    assert_eq!(t.accesses, 0);
}

#[test]
fn an_identifier_may_be_longer_than_a_window() {
    let id: Vec<u8> = (0..5000u32).map(|i| (i % 251) as u8 + 1).collect();
    for at in [0, 1, 4096, 9000, 0x4000 - 5000] {
        let mut t = Target::new(0x2000_0000, 0x4000);
        t.put(0x2000_0000 + at, &id);
        assert_eq!(scan(&mut t, 0x2000_0000, 0x4000, &id), Some(0x2000_0000 + at));
        assert_eq!(scan(&mut t, 0x2000_0000, 0x9000, &id), Some(0x2000_0000 + at));
        assert_eq!(scan(&mut t, 0x2000_0000, at + 4999, &id), None);
    }
    let mut t = Target::new(0x2000_0000, 0x4000);
    assert_eq!(scan(&mut t, 0x2000_0000, 0x4000, &vec![0; 4096]), Some(0x2000_0000));
    assert_eq!(scan(&mut t, 0x2000_0000, 0x4000, &vec![0; 4097]), Some(0x2000_0000));
    assert_eq!(scan(&mut t, 0x2000_0000, 0x4000, &vec![1; 4097]), None);
}

#[test]
fn a_region_at_the_top_is_cut_off() {
    let mut t = Target::new(u64::MAX - 0x100, 0x100);
    t.put(u64::MAX - 0x20, b"SEGGER RTT");
    let found = scan(&mut t, u64::MAX - 0x100, u64::MAX, b"SEGGER RTT");
    assert_eq!(found, Some(u64::MAX - 0x20));
}

#[test]
fn locating_reads_the_counts() {
    let mut t = block();
    let first = locate(1, false, 0x2000_0000, 0x4000, b"SEGGER RTT".to_vec());
    match t.run(first) {
        Located::At(b) => assert_eq!((b.cb, b.num_up, b.num_down), (CB, 2, Some(2))),
        other => panic!("{:?}", other),
    }
}

#[test]
fn locating_reports_a_header_that_is_not_there() {
    let mut t = Target::new(0x2000_0000, 0x1c);
    t.put(0x2000_0008, b"SEGGER RTT");
    let strict = locate(1, false, 0x2000_0000, 0x1c, b"SEGGER RTT".to_vec());
    assert!(matches!(t.run(strict), Located::DownUnread { cb: 0x2000_0008, num_up: 0, .. }));
    let lenient = locate(1, true, 0x2000_0000, 0x1c, b"SEGGER RTT".to_vec());
    match t.run(lenient) {
        Located::At(b) => assert_eq!((b.cb, b.num_up, b.num_down), (0x2000_0008, 0, None)),
        other => panic!("{:?}", other),
    }
    let mut t = Target::new(0x2000_0000, 0x18);
    t.put(0x2000_0008, b"SEGGER RTT");
    let strict = locate(1, false, 0x2000_0000, 0x18, b"SEGGER RTT".to_vec());
    assert!(matches!(t.run(strict), Located::UpUnread { cb: 0x2000_0008, .. }));
    let nowhere = locate(1, false, 0x2000_0000, 0x18, b"SEGGER RTU".to_vec());
    assert!(matches!(t.run(nowhere), Located::Nowhere));
}

fn server(port: u16, channel: u32) -> Server {
    Server { port, channel, clients: vec![] }
}

#[test]
fn channels_are_listed_once_in_order() {
    let servers = vec![server(1, 7), server(2, 0), server(3, 7), server(4, 3)];
    assert_eq!(served_channels(&servers), vec![0, 3, 7]);
    assert_eq!(served_channels(&vec![]), Vec::<u32>::new());
}

#[test]
fn a_round_drains_each_channel() {
    let mut t = block();
    ring(&mut t, 0, 0x2000_2000, 16, 3, 0);
    ring(&mut t, 1, 0x2000_2010, 16, 5, 5);
    ring(&mut t, 2, 0x2000_2020, 16, 2, 14);
    ring(&mut t, 3, 0x9000_0000, 16, 2, 1);
    t.put(0x2000_2000, b"abcdefghijklmnop");
    t.put(0x2000_2020, b"ABCDEFGHIJKLMNOP");
    let first = drain_channels(1, CB, vec![0, 1, 2, 3], vec![]);
    let outputs = t.run(first);
    let got: Vec<(u32, &[u8])> = outputs.iter().map(|o| (o.channel, &o.bytes[..])).collect();
    assert_eq!(got, vec![(0, &b"abc"[..]), (2, &b"OPAB"[..])]);
}
