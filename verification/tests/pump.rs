use std::collections::HashMap;

use cornea::memory::{pack_le, unpack_le, Reply, Request};
use cornea::pump::{PumpNext, Received, Sent};
use cornea::rtt::{queue_input, Bind, Rtt, MAX_PENDING};

const CB: u64 = 0x2000_1000;

/// A target, and what the clients of its servers do.
struct World {
    bytes: HashMap<u64, u8>,
    arriving: HashMap<u16, Vec<u64>>,
    typed: HashMap<u64, Vec<Received>>,
    refuses: Vec<u64>,
    blocks: Vec<u64>,
    sent: Vec<(u16, u64, Vec<u8>)>,
    accesses: usize,
}

impl World {
    fn new() -> World {
        let mut w = World {
            bytes: (0x2000_0000..0x2000_4000).map(|a| (a, 0)).collect(),
            arriving: HashMap::new(),
            typed: HashMap::new(),
            refuses: vec![],
            blocks: vec![],
            sent: vec![],
            accesses: 0,
        };
        w.put(CB, b"SEGGER RTT");
        w.put(CB + 16, &2u32.to_le_bytes());
        w.put(CB + 20, &1u32.to_le_bytes());
        w.ring(0, 0x2000_2000, 32, 0, 0);
        w.ring(1, 0x2000_2100, 32, 0, 0);
        w.ring(2, 0x2000_2200, 8, 0, 0);
        w
    }

    fn put(&mut self, addr: u64, bytes: &[u8]) {
        for (i, b) in bytes.iter().enumerate() {
            self.bytes.insert(addr + i as u64, *b);
        }
    }

    fn ring(&mut self, index: u64, pbuffer: u32, size: u32, wroff: u32, rdoff: u32) {
        let base = CB + 24 + 24 * index;
        self.put(base + 4, &pbuffer.to_le_bytes());
        self.put(base + 8, &size.to_le_bytes());
        self.put(base + 12, &wroff.to_le_bytes());
        self.put(base + 16, &rdoff.to_le_bytes());
    }

    fn print(&mut self, index: u64, text: &[u8]) {
        self.put(0x2000_2000 + 0x100 * index, text);
        self.put(CB + 24 + 24 * index + 12, &(text.len() as u32).to_le_bytes());
        self.put(CB + 24 + 24 * index + 16, &0u32.to_le_bytes());
    }

    fn answer(&mut self, request: Request) -> Reply {
        self.accesses += 1;
        match request {
            Request::Read { addr, count, .. } => {
                let all: Option<Vec<u8>> =
                    (addr..addr + count).map(|a| self.bytes.get(&a).copied()).collect();
                match all {
                    Some(bytes) => Reply::Words(pack_le(&bytes)),
                    None => Reply::Failed("unmapped".to_string()),
                }
            }
            Request::Write { addr, width, count, data, .. } => {
                let bytes = unpack_le(&data);
                self.put(addr, &bytes[..(width * count) as usize]);
                Reply::Words(vec![])
            }
        }
    }

    fn run(&mut self, first: PumpNext) -> Rtt {
        let mut next = first;
        loop {
            next = match next {
                PumpNext::Done(rtt) => return rtt,
                PumpNext::Memory(request, wait) => {
                    let reply = self.answer(request);
                    wait.resume(reply)
                }
                PumpNext::Accept(port, wait) => {
                    let queue = self.arriving.entry(port).or_default();
                    let client = if queue.is_empty() { None } else { Some(queue.remove(0)) };
                    wait.accepted(client)
                }
                PumpNext::Receive(_, client, wait) => {
                    let queue = self.typed.entry(client).or_default();
                    let r = if queue.is_empty() { Received::WouldBlock } else { queue.remove(0) };
                    wait.received(r)
                }
                PumpNext::Send(port, client, bytes, wait) => {
                    if self.refuses.contains(&client) {
                        wait.sent(Sent::Failed)
                    } else if self.blocks.contains(&client) {
                        wait.sent(Sent::WouldBlock)
                    } else {
                        self.sent.push((port, client, bytes));
                        wait.sent(Sent::Whole)
                    }
                }
            }
        }
    }
}

fn serve(rtt: &mut Rtt, port: u16, channel: u32) {
    rtt.server_started(Bind { port, channel }, Ok(())).unwrap();
}

fn found() -> Rtt {
    let mut rtt = Rtt::default();
    rtt.control_block = Some(CB);
    rtt.num_up = 2;
    rtt.num_down = Some(1);
    rtt
}

#[test]
fn without_servers_nothing_is_pumped() {
    let mut w = World::new();
    let rtt = found().poll(1);
    let rtt = w.run(rtt);
    assert_eq!(rtt.poll_counter, 0);
    let rtt = rtt.flush(1);
    w.run(rtt);
    assert_eq!(w.accesses, 0);
}

#[test]
fn every_fourth_poll_pumps() {
    let mut w = World::new();
    let mut rtt = found();
    rtt.poll_counter = u32::MAX - 1;
    serve(&mut rtt, 9090, 0);
    let mut pumped = vec![];
    for _ in 0..10 {
        let before = w.accesses;
        let next = rtt.poll(1);
        rtt = w.run(next);
        pumped.push(w.accesses > before);
    }
    let expected: Vec<bool> = (0..10).map(|i| i % 4 == 1).collect();
    assert_eq!(pumped, expected);
    assert_eq!(rtt.poll_counter, 8);
}

#[test]
fn a_flush_pumps_at_once() {
    let mut w = World::new();
    let mut rtt = found();
    serve(&mut rtt, 9090, 0);
    let next = rtt.flush(1);
    let rtt = w.run(next);
    assert_eq!(w.accesses, 4);
    assert_eq!(rtt.poll_counter, 0);
}

#[test]
fn output_goes_to_the_clients_of_its_channel() {
    let mut w = World::new();
    w.print(0, b"zero");
    w.print(1, b"one");
    w.arriving.insert(1000, vec![11, 12]);
    w.arriving.insert(1001, vec![21]);
    w.arriving.insert(1002, vec![31]);
    let mut rtt = found();
    serve(&mut rtt, 1000, 0);
    serve(&mut rtt, 1001, 1);
    serve(&mut rtt, 1002, 0);
    let next = rtt.flush(1);
    let rtt = w.run(next);
    assert_eq!(
        w.sent,
        vec![
            (1000, 11, b"zero".to_vec()),
            (1000, 12, b"zero".to_vec()),
            (1001, 21, b"one".to_vec()),
            (1002, 31, b"zero".to_vec()),
        ]
    );
    let clients: Vec<Vec<u64>> = rtt.servers.iter().map(|s| s.clients.clone()).collect();
    assert_eq!(clients, vec![vec![11, 12], vec![21], vec![31]]);
    w.sent.clear();
    let next = rtt.flush(1);
    w.run(next);
    assert!(w.sent.is_empty());
}

#[test]
fn clients_that_are_gone_are_dropped() {
    let mut w = World::new();
    w.print(0, b"zero");
    w.arriving.insert(1000, vec![1, 2, 3, 4, 5]);
    w.typed.insert(1, vec![Received::Bytes(b"a".to_vec()), Received::Bytes(vec![])]);
    w.typed.insert(2, vec![Received::Bytes(b"b".to_vec()), Received::Failed]);
    w.refuses = vec![3];
    w.blocks = vec![4];
    let mut rtt = found();
    serve(&mut rtt, 1000, 0);
    let next = rtt.flush(1);
    let rtt = w.run(next);
    assert_eq!(rtt.servers[0].clients, vec![4, 5]);
    assert_eq!(w.sent, vec![(1000, 5, b"zero".to_vec())]);
    let ring: Vec<u8> = (0x2000_2200..0x2000_2202).map(|a| w.bytes[&a]).collect();
    assert_eq!(ring, b"ab");
}

#[test]
fn input_goes_to_the_down_channel() {
    let mut w = World::new();
    w.arriving.insert(1000, vec![1]);
    w.typed.insert(
        1,
        vec![
            Received::Bytes(b"hello".to_vec()),
            Received::Interrupted,
            Received::Bytes(b", world".to_vec()),
        ],
    );
    let mut rtt = found();
    serve(&mut rtt, 1000, 0);
    let next = rtt.flush(1);
    let rtt = w.run(next);
    let ring: Vec<u8> = (0x2000_2200..0x2000_2208).map(|a| w.bytes[&a]).collect();
    assert_eq!(ring, b"hello, \0");
    assert_eq!(rtt.pending_down[&0], b"world");
    // The target reads what it has; the rest follows on the next pump.
    w.ring(2, 0x2000_2200, 8, 7, 7);
    let next = rtt.flush(1);
    let rtt = w.run(next);
    let ring: Vec<u8> = (0x2000_2200..0x2000_2208).map(|a| w.bytes[&a]).collect();
    assert_eq!(ring, b"orldo, w");
    assert!(rtt.pending_down[&0].is_empty());
}

#[test]
fn a_full_ring_leaves_the_queue() {
    let mut w = World::new();
    w.ring(2, 0x2000_2200, 8, 3, 4);
    let mut rtt = found();
    serve(&mut rtt, 1000, 0);
    queue_input(&mut rtt.pending_down, 0, b"abc".to_vec());
    let next = rtt.flush(1);
    let rtt = w.run(next);
    assert_eq!(rtt.pending_down[&0], b"abc");
}

#[test]
fn input_without_a_down_buffer_is_dropped() {
    let mut w = World::new();
    w.arriving.insert(1001, vec![1]);
    w.typed.insert(1, vec![Received::Bytes(b"lost".to_vec())]);
    let mut rtt = found();
    serve(&mut rtt, 1001, 1);
    let next = rtt.flush(1);
    let rtt = w.run(next);
    assert!(!rtt.pending_down.contains_key(&1));
    assert_eq!(rtt.servers[0].clients, vec![1]);
}

#[test]
fn the_backlog_keeps_the_newest_bytes() {
    let mut pending = HashMap::new();
    queue_input(&mut pending, 3, vec![1; MAX_PENDING - 1]);
    queue_input(&mut pending, 3, vec![2, 3, 4]);
    queue_input(&mut pending, 5, vec![9]);
    let queue = &pending[&3];
    assert_eq!(queue.len(), 65536);
    assert_eq!(queue[65531..], [1, 1, 2, 3, 4]);
    assert_eq!(pending[&5], vec![9]);
    queue_input(&mut pending, 3, vec![7; 70000]);
    assert_eq!(pending[&3], vec![7; 65536]);
}

#[test]
fn the_block_is_found_on_the_first_pump() {
    let mut w = World::new();
    w.print(1, b"late");
    w.arriving.insert(1001, vec![1]);
    let mut rtt = Rtt::default();
    rtt.setup(0x2000_0000, 0x4000, "SEGGER RTT".to_string());
    serve(&mut rtt, 1001, 1);
    let next = rtt.flush(1);
    let rtt = w.run(next);
    assert_eq!((rtt.control_block, rtt.num_up, rtt.num_down), (Some(CB), 2, Some(1)));
    assert_eq!(w.sent, vec![(1001, 1, b"late".to_vec())]);
}

#[test]
fn without_a_block_the_clients_wait() {
    let mut w = World::new();
    w.arriving.insert(1001, vec![1]);
    let mut rtt = Rtt::default();
    serve(&mut rtt, 1001, 1);
    let next = rtt.flush(1);
    let mut rtt = w.run(next);
    assert_eq!(w.accesses, 0);
    rtt.setup(0x2000_0000, 0x4000, "SEGGER RTU".to_string());
    let next = rtt.flush(1);
    let rtt = w.run(next);
    assert_eq!(rtt.control_block, None);
    assert!(rtt.servers[0].clients.is_empty());
    assert_eq!(w.arriving[&1001], vec![1]);
}

#[test]
fn input_waits_while_the_count_is_not_known() {
    let mut w = World::new();
    for a in CB + 20..CB + 24 {
        w.bytes.remove(&a);
    }
    let mut rtt = Rtt::default();
    rtt.setup(CB, 20, "SEGGER RTT".to_string());
    serve(&mut rtt, 1001, 0);
    queue_input(&mut rtt.pending_down, 0, b"abc".to_vec());
    queue_input(&mut rtt.pending_down, 7, b"xyz".to_vec());
    let next = rtt.flush(1);
    let rtt = w.run(next);
    assert_eq!((rtt.control_block, rtt.num_up, rtt.num_down), (Some(CB), 2, None));
    assert_eq!(rtt.pending_down[&0], b"abc");
    assert_eq!(rtt.pending_down[&7], b"xyz");
    // Once the count is known, what can be delivered is, and the rest is dropped.
    let mut rtt = rtt;
    rtt.num_down = Some(1);
    let next = rtt.flush(1);
    let rtt = w.run(next);
    assert!(rtt.pending_down[&0].is_empty());
    assert!(!rtt.pending_down.contains_key(&7));
}

#[test]
fn a_port_is_served_once() {
    let mut rtt = Rtt::default();
    let bind = rtt.server_start(9090, 4).unwrap();
    assert_eq!((bind.port, bind.channel), (9090, 4));
    assert!(rtt.server_started(bind, Err("in use".to_string())).is_err());
    assert!(!rtt.is_serving(9090));
    serve(&mut rtt, 9090, 4);
    assert!(rtt.is_serving(9090));
    assert_eq!(rtt.server_start(9090, 5).unwrap_err().message(), "port already serving");
    let late = rtt.server_started(Bind { port: 9090, channel: 5 }, Ok(()));
    assert_eq!(late.unwrap_err().message(), "port already serving");
    assert_eq!(rtt.servers.len(), 1);
}

#[test]
fn stopping_leaves_the_other_servers() {
    let mut rtt = Rtt::default();
    serve(&mut rtt, 1, 0);
    serve(&mut rtt, 2, 0);
    serve(&mut rtt, 3, 0);
    assert!(rtt.server_stop(2));
    assert!(!rtt.server_stop(2));
    let ports: Vec<u16> = rtt.servers.iter().map(|s| s.port).collect();
    assert_eq!(ports, vec![1, 3]);
}

#[test]
fn each_down_channel_gets_its_input() {
    let mut w = World::new();
    w.put(CB + 20, &2u32.to_le_bytes());
    w.ring(3, 0x2000_2300, 4, 2, 2);
    let mut rtt = found();
    rtt.num_down = Some(2);
    serve(&mut rtt, 1000, 0);
    serve(&mut rtt, 1001, 1);
    serve(&mut rtt, 1002, 1);
    w.arriving.insert(1000, vec![1]);
    w.arriving.insert(1001, vec![2]);
    w.arriving.insert(1002, vec![3]);
    w.typed.insert(1, vec![Received::Bytes(b"abc".to_vec())]);
    w.typed.insert(2, vec![Received::Bytes(b"12".to_vec())]);
    w.typed.insert(3, vec![Received::Bytes(b"34".to_vec())]);
    let next = rtt.flush(1);
    let rtt = w.run(next);
    let first: Vec<u8> = (0x2000_2200..0x2000_2203).map(|a| w.bytes[&a]).collect();
    let second: Vec<u8> = (0x2000_2300..0x2000_2304).map(|a| w.bytes[&a]).collect();
    assert_eq!(first, b"abc");
    assert_eq!(second, b"3\x0012");
    assert!(rtt.pending_down[&0].is_empty());
    assert_eq!(rtt.pending_down[&1], b"4");
}

#[test]
fn a_pump_touches_nothing_but_what_it_fills() {
    let mut w = World::new();
    for a in 0x2000_0000..0x2000_4000 {
        if w.bytes[&a] == 0 && !(CB..CB + 24 + 24 * 4).contains(&a) {
            w.bytes.insert(a, 0xee);
        }
    }
    w.put(CB + 20, &2u32.to_le_bytes());
    w.ring(2, 0x2000_2200, 8, 6, 4);
    w.ring(3, 0, 8, 0, 0);
    let mut rtt = found();
    rtt.num_down = Some(2);
    serve(&mut rtt, 1000, 0);
    queue_input(&mut rtt.pending_down, 0, b"abcd".to_vec());
    queue_input(&mut rtt.pending_down, 1, b"kept".to_vec());
    let before = w.bytes.clone();
    let next = rtt.flush(1);
    let rtt = w.run(next);
    assert!(rtt.pending_down[&0].is_empty());
    assert_eq!(rtt.pending_down[&1], b"kept");
    // Four slots and the write offset, behind which three slots are as they were.
    let mut changed: Vec<u64> =
        before.keys().copied().filter(|a| before[a] != w.bytes[a]).collect();
    changed.sort();
    assert_eq!(
        changed,
        vec![CB + 72 + 12, 0x2000_2200, 0x2000_2201, 0x2000_2206, 0x2000_2207]
    );
    assert_eq!(w.bytes.len(), before.len());
}
