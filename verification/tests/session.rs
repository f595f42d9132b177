use cornea::console::MonitorNext;
use cornea::dialogue::Next;
use cornea::error::RttError;
use cornea::locate::{Block, Located};
use cornea::memory::{Reply, Request};
use cornea::resume::{Action, ResumeNext, Run, Stop, Unit};
use cornea::stub::{addrs_read, addrs_written, AddWatchpoint, IrisGdbStub, WatchKind};

fn stub() -> IrisGdbStub {
    IrisGdbStub::from_instance(4, Ok(9)).unwrap()
}

fn say(next: MonitorNext) -> String {
    match next {
        MonitorNext::Say(text) => text,
        other => panic!("{:?}", other),
    }
}

#[test]
fn a_session_needs_the_engine() {
    assert_eq!(IrisGdbStub::engine_name(), "framework.SimulationEngine");
    let s = stub();
    assert_eq!((s.instance_id, s.sim), (4, 9));
    assert!(s.breakpoints.is_empty());
    assert!(s.rtt.servers.is_empty());
    let refused = IrisGdbStub::from_instance(4, Err("not registered".to_string()));
    assert_eq!(refused.unwrap_err(), "not registered");
}

#[test]
fn a_breakpoint_is_set_once() {
    let mut s = stub();
    let set = s.add_hw_breakpoint(0x8000).unwrap();
    assert_eq!((set.inst, set.addr, set.size, set.space), (4, 0x8000, None, 0));
    assert!(!set.dont_stop);
    assert!(s.hw_breakpoint_added(0x8000, Some(77)));
    assert!(s.add_hw_breakpoint(0x8000).is_none());
    assert!(s.add_sw_breakpoint(0x8000).is_none());
    assert!(s.add_hw_breakpoint(0x8002).is_some());
}

#[test]
fn a_breakpoint_that_is_refused_is_not_kept() {
    let mut s = stub();
    assert!(!s.hw_breakpoint_added(0x8000, None));
    assert!(s.add_sw_breakpoint(0x8000).is_some());
    assert!(s.remove_hw_breakpoint(0x8000).is_none());
}

#[test]
fn a_breakpoint_is_removed() {
    let mut s = stub();
    s.hw_breakpoint_added(0x8000, Some(77));
    s.hw_breakpoint_added(0x8004, Some(78));
    let delete = s.remove_sw_breakpoint(0x8000).unwrap();
    assert_eq!((delete.inst, delete.id), (4, 77));
    assert!(!s.hw_breakpoint_removed(0x8000, false));
    assert!(s.remove_hw_breakpoint(0x8000).is_some());
    assert!(s.hw_breakpoint_removed(0x8000, true));
    assert!(s.remove_hw_breakpoint(0x8000).is_none());
    assert_eq!(s.remove_hw_breakpoint(0x8004).unwrap().id, 78);
}

#[test]
fn watchpoints_are_kept_apart_from_breakpoints() {
    let mut s = stub();
    let set = match s.add_hw_watchpoint(0x2000_0000, WatchKind::Write) {
        AddWatchpoint::Needed(set) => set,
        other => panic!("{:?}", other),
    };
    assert_eq!((set.inst, set.addr, set.size, set.space), (4, 0x2000_0000, None, 0));
    assert_eq!((set.kind, set.dont_stop), (WatchKind::Write, false));
    assert!(s.hw_watchpoint_added(0x2000_0000, WatchKind::Write, Some(5)));
    let again = s.add_hw_watchpoint(0x2000_0000, WatchKind::Write);
    assert!(matches!(again, AddWatchpoint::There));
    let other = s.add_hw_watchpoint(0x2000_0000, WatchKind::Read);
    assert!(matches!(other, AddWatchpoint::Refused));
    assert!(s.add_hw_breakpoint(0x2000_0000).is_some());
    assert!(s.remove_hw_watchpoint(0x2000_0000, WatchKind::Read).is_none());
    assert_eq!(s.remove_hw_watchpoint(0x2000_0000, WatchKind::Write).unwrap().id, 5);
    assert!(!s.hw_watchpoint_removed(0x2000_0000, false));
    assert!(s.hw_watchpoint_removed(0x2000_0000, true));
    assert!(s.remove_hw_watchpoint(0x2000_0000, WatchKind::Write).is_none());
    assert!(!s.hw_watchpoint_added(0x2000_0000, WatchKind::Read, None));
    assert!(s.watchpoints.is_empty());
}

#[test]
fn memory_is_read_in_bytes() {
    let s = stub();
    assert!(matches!(
        s.read_addrs(0x2000_0000, 3),
        Request::Read { inst: 4, space: 0, addr: 0x2000_0000, width: 1, count: 3 }
    ));
    let mut data = [9; 3];
    assert_eq!(addrs_read(Reply::Words(vec![0x04030201]), &mut data), Ok(()));
    assert_eq!(data, [1, 2, 3]);
    let mut data = [9; 10];
    assert_eq!(addrs_read(Reply::Words(vec![0x0807060504030201]), &mut data), Ok(()));
    assert_eq!(data, [1, 2, 3, 4, 5, 6, 7, 8, 9, 9]);
    assert_eq!(addrs_read(Reply::Failed("no".to_string()), &mut data), Err(()));
    assert_eq!(data, [1, 2, 3, 4, 5, 6, 7, 8, 9, 9]);
}

#[test]
fn memory_is_written_packed() {
    let s = stub();
    match s.write_addrs(0x2000_0000, &[1, 2, 3, 4, 5, 6, 7, 8, 9]) {
        Request::Write { inst, space, addr, width, count, data } => {
            assert_eq!((inst, space, addr, width, count), (4, 0, 0x2000_0000, 1, 9));
            assert_eq!(data, vec![0x0807060504030201, 9]);
            let mut back = [0; 9];
            assert_eq!(addrs_read(Reply::Words(data), &mut back), Ok(()));
            assert_eq!(back, [1, 2, 3, 4, 5, 6, 7, 8, 9]);
        }
        other => panic!("{:?}", other),
    }
    assert_eq!(addrs_written(Reply::Words(vec![])), Ok(()));
    assert_eq!(addrs_written(Reply::Failed("no".to_string())), Err(()));
}

#[test]
fn nothing_said_is_nothing_done() {
    assert!(matches!(stub().handle_monitor_cmd(b" \t"), MonitorNext::Silent));
}

#[test]
fn a_reset_waits() {
    let mut s = stub();
    match s.handle_monitor_cmd(b"reset halt") {
        MonitorNext::Reset(reset) => assert_eq!((reset.sim, reset.allow_partial), (9, false)),
        other => panic!("{:?}", other),
    }
    assert!(matches!(s.was_reset(Ok(())), MonitorNext::Wait(9)));
    assert_eq!(say(IrisGdbStub::has_waited()), "reset");
    assert_eq!(say(s.was_reset(Err("EVS".to_string()))), "reset unavailable: EVS");
}

#[test]
fn a_halt_stops_the_simulation() {
    let mut s = stub();
    assert!(matches!(s.handle_monitor_cmd(b"halt"), MonitorNext::Halt(9)));
    assert_eq!(
        say(s.handle_monitor_cmd(b"halt now")),
        "Monitor command 'halt now' not supported"
    );
    assert_eq!(say(IrisGdbStub::was_halted(Ok(()))), "halt");
    assert_eq!(say(IrisGdbStub::was_halted(Err("no".to_string()))), "halt unavailable: no");
}

#[test]
fn a_setup_says_its_region() {
    let mut s = stub();
    s.rtt.control_block = Some(1);
    let next = s.handle_monitor_cmd(b"rtt setup 0x20000000 32768");
    assert_eq!(say(next), "rtt: search 0x20000000..0x20008000");
    assert_eq!(s.rtt.search, Some((0x2000_0000, 0x8000, "SEGGER RTT".to_string())));
    assert_eq!(s.rtt.control_block, None);
    let next = s.handle_monitor_cmd(b"rtt setup 0xffffffffffffffff 2");
    assert_eq!(say(next), "rtt: search 0xffffffffffffffff..0x1");
    let next = s.handle_monitor_cmd(b"rtt setup here 2");
    assert_eq!(say(next), "rtt setup <addr> <size> [id]: bad address/size");
}

#[test]
fn a_start_without_setup_is_refused() {
    let next = stub().handle_monitor_cmd(b"rtt start");
    assert_eq!(say(next), "rtt start: rtt setup not run");
}

#[test]
fn a_start_looks_for_the_block() {
    let mut s = stub();
    s.handle_monitor_cmd(b"rtt setup 0x20000000 0x8000");
    match s.handle_monitor_cmd(b"rtt start") {
        MonitorNext::Locate(Next::Ask(request, _)) => assert!(matches!(
            request,
            Request::Read { inst: 4, space: 0, addr: 0x2000_0000, width: 1, count: 4096 }
        )),
        other => panic!("{:?}", other),
    }
    let found = Located::At(Block { cb: 0x2000_183c, num_up: 16, num_down: Some(3) });
    assert_eq!(say(s.was_located(found)), "rtt: control block 0x2000183c, 16 up channel(s)");
    assert_eq!(s.rtt.control_block, Some(0x2000_183c));
    assert_eq!((s.rtt.num_up, s.rtt.num_down), (16, Some(3)));
    assert_eq!(say(s.was_located(Located::Nowhere)), "rtt start: RTT control block not found");
}

#[test]
fn a_header_that_cannot_be_read_is_reported() {
    let mut s = stub();
    let found = Located::UpUnread { cb: 0x100, error: RttError::ShortRead };
    assert_eq!(say(s.was_located(found)), "rtt start: short memory read");
    assert_eq!((s.rtt.control_block, s.rtt.num_up), (Some(0x100), 0));
    let error = RttError::Transport("gone".to_string());
    let found = Located::DownUnread { cb: 0x200, num_up: 2, error };
    assert_eq!(say(s.was_located(found)), "rtt start: gone");
    assert_eq!((s.rtt.control_block, s.rtt.num_up), (Some(0x200), 2));
}

#[test]
fn a_server_is_started_and_stopped() {
    let mut s = stub();
    let bind = match s.handle_monitor_cmd(b"rtt server start 9090 0") {
        MonitorNext::Bind(bind) => bind,
        other => panic!("{:?}", other),
    };
    assert_eq!((bind.port, bind.channel), (9090, 0));
    assert_eq!(say(s.was_bound(bind, Ok(()))), "rtt: channel 0 -> 127.0.0.1:9090");
    let again = s.handle_monitor_cmd(b"rtt server start 9090 1");
    assert_eq!(say(again), "rtt server start: port already serving");
    assert_eq!(s.rtt.servers.len(), 1);
    assert_eq!(say(s.handle_monitor_cmd(b"rtt server stop 9090")), "rtt: server :9090 stopped");
    let again = s.handle_monitor_cmd(b"rtt server stop 9090");
    assert_eq!(say(again), "rtt: server :9090 not running");
    assert!(matches!(s.handle_monitor_cmd(b"rtt server start 9090 1"), MonitorNext::Bind(_)));
}

#[test]
fn a_port_that_cannot_be_bound_is_reported() {
    let mut s = stub();
    let bind = match s.handle_monitor_cmd(b"rtt server start 80 0xffffffff") {
        MonitorNext::Bind(bind) => bind,
        other => panic!("{:?}", other),
    };
    assert_eq!(bind.channel, u32::MAX);
    let bound = Err("Permission denied".to_string());
    assert_eq!(say(s.was_bound(bind, bound)), "rtt server start: Permission denied");
    assert!(s.rtt.servers.is_empty());
    assert_eq!(
        say(s.handle_monitor_cmd(b"rtt server start 80")),
        "Monitor command 'rtt server start 80' not supported"
    );
    assert_eq!(
        say(s.handle_monitor_cmd(b"rtt server start x 0")),
        "rtt server start <port> <channel>: bad args"
    );
    assert_eq!(
        say(s.handle_monitor_cmd(b"rtt server stop x")),
        "rtt server stop <port>: bad port"
    );
}

#[test]
fn a_channel_that_is_too_large_is_refused() {
    let mut s = stub();
    for text in ["rtt server start 80 4294967296", "rtt server start 80 0x100000002"] {
        assert_eq!(
            say(s.handle_monitor_text(text)),
            "rtt server start <port> <channel>: bad args"
        );
    }
    assert!(s.rtt.servers.is_empty());
}

#[test]
fn a_command_need_not_be_utf8() {
    let mut s = stub();
    assert_eq!(
        say(s.handle_monitor_cmd(b" fo\xffo\xc3\xa9 ")),
        "Monitor command 'fo\u{fffd}o\u{e9}' not supported"
    );
    assert_eq!(say(s.handle_monitor_text("bar")), "Monitor command 'bar' not supported");
}

fn run(next: ResumeNext) -> Run {
    match next {
        ResumeNext::SetUp(_, run)
        | ResumeNext::Start(9, run)
        | ResumeNext::Ask(9, run)
        | ResumeNext::Poll(run)
        | ResumeNext::Look(run)
        | ResumeNext::FlushToStop(run)
        | ResumeNext::Stop(9, run)
        | ResumeNext::Flush(run)
        | ResumeNext::Hit(run) => run,
        other => panic!("{:?}", other),
    }
}

#[test]
fn a_step_is_set_up_run_and_flushed() {
    let s = stub();
    let next = s.resume(Action::Step);
    match &next {
        ResumeNext::SetUp(setup, _) => {
            assert_eq!((setup.inst, setup.steps, setup.unit), (4, 1, Unit::Instruction))
        }
        other => panic!("{:?}", other),
    }
    let next = run(next).set_up(Ok(()));
    assert!(matches!(next, ResumeNext::Start(9, _)));
    let next = run(next).running(Ok(()));
    assert!(matches!(next, ResumeNext::Ask(9, _)));
    let next = run(next).asked(Ok(false));
    assert!(matches!(next, ResumeNext::Flush(_)));
    let next = run(next).flushed();
    assert!(matches!(next, ResumeNext::Hit(_)));
    assert!(matches!(run(next).hit(&s, None), ResumeNext::Done(Ok(Stop::DoneStep))));
}

#[test]
fn a_continue_polls_until_it_stops() {
    let s = stub();
    let next = s.resume(Action::Continue);
    assert!(matches!(next, ResumeNext::Start(9, _)));
    let mut next = run(next).running(Ok(()));
    for _ in 0..3 {
        next = run(next).asked(Ok(true));
        assert!(matches!(next, ResumeNext::Poll(_)));
        next = run(next).polled();
        assert!(matches!(next, ResumeNext::Look(_)));
        next = run(next).looked(false);
        assert!(matches!(next, ResumeNext::Ask(9, _)));
    }
    let next = run(run(next).asked(Ok(false))).flushed();
    assert!(matches!(run(next).hit(&s, Some(3)), ResumeNext::Done(Ok(Stop::HwBreak))));
}

#[test]
fn an_interrupt_flushes_and_stops() {
    let s = stub();
    let next = run(s.resume(Action::Continue)).running(Ok(()));
    let next = run(run(next).asked(Ok(true))).polled();
    let next = run(next).looked(true);
    assert!(matches!(next, ResumeNext::FlushToStop(_)));
    let next = run(next).flushed_to_stop();
    assert!(matches!(next, ResumeNext::Stop(9, _)));
    let stopping = run(next);
    assert!(matches!(stopping.stopped(Ok(())), ResumeNext::Done(Ok(Stop::GdbInterrupt))));
    assert!(matches!(stopping.stopped(Err(())), ResumeNext::Done(Err(()))));
}

#[test]
fn a_hit_watchpoint_is_the_reason() {
    let mut s = stub();
    s.hw_watchpoint_added(0x2000_0010, WatchKind::ReadWrite, Some(5));
    s.hw_watchpoint_added(0x2000_0020, WatchKind::Read, Some(6));
    let r = run(s.resume(Action::Step));
    match r.hit(&s, Some(6)) {
        ResumeNext::Done(Ok(stop)) => {
            assert_eq!(stop, Stop::Watch { kind: WatchKind::Read, addr: 0x2000_0020 })
        }
        other => panic!("{:?}", other),
    }
    assert!(matches!(r.hit(&s, Some(7)), ResumeNext::Done(Ok(Stop::DoneStep))));
}

#[test]
fn a_refused_step_of_the_way_is_an_error() {
    let s = stub();
    let r = run(s.resume(Action::Step));
    assert!(matches!(r.set_up(Err(())), ResumeNext::Done(Err(()))));
    assert!(matches!(r.running(Err(())), ResumeNext::Done(Err(()))));
    assert!(matches!(r.asked(Err(())), ResumeNext::Done(Err(()))));
    assert!(matches!(s.resume(Action::StepWithSignal(5)), ResumeNext::Done(Err(()))));
    assert!(matches!(s.resume(Action::ContinueWithSignal(5)), ResumeNext::Done(Err(()))));
}
