use cornea::registers::{regnum_of, GuestState, Register};
use cornea::stub::IrisGdbStub;
use cornea::transfer::{register_read, ReadNext, Resource, WriteNext};

fn counted() -> GuestState {
    let mut state = GuestState::default();
    for (i, reg) in state.regs.iter_mut().enumerate() {
        *reg = 0x0101_0100 * (i as u32 + 1) + i as u32;
    }
    state
}

#[test]
fn the_default_state_is_zero() {
    assert_eq!(GuestState::default().regs, [0; 26]);
}

#[test]
fn the_program_counter_is_register_fifteen() {
    let mut state = GuestState::default();
    state.regs[15] = 0x2d80;
    assert_eq!(state.pc(), 0x2d80);
}

#[test]
fn the_block_pads_the_wide_registers() {
    let state = counted();
    let block = state.gdb_serialize();
    assert_eq!(block.len(), 168);
    assert_eq!(block[0..4], state.regs[0].to_le_bytes());
    assert_eq!(block[60..64], state.regs[15].to_le_bytes());
    assert_eq!(block[64..68], state.regs[16].to_le_bytes());
    assert_eq!(block[68..76], [0; 8]);
    assert_eq!(block[76..80], state.regs[17].to_le_bytes());
    assert_eq!(block[160..164], state.regs[24].to_le_bytes());
    assert_eq!(block[164..168], state.regs[25].to_le_bytes());
}

#[test]
fn a_block_is_taken_as_words() {
    let bytes: Vec<u8> = (0..26u32).flat_map(|i| (i * 3).to_le_bytes()).collect();
    let mut state = GuestState::default();
    assert_eq!(state.gdb_deserialize(&bytes), Ok(()));
    assert_eq!(state.regs[0], 0);
    assert_eq!(state.regs[25], 75);
    let mut longer = bytes.clone();
    longer.extend([9, 9, 9, 9]);
    assert_eq!(state.gdb_deserialize(&longer), Ok(()));
    assert_eq!(state.regs[25], 75);
}

#[test]
fn a_block_of_broken_words_is_refused() {
    let mut state = counted();
    assert_eq!(state.gdb_deserialize(&[0; 103]), Err(()));
    assert_eq!(state, counted());
}

#[test]
fn a_short_block_fills_what_it_can() {
    let mut state = counted();
    assert_eq!(state.gdb_deserialize(&[1, 0, 0, 0, 2, 0, 0, 0]), Err(()));
    assert_eq!(state.regs[0..2], [1, 2]);
    assert_eq!(state.regs[2..], counted().regs[2..]);
}

#[test]
fn all_registers_come_back_from_the_block() {
    let state = counted();
    let mut back = GuestState::default();
    assert_eq!(back.gdb_deserialize(&state.gdb_serialize()), Ok(()));
    assert_eq!(back, state);
    assert_eq!(back.regs[25], state.regs[25]);
}

#[test]
fn raw_ids_name_registers() {
    assert_eq!(Register::from_raw_id(0), Some((Register::R0, 4)));
    assert_eq!(Register::from_raw_id(12), Some((Register::R12, 4)));
    assert_eq!(Register::from_raw_id(13), Some((Register::SP, 4)));
    assert_eq!(Register::from_raw_id(14), Some((Register::LR, 4)));
    assert_eq!(Register::from_raw_id(15), Some((Register::PC, 4)));
    assert_eq!(Register::from_raw_id(16), None);
    assert_eq!(Register::from_raw_id(24), None);
    assert_eq!(Register::from_raw_id(25), Some((Register::XPSR, 4)));
    assert_eq!(Register::from_raw_id(26), None);
    for id in 0..40 {
        if let Some((reg, _)) = Register::from_raw_id(id) {
            assert_eq!(reg.block_index(), id);
        }
    }
}

#[test]
fn names_have_numbers() {
    for i in 0..16 {
        assert_eq!(regnum_of(&format!("R{}", i)), Some(i));
    }
    assert_eq!(regnum_of("XPSR"), Some(25));
    assert_eq!(regnum_of("R16"), None);
    assert_eq!(regnum_of("R13_MAIN"), None);
    assert_eq!(regnum_of("PC"), None);
    assert_eq!(regnum_of(""), None);
}

fn stub() -> IrisGdbStub {
    IrisGdbStub::from_instance(4, Ok(9)).unwrap()
}

fn resource(id: u64, name: &str, read_only: bool) -> Resource {
    Resource { id, name: name.to_string(), read_only }
}

fn list() -> Vec<Resource> {
    vec![
        resource(100, "R1", false),
        resource(101, "PC_MEMSPACE", false),
        resource(102, "XPSR", true),
        resource(103, "R15", false),
        resource(104, "R2", false),
    ]
}

#[test]
fn registers_are_read_one_by_one() {
    let mut next = stub().read_registers(counted(), Ok(list()));
    let mut asked = vec![];
    let state = loop {
        match next {
            ReadNext::Read(read, wait) => {
                assert_eq!(read.inst, 4);
                let id = read.id;
                asked.push(id);
                let data = if id == 104 { vec![] } else { vec![0xaaaa_0000_0000_0000 + id, 7] };
                next = wait.resume(Ok(data));
            }
            ReadNext::Done(state, r) => {
                assert_eq!(r, Ok(()));
                break state;
            }
        }
    };
    assert_eq!(asked, vec![100, 102, 103, 104]);
    assert_eq!(state.regs[1], 100);
    assert_eq!(state.regs[25], 102);
    assert_eq!(state.regs[15], 103);
    assert_eq!(state.regs[2], counted().regs[2]);
    assert_eq!(state.regs[0], counted().regs[0]);
}

#[test]
fn a_register_that_cannot_be_read_ends_the_transfer() {
    let next = stub().read_registers(GuestState::default(), Ok(list()));
    let wait = match next {
        ReadNext::Read(read, wait) if read.id == 100 => wait,
        other => panic!("{:?}", other),
    };
    let wait = match wait.resume(Ok(vec![5])) {
        ReadNext::Read(read, wait) if read.id == 102 => wait,
        other => panic!("{:?}", other),
    };
    match wait.resume(Err(())) {
        ReadNext::Done(state, r) => {
            assert_eq!(r, Err(()));
            assert_eq!(state.regs[1], 5);
        }
        other => panic!("{:?}", other),
    }
    assert!(matches!(
        stub().read_registers(GuestState::default(), Err(())),
        ReadNext::Done(_, Err(()))
    ));
}

#[test]
fn registers_are_written_but_the_read_only_ones() {
    let mut next = stub().write_registers(counted(), Ok(list()));
    let mut put = vec![];
    loop {
        match next {
            WriteNext::Write(write, wait) => {
                assert_eq!(write.inst, 4);
                put.push((write.id, write.val));
                next = wait.resume(Ok(()));
            }
            WriteNext::Done(r) => {
                assert_eq!(r, Ok(()));
                break;
            }
        }
    }
    let regs = counted().regs;
    assert_eq!(put, vec![(100, regs[1]), (103, regs[15]), (104, regs[2])]);
}

#[test]
fn a_register_that_cannot_be_written_ends_the_transfer() {
    match stub().write_registers(counted(), Ok(list())) {
        WriteNext::Write(_, wait) => {
            assert!(matches!(wait.resume(Err(())), WriteNext::Done(Err(()))));
        }
        other => panic!("{:?}", other),
    }
    assert!(matches!(stub().write_registers(counted(), Err(())), WriteNext::Done(Err(()))));
}

fn stub_read(list: &Vec<Resource>, reg: &Register) -> Option<u64> {
    stub().read_register(list, reg).map(|read| read.id)
}

fn stub_write(list: &Vec<Resource>, reg: &Register, val: &[u8]) -> Option<(u64, u32)> {
    stub().write_register(list, reg, val).map(|write| (write.id, write.val))
}

#[test]
fn one_register_is_read() {
    assert_eq!(stub_read(&list(), &Register::PC), Some(103));
    assert_eq!(stub_read(&list(), &Register::XPSR), Some(102));
    assert_eq!(stub_read(&list(), &Register::R0), None);
    let mut dst = [9; 6];
    assert_eq!(register_read(Ok(vec![0x1_0000_2d80]), &mut dst), Ok(()));
    assert_eq!(dst, [0x80, 0x2d, 0, 0, 9, 9]);
    let mut short = [9; 2];
    assert_eq!(register_read(Ok(vec![0x1_0000_2d80]), &mut short), Ok(()));
    assert_eq!(short, [0x80, 0x2d]);
    assert_eq!(register_read(Ok(vec![]), &mut dst), Err(()));
    assert_eq!(register_read(Err(()), &mut dst), Err(()));
    assert_eq!(dst, [0x80, 0x2d, 0, 0, 9, 9]);
}

#[test]
fn one_register_is_written() {
    let val = 0x2000_0400u32.to_le_bytes();
    assert_eq!(stub_write(&list(), &Register::R1, &val), Some((100, 0x2000_0400)));
    assert_eq!(stub_write(&list(), &Register::XPSR, &val), None);
    assert_eq!(stub_write(&list(), &Register::R0, &val), None);
    assert_eq!(stub_write(&list(), &Register::R1, &val[..3]), None);
}

#[test]
fn registers_that_were_written_are_read_back() {
    let mut core: Vec<(u64, u64)> = list().iter().map(|r| (r.id, 0x1000 + r.id)).collect();
    let mut next = stub().write_registers(counted(), Ok(list()));
    while let WriteNext::Write(write, wait) = next {
        for resource in core.iter_mut().filter(|r| r.0 == write.id) {
            resource.1 = write.val as u64;
        }
        next = wait.resume(Ok(()));
    }
    let mut next = stub().read_registers(GuestState::default(), Ok(list()));
    let back = loop {
        match next {
            ReadNext::Read(read, wait) => {
                let val = core.iter().find(|r| r.0 == read.id).unwrap().1;
                next = wait.resume(Ok(vec![val]));
            }
            ReadNext::Done(back, _) => break back,
        }
    };
    assert_eq!(back.regs[1], counted().regs[1]);
    assert_eq!(back.regs[2], counted().regs[2]);
    assert_eq!(back.regs[15], counted().regs[15]);
    assert_eq!(back.regs[25], 0x1000 + 102);
    assert_eq!(back.regs[0], 0);
}
