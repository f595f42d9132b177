use cornea::access::{
    bytes_read, read_bytes, read_u32, u32_read, write_bytes, write_u32, written,
};
use cornea::error::RttError;
use cornea::memory::{pack_le, push_u32_le, u32_from_le, unpack_le, Reply, Request};

#[test]
fn pack_pads_the_last_word() {
    assert_eq!(pack_le(&[1, 2, 3]), vec![0x030201]);
    assert_eq!(pack_le(&[0, 0, 0, 0, 0, 0, 0, 0x80, 9]), vec![0x8000000000000000, 9]);
    assert_eq!(pack_le(&[]), Vec::<u64>::new());
}

#[test]
fn packed_bytes_unpack() {
    let bytes: Vec<u8> = (1..=19).collect();
    let mut back = unpack_le(&pack_le(&bytes));
    assert_eq!(back.len(), 24);
    assert_eq!(back[19..], [0, 0, 0, 0, 0]);
    back.truncate(19);
    assert_eq!(back, bytes);
}

#[test]
fn numbers_are_little_endian() {
    let mut bytes = vec![7];
    push_u32_le(&mut bytes, 0x11223344);
    assert_eq!(bytes, vec![7, 0x44, 0x33, 0x22, 0x11]);
    assert_eq!(u32_from_le(&bytes, 1), 0x11223344);
}

#[test]
fn an_empty_read_asks_nothing() {
    assert!(read_bytes(1, 0x100, 0).is_none());
    assert!(matches!(
        read_bytes(1, 0x100, 5),
        Some(Request::Read { inst: 1, space: 0, addr: 0x100, width: 1, count: 5 })
    ));
}

#[test]
fn a_read_is_cut_to_what_was_asked_for() {
    let got = bytes_read(Reply::Words(vec![0x0807060504030201]), 3);
    assert_eq!(got.unwrap(), vec![1, 2, 3]);
}

#[test]
fn a_short_read_is_an_error() {
    let got = bytes_read(Reply::Words(vec![1]), 9);
    assert!(matches!(&got, Err(RttError::ShortRead)));
    assert_eq!(got.unwrap_err().message(), "short memory read");
}

#[test]
fn a_failed_read_keeps_its_text() {
    let got = u32_read(Reply::Failed("no such space".to_string()));
    assert_eq!(got.unwrap_err().message(), "no such space");
}

#[test]
fn a_word_is_read_as_four_bytes() {
    assert!(matches!(
        read_u32(2, 0x20),
        Request::Read { inst: 2, space: 0, addr: 0x20, width: 1, count: 4 }
    ));
    assert_eq!(u32_read(Reply::Words(vec![0xffff_ffff_1234_5678])).unwrap(), 0x12345678);
}

#[test]
fn a_word_is_written_as_one_unit() {
    match write_u32(2, 0x20, 0xdead_beef) {
        Request::Write { inst, space, addr, width, count, data } => {
            assert_eq!((inst, space, addr, width, count), (2, 0, 0x20, 4, 1));
            assert_eq!(data, vec![0xdead_beef]);
        }
        other => panic!("{:?}", other),
    }
}

#[test]
fn bytes_are_written_packed() {
    assert!(write_bytes(2, 0x20, &[]).is_none());
    match write_bytes(2, 0x20, b"hello, world") {
        Some(Request::Write { inst, space, addr, width, count, data }) => {
            assert_eq!((inst, space, addr, width, count), (2, 0, 0x20, 1, 12));
            assert_eq!(data, vec![0x77202c6f6c6c6568, 0x646c726f]);
        }
        other => panic!("{:?}", other),
    }
    assert!(written(Reply::Words(vec![])).is_ok());
    assert!(written(Reply::Failed("x".to_string())).is_err());
}
