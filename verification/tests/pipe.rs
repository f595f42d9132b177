use cornea::pipe::{GdbOverPipe, Heard};

#[test]
fn bytes_come_in_order() {
    let mut pipe: GdbOverPipe<String> = GdbOverPipe::new();
    assert!(matches!(pipe.read(), Heard::Wait));
    assert!(pipe.heard(Ok(Some(1))));
    assert!(pipe.heard(Ok(Some(2))));
    assert!(matches!(pipe.read(), Heard::Item(Ok(1))));
    assert!(pipe.heard(Ok(Some(3))));
    assert!(matches!(pipe.read(), Heard::Item(Ok(2))));
    assert!(matches!(pipe.read(), Heard::Item(Ok(3))));
    assert!(matches!(pipe.read(), Heard::Wait));
}

#[test]
fn the_end_comes_after_what_was_heard() {
    let mut pipe: GdbOverPipe<String> = GdbOverPipe::new();
    assert!(pipe.heard(Ok(Some(1))));
    assert!(!pipe.heard(Ok(None)));
    assert!(matches!(pipe.read(), Heard::Item(Ok(1))));
    assert!(matches!(pipe.read(), Heard::Reset));
    assert!(matches!(pipe.read(), Heard::Reset));
}

#[test]
fn errors_stand_among_the_bytes() {
    let mut pipe: GdbOverPipe<String> = GdbOverPipe::new();
    assert!(pipe.heard(Ok(Some(1))));
    assert!(pipe.heard(Err("broken".to_string())));
    assert!(matches!(pipe.read(), Heard::Item(Ok(1))));
    match pipe.read() {
        Heard::Item(Err(e)) => assert_eq!(e, "broken"),
        other => panic!("{:?}", other),
    }
}

#[test]
fn peeking_takes_without_waiting() {
    let mut pipe: GdbOverPipe<String> = GdbOverPipe::new();
    assert_eq!(pipe.peek(), Ok(None));
    pipe.heard(Ok(Some(3)));
    pipe.heard(Err("broken".to_string()));
    assert_eq!(pipe.peek(), Ok(Some(3)));
    assert_eq!(pipe.peek(), Err("broken".to_string()));
    assert_eq!(pipe.peek(), Ok(None));
    pipe.heard(Ok(None));
    assert_eq!(pipe.peek(), Ok(None));
}
