use cornea::monitor::{parse_command, Command};
use cornea::numbers::{append_number, parse_u16, parse_u64};
use cornea::text::{is_white, join_from, same, split_words, trim, Rim};

#[test]
fn white_space_is_what_unicode_says() {
    for n in 0..=0x10ffff {
        if let Some(c) = char::from_u32(n) {
            assert_eq!(is_white(c), c.is_whitespace(), "{:x}", n);
        }
    }
}

#[test]
fn words_are_split_at_white_space() {
    let texts =
        ["", "  ", "a", " a  b\tc\n", "r\u{e9}set\u{2003}halt", "rtt\u{a0}start", "x\u{3000}"];
    for text in texts {
        let expected: Vec<&str> = text.split_whitespace().collect();
        assert_eq!(split_words(text), expected);
    }
}

#[test]
fn ends_are_trimmed() {
    assert_eq!(trim(" \t a b \r\n", Rim::White), "a b");
    assert_eq!(trim("   ", Rim::White), "");
    assert_eq!(trim("\"\"SEGGER \"RTT\"", Rim::Quotes), "SEGGER \"RTT");
    assert_eq!(trim("\"", Rim::Quotes), "");
    assert_eq!(trim(" \"a\" ", Rim::Quotes), " \"a\" ");
}

#[test]
fn words_are_joined_by_blanks() {
    assert_eq!(join_from(&vec!["a", "bc", "d"], 0), "a bc d");
    assert_eq!(join_from(&vec!["a", "bc", "d"], 2), "d");
    assert_eq!(join_from(&vec!["a"], 1), "");
}

#[test]
fn texts_are_compared() {
    assert!(same("reset", "reset"));
    assert!(!same("reset", "resets"));
    assert!(!same("reset", "rezet"));
    assert!(same("", ""));
}

#[test]
fn numbers_are_decimal_or_hexadecimal() {
    assert_eq!(parse_u64("0"), Some(0));
    assert_eq!(parse_u64("4096"), Some(4096));
    assert_eq!(parse_u64("0x2000183c"), Some(0x2000183c));
    assert_eq!(parse_u64("0XfF"), Some(255));
    assert_eq!(parse_u64("+7"), Some(7));
    assert_eq!(parse_u64("0x+1f"), Some(31));
    assert_eq!(parse_u64(" 12 "), Some(12));
    assert_eq!(parse_u64("00x1"), None);
    assert_eq!(parse_u64("0x"), None);
    assert_eq!(parse_u64(""), None);
    assert_eq!(parse_u64("+"), None);
    assert_eq!(parse_u64("++1"), None);
    assert_eq!(parse_u64("-1"), None);
    assert_eq!(parse_u64("12a"), None);
    assert_eq!(parse_u64("0xg"), None);
    assert_eq!(parse_u64("18446744073709551615"), Some(u64::MAX));
    assert_eq!(parse_u64("18446744073709551616"), None);
    assert_eq!(parse_u64("0xffffffffffffffff"), Some(u64::MAX));
    assert_eq!(parse_u64("0x10000000000000000"), None);
    assert_eq!(parse_u64("99999999999999999999999999x"), None);
    assert_eq!(parse_u64("000000000000000000000000000000000001"), Some(1));
}

#[test]
fn ports_have_sixteen_bits() {
    assert_eq!(parse_u16("9090"), Some(9090));
    assert_eq!(parse_u16("65535"), Some(65535));
    assert_eq!(parse_u16("65536"), None);
    assert_eq!(parse_u16("0x10"), None);
    assert_eq!(parse_u16(""), None);
}

#[test]
fn numbers_are_written_out() {
    for n in [0, 9, 10, 255, 4096, 0x2000_183c, u64::MAX] {
        let mut text = String::from("n=");
        append_number(&mut text, n, 10);
        assert_eq!(text, format!("n={}", n));
        let mut text = String::from("0x");
        append_number(&mut text, n, 16);
        assert_eq!(text, format!("{:#x}", n));
        assert_eq!(parse_u64(&text), Some(n));
        assert_eq!(parse_u64(&format!("\t {}\u{2003}\n", text)), Some(n));
    }
}

#[test]
fn commands_are_recognised() {
    assert!(matches!(parse_command("  "), Command::Nothing));
    assert!(matches!(parse_command("reset"), Command::Reset));
    assert!(matches!(parse_command("reset halt"), Command::Reset));
    assert!(matches!(parse_command("halt"), Command::Halt));
    assert!(matches!(parse_command("rtt start"), Command::Start));
    assert!(matches!(
        parse_command("rtt server start 9090 0x1"),
        Command::ServerStart { port: 9090, channel: 1 }
    ));
    assert!(matches!(parse_command("rtt server start 70000 1"), Command::BadServerStart));
    assert!(matches!(parse_command("rtt server start 9090 one"), Command::BadServerStart));
    let large = parse_command("rtt server start 9090 4294967296");
    assert!(matches!(large, Command::BadServerStart));
    assert!(matches!(parse_command("rtt server stop 9090"), Command::ServerStop { port: 9090 }));
    assert!(matches!(parse_command("rtt server stop x"), Command::BadServerStop));
    assert!(matches!(parse_command("rtt setup 0 x"), Command::BadSetup));
}

#[test]
fn a_setup_names_its_identifier() {
    let cases = [
        ("rtt setup 0x20000000 0x8000", "SEGGER RTT"),
        ("rtt setup 0x20000000 0x8000 \"SEGGER  RTT\"", "SEGGER RTT"),
        ("rtt setup 0x20000000 32768 MARK", "MARK"),
        ("rtt setup 0x20000000 32768 \"\"", ""),
    ];
    for (text, expected) in cases {
        match parse_command(text) {
            Command::Setup { addr, size, id } => {
                assert_eq!((addr, size), (0x20000000, 0x8000));
                assert_eq!(id, expected);
            }
            other => panic!("{:?}", other),
        }
    }
}

#[test]
fn other_commands_are_unknown() {
    let texts = [
        " rtt ",
        "rtt setup 1",
        "rtt start now",
        "rtt server",
        "rtt server start 9090",
        "rtt server start 9090 1 2",
        "rtt server stop",
        "resets",
        "halt now",
        "RESET",
    ];
    for text in texts {
        match parse_command(text) {
            Command::Unknown { text: said } => assert_eq!(said, text.trim()),
            other => panic!("{:?}", other),
        }
    }
}
