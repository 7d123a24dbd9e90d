use embassy_rp_base::reset::{ControlRequest, KiwiUsbReset, OutResponse, Recipient, RequestType};
use embassy_rp_base::shell::{dispatch, parse_command, print_help, process_input, line_as_str, Command};
use embassy_rp_base::text::{encode_char, is_control, str_eq, str_trim};

fn line() -> heapless::String<64> {
    heapless::String::new()
}

fn echoes_of(v: &[Vec<u8>]) -> Vec<u8> {
    v.concat()
}

#[test]
fn typing_echoes_each_character() {
    let mut msg = line();
    let (done, echoes) = process_input(&mut msg, "ab");
    assert_eq!(done, None);
    assert_eq!(msg.as_str(), "ab");
    assert_eq!(echoes, vec![b"a".to_vec(), b"b".to_vec()]);
}

#[test]
fn enter_completes_a_line_and_drops_the_rest() {
    let mut msg = line();
    let (done, echoes) = process_input(&mut msg, "help\rxyz");
    assert_eq!(done, Some(()));
    assert_eq!(line_as_str(&msg), "help");
    assert_eq!(echoes_of(&echoes), b"help\r\n".to_vec());
}

#[test]
fn enter_on_empty_line_prompts_again() {
    let mut msg = line();
    let (done, echoes) = process_input(&mut msg, "\n");
    assert_eq!(done, None);
    assert_eq!(echoes, vec![b"\r\n> ".to_vec()]);
}

#[test]
fn backspace_removes_last_character() {
    let mut msg = line();
    let (done, echoes) = process_input(&mut msg, "ab\x08c\x7f\x7f\x7f");
    assert_eq!(done, None);
    assert_eq!(msg.as_str(), "");
    assert_eq!(
        echoes,
        vec![
            b"a".to_vec(),
            b"b".to_vec(),
            b"\x08 \x08".to_vec(),
            b"c".to_vec(),
            b"\x08 \x08".to_vec(),
            b"\x08 \x08".to_vec(),
        ]
    );
}

#[test]
fn escape_sequence_is_skipped() {
    let mut msg = line();
    let (done, echoes) = process_input(&mut msg, "a\x1b[Ab");
    assert_eq!(done, None);
    assert_eq!(msg.as_str(), "ab");
    assert_eq!(echoes_of(&echoes), b"ab".to_vec());
}

#[test]
fn other_control_characters_are_ignored() {
    let mut msg = line();
    let (_, echoes) = process_input(&mut msg, "\x01x\x07");
    assert_eq!(msg.as_str(), "x");
    assert_eq!(echoes, vec![b"x".to_vec()]);
}

#[test]
fn multibyte_characters_are_echoed_as_utf8() {
    let mut msg = line();
    let (_, echoes) = process_input(&mut msg, "é€");
    assert_eq!(msg.as_str(), "é€");
    assert_eq!(echoes, vec!["é".as_bytes().to_vec(), "€".as_bytes().to_vec()]);
}

#[test]
fn overlong_line_is_cleared_with_error() {
    let mut msg = line();
    let input: String = std::iter::repeat('x').take(65).collect();
    let (done, echoes) = process_input(&mut msg, &input);
    assert_eq!(done, None);
    assert_eq!(msg.as_str(), "");
    assert_eq!(echoes.len(), 65);
    assert_eq!(echoes[64], b"\r\nError: input too long\r\n> ".to_vec());
}

#[test]
fn line_continues_across_packets() {
    let mut msg = line();
    process_input(&mut msg, "ver");
    let (done, _) = process_input(&mut msg, "sion\n");
    assert_eq!(done, Some(()));
    assert_eq!(msg.as_str(), "version");
}

#[test]
fn parse_known_commands() {
    assert!(matches!(parse_command("help"), Command::Help));
    assert!(matches!(parse_command("h"), Command::Help));
    assert!(matches!(parse_command("?"), Command::Help));
    assert!(matches!(parse_command("version"), Command::Version));
    assert!(matches!(parse_command("ver"), Command::Version));
    assert!(matches!(parse_command("reset"), Command::Reset));
    assert!(matches!(parse_command("clear"), Command::Clear));
}

#[test]
fn parse_trims_white_space() {
    assert!(matches!(parse_command("  help \t"), Command::Help));
    assert!(matches!(parse_command("\u{3000}clear\r\n"), Command::Clear));
}

#[test]
fn parse_unknown_keeps_trimmed_text() {
    match parse_command("  foo bar ") {
        Command::Unknown(s) => assert_eq!(s, "foo bar"),
        _ => panic!("expected an unknown command"),
    }
    match parse_command("Help") {
        Command::Unknown(s) => assert_eq!(s, "Help"),
        _ => panic!("commands are case sensitive"),
    }
}

#[test]
fn dispatch_version() {
    let r = dispatch("version", "0.1.0");
    assert_eq!(r.messages, vec!["chickadee-rp2350-base v", "0.1.0", "\r\n"]);
    assert!(!r.reset);
}

#[test]
fn dispatch_reset_asks_for_reset() {
    let r = dispatch(" reset ", "0.1.0");
    assert_eq!(r.messages, vec!["Resetting...\r\n"]);
    assert!(r.reset);
}

#[test]
fn dispatch_clear() {
    let r = dispatch("clear", "1");
    assert_eq!(r.messages, vec!["\x1b[2J\x1b[H"]);
    assert!(!r.reset);
}

#[test]
fn dispatch_unknown() {
    let r = dispatch("blink", "1");
    assert_eq!(
        r.messages,
        vec!["Unknown command: ", "blink", "\r\nType 'help' for available commands.\r\n"]
    );
}

#[test]
fn dispatch_help_lists_commands() {
    let r = dispatch("?", "2.3");
    assert_eq!(r.messages, print_help("2.3"));
    assert_eq!(r.messages.len(), 7);
    assert_eq!(r.messages[1], "2.3");
    assert_eq!(r.messages[6], "  clear          clear the terminal screen\r\n");
}

#[test]
fn text_helpers() {
    assert!(is_control('\n'));
    assert!(is_control('\x7f'));
    assert!(is_control('\u{9f}'));
    assert!(!is_control(' '));
    assert!(!is_control('\u{a0}'));
    assert!(str_eq("abc", "abc"));
    assert!(!str_eq("abc", "abd"));
    assert!(!str_eq("ab", "abc"));
    assert_eq!(str_trim("\u{2003} x y \u{85}"), "x y");
    assert_eq!(encode_char('A'), vec![0x41]);
    assert_eq!(encode_char('é'), vec![0xC3, 0xA9]);
    assert_eq!(encode_char('€'), vec![0xE2, 0x82, 0xAC]);
    assert_eq!(encode_char('😀'), vec![0xF0, 0x9F, 0x98, 0x80]);
}

fn request(t: RequestType, r: Recipient, request: u8, index: u16) -> ControlRequest {
    ControlRequest { request_type: t, recipient: r, request, index }
}

#[test]
fn reset_interface_names_itself() {
    let h = KiwiUsbReset::new(2, 5);
    assert_eq!(h.get_string(5, 0x0409), Some("rp2xxx-reset"));
    assert_eq!(h.get_string(4, 0x0409), None);
}

#[test]
fn reset_interface_accepts_only_its_reset_request() {
    let h = KiwiUsbReset::new(2, 5);
    assert_eq!(
        h.control_out(&request(RequestType::Class, Recipient::Interface, 1, 2)),
        Some(OutResponse::Accepted)
    );
    assert_eq!(h.control_out(&request(RequestType::Class, Recipient::Interface, 1, 3)), None);
    assert_eq!(h.control_out(&request(RequestType::Vendor, Recipient::Interface, 1, 2)), None);
    assert_eq!(h.control_out(&request(RequestType::Class, Recipient::Device, 1, 2)), None);
    assert_eq!(h.control_out(&request(RequestType::Class, Recipient::Interface, 2, 2)), None);
}

use embassy_rp_base::shell::serial_packet;

#[test]
fn serial_packet_skips_invalid_utf8() {
    let mut msg = line();
    process_input(&mut msg, "ab");
    assert!(serial_packet(&mut msg, &[0xff, b'c'], "1").is_none());
    assert_eq!(msg.as_str(), "ab");
}

#[test]
fn serial_packet_echoes_partial_line() {
    let mut msg = line();
    let r = serial_packet(&mut msg, b"ve", "1").unwrap();
    assert_eq!(r.messages, vec![b"v".to_vec(), b"e".to_vec()]);
    assert!(!r.reset);
    assert_eq!(msg.as_str(), "ve");
}

#[test]
fn serial_packet_runs_completed_line_and_prompts() {
    let mut msg = line();
    serial_packet(&mut msg, b"ver", "0.1.0").unwrap();
    let r = serial_packet(&mut msg, b"\r", "0.1.0").unwrap();
    assert_eq!(
        r.messages,
        vec![
            b"\r\n".to_vec(),
            b"chickadee-rp2350-base v".to_vec(),
            b"0.1.0".to_vec(),
            b"\r\n".to_vec(),
            b"\r\n> ".to_vec(),
        ]
    );
    assert!(!r.reset);
    assert_eq!(msg.as_str(), "");
}

#[test]
fn serial_packet_reset_stops_before_prompt() {
    let mut msg = line();
    let r = serial_packet(&mut msg, b"reset\n", "0.1.0").unwrap();
    assert!(r.reset);
    assert_eq!(r.messages.last().unwrap(), &b"Resetting...\r\n".to_vec());
    assert_eq!(msg.as_str(), "reset");
}

use embassy_rp_base::shell::serial_connected;

#[test]
fn greeting_on_connect() {
    let r = serial_connected();
    assert_eq!(r.messages, vec![b"chickadee-rp2350-base\r\n> ".to_vec()]);
    assert!(!r.reset);
    assert!(r.command.is_none());
}

#[test]
fn completed_line_is_reported() {
    let mut msg = line();
    let r = serial_packet(&mut msg, b" clear \n", "1").unwrap();
    assert_eq!(r.command, Some(b" clear ".to_vec()));
    let r = serial_packet(&mut msg, b"x", "1").unwrap();
    assert!(r.command.is_none());
}
