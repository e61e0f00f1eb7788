use falcon_rust::protocol::{
    format_signed_response, parse_signed_response, ResponseError, UsbMessageHandler, MAX_MESSAGE_SIZE,
};

#[test]
fn message_completes_at_line_end() {
    let mut h = UsbMessageHandler::new();
    assert!(!h.try_read_message(b"Hello, "));
    assert_eq!(h.get_message(), b"Hello, ");
    assert!(h.try_read_message(b"Falcon!\r\n"));
    assert_eq!(h.get_message(), b"Hello, Falcon!");
    h.clear_buffer();
    assert_eq!(h.get_message(), b"");
}

#[test]
fn trailing_spaces_and_tabs_are_trimmed() {
    let mut h = UsbMessageHandler::new();
    assert!(h.try_read_message(b"sign me \t \n"));
    assert_eq!(h.get_message(), b"sign me");
}

#[test]
fn empty_line_is_ignored() {
    let mut h = UsbMessageHandler::new();
    assert!(!h.try_read_message(b" \r\n"));
    assert_eq!(h.get_message(), b"");
}

#[test]
fn overflow_clears_the_buffer() {
    let mut h = UsbMessageHandler::new();
    let big = vec![b'a'; MAX_MESSAGE_SIZE];
    assert!(!h.try_read_message(&big));
    assert_eq!(h.get_message().len(), MAX_MESSAGE_SIZE);
    assert!(!h.try_read_message(b"b\n"));
    assert_eq!(h.get_message(), b"");
}

#[test]
fn signed_response_layout() {
    let r = format_signed_response(b"hi", &[0x00, 0xAB], &[0x3C]);
    assert_eq!(r, b"SIGNED:\nhi\nSIGNATURE:\n00AB\nPUBLIC_KEY:\n3C\n".to_vec());
}

#[test]
fn parse_reads_back_formatted_response() {
    let r = format_signed_response(b"hello", &[0x12, 0xEF], &[0x00, 0x09, 0xFF]);
    let (sig, pk) = parse_signed_response(&r).expect("parses");
    assert_eq!(sig, b"12EF".to_vec());
    assert_eq!(pk, b"0009FF".to_vec());
}

#[test]
fn parse_trims_and_reports_errors() {
    let (sig, pk) = parse_signed_response(b"x SIGNATURE:\r\n AB \n PUBLIC_KEY: \t CD\r\n").expect("parses");
    assert_eq!(sig, b"AB".to_vec());
    assert_eq!(pk, b"CD".to_vec());
    assert_eq!(parse_signed_response(b"PUBLIC_KEY: 00"), Err(ResponseError::MissingSignature));
    assert_eq!(parse_signed_response(b"SIGNATURE: 00"), Err(ResponseError::MissingPublicKey));
    assert_eq!(parse_signed_response(b"PUBLIC_KEY: 00 SIGNATURE: 11"), Err(ResponseError::OutOfOrder));
}
