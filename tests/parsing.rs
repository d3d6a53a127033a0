use whatsapp_export_parser::{
    Chat, ChatParticipant, Line, Message, MessageType, ParseError, ParseErrorKind, Timestamp,
};

const SIMPLE_TEST_MESSAGE: &[u8] = b"[02.10.23, 22:32:30] LetsMelon: Hello World!";

const SIMPLE_TEST_MESSAGE_2024: &[u8] = b"[01.02.24, 01:02:03] LetsMelon: Hello World!";

fn expect_entry(line: Line) -> Message {
    match line {
        Line::Entry(m) => m,
        Line::Continuation(text) => panic!("expected an entry, got the continuation {text:?}"),
    }
}

fn assert_message(
    m: &Message,
    ymd: (i32, u32, u32),
    hms: (u32, u32, u32),
    sender: &str,
    message_type: MessageType,
) {
    assert_eq!(m.timestamp().ymd(), ymd);
    assert_eq!(m.timestamp().hms(), hms);
    assert_eq!(m.sender().name(), sender);
    assert_eq!(m.message_type(), &message_type);
}

fn text(s: &str) -> MessageType {
    MessageType::Text(s.to_string())
}

#[test]
fn chat_participant_just_works() {
    let (input, chat_participant) = ChatParticipant::parse(b"LetsMelon: Hello World!").unwrap();
    assert_eq!(input, b": Hello World!");
    assert_eq!(chat_participant.name(), "LetsMelon");
}

#[test]
fn chat_participant_parse() {
    let (input, chat_participant) = ChatParticipant::parse(b"LetsMelon: Hello World!").unwrap();
    assert_eq!(input, b": Hello World!");
    assert_eq!(chat_participant.name(), "LetsMelon");
}

#[test]
fn message_parse() {
    let (input, line) = Message::parse(SIMPLE_TEST_MESSAGE).unwrap();
    assert_eq!(input, b"");
    let message = expect_entry(line);
    assert_message(&message, (2023, 10, 2), (22, 32, 30), "LetsMelon", text("Hello World!"));
}

#[test]
fn message_parse_lines() {
    let mut buffer = [0; SIMPLE_TEST_MESSAGE.len() * 2 + 1];
    buffer[..SIMPLE_TEST_MESSAGE.len()].copy_from_slice(SIMPLE_TEST_MESSAGE);
    buffer[SIMPLE_TEST_MESSAGE.len()] = b'\n';
    buffer[(SIMPLE_TEST_MESSAGE.len() + 1)..].copy_from_slice(SIMPLE_TEST_MESSAGE);

    let (input, line) = Message::parse(&buffer).unwrap();
    let message = expect_entry(line);
    assert_message(&message, (2023, 10, 2), (22, 32, 30), "LetsMelon", text("Hello World!"));

    let (input, line) = Message::parse(input).unwrap();
    assert_eq!(input, b"");
    let message = expect_entry(line);
    assert_message(&message, (2023, 10, 2), (22, 32, 30), "LetsMelon", text("Hello World!"));
}

#[test]
fn timestamp_parse() {
    let (input, ts) = Timestamp::parse(SIMPLE_TEST_MESSAGE).unwrap();
    assert_eq!(input, b" LetsMelon: Hello World!");
    assert_eq!(ts.ymd(), (2023, 10, 2));
    assert_eq!(ts.hms(), (22, 32, 30));
}

#[test]
fn parse_one_line() {
    let (input, line) = Message::parse(SIMPLE_TEST_MESSAGE_2024).unwrap();
    assert_eq!(input, b"");
    let message = expect_entry(line);
    assert_message(&message, (2024, 2, 1), (1, 2, 3), "LetsMelon", text("Hello World!"));
}

#[test]
fn parse_multiple_lines() {
    let mut buffer = [0; SIMPLE_TEST_MESSAGE_2024.len() * 2 + 1];
    buffer[..SIMPLE_TEST_MESSAGE_2024.len()].copy_from_slice(SIMPLE_TEST_MESSAGE_2024);
    buffer[SIMPLE_TEST_MESSAGE_2024.len()] = b'\n';
    buffer[(SIMPLE_TEST_MESSAGE_2024.len() + 1)..].copy_from_slice(SIMPLE_TEST_MESSAGE_2024);

    let (input, line) = Message::parse(&buffer).unwrap();
    let message = expect_entry(line);
    assert_message(&message, (2024, 2, 1), (1, 2, 3), "LetsMelon", text("Hello World!"));

    let (input, line) = Message::parse(input).unwrap();
    assert_eq!(input, b"");
    let message = expect_entry(line);
    assert_message(&message, (2024, 2, 1), (1, 2, 3), "LetsMelon", text("Hello World!"));
}

#[test]
fn timestamp_just_works() {
    let (input, ts) = Timestamp::parse(SIMPLE_TEST_MESSAGE_2024).unwrap();
    assert_eq!(input, b" LetsMelon: Hello World!");
    assert_eq!(ts.ymd(), (2024, 2, 1));
    assert_eq!(ts.hms(), (1, 2, 3));
}

#[test]
fn cant_parse() {
    let out = Timestamp::parse(b"[08:58, 12.12.2018]");
    assert!(out.is_err());
}

#[test]
fn single_line_gives_one_entry() {
    let chat = Chat::parse(b"[7.3.21, 9:5:1] Grace Hopper: Found a bug").unwrap();
    assert_eq!(chat.messages().len(), 1);
    assert_message(&chat.messages()[0], (2021, 3, 7), (9, 5, 1), "Grace Hopper", text("Found a bug"));
}

#[test]
fn two_lines_give_two_entries_in_order() {
    let chat = Chat::parse(b"[02.10.23, 22:32:30] Ada: first\n[02.10.23, 22:32:31] Bob: second").unwrap();
    let ms = chat.messages();
    assert_eq!(ms.len(), 2);
    assert_message(&ms[0], (2023, 10, 2), (22, 32, 30), "Ada", text("first"));
    assert_message(&ms[1], (2023, 10, 2), (22, 32, 31), "Bob", text("second"));
}

#[test]
fn continuation_line_joins_the_text() {
    let chat = Chat::parse(b"[02.10.23, 22:32:30] Ada: Hello\nWorld!").unwrap();
    let ms = chat.messages();
    assert_eq!(ms.len(), 1);
    assert_message(&ms[0], (2023, 10, 2), (22, 32, 30), "Ada", text("Hello\nWorld!"));
}

#[test]
fn continuation_keeps_its_bytes_verbatim() {
    let chat = Chat::parse(b"[02.10.23, 22:32:30] Ada: a\r\n  b: c \r\n\n[x] d").unwrap();
    let ms = chat.messages();
    assert_eq!(ms.len(), 1);
    assert_eq!(ms[0].message_type(), &text("a\n  b: c \n\n[x] d"));
}

#[test]
fn document_line() {
    let (rest, m) = MessageType::parse("report.pdf  \u{200E}document omitted".as_bytes()).unwrap();
    assert_eq!(rest, b"");
    assert_eq!(m, MessageType::Document("report.pdf".to_string()));
}

#[test]
fn document_needs_a_space_before_the_marker() {
    let (_, m) = MessageType::parse("report.pdf\u{200E}document omitted".as_bytes()).unwrap();
    assert_eq!(m, text("report.pdf\u{200E}document omitted"));
}

#[test]
fn image_line() {
    let (rest, m) = MessageType::parse(" \u{200E}image omitted".as_bytes()).unwrap();
    assert_eq!(rest, b"");
    assert_eq!(m, MessageType::Image);
    let (_, m) = MessageType::parse("\u{200E}image omitted".as_bytes()).unwrap();
    assert_eq!(m, MessageType::Image);
}

#[test]
fn location_line() {
    let (rest, m) =
        MessageType::parse("\u{200E}Location: https://maps.example/?q=52.5,13.4\nnext".as_bytes())
            .unwrap();
    assert_eq!(rest, b"\nnext");
    assert_eq!(m, MessageType::Location("https://maps.example/?q=52.5,13.4".to_string()));
}

#[test]
fn marker_without_a_known_tag_is_a_notice() {
    let (_, m) = MessageType::parse("\u{200E}Ada changed their number".as_bytes()).unwrap();
    assert_eq!(m, MessageType::InternalMessage("Ada changed their number".to_string()));
}

#[test]
fn text_reclassifies_as_the_same_text() {
    let (_, m) = MessageType::parse(b"just words: here").unwrap();
    let MessageType::Text(t) = m.clone() else { panic!("expected text") };
    let (_, again) = MessageType::parse(t.as_bytes()).unwrap();
    assert_eq!(again, m);
}

#[test]
fn continuation_after_an_image_is_an_error() {
    let input = "[02.10.23, 22:32:31] Ada: \u{200E}image omitted\nmore".as_bytes();
    let err = Chat::parse(input).unwrap_err();
    assert_eq!(err.kind, ParseErrorKind::StructuralContinuation);
    assert_eq!(err.offset, input.len() - 4);
}

#[test]
fn continuation_after_a_document_is_an_error() {
    let input = "[02.10.23, 22:32:31] Ada: a.pdf \u{200E}document omitted\r\nmore".as_bytes();
    let err = Chat::parse(input).unwrap_err();
    assert_eq!(err.kind, ParseErrorKind::StructuralContinuation);
}

#[test]
fn empty_text_payload() {
    let chat = Chat::parse(b"[02.10.23, 22:32:30] Ada: ").unwrap();
    assert_eq!(chat.messages().len(), 1);
    assert_eq!(chat.messages()[0].message_type(), &text(""));
}

#[test]
fn end_to_end_example() {
    let input =
        "[02.10.23, 22:32:30] Ada: Hello\nWorld!\n[02.10.23, 22:32:31] Ada: \u{200E}image omitted\n";
    let chat = Chat::parse(input.as_bytes()).unwrap();
    let ms = chat.messages();
    assert_eq!(ms.len(), 2);
    assert_message(&ms[0], (2023, 10, 2), (22, 32, 30), "Ada", text("Hello\nWorld!"));
    assert_message(&ms[1], (2023, 10, 2), (22, 32, 31), "Ada", MessageType::Image);
}

#[test]
fn leading_marker_before_the_timestamp_is_dropped() {
    let chat = Chat::parse("\u{200E}[02.10.23, 22:32:31] Ada: \u{200E}image omitted".as_bytes()).unwrap();
    assert_message(&chat.messages()[0], (2023, 10, 2), (22, 32, 31), "Ada", MessageType::Image);
}

#[test]
fn empty_input_is_an_empty_chat() {
    let chat = Chat::parse(b"").unwrap();
    assert!(chat.messages().is_empty());
}

#[test]
fn two_digit_years_pick_their_century() {
    let (_, ts) = Timestamp::parse(b"[01.01.69, 0:0:0]").unwrap();
    assert_eq!(ts.ymd(), (2069, 1, 1));
    let (_, ts) = Timestamp::parse(b"[31.12.70, 23:59:59]").unwrap();
    assert_eq!(ts.ymd(), (1970, 12, 31));
    assert_eq!(ts.hms(), (23, 59, 59));
    let (_, ts) = Timestamp::parse(b"[1.1.00, 00:00:00]").unwrap();
    assert_eq!(ts.ymd(), (2000, 1, 1));
}

#[test]
fn calendar_validity_is_checked() {
    assert!(Timestamp::parse(b"[29.02.24, 10:00:00]").is_ok());
    let err = Timestamp::parse(b"[29.02.23, 10:00:00]").unwrap_err();
    assert_eq!(err, ParseError { kind: ParseErrorKind::MalformedTimestamp, offset: 0 });
    assert!(Timestamp::parse(b"[31.04.23, 10:00:00]").is_err());
    assert!(Timestamp::parse(b"[01.13.23, 10:00:00]").is_err());
    assert!(Timestamp::parse(b"[00.01.23, 10:00:00]").is_err());
    assert!(Timestamp::parse(b"[01.01.23, 24:00:00]").is_err());
    assert!(Timestamp::parse(b"[01.01.23, 10:60:00]").is_err());
    assert!(Timestamp::parse(b"[01.01.23, 10:00:60]").is_err());
    assert!(Timestamp::parse(b"[01.01.2023, 10:00:00]").is_err());
    assert!(Timestamp::parse(b"[01.01.99999999999999999999, 10:00:00]").is_err());
    assert!(Timestamp::parse(b"[01.01.23.5, 10:00:00]").is_err());
    assert!(Timestamp::parse(b"[01.01, 10:00:00]").is_err());
    assert!(Timestamp::parse(b"[01.01.23, 10:00]").is_err());
    assert!(Timestamp::parse(b"01.01.23, 10:00:00]").is_err());
    assert!(Timestamp::parse(b"[01.01.23,10:00:00]").is_err());
}

#[test]
fn invalid_timestamp_line_is_a_continuation() {
    let chat = Chat::parse(b"[02.10.23, 22:32:30] Ada: a\n[30.02.23, 22:32:30] Ada: b").unwrap();
    assert_eq!(chat.messages().len(), 1);
    assert_eq!(chat.messages()[0].message_type(), &text("a\n[30.02.23, 22:32:30] Ada: b"));
}

#[test]
fn missing_participant_is_an_error() {
    let err = ChatParticipant::parse(b"Ada says hi\nBob: x").unwrap_err();
    assert_eq!(err, ParseError { kind: ParseErrorKind::MalformedParticipant, offset: 0 });
    let err = ChatParticipant::parse(b": nobody").unwrap_err();
    assert_eq!(err.kind, ParseErrorKind::MalformedParticipant);
}

#[test]
fn missing_sender_separator_is_a_malformed_entry() {
    let err = Chat::parse(b"[02.10.23, 22:32:30] Ada hi").unwrap_err();
    assert_eq!(err, ParseError { kind: ParseErrorKind::MalformedEntry, offset: 21 });
    let err = Chat::parse(b"[02.10.23, 22:32:30] Ada:hi").unwrap_err();
    assert_eq!(err, ParseError { kind: ParseErrorKind::MalformedEntry, offset: 21 });
}

#[test]
fn first_line_without_timestamp_is_a_structural_error() {
    let err = Chat::parse(b"hello\n[02.10.23, 22:32:30] Ada: hi").unwrap_err();
    assert_eq!(err, ParseError { kind: ParseErrorKind::StructuralContinuation, offset: 0 });
}

#[test]
fn lone_carriage_return_is_content() {
    let chat = Chat::parse(b"[02.10.23, 22:32:30] Ada: a\rb\r\nc\r").unwrap();
    assert_eq!(chat.messages().len(), 1);
    assert_eq!(chat.messages()[0].message_type(), &text("a\rb\nc\r"));
    let chat = Chat::parse(b"[02.10.23, 22:32:30] \r: hi").unwrap();
    assert_eq!(chat.messages().len(), 1);
    assert_eq!(chat.messages()[0].sender().name(), "\r");
    assert_eq!(chat.messages()[0].message_type(), &text("hi"));
}

#[test]
fn message_parse_reads_the_whole_line() {
    let input = "[02.10.23, 22:32:30] Ada: \u{200E}image omittedX\r\nnext".as_bytes();
    let (rest, line) = Message::parse(input).unwrap();
    assert_eq!(rest, b"next");
    let message = expect_entry(line);
    assert_eq!(
        message.message_type(),
        &MessageType::InternalMessage("image omittedX".to_string())
    );
}

#[test]
fn image_tag_must_end_the_line() {
    let (rest, m) = MessageType::parse("\u{200E}image omittedX\nmore".as_bytes()).unwrap();
    assert_eq!(rest, b"\nmore");
    assert_eq!(m, MessageType::InternalMessage("image omittedX".to_string()));
    let (rest, m) = MessageType::parse("a.pdf \u{200E}document omitted.".as_bytes()).unwrap();
    assert_eq!(rest, b"");
    assert_eq!(m, text("a.pdf \u{200E}document omitted."));
}

#[test]
fn one_physical_line_gives_one_entry() {
    let input = "[02.10.23, 22:32:30] Ada: \u{200E}image omitted[02.10.23, 22:32:31] Bob: hi";
    let chat = Chat::parse(input.as_bytes()).unwrap();
    assert_eq!(chat.messages().len(), 1);
    assert_eq!(chat.messages()[0].sender().name(), "Ada");
    let err = Chat::parse(format!("{input}\nmore").as_bytes()).unwrap_err();
    assert_eq!(err.kind, ParseErrorKind::StructuralContinuation);
    assert_eq!(err.offset, input.len() + 1);
}

#[test]
fn payload_parse_stops_before_crlf() {
    let (rest, m) = MessageType::parse(b"hello\r\nworld").unwrap();
    assert_eq!(rest, b"\r\nworld");
    assert_eq!(m, text("hello"));
}

#[test]
fn invalid_utf8_is_an_encoding_error() {
    let err = Chat::parse(b"[02.10.23, 22:32:30] A\xFFa: hi").unwrap_err();
    assert_eq!(err, ParseError { kind: ParseErrorKind::Encoding, offset: 21 });
    let err = Chat::parse(b"[02.10.23, 22:32:30] Ada: h\xC3").unwrap_err();
    assert_eq!(err, ParseError { kind: ParseErrorKind::Encoding, offset: 26 });
}

#[test]
fn names_and_texts_are_decoded_as_utf8() {
    let chat = Chat::parse("[02.10.23, 22:32:30] Zoë: 👋 grüß dich".as_bytes()).unwrap();
    assert_eq!(chat.messages()[0].sender().name(), "Zoë");
    assert_eq!(chat.messages()[0].message_type(), &text("👋 grüß dich"));
}

#[test]
fn several_spaces_after_the_timestamp() {
    let chat = Chat::parse(b"[02.10.23, 22:32:30]   Ada: hi").unwrap();
    assert_eq!(chat.messages()[0].sender().name(), "Ada");
}

#[test]
fn reclassifying_the_consumed_line_gives_the_same_payload() {
    let lines = [
        "a.pdf \u{200E}document omitted\nnext",
        " \u{200E}image omitted\r\nnext",
        "\u{200E}Location: here\n",
        "\u{200E}left the group",
        "plain words",
        "",
    ];
    for s in lines {
        let (rest, m) = MessageType::parse(s.as_bytes()).unwrap();
        let consumed = &s.as_bytes()[..s.len() - rest.len()];
        let (rest_again, again) = MessageType::parse(consumed).unwrap();
        assert_eq!(rest_again, b"");
        assert_eq!(again, m);
    }
}
