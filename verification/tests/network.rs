use collascii::canvas::Canvas;
use collascii::network::{Frame, Message, ParseErrorKind, Reader};

fn decode(input: &[u8]) -> Result<Message, ParseErrorKind> {
    Message::from_reader(&mut Reader::new(input)).map_err(|e| e.kind)
}

/// Check parsing of individual messages
#[test]
fn parse() {
    // good test cases
    let mut c1 = Canvas::new(3, 2);
    c1.insert("X1234");
    let msg_test_cases = [
        // SetChar
        (Message::SetChar { y: 3, x: 2, c: 'a' }, "s 3 2 a"),
        (Message::SetChar { y: 1, x: 0, c: 'Z' }, "s 1 0 Z"),
        // Canvas
        (Message::CanvasUpdate { c: c1 }, "c 2 3\nX1234 "),
        // Quit
        (Message::Quit, "q"),
    ];

    // parse them individually
    for (expected, input) in msg_test_cases.iter() {
        let parsed = Message::from_reader(&mut Reader::new(input.as_bytes()));
        if input.starts_with("c ") {
            // the command word of a canvas update is `cs`
            assert_eq!(ParseErrorKind::UnknownCommand, parsed.unwrap_err().kind);
            continue;
        }
        assert!(parsed.is_ok());
        assert_eq!(expected, &parsed.unwrap());
    }

    // Concat all messages into a big stream and read it
    let (expecteds, inputs): (Vec<_>, Vec<_>) = msg_test_cases.iter().cloned().unzip();
    let blob = inputs.iter().fold(String::new(), |mut acc, input| {
        acc.push('\n');
        acc.push_str(input);
        acc
    });
    let mut reader = Reader::new(blob.as_bytes());
    // the stream opens with a line that holds nothing but its line feed
    let blank = Message::from_reader(&mut reader);
    assert_eq!(ParseErrorKind::MissingCommand, blank.unwrap_err().kind);
    for expected in expecteds.iter() {
        let parsed = Message::from_reader(&mut reader);
        if let Message::CanvasUpdate { .. } = expected {
            // `c 2 3` is no command, and neither is the line after it
            assert_eq!(ParseErrorKind::UnknownCommand, parsed.unwrap_err().kind);
            let cells = Message::from_reader(&mut reader).unwrap_err();
            assert_eq!(ParseErrorKind::UnknownCommand, cells.kind);
            assert_eq!(b"X1234 \n".to_vec(), cells.line);
            continue;
        }
        assert!(parsed.is_ok());
        assert_eq!(expected, &parsed.unwrap());
    }
    assert!(reader.is_empty());
}

#[test]
fn decode_set_char() {
    let parsed = decode(b"s 3 2 a\n").unwrap();
    assert_eq!(Message::SetChar { x: 2, y: 3, c: 'a' }, parsed);
}

#[test]
fn encode_set_char() {
    let wire = Message::SetChar { x: 2, y: 3, c: 'a' }.encode();
    assert_eq!(b"s 3 2 a\n".to_vec(), wire);
}

#[test]
fn encode_quit() {
    assert_eq!(b"q\n".to_vec(), Message::Quit.encode());
}

#[test]
fn quit_round_trip() {
    let wire = Message::Quit.encode();
    assert_eq!(Message::Quit, decode(&wire).unwrap());
}

#[test]
fn empty_line_is_quit() {
    assert_eq!(Message::Quit, decode(b"").unwrap());
    let mut reader = Reader::new(b"q\n");
    assert_eq!(Message::Quit, Message::from_reader(&mut reader).unwrap());
    assert!(reader.is_empty());
    assert_eq!(Message::Quit, Message::from_reader(&mut reader).unwrap());
}

#[test]
fn quit_ignores_arguments() {
    assert_eq!(Message::Quit, decode(b"q now please\n").unwrap());
}

#[test]
fn missing_field_is_a_parse_error() {
    let err = Message::from_reader(&mut Reader::new(b"s 3 2\n")).unwrap_err();
    assert_eq!(ParseErrorKind::ArgumentCount, err.kind);
    assert_eq!(b"s 3 2\n".to_vec(), err.line);
}

#[test]
fn extra_field_is_a_parse_error() {
    assert_eq!(Err(ParseErrorKind::ArgumentCount), decode(b"s 3 2 a b\n"));
    assert_eq!(Err(ParseErrorKind::ArgumentCount), decode(b"cs 3\n"));
    assert_eq!(Err(ParseErrorKind::ArgumentCount), decode(b"cs 3 2 1\n"));
}

#[test]
fn unknown_command() {
    assert_eq!(Err(ParseErrorKind::UnknownCommand), decode(b"x 1 2 a\n"));
    assert_eq!(Err(ParseErrorKind::UnknownCommand), decode(b"S 1 2 a\n"));
    assert_eq!(Err(ParseErrorKind::UnknownCommand), decode(b"set 1 2 a\n"));
    assert_eq!(Err(ParseErrorKind::UnknownCommand), decode(b"c 2 3\n"));
}

#[test]
fn blank_line() {
    assert_eq!(Err(ParseErrorKind::MissingCommand), decode(b"\n"));
    assert_eq!(Err(ParseErrorKind::MissingCommand), decode(b" \t\r\n"));
}

#[test]
fn line_that_is_not_text() {
    let err = Message::from_reader(&mut Reader::new(b"s 1 2 \xff\n")).unwrap_err();
    assert_eq!(ParseErrorKind::InvalidText, err.kind);
    assert_eq!(b"s 1 2 \xff\n".to_vec(), err.line);
    assert_eq!(Err(ParseErrorKind::InvalidText), decode(b"q \xc3\n"));
}

#[test]
fn invalid_numbers() {
    assert_eq!(Err(ParseErrorKind::InvalidY), decode(b"s y 2 a\n"));
    assert_eq!(Err(ParseErrorKind::InvalidY), decode(b"s -1 2 a\n"));
    assert_eq!(Err(ParseErrorKind::InvalidY), decode(b"s + 2 a\n"));
    assert_eq!(Err(ParseErrorKind::InvalidX), decode(b"s 1 2x a\n"));
    assert_eq!(Err(ParseErrorKind::InvalidX), decode(b"s 1 1.5 a\n"));
    assert_eq!(Err(ParseErrorKind::InvalidHeight), decode(b"cs h 2\n"));
    assert_eq!(Err(ParseErrorKind::InvalidWidth), decode(b"cs 2 w\n"));
}

#[test]
fn numbers_at_the_limit() {
    let max = usize::MAX;
    let line = format!("s {} {} a\n", max, max);
    assert_eq!(Message::SetChar { x: max, y: max, c: 'a' }, decode(line.as_bytes()).unwrap());
    let line = format!("s {}0 2 a\n", max);
    assert_eq!(Err(ParseErrorKind::InvalidY), decode(line.as_bytes()));
    let line = format!("s 1 {}9 a\n", max);
    assert_eq!(Err(ParseErrorKind::InvalidX), decode(line.as_bytes()));
    assert_eq!(Err(ParseErrorKind::InvalidY), decode(b"s 99999999999999999999999999 2 a\n"));
}

#[test]
fn numbers_with_sign_and_zeros() {
    assert_eq!(Message::SetChar { x: 2, y: 3, c: 'a' }, decode(b"s +3 002 a\n").unwrap());
}

#[test]
fn invalid_char() {
    assert_eq!(Err(ParseErrorKind::InvalidChar), decode(b"s 1 2 ab\n"));
}

#[test]
fn wide_char() {
    let message = Message::SetChar { x: 7, y: 10, c: '\u{e9}' };
    let wire = message.encode();
    assert_eq!(b"s 10 7 \xc3\xa9\n".to_vec(), wire);
    assert_eq!(message, decode(&wire).unwrap());
    let message = Message::SetChar { x: 0, y: 0, c: '\u{1f600}' };
    assert_eq!(message, decode(&message.encode()).unwrap());
}

#[test]
fn space_does_not_survive_the_wire() {
    let wire = Message::SetChar { x: 1, y: 2, c: ' ' }.encode();
    assert_eq!(b"s 2 1  \n".to_vec(), wire);
    assert_eq!(Err(ParseErrorKind::ArgumentCount), decode(&wire));
}

#[test]
fn words_split_on_any_white_space() {
    assert_eq!(Message::SetChar { x: 2, y: 3, c: 'a' }, decode(b"  s\t3 \x0c 2\r a \r\n").unwrap());
    assert_eq!(Message::SetChar { x: 2, y: 3, c: 'a' }, decode(b"s 3 2 a").unwrap());
}

#[test]
fn decode_canvas_update() {
    let mut c1 = Canvas::new(3, 2);
    c1.insert("X1234");
    let mut reader = Reader::new(b"cs 2 3\nX1234 q\n");
    let parsed = Message::from_reader(&mut reader).unwrap();
    assert_eq!(Message::CanvasUpdate { c: c1 }, parsed);
    assert_eq!(Message::Quit, Message::from_reader(&mut reader).unwrap());
    assert!(reader.is_empty());
}

#[test]
fn encode_canvas_update() {
    let mut c = Canvas::new(3, 2);
    c.insert("X1234");
    let wire = Message::CanvasUpdate { c }.encode();
    assert_eq!(b"cs 2 3\nX1234 ".to_vec(), wire);
}

#[test]
fn canvas_update_round_trip() {
    let mut c = Canvas::new(4, 3);
    c.insert("abcdefghij");
    let message = Message::CanvasUpdate { c };
    let wire = message.encode();
    assert_eq!(b"cs 3 4\nabcdefghij  ".to_vec(), wire);
    assert_eq!(message, decode(&wire).unwrap());
}

#[test]
fn empty_canvas_update() {
    let message = Message::CanvasUpdate { c: Canvas::new(0, 5) };
    let wire = message.encode();
    assert_eq!(b"cs 5 0\n".to_vec(), wire);
    assert_eq!(message, decode(&wire).unwrap());
}

#[test]
fn canvas_update_with_wide_chars() {
    // six bytes hold five characters: the last cell keeps its space
    let mut expected = Canvas::new(3, 2);
    expected.insert("a\u{e9}cde");
    let parsed = decode(b"cs 2 3\na\xc3\xa9cde").unwrap();
    assert_eq!(Message::CanvasUpdate { c: expected }, parsed);
}

#[test]
fn truncated_payload() {
    let mut reader = Reader::new(b"cs 2 3\nX12");
    let err = Message::from_reader(&mut reader).unwrap_err();
    assert_eq!(ParseErrorKind::Truncated, err.kind);
    assert_eq!(b"cs 2 3\n".to_vec(), err.line);
    // the payload that did come is still there
    assert!(!reader.is_empty());
}

#[test]
fn payload_that_is_not_text() {
    let err = Message::from_reader(&mut Reader::new(b"cs 1 2\n\xff\xfe")).unwrap_err();
    assert_eq!(ParseErrorKind::InvalidPayload, err.kind);
    assert_eq!(b"cs 1 2\n".to_vec(), err.line);
}

#[test]
fn oversized_canvas() {
    let line = format!("cs {} 2\n", usize::MAX);
    assert_eq!(Err(ParseErrorKind::Oversized), decode(line.as_bytes()));
}

#[test]
fn line_and_payload_in_two_steps() {
    let frame = Message::parse_line(b"cs 2 3\n").unwrap();
    let header = match frame {
        Frame::Pending(header) => header,
        Frame::Complete(message) => panic!("a whole message: {:?}", message),
    };
    assert_eq!(3, header.width());
    assert_eq!(2, header.height());
    assert_eq!(6, header.payload_len());
    let mut expected = Canvas::new(3, 2);
    expected.insert("X1234");
    assert_eq!(Message::CanvasUpdate { c: expected }, header.finish(b"X1234 ").unwrap());

    let frame = Message::parse_line(b"cs 2 3\n").unwrap();
    if let Frame::Pending(header) = frame {
        assert_eq!(ParseErrorKind::Truncated, header.finish(b"X1234").unwrap_err().kind);
    }
    let frame = Message::parse_line(b"cs 2 3\n").unwrap();
    if let Frame::Pending(header) = frame {
        assert_eq!(ParseErrorKind::Truncated, header.finish(b"X1234  ").unwrap_err().kind);
    }
    match Message::parse_line(b"s 3 2 a").unwrap() {
        Frame::Complete(message) => assert_eq!(Message::SetChar { x: 2, y: 3, c: 'a' }, message),
        Frame::Pending(_) => panic!("no payload follows a character edit"),
    }
}

#[test]
fn reader_reads_lines_and_blocks() {
    let mut reader = Reader::new(b"one\ntwo\nrest");
    assert_eq!(b"one\n", reader.read_line());
    assert_eq!(None, reader.read_exact(9));
    assert_eq!(Some(&b"tw"[..]), reader.read_exact(2));
    assert_eq!(b"o\n", reader.read_line());
    assert_eq!(b"rest", reader.read_line());
    assert!(reader.is_empty());
    assert_eq!(b"", reader.read_line());
    assert_eq!(Some(&b""[..]), reader.read_exact(0));
}

#[test]
fn clone_keeps_the_value() {
    let mut c = Canvas::new(2, 2);
    c.insert("abc");
    let message = Message::CanvasUpdate { c };
    assert_eq!(message, message.clone());
    let edit = Message::SetChar { x: 1, y: 2, c: 'z' };
    assert_eq!(edit, edit.clone());
    assert_ne!(edit, Message::SetChar { x: 2, y: 1, c: 'z' });
    assert_ne!(edit, Message::Quit);
}
