//! The messages that clients and server exchange, and their form on the
//! wire.
//!
//! A message is one line of text: a command word and its arguments, with
//! ASCII white space between them and a line feed at the end. A canvas update
//! is such a line followed at once by the cells of the canvas, `height *
//! width` bytes of UTF-8 text in row-major order.

use vstd::prelude::*;
use vstd::slice::{slice_subrange, slice_to_vec};
use vstd::std_specs::cmp::PartialEqSpecImpl;
use vstd::utf8::{decode_utf8, encode_utf8, valid_utf8};

use crate::canvas::{Canvas, Grid};
use crate::text::utf8_str;
use crate::wire::{
    contents, decimal, parse_char, parse_number, read_char, read_number, split_tokens, tokens,
    write_bytes, write_char, write_number, LINE_FEED, SPACE,
};

verus! {

/// The letter `c`.
pub const LOWER_C: u8 = 0x63;

/// The letter `q`.
pub const LOWER_Q: u8 = 0x71;

/// The letter `s`.
pub const LOWER_S: u8 = 0x73;

/// A message sent between instances to modify a shared canvas.
#[derive(Debug)]
#[allow(inconsistent_fields)]
pub enum Message {
    /// Set a character in the canvas
    SetChar { x: usize, y: usize, c: char },
    /// Replace the canvas
    CanvasUpdate { c: Canvas },
    /// Exit message
    Quit,
}

/// The mathematical value of a message.
pub enum MessageView {
    SetChar { x: usize, y: usize, c: char },
    CanvasUpdate { canvas: Grid },
    Quit,
}

impl View for Message {
    type V = MessageView;

    open spec fn view(&self) -> MessageView {
        match self {
            Message::SetChar { x, y, c } => MessageView::SetChar { x: *x, y: *y, c: *c },
            Message::CanvasUpdate { c } => MessageView::CanvasUpdate { canvas: c@ },
            Message::Quit => MessageView::Quit,
        }
    }
}

impl Clone for Message {
    /// A message of the same value.
    fn clone(&self) -> (copy: Message)
        ensures
            copy@ == self@,
    {
        match self {
            Message::SetChar { x, y, c } => Message::SetChar { x: *x, y: *y, c: *c },
            Message::CanvasUpdate { c } => Message::CanvasUpdate { c: c.clone() },
            Message::Quit => Message::Quit,
        }
    }
}

impl PartialEq for Message {
    /// Two messages are equal when they are of the same kind and carry the
    /// same values; two canvases are compared cell by cell.
    fn eq(&self, other: &Message) -> (equal: bool) {
        match (self, other) {
            (Message::SetChar { x, y, c }, Message::SetChar { x: x2, y: y2, c: c2 }) => *x == *x2
                && *y == *y2 && *c == *c2,
            (Message::CanvasUpdate { c }, Message::CanvasUpdate { c: c2 }) => c == c2,
            (Message::Quit, Message::Quit) => true,
            _ => false,
        }
    }
}

impl PartialEqSpecImpl for Message {
    open spec fn obeys_eq_spec() -> bool {
        true
    }

    open spec fn eq_spec(&self, other: &Message) -> bool {
        self@ == other@
    }
}

/// The command word of a character edit.
pub open spec fn set_char_word() -> Seq<u8> {
    seq![LOWER_S]
}

/// The command word of a canvas update.
pub open spec fn canvas_word() -> Seq<u8> {
    seq![LOWER_C, LOWER_S]
}

/// The command word that ends a session.
pub open spec fn quit_word() -> Seq<u8> {
    seq![LOWER_Q]
}

/// The wire form of a message.
///
/// | message | wire form |
/// |---|---|
/// | `SetChar` | `s <y> <x> <c>` and a line feed |
/// | `CanvasUpdate` | `cs <height> <width>`, a line feed, and the cells |
/// | `Quit` | `q` and a line feed |
pub open spec fn encode(m: MessageView) -> Seq<u8> {
    match m {
        MessageView::SetChar { x, y, c } => set_char_word() + seq![SPACE] + decimal(y as nat)
            + seq![SPACE] + decimal(x as nat) + seq![SPACE] + encode_utf8(seq![c]) + seq![
            LINE_FEED,
        ],
        MessageView::CanvasUpdate { canvas } => canvas_word() + seq![SPACE] + decimal(canvas.height)
            + seq![SPACE] + decimal(canvas.width) + seq![LINE_FEED] + encode_utf8(canvas.cells()),
        MessageView::Quit => quit_word() + seq![LINE_FEED],
    }
}

impl Message {
    /// The bytes that carry this message over a connection.
    pub fn encode(&self) -> (wire: Vec<u8>)
        ensures
            wire@ == encode(self@),
    {
        let mut wire: Vec<u8> = Vec::new();
        match self {
            Message::SetChar { x, y, c } => {
                wire.push(LOWER_S);
                wire.push(SPACE);
                write_number(&mut wire, *y);
                wire.push(SPACE);
                write_number(&mut wire, *x);
                wire.push(SPACE);
                write_char(&mut wire, *c);
                wire.push(LINE_FEED);
            },
            Message::CanvasUpdate { c } => {
                wire.push(LOWER_C);
                wire.push(LOWER_S);
                wire.push(SPACE);
                write_number(&mut wire, c.height());
                wire.push(SPACE);
                write_number(&mut wire, c.width());
                wire.push(LINE_FEED);
                let cells = c.serialize();
                write_bytes(&mut wire, cells.as_str().as_bytes());
            },
            Message::Quit => {
                wire.push(LOWER_Q);
                wire.push(LINE_FEED);
            },
        }
        wire
    }
}

/// Why a line or a payload is no message.
#[derive(Debug, Clone, Copy, PartialEq, Eq, Structural)]
pub enum ParseErrorKind {
    /// The line is not UTF-8 text.
    InvalidText,
    /// The line holds white space only.
    MissingCommand,
    /// The first word of the line is no command.
    UnknownCommand,
    /// The command has too few or too many arguments.
    ArgumentCount,
    /// The row of a character edit is no number.
    InvalidY,
    /// The column of a character edit is no number.
    InvalidX,
    /// The last argument of a character edit is not exactly one character.
    InvalidChar,
    /// The height of a canvas update is no number.
    InvalidHeight,
    /// The width of a canvas update is no number.
    InvalidWidth,
    /// A canvas update announces more cells than can be counted.
    Oversized,
    /// The payload of a canvas update has not the length that its line
    /// announced.
    Truncated,
    /// The payload of a canvas update is not UTF-8 text.
    InvalidPayload,
}

/// A line that could not be decoded, with the reason.
#[derive(Debug, PartialEq, Eq)]
pub struct ParseError {
    /// What is wrong with the line.
    pub kind: ParseErrorKind,
    /// The line as it was received.
    pub line: Vec<u8>,
}

/// What one line decodes to.
pub enum FrameView {
    /// The line is a whole message.
    Complete(MessageView),
    /// The line announces a canvas of this size, whose cells follow.
    Pending { width: usize, height: usize },
}

/// What a line says once it is known to be text with at least one word.
pub open spec fn parse_words(words: Seq<Seq<u8>>) -> Result<FrameView, ParseErrorKind>
    recommends
        words.len() > 0,
{
    if words[0] == set_char_word() {
        if words.len() != 4 {
            Err(ParseErrorKind::ArgumentCount)
        } else if parse_number(words[1]) is None {
            Err(ParseErrorKind::InvalidY)
        } else if parse_number(words[2]) is None {
            Err(ParseErrorKind::InvalidX)
        } else if parse_char(words[3]) is None {
            Err(ParseErrorKind::InvalidChar)
        } else {
            Ok(
                FrameView::Complete(
                    MessageView::SetChar {
                        x: parse_number(words[2])->0,
                        y: parse_number(words[1])->0,
                        c: parse_char(words[3])->0,
                    },
                ),
            )
        }
    } else if words[0] == canvas_word() {
        if words.len() != 3 {
            Err(ParseErrorKind::ArgumentCount)
        } else if parse_number(words[1]) is None {
            Err(ParseErrorKind::InvalidHeight)
        } else if parse_number(words[2]) is None {
            Err(ParseErrorKind::InvalidWidth)
        } else if parse_number(words[1])->0 * parse_number(words[2])->0 > usize::MAX {
            Err(ParseErrorKind::Oversized)
        } else {
            Ok(
                FrameView::Pending {
                    width: parse_number(words[2])->0,
                    height: parse_number(words[1])->0,
                },
            )
        }
    } else if words[0] == quit_word() {
        Ok(FrameView::Complete(MessageView::Quit))
    } else {
        Err(ParseErrorKind::UnknownCommand)
    }
}

/// What one line decodes to, or why it does not decode.
///
/// A line without any byte is what a closed connection reads as, and means
/// `Quit`. Any other line must be UTF-8 text; its first word is the command,
/// the words after it are the arguments.
pub open spec fn parse_line(line: Seq<u8>) -> Result<FrameView, ParseErrorKind> {
    if line.len() == 0 {
        Ok(FrameView::Complete(MessageView::Quit))
    } else if !valid_utf8(line) {
        Err(ParseErrorKind::InvalidText)
    } else if tokens(line).len() == 0 {
        Err(ParseErrorKind::MissingCommand)
    } else {
        parse_words(tokens(line))
    }
}

/// The message that a canvas announcement and its payload make together.
pub open spec fn parse_payload(width: usize, height: usize, payload: Seq<u8>) -> Result<
    MessageView,
    ParseErrorKind,
> {
    if payload.len() != width * height {
        Err(ParseErrorKind::Truncated)
    } else if !valid_utf8(payload) {
        Err(ParseErrorKind::InvalidPayload)
    } else {
        Ok(
            MessageView::CanvasUpdate {
                canvas: Grid::blank(width as nat, height as nat).insert(decode_utf8(payload)),
            },
        )
    }
}

/// The line of a canvas update, read and understood, whose payload is still
/// to come.
#[derive(Debug)]
pub struct CanvasHeader {
    width: usize,
    height: usize,
    line: Vec<u8>,
}

impl CanvasHeader {
    /// The announced number of columns.
    pub closed spec fn spec_width(&self) -> usize {
        self.width
    }

    /// The announced number of rows.
    pub closed spec fn spec_height(&self) -> usize {
        self.height
    }

    /// The announced cells can be counted: this holds of every header that
    /// exists at run time.
    #[verifier::type_invariant]
    pub open spec fn wf(self) -> bool {
        self.spec_width() * self.spec_height() <= usize::MAX
    }

    /// The line that made the announcement.
    pub closed spec fn spec_line(&self) -> Seq<u8> {
        self.line@
    }

    /// The announced number of columns.
    pub fn width(&self) -> (w: usize)
        ensures
            w == self.spec_width(),
    {
        self.width
    }

    /// The announced number of rows.
    pub fn height(&self) -> (h: usize)
        ensures
            h == self.spec_height(),
    {
        self.height
    }

    /// How many bytes of payload follow the line.
    pub fn payload_len(&self) -> (n: usize)
        ensures
            n == self.spec_width() * self.spec_height(),
    {
        proof {
            use_type_invariant(self);
        }
        self.width * self.height
    }

    /// Builds the canvas update from its payload.
    pub fn finish(self, payload: &[u8]) -> (result: Result<Message, ParseError>)
        ensures
            match parse_payload(self.spec_width(), self.spec_height(), payload@) {
                Ok(m) => result matches Ok(message) && message@ == m,
                Err(kind) => result matches Err(e) && e.kind == kind && e.line@ == self.spec_line(),
            },
    {
        proof {
            use_type_invariant(&self);
        }
        if payload.len() != self.width * self.height {
            return Err(ParseError { kind: ParseErrorKind::Truncated, line: self.line });
        }
        match utf8_str(payload) {
            None => Err(ParseError { kind: ParseErrorKind::InvalidPayload, line: self.line }),
            Some(text) => {
                let mut canvas = Canvas::new(self.width, self.height);
                canvas.insert(text);
                Ok(Message::CanvasUpdate { c: canvas })
            },
        }
    }
}

/// What one line decodes to.
#[derive(Debug)]
pub enum Frame {
    /// The line is a whole message.
    Complete(Message),
    /// The line announces a canvas, whose cells follow.
    Pending(CanvasHeader),
}

impl View for Frame {
    type V = FrameView;

    open spec fn view(&self) -> FrameView {
        match self {
            Frame::Complete(message) => FrameView::Complete(message@),
            Frame::Pending(header) => FrameView::Pending {
                width: header.spec_width(),
                height: header.spec_height(),
            },
        }
    }
}

/// Whether `word` is the byte string `expected`.
fn word_is(word: &[u8], expected: &[u8]) -> (same: bool)
    ensures
        same == (word@ == expected@),
{
    if word.len() != expected.len() {
        return false;
    }
    let mut i: usize = 0;
    while i < word.len()
        invariant
            word@.len() == expected@.len(),
            i <= word@.len(),
            word@.take(i as int) == expected@.take(i as int),
        decreases word@.len() - i,
    {
        if word[i] != expected[i] {
            return false;
        }
        i += 1;
    }
    assert(word@.take(i as int) =~= word@);
    assert(expected@.take(i as int) =~= expected@);
    true
}

impl Message {
    /// Decodes one line, with or without the line feed that ends it.
    ///
    /// A character edit and a `Quit` are whole in their line. The line of a
    /// canvas update comes back as a header: hand the bytes that follow it to
    /// the header's `finish`.
    pub fn parse_line(line: &[u8]) -> (result: Result<Frame, ParseError>)
        ensures
            match parse_line(line@) {
                Ok(frame) => result matches Ok(f) && f@ == frame && (f matches Frame::Pending(h)
                    ==> h.spec_line() == line@),
                Err(kind) => result matches Err(e) && e.kind == kind && e.line@ == line@,
            },
    {
        if line.len() == 0 {
            return Ok(Frame::Complete(Message::Quit));
        }
        if utf8_str(line).is_none() {
            return Err(ParseError { kind: ParseErrorKind::InvalidText, line: slice_to_vec(line) });
        }
        let words = split_tokens(line);
        if words.len() == 0 {
            return Err(ParseError { kind: ParseErrorKind::MissingCommand, line: slice_to_vec(line) });
        }
        let set_char: [u8; 1] = [LOWER_S];
        let canvas: [u8; 2] = [LOWER_C, LOWER_S];
        let quit: [u8; 1] = [LOWER_Q];
        assert(set_char@ =~= set_char_word());
        assert(quit@ =~= quit_word());
        let kind = if word_is(words[0], set_char.as_slice()) {
            if words.len() != 4 {
                ParseErrorKind::ArgumentCount
            } else {
                match read_number(words[1]) {
                    None => ParseErrorKind::InvalidY,
                    Some(y) => match read_number(words[2]) {
                        None => ParseErrorKind::InvalidX,
                        Some(x) => match read_char(words[3]) {
                            None => ParseErrorKind::InvalidChar,
                            Some(c) => {
                                return Ok(Frame::Complete(Message::SetChar { x, y, c }));
                            },
                        },
                    },
                }
            }
        } else if word_is(words[0], canvas.as_slice()) {
            if words.len() != 3 {
                ParseErrorKind::ArgumentCount
            } else {
                match read_number(words[1]) {
                    None => ParseErrorKind::InvalidHeight,
                    Some(height) => match read_number(words[2]) {
                        None => ParseErrorKind::InvalidWidth,
                        Some(width) => match width.checked_mul(height) {
                            None => ParseErrorKind::Oversized,
                            Some(_) => {
                                return Ok(
                                    Frame::Pending(
                                        CanvasHeader { width, height, line: slice_to_vec(line) },
                                    ),
                                );
                            },
                        },
                    },
                }
            }
        } else if word_is(words[0], quit.as_slice()) {
            return Ok(Frame::Complete(Message::Quit));
        } else {
            ParseErrorKind::UnknownCommand
        };
        Err(ParseError { kind, line: slice_to_vec(line) })
    }
}

/// The length of the first line of `input`, its line feed included. Input
/// without a line feed is one line.
pub open spec fn line_len(input: Seq<u8>) -> nat
    decreases input.len(),
{
    if input.len() == 0 {
        0
    } else if input[0] == LINE_FEED {
        1
    } else {
        1 + line_len(input.drop_first())
    }
}

/// The first line of `input` ends inside `input`; a line feed ends it and
/// stands nowhere before its end.
pub proof fn lemma_line_len(input: Seq<u8>)
    ensures
        line_len(input) <= input.len(),
        input.len() > 0 ==> line_len(input) >= 1,
        forall|i: int| 0 <= i < line_len(input) - 1 ==> #[trigger] input[i] != LINE_FEED,
        line_len(input) < input.len() ==> input[line_len(input) - 1] == LINE_FEED,
    decreases input.len(),
{
    if input.len() > 0 && input[0] != LINE_FEED {
        let rest = input.drop_first();
        lemma_line_len(rest);
        assert forall|i: int| 0 <= i < line_len(input) - 1 implies #[trigger] input[i]
            != LINE_FEED by {
            if i > 0 {
                assert(input[i] == rest[i - 1]);
            }
        }
    }
}

/// Bytes held in memory, read from the front.
pub struct Reader<'a> {
    data: &'a [u8],
    pos: usize,
}

impl<'a> Reader<'a> {
    #[verifier::type_invariant]
    closed spec fn inv(self) -> bool {
        self.pos <= self.data@.len()
    }

    /// The bytes that have not been read yet.
    pub closed spec fn remaining(&self) -> Seq<u8> {
        self.data@.skip(self.pos as int)
    }

    /// A reader that stands at the first byte of `data`.
    pub fn new(data: &'a [u8]) -> (reader: Reader<'a>)
        ensures
            reader.remaining() == data@,
    {
        Reader { data, pos: 0 }
    }

    /// Whether every byte has been read.
    pub fn is_empty(&self) -> (empty: bool)
        ensures
            empty == (self.remaining().len() == 0),
    {
        proof {
            use_type_invariant(self);
        }
        self.pos == self.data.len()
    }

    /// Reads up to the next line feed and over it, or to the end where no
    /// line feed is left.
    pub fn read_line(&mut self) -> (line: &'a [u8])
        ensures
            line@ == old(self).remaining().take(line_len(old(self).remaining()) as int),
            final(self).remaining() == old(self).remaining().skip(
                line_len(old(self).remaining()) as int,
            ),
            line@ + final(self).remaining() == old(self).remaining(),
            forall|i: int| 0 <= i < line@.len() - 1 ==> #[trigger] line@[i] != LINE_FEED,
            final(self).remaining().len() > 0 ==> line@.len() > 0 && line@.last() == LINE_FEED,
    {
        proof {
            use_type_invariant(&*self);
            lemma_line_len(self.remaining());
        }
        let start = self.pos;
        let data = self.data;
        let ghost input = self.remaining();
        let mut end = start;
        let mut found = false;
        while !found && end < data.len()
            invariant
                start <= end <= data@.len(),
                input == data@.skip(start as int),
                !found ==> line_len(input) == (end - start) + line_len(data@.skip(end as int)),
                found ==> line_len(input) == end - start,
            decreases data@.len() - end,
        {
            assert(data@.skip(end as int).drop_first() =~= data@.skip(end + 1));
            if data[end] == LINE_FEED {
                found = true;
            }
            end += 1;
        }
        self.pos = end;
        slice_subrange(data, start, end)
    }

    /// Reads exactly `n` bytes, or none at all where fewer than `n` are
    /// left.
    pub fn read_exact(&mut self, n: usize) -> (bytes: Option<&'a [u8]>)
        ensures
            match bytes {
                Some(b) => n <= old(self).remaining().len() && b@ == old(self).remaining().take(
                    n as int,
                ) && final(self).remaining() == old(self).remaining().skip(n as int),
                None => n > old(self).remaining().len() && final(self).remaining() == old(
                    self,
                ).remaining(),
            },
    {
        proof {
            use_type_invariant(&*self);
        }
        let start = self.pos;
        let data = self.data;
        if n > data.len() - start {
            return None;
        }
        let end = start + n;
        self.pos = end;
        Some(slice_subrange(data, start, end))
    }
}

/// What the front of a byte stream decodes to.
pub struct Decoded {
    /// The message, or why there is none.
    pub result: Result<MessageView, ParseErrorKind>,
    /// The first line of the stream.
    pub line: Seq<u8>,
    /// The bytes that follow what was decoded.
    pub rest: Seq<u8>,
}

/// Decodes the message at the front of `input`: its first line and, for a
/// canvas update, the payload after it. Where fewer bytes follow the line
/// than it announces, the line alone is taken.
pub open spec fn decode(input: Seq<u8>) -> Decoded {
    let line = input.take(line_len(input) as int);
    let after = input.skip(line_len(input) as int);
    match parse_line(line) {
        Err(kind) => Decoded { result: Err(kind), line, rest: after },
        Ok(FrameView::Complete(m)) => Decoded { result: Ok(m), line, rest: after },
        Ok(FrameView::Pending { width, height }) => {
            if after.len() < width * height {
                Decoded { result: Err(ParseErrorKind::Truncated), line, rest: after }
            } else {
                Decoded {
                    result: parse_payload(width, height, after.take(width * height)),
                    line,
                    rest: after.skip(width * height),
                }
            }
        },
    }
}

impl Message {
    /// Reads one message from the front of `source`.
    ///
    /// A source without any byte left reads as `Quit`.
    pub fn from_reader(source: &mut Reader) -> (result: Result<Message, ParseError>)
        ensures
            final(source).remaining() == decode(old(source).remaining()).rest,
            match decode(old(source).remaining()).result {
                Ok(m) => result matches Ok(message) && message@ == m,
                Err(kind) => result matches Err(e) && e.kind == kind && e.line@ == decode(
                    old(source).remaining(),
                ).line,
            },
    {
        let line = source.read_line();
        match Message::parse_line(line) {
            Err(e) => Err(e),
            Ok(Frame::Complete(message)) => Ok(message),
            Ok(Frame::Pending(header)) => {
                match source.read_exact(header.payload_len()) {
                    None => Err(ParseError { kind: ParseErrorKind::Truncated, line: slice_to_vec(line) }),
                    Some(payload) => header.finish(payload),
                }
            },
        }
    }
}

} // verus!
