//! The wire form of a message decodes to the message.

use vstd::prelude::*;
use vstd::utf8::{encode_utf8, is_ascii_chars, valid_utf8};

use crate::canvas::{lemma_cells, lemma_insert_cells, Grid};
use crate::network::{
    canvas_word, decode, encode, line_len, parse_payload, parse_words, quit_word, set_char_word,
    Decoded, FrameView, MessageView, ParseErrorKind,
};
use crate::wire::{
    decimal, is_space, is_space_char, lemma_ascii_is_text, lemma_char_token, lemma_decimal,
    lemma_tokens_space, lemma_tokens_word, parse_char, parse_number, tokens, LINE_FEED, SPACE,
};

verus! {

/// A line feed that nothing but other bytes stand before ends the first
/// line.
pub proof fn lemma_first_line(body: Seq<u8>, tail: Seq<u8>)
    requires
        forall|i: int| 0 <= i < body.len() ==> #[trigger] body[i] != LINE_FEED,
    ensures
        line_len(body + seq![LINE_FEED] + tail) == body.len() + 1,
    decreases body.len(),
{
    let input = body + seq![LINE_FEED] + tail;
    if body.len() > 0 {
        assert(input[0] == body[0]);
        assert(input.drop_first() =~= body.drop_first() + seq![LINE_FEED] + tail);
        assert forall|i: int| 0 <= i < body.drop_first().len() implies #[trigger] body.drop_first()[i]
            != LINE_FEED by {
            assert(body.drop_first()[i] == body[i + 1]);
        }
        lemma_first_line(body.drop_first(), tail);
    }
}

/// `s` can stand as a word in a line: it is not empty and none of its bytes
/// is white space.
pub open spec fn is_word(s: Seq<u8>) -> bool {
    s.len() > 0 && forall|i: int| 0 <= i < s.len() ==> !is_space(#[trigger] s[i])
}

/// Every byte of `s` is below 128.
pub open spec fn is_ascii(s: Seq<u8>) -> bool {
    forall|i: int| 0 <= i < s.len() ==> #[trigger] s[i] < 0x80
}

/// The words with one space between each two of them.
pub open spec fn spaced(words: Seq<Seq<u8>>) -> Seq<u8>
    decreases words.len(),
{
    if words.len() == 0 {
        Seq::empty()
    } else if words.len() == 1 {
        words[0]
    } else {
        words[0] + seq![SPACE] + spaced(words.drop_first())
    }
}

/// The words of a line made of words with one space between each two of
/// them and a line feed at the end are those words.
proof fn lemma_tokens_of_line(words: Seq<Seq<u8>>)
    requires
        forall|k: int| 0 <= k < words.len() ==> is_word(#[trigger] words[k]),
    ensures
        tokens(spaced(words) + seq![LINE_FEED]) == words,
        forall|i: int| 0 <= i < spaced(words).len() ==> #[trigger] spaced(words)[i] != LINE_FEED,
        (forall|k: int| 0 <= k < words.len() ==> is_ascii(#[trigger] words[k])) ==> is_ascii(
            spaced(words),
        ),
    decreases words.len(),
{
    let line = spaced(words) + seq![LINE_FEED];
    if words.len() == 0 {
        assert(line =~= seq![LINE_FEED] + Seq::<u8>::empty());
        lemma_tokens_space(LINE_FEED, Seq::empty());
        assert(tokens(line) =~= words);
    } else if words.len() == 1 {
        assert(is_word(words[0]));
        lemma_tokens_space(LINE_FEED, Seq::empty());
        assert(seq![LINE_FEED] + Seq::<u8>::empty() =~= seq![LINE_FEED]);
        lemma_tokens_word(words[0], seq![LINE_FEED]);
        assert(tokens(line) =~= words);
    } else {
        let first = words[0];
        let others = words.drop_first();
        assert(is_word(first));
        assert forall|k: int| 0 <= k < others.len() implies is_word(#[trigger] others[k]) by {
            assert(others[k] == words[k + 1]);
        }
        lemma_tokens_of_line(others);
        let rest = seq![SPACE] + (spaced(others) + seq![LINE_FEED]);
        assert(line =~= first + rest);
        lemma_tokens_space(SPACE, spaced(others) + seq![LINE_FEED]);
        lemma_tokens_word(first, rest);
        assert(tokens(line) =~= words);
        assert forall|i: int| 0 <= i < spaced(words).len() implies #[trigger] spaced(words)[i]
            != LINE_FEED by {
            if i < first.len() {
                assert(spaced(words)[i] == first[i]);
            } else if i > first.len() {
                assert(spaced(words)[i] == spaced(others)[i - first.len() - 1]);
            }
        }
        if forall|k: int| 0 <= k < words.len() ==> is_ascii(#[trigger] words[k]) {
            assert(is_ascii(first));
            assert forall|k: int| 0 <= k < others.len() implies is_ascii(#[trigger] others[k]) by {
                assert(others[k] == words[k + 1]);
            }
            assert forall|i: int| 0 <= i < spaced(words).len() implies #[trigger] spaced(words)[i]
                < 0x80 by {
                if i < first.len() {
                    assert(spaced(words)[i] == first[i]);
                } else if i > first.len() {
                    assert(spaced(words)[i] == spaced(others)[i - first.len() - 1]);
                }
            }
        }
    }
}

/// What a closed connection reads as is `Quit`.
pub proof fn lemma_end_of_input_is_quit()
    ensures
        decode(Seq::empty()) == (Decoded {
            result: Ok(MessageView::Quit),
            line: Seq::empty(),
            rest: Seq::empty(),
        }),
{
    let input = Seq::<u8>::empty();
    assert(input.take(0) =~= input);
}

/// `Quit` survives the wire: its wire form, whatever follows it, decodes to
/// `Quit`, and what follows is left to be read.
pub proof fn lemma_quit_round_trip(tail: Seq<u8>)
    ensures
        decode(encode(MessageView::Quit) + tail) == (Decoded {
            result: Ok(MessageView::Quit),
            line: encode(MessageView::Quit),
            rest: tail,
        }),
{
    let words = seq![quit_word()];
    let line = encode(MessageView::Quit);
    let input = line + tail;
    lemma_tokens_of_line(words);
    lemma_first_line(spaced(words), tail);
    assert(input.take(line.len() as int) =~= line);
    assert(input.skip(line.len() as int) =~= tail);
    lemma_ascii_is_text(line);
}

/// A character edit survives the wire, unless its character is white
/// space: its wire form, whatever follows it, decodes to the same edit, and
/// what follows is left to be read.
pub proof fn lemma_set_char_round_trip(x: usize, y: usize, c: char, tail: Seq<u8>)
    requires
        !is_space_char(c),
    ensures
        decode(encode(MessageView::SetChar { x, y, c }) + tail) == (Decoded {
            result: Ok(MessageView::SetChar { x, y, c }),
            line: encode(MessageView::SetChar { x, y, c }),
            rest: tail,
        }),
{
    broadcast use vstd::utf8::encode_utf8_valid_utf8, vstd::utf8::valid_utf8_concat;

    let message = MessageView::SetChar { x, y, c };
    let letter = encode_utf8(seq![c]);
    let words = seq![set_char_word(), decimal(y as nat), decimal(x as nat), letter];
    let line = encode(message);
    let input = line + tail;
    lemma_decimal(y as nat);
    lemma_decimal(x as nat);
    lemma_char_token(c);
    lemma_tokens_of_line(words);
    reveal_with_fuel(spaced, 5);
    let head = set_char_word() + seq![SPACE] + decimal(y as nat) + seq![SPACE] + decimal(x as nat)
        + seq![SPACE];
    assert(spaced(words) =~= head + letter);
    lemma_first_line(spaced(words), tail);
    assert(input.take(line.len() as int) =~= line);
    assert(input.skip(line.len() as int) =~= tail);
    lemma_ascii_is_text(head);
    lemma_ascii_is_text(seq![LINE_FEED]);
    assert(valid_utf8(head + letter));
    assert(parse_words(words) == Ok::<FrameView, ParseErrorKind>(
        FrameView::Complete(message),
    ));
}

/// A canvas update survives the wire, where every cell holds an ASCII
/// character: its wire form, whatever follows it, decodes to an update with
/// the same canvas, and what follows is left to be read.
pub proof fn lemma_canvas_update_round_trip(canvas: Grid, tail: Seq<u8>)
    requires
        canvas.wf(),
        canvas.width <= usize::MAX,
        canvas.height <= usize::MAX,
        canvas.width * canvas.height <= usize::MAX,
        is_ascii_chars(canvas.cells()),
    ensures
        decode(encode(MessageView::CanvasUpdate { canvas }) + tail) == (Decoded {
            result: Ok(MessageView::CanvasUpdate { canvas }),
            line: canvas_word() + seq![SPACE] + decimal(canvas.height) + seq![SPACE] + decimal(
                canvas.width,
            ) + seq![LINE_FEED],
            rest: tail,
        }),
{
    broadcast use vstd::utf8::encode_utf8_valid_utf8, vstd::utf8::encode_utf8_decode_utf8;

    let message = MessageView::CanvasUpdate { canvas };
    let width = canvas.width as usize;
    let height = canvas.height as usize;
    let words = seq![canvas_word(), decimal(canvas.height), decimal(canvas.width)];
    let line = canvas_word() + seq![SPACE] + decimal(canvas.height) + seq![SPACE] + decimal(
        canvas.width,
    ) + seq![LINE_FEED];
    let payload = encode_utf8(canvas.cells());
    let input = encode(message) + tail;
    lemma_decimal(canvas.height);
    lemma_decimal(canvas.width);
    lemma_tokens_of_line(words);
    reveal_with_fuel(spaced, 4);
    assert(line =~= spaced(words) + seq![LINE_FEED]);
    assert(input =~= spaced(words) + seq![LINE_FEED] + (payload + tail));
    lemma_first_line(spaced(words), payload + tail);
    assert(input.take(line.len() as int) =~= line);
    assert(input.skip(line.len() as int) =~= payload + tail);
    lemma_ascii_is_text(line);
    assert(height * width == width * height) by (nonlinear_arith);
    assert(parse_words(words) == Ok::<FrameView, ParseErrorKind>(
        FrameView::Pending { width, height },
    ));
    lemma_cells(canvas);
    vstd::utf8::is_ascii_chars_encode_utf8(canvas.cells());
    assert((payload + tail).take(width * height) =~= payload);
    assert((payload + tail).skip(width * height) =~= tail);
    lemma_insert_cells(canvas, Grid::blank(canvas.width, canvas.height));
    assert(parse_payload(width, height, payload) == Ok::<MessageView, ParseErrorKind>(
        message,
    ));
}

} // verus!
