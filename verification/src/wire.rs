//! The grammar of a protocol line, on bytes: words between ASCII white
//! space, unsigned decimal numbers, and single characters in UTF-8.

use vstd::prelude::*;
use vstd::slice::slice_subrange;
use vstd::utf8::{decode_utf8, encode_utf8, valid_utf8};

use crate::text::utf8_str;

verus! {

/// The space character.
pub const SPACE: u8 = 0x20;

/// The horizontal tab.
pub const TAB: u8 = 0x09;

/// The line feed, which ends a line.
pub const LINE_FEED: u8 = 0x0a;

/// The form feed.
pub const FORM_FEED: u8 = 0x0c;

/// The carriage return.
pub const CARRIAGE_RETURN: u8 = 0x0d;

/// The plus sign.
pub const PLUS: u8 = 0x2b;

/// The digit `0`.
pub const ZERO: u8 = 0x30;

/// The digit `9`.
pub const NINE: u8 = 0x39;

/// ASCII white space: space, tab, line feed, form feed and carriage return.
pub open spec fn is_space(b: u8) -> bool {
    b == SPACE || b == TAB || b == LINE_FEED || b == FORM_FEED || b == CARRIAGE_RETURN
}

/// How many bytes at the start of `s` are not white space.
pub open spec fn word_len(s: Seq<u8>) -> nat
    decreases s.len(),
{
    if s.len() == 0 || is_space(s[0]) {
        0
    } else {
        1 + word_len(s.drop_first())
    }
}

/// The words of `s`: its longest runs of bytes that are not white space, in
/// the order in which they stand.
pub open spec fn tokens(s: Seq<u8>) -> Seq<Seq<u8>>
    decreases s.len(),
{
    if s.len() == 0 {
        Seq::empty()
    } else if is_space(s[0]) {
        tokens(s.drop_first())
    } else {
        proof {
            lemma_word_len(s);
        }
        seq![s.take(word_len(s) as int)] + tokens(s.skip(word_len(s) as int))
    }
}

/// The first word of `s` ends inside `s`, holds no white space, and is
/// followed by white space or by the end of `s`.
pub proof fn lemma_word_len(s: Seq<u8>)
    ensures
        word_len(s) <= s.len(),
        s.len() > 0 && !is_space(s[0]) ==> word_len(s) >= 1,
        forall|i: int| 0 <= i < word_len(s) ==> !is_space(#[trigger] s[i]),
        word_len(s) < s.len() ==> is_space(s[word_len(s) as int]),
    decreases s.len(),
{
    if s.len() > 0 && !is_space(s[0]) {
        let rest = s.drop_first();
        lemma_word_len(rest);
        assert forall|i: int| 0 <= i < word_len(s) implies !is_space(#[trigger] s[i]) by {
            if i > 0 {
                assert(s[i] == rest[i - 1]);
            }
        }
    }
}

/// The byte strings that the slices of `words` hold.
pub open spec fn contents(words: Seq<&[u8]>) -> Seq<Seq<u8>> {
    Seq::new(words.len(), |k: int| words[k]@)
}

/// Whether a byte is ASCII white space.
fn byte_is_space(b: u8) -> (space: bool)
    ensures
        space == is_space(b),
{
    b == SPACE || b == TAB || b == LINE_FEED || b == FORM_FEED || b == CARRIAGE_RETURN
}

/// Splits a line into its words.
pub fn split_tokens<'a>(line: &'a [u8]) -> (words: Vec<&'a [u8]>)
    ensures
        contents(words@) == tokens(line@),
{
    let mut words: Vec<&'a [u8]> = Vec::new();
    let mut i: usize = 0;
    assert(line@.skip(0) =~= line@);
    while i < line.len()
        invariant
            i <= line@.len(),
            contents(words@) + tokens(line@.skip(i as int)) == tokens(line@),
        decreases line@.len() - i,
    {
        let ghost tail = line@.skip(i as int);
        if byte_is_space(line[i]) {
            assert(tail.drop_first() =~= line@.skip(i + 1));
            i += 1;
        } else {
            let start = i;
            while i < line.len() && !byte_is_space(line[i])
                invariant
                    start <= i <= line@.len(),
                    tail == line@.skip(start as int),
                    word_len(tail) == (i - start) + word_len(line@.skip(i as int)),
                decreases line@.len() - i,
            {
                assert(line@.skip(i as int).drop_first() =~= line@.skip(i + 1));
                i += 1;
            }
            let word = slice_subrange(line, start, i);
            proof {
                assert(word@ =~= tail.take(word_len(tail) as int));
                assert(tail.skip(word_len(tail) as int) =~= line@.skip(i as int));
                let ghost before = contents(words@);
                assert((before + seq![word@]) + tokens(line@.skip(i as int)) =~= before + (seq![word@]
                    + tokens(line@.skip(i as int))));
            }
            words.push(word);
        }
    }
    words
}

/// A decimal digit.
pub open spec fn is_digit(b: u8) -> bool {
    ZERO <= b <= NINE
}

/// Every byte of `s` is a decimal digit.
pub open spec fn all_digits(s: Seq<u8>) -> bool {
    forall|i: int| 0 <= i < s.len() ==> is_digit(#[trigger] s[i])
}

/// The number that the digits of `s` write in base ten.
pub open spec fn digits_value(s: Seq<u8>) -> nat
    decreases s.len(),
{
    if s.len() == 0 {
        0
    } else {
        digits_value(s.drop_last()) * 10 + (s.last() - ZERO) as nat
    }
}

/// A number token without the plus sign that may stand before its digits.
pub open spec fn unsigned(token: Seq<u8>) -> Seq<u8> {
    if token.len() > 0 && token[0] == PLUS {
        token.drop_first()
    } else {
        token
    }
}

/// The number that a token stands for: one or more decimal digits, with or
/// without a plus sign before them, whose value fits a `usize`. Any other
/// token stands for no number.
pub open spec fn parse_number(token: Seq<u8>) -> Option<usize> {
    let digits = unsigned(token);
    if digits.len() > 0 && all_digits(digits) && digits_value(digits) <= usize::MAX {
        Some(digits_value(digits) as usize)
    } else {
        None
    }
}

/// Digits written after a number make it no smaller.
pub proof fn lemma_digits_value_prefix(s: Seq<u8>, k: int)
    requires
        all_digits(s),
        0 <= k <= s.len(),
    ensures
        digits_value(s.take(k)) <= digits_value(s),
    decreases s.len(),
{
    if k == s.len() {
        assert(s.take(k) =~= s);
    } else {
        assert(s.drop_last().take(k) =~= s.take(k));
        lemma_digits_value_prefix(s.drop_last(), k);
    }
}

/// Reads a number token.
pub fn read_number(token: &[u8]) -> (n: Option<usize>)
    ensures
        n == parse_number(token@),
{
    let start: usize = if token.len() > 0 && token[0] == PLUS {
        1
    } else {
        0
    };
    let ghost digits = unsigned(token@);
    if start == token.len() {
        return None;
    }
    let mut value: usize = 0;
    let mut i: usize = start;
    while i < token.len()
        invariant
            start <= i <= token@.len(),
            digits == token@.skip(start as int),
            digits == unsigned(token@),
            all_digits(digits.take(i - start)),
            value == digits_value(digits.take(i - start)),
        decreases token@.len() - i,
    {
        let b = token[i];
        let ghost upto = digits.take(i - start + 1);
        assert(upto.drop_last() =~= digits.take(i - start));
        assert(upto.last() == b);
        if b < ZERO || b > NINE {
            return None;
        }
        assert forall|j: int| 0 <= j < upto.len() implies is_digit(#[trigger] upto[j]) by {}
        let digit: usize = (b - ZERO) as usize;
        let next = match value.checked_mul(10) {
            None => None,
            Some(tens) => tens.checked_add(digit),
        };
        match next {
            None => {
                proof {
                    if all_digits(digits) {
                        lemma_digits_value_prefix(digits, i - start + 1);
                    }
                }
                return None;
            },
            Some(v) => {
                value = v;
            },
        }
        i += 1;
    }
    assert(digits.take(i - start) =~= digits);
    Some(value)
}

/// The decimal digits of `n`, without a sign and without leading zeros.
pub open spec fn decimal(n: nat) -> Seq<u8>
    decreases n,
{
    if n < 10 {
        seq![(ZERO + n) as u8]
    } else {
        decimal(n / 10).push((ZERO + n % 10) as u8)
    }
}

/// What `decimal` writes is a number token that stands for the number
/// written, and it holds no white space.
pub proof fn lemma_decimal(n: nat)
    ensures
        decimal(n).len() >= 1,
        all_digits(decimal(n)),
        digits_value(decimal(n)) == n,
        unsigned(decimal(n)) == decimal(n),
        forall|i: int| 0 <= i < decimal(n).len() ==> !is_space(#[trigger] decimal(n)[i]),
    decreases n,
{
    let d = decimal(n);
    if n < 10 {
        assert(digits_value(d.drop_last()) == 0);
    } else {
        lemma_decimal(n / 10);
        assert(d.drop_last() =~= decimal(n / 10));
    }
}

/// Appends the decimal digits of `n` to `out`.
pub fn write_number(out: &mut Vec<u8>, n: usize)
    ensures
        final(out)@ == old(out)@ + decimal(n as nat),
    decreases n,
{
    if n >= 10 {
        write_number(out, n / 10);
    }
    let digit: u8 = (n % 10) as u8;
    out.push(ZERO + digit);
}

/// The character that a token stands for: the token is the UTF-8 form of
/// exactly one character. Any other token stands for no character.
pub open spec fn parse_char(token: Seq<u8>) -> Option<char> {
    if valid_utf8(token) && decode_utf8(token).len() == 1 {
        Some(decode_utf8(token)[0])
    } else {
        None
    }
}

/// Reads a character token.
pub fn read_char(token: &[u8]) -> (c: Option<char>)
    ensures
        c == parse_char(token@),
{
    match utf8_str(token) {
        None => None,
        Some(text) => {
            let mut it = text.chars();
            match it.next() {
                None => None,
                Some(first) => match it.next() {
                    None => Some(first),
                    Some(_) => None,
                },
            }
        },
    }
}

/// Appends the UTF-8 form of `c` to `out`.
pub fn write_char(out: &mut Vec<u8>, c: char)
    ensures
        final(out)@ == old(out)@ + encode_utf8(seq![c]),
{
    let mut text = String::new();
    text.push(c);
    write_bytes(out, text.as_str().as_bytes());
}

/// Appends `bytes` to `out`.
pub fn write_bytes(out: &mut Vec<u8>, bytes: &[u8])
    ensures
        final(out)@ == old(out)@ + bytes@,
{
    out.extend_from_slice(bytes);
}

/// A word that is followed by white space, or by nothing, is the first of
/// the words, and the words after it are those of what follows it.
pub proof fn lemma_tokens_word(word: Seq<u8>, rest: Seq<u8>)
    requires
        word.len() > 0,
        forall|i: int| 0 <= i < word.len() ==> !is_space(#[trigger] word[i]),
        rest.len() == 0 || is_space(rest[0]),
    ensures
        tokens(word + rest) == seq![word] + tokens(rest),
{
    let s = word + rest;
    lemma_word_len_of(word, rest);
    assert(s.take(word_len(s) as int) =~= word);
    assert(s.skip(word_len(s) as int) =~= rest);
}

/// The first word of `word + rest` is `word`, where `word` holds no white
/// space and `rest` does not go on with it.
proof fn lemma_word_len_of(word: Seq<u8>, rest: Seq<u8>)
    requires
        forall|i: int| 0 <= i < word.len() ==> !is_space(#[trigger] word[i]),
        rest.len() == 0 || is_space(rest[0]),
    ensures
        word_len(word + rest) == word.len(),
    decreases word.len(),
{
    if word.len() > 0 {
        let tail = word.drop_first();
        assert((word + rest).drop_first() =~= tail + rest);
        assert forall|i: int| 0 <= i < tail.len() implies !is_space(#[trigger] tail[i]) by {}
        lemma_word_len_of(tail, rest);
    }
}

/// White space before the words does not count.
pub proof fn lemma_tokens_space(space: u8, rest: Seq<u8>)
    requires
        is_space(space),
    ensures
        tokens(seq![space] + rest) == tokens(rest),
{
    let s = seq![space] + rest;
    assert(s.drop_first() =~= rest);
}

/// A character that is ASCII white space.
pub open spec fn is_space_char(c: char) -> bool {
    c == ' ' || c == '\t' || c == '\n' || c == '\x0c' || c == '\r'
}

/// The UTF-8 form of a character is a character token that stands for it,
/// and holds no white space unless the character is white space.
pub proof fn lemma_char_token(c: char)
    ensures
        encode_utf8(seq![c]).len() >= 1,
        parse_char(encode_utf8(seq![c])) == Some(c),
        !is_space_char(c) ==> forall|i: int|
            0 <= i < encode_utf8(seq![c]).len() ==> !is_space(#[trigger] encode_utf8(seq![c])[i]),
{
    broadcast use vstd::utf8::encode_utf8_valid_utf8, vstd::utf8::encode_utf8_decode_utf8;

    let bytes = encode_utf8(seq![c]);
    let scalar = c as u32;
    assert(seq![c].drop_first() =~= Seq::<char>::empty());
    assert(encode_utf8(Seq::<char>::empty()) =~= Seq::<u8>::empty());
    if vstd::utf8::has_width_1_encoding(scalar) {
        assert(scalar & 0x7f == scalar) by (bit_vector)
            requires
                scalar <= 0x7f,
        ;
    } else {
        assert forall|v: u8| 0xc0 | v >= 0x80 && 0xe0 | v >= 0x80 && 0xf0 | v >= 0x80 && 0x80 | v
            >= 0x80 by {
            assert(0xc0 | v >= 0x80 && 0xe0 | v >= 0x80 && 0xf0 | v >= 0x80 && 0x80 | v >= 0x80)
                by (bit_vector);
        }
    }
}

/// Bytes below 128 are UTF-8 text.
pub proof fn lemma_ascii_is_text(bytes: Seq<u8>)
    requires
        forall|i: int| 0 <= i < bytes.len() ==> #[trigger] bytes[i] < 0x80,
    ensures
        valid_utf8(bytes),
    decreases bytes.len(),
{
    if bytes.len() > 0 {
        let rest = vstd::utf8::pop_first_scalar(bytes);
        assert forall|i: int| 0 <= i < rest.len() implies #[trigger] rest[i] < 0x80 by {}
        lemma_ascii_is_text(rest);
    }
}

} // verus!
