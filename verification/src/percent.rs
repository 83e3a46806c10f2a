//! Percent-encoding of single pieces of a request target.
//!
//! The wire form of a piece is a sequence of ASCII bytes; its decoded form is
//! text. Encoding escapes every byte of the text's UTF-8 form that is not
//! ASCII or that belongs to the escape set of the position (path or query).
use vstd::prelude::*;
use vstd::string::*;
use vstd::utf8::*;

verus! {

/// The position a piece is rendered into, which decides the bytes to escape.
#[derive(Clone, Copy, Debug, PartialEq, Eq, Structural)]
pub enum EscapeSet {
    /// A query key or value.
    Query,
    /// A path segment.
    Path,
}

/// The C0 controls and DEL.
pub open spec fn is_control(b: u8) -> bool {
    b < 0x20 || b == 0x7f
}

/// The ASCII bytes escaped inside a query key or value: controls, space,
/// `"`, `#`, `<`, `>`, and the bytes with a meaning of their own in a query
/// string, `%`, `&` and `=`.
pub open spec fn in_query_set(b: u8) -> bool {
    is_control(b) || b == 0x20 || b == 0x22 || b == 0x23 || b == 0x3c || b == 0x3e || b == 0x25
        || b == 0x26 || b == 0x3d
}

/// The ASCII bytes escaped inside a path segment: those of the query set and
/// `?`, `` ` ``, `{`, `}` and `/`.
pub open spec fn in_path_set(b: u8) -> bool {
    in_query_set(b) || b == 0x3f || b == 0x60 || b == 0x7b || b == 0x7d || b == 0x2f
}

/// True when byte `b` is written as `%XX` in position `set`.
pub open spec fn is_escaped(b: u8, set: EscapeSet) -> bool {
    b >= 0x80 || match set {
        EscapeSet::Query => in_query_set(b),
        EscapeSet::Path => in_path_set(b),
    }
}

/// The upper-case hexadecimal digit of a value below 16.
pub open spec fn hex_digit(d: u8) -> u8 {
    if d < 10 {
        (0x30 + d) as u8
    } else {
        (0x37 + d) as u8
    }
}

/// The three bytes `%XX` that stand for byte `b`.
pub open spec fn escape_of(b: u8) -> Seq<u8> {
    seq![0x25u8, hex_digit(b / 16), hex_digit(b % 16)]
}

/// The wire form of one byte in position `set`.
pub open spec fn encoded_byte(b: u8, set: EscapeSet) -> Seq<u8> {
    if is_escaped(b, set) {
        escape_of(b)
    } else {
        seq![b]
    }
}

/// The wire form of the bytes `bytes` in position `set`.
pub open spec fn encoded(bytes: Seq<u8>, set: EscapeSet) -> Seq<u8>
    decreases bytes.len(),
{
    if bytes.len() == 0 {
        Seq::empty()
    } else {
        encoded(bytes.drop_last(), set) + encoded_byte(bytes.last(), set)
    }
}

/// The text whose characters are the ASCII bytes `bytes`.
pub open spec fn ascii_text(bytes: Seq<u8>) -> Seq<char> {
    Seq::new(bytes.len(), |i: int| bytes[i] as char)
}

/// `percent_encoding::percent_encode_byte` returns the three-character text
/// `%XX`, where `XX` is the byte in upper-case hexadecimal.
pub assume_specification[ percent_encoding::percent_encode_byte ](byte: u8) -> (text: &'static str)
    ensures
        text@ == ascii_text(escape_of(byte)),
;

/// `String::push` appends one character to the string.
pub assume_specification[ String::push ](s: &mut String, c: char)
    ensures
        final(s)@ == old(s)@.push(c),
;

/// Decides whether byte `b` is escaped in position `set`.
pub fn must_escape(b: u8, set: EscapeSet) -> (r: bool)
    ensures
        r == is_escaped(b, set),
{
    let query = b < 0x20 || b == 0x7f || b == 0x20 || b == 0x22 || b == 0x23 || b == 0x3c || b
        == 0x3e || b == 0x25 || b == 0x26 || b == 0x3d;
    match set {
        EscapeSet::Query => b >= 0x80 || query,
        EscapeSet::Path => b >= 0x80 || query || b == 0x3f || b == 0x60 || b == 0x7b || b == 0x7d
            || b == 0x2f,
    }
}

/// Appends the wire form of `piece` in position `set` to `out`.
pub fn encode_append(out: &mut String, piece: &str, set: EscapeSet)
    ensures
        final(out)@ == old(out)@ + ascii_text(encoded(piece.spec_bytes(), set)),
{
    let bytes = piece.as_bytes();
    let mut i: usize = 0;
    while i < bytes.len()
        invariant
            i <= bytes@.len(),
            bytes@ == piece.spec_bytes(),
            out@ == old(out)@ + ascii_text(encoded(bytes@.take(i as int), set)),
        decreases bytes@.len() - i,
    {
        let b = bytes[i];
        proof {
            assert(bytes@.take(i + 1).drop_last() == bytes@.take(i as int));
            assert(bytes@.take(i + 1).last() == b);
        }
        if must_escape(b, set) {
            out.append(percent_encoding::percent_encode_byte(b));
        } else {
            out.push(b as char);
        }
        i = i + 1;
    }
    proof {
        assert(bytes@.take(i as int) == bytes@);
    }
}

/// True for the ASCII digits and the letters `a` to `f` in either case.
pub open spec fn is_hex(b: u8) -> bool {
    (0x30 <= b <= 0x39) || (0x41 <= b <= 0x46) || (0x61 <= b <= 0x66)
}

/// The value below 16 that the hexadecimal digit `b` stands for.
pub open spec fn hex_value(b: u8) -> int {
    if 0x30 <= b <= 0x39 {
        b - 0x30
    } else if 0x41 <= b <= 0x46 {
        b - 0x37
    } else {
        b - 0x57
    }
}

/// The bytes that the wire bytes `bytes` stand for: every `%` that two
/// hexadecimal digits follow is replaced, with them, by the byte they name;
/// every other byte stands for itself.
pub open spec fn unescaped(bytes: Seq<u8>) -> Seq<u8>
    decreases bytes.len(),
{
    if bytes.len() == 0 {
        Seq::empty()
    } else if bytes[0] == 0x25 && bytes.len() >= 3 && is_hex(bytes[1]) && is_hex(bytes[2]) {
        seq![(hex_value(bytes[1]) * 16 + hex_value(bytes[2])) as u8] + unescaped(bytes.skip(3))
    } else {
        seq![bytes[0]] + unescaped(bytes.skip(1))
    }
}

/// The text that lossy decoding gives for wire bytes whose unescaped form is
/// not UTF-8.
pub uninterp spec fn lossy_text(piece: Seq<u8>) -> Seq<char>;

/// The text that the wire bytes `piece` stand for.
pub open spec fn decoded(piece: Seq<u8>) -> Seq<char> {
    if valid_utf8(unescaped(piece)) {
        decode_utf8(unescaped(piece))
    } else {
        lossy_text(piece)
    }
}

/// `percent_encoding::percent_decode` followed by `decode_utf8_lossy`: where
/// the unescaped bytes are UTF-8 the result is the text they encode;
/// otherwise it is some text that depends on the bytes alone.
#[verifier::external_body]
pub(crate) fn decode(piece: &[u8]) -> (text: String)
    ensures
        valid_utf8(unescaped(piece@)) ==> text@ == decode_utf8(unescaped(piece@)),
        !valid_utf8(unescaped(piece@)) ==> text@ == lossy_text(piece@),
{
    percent_encoding::percent_decode(piece).decode_utf8_lossy().into_owned()
}

/// Encoding distributes over concatenation.
pub proof fn lemma_encoded_concat(a: Seq<u8>, b: Seq<u8>, set: EscapeSet)
    ensures
        encoded(a + b, set) == encoded(a, set) + encoded(b, set),
    decreases b.len(),
{
    if b.len() == 0 {
        assert(a + b == a);
    } else {
        assert((a + b).drop_last() == a + b.drop_last());
        lemma_encoded_concat(a, b.drop_last(), set);
    }
}

/// Every encoded byte is `%`, an upper-case hexadecimal digit, or a byte of
/// the input that the position leaves alone; all of them are ASCII.
pub proof fn lemma_encoded_bytes(bytes: Seq<u8>, set: EscapeSet)
    ensures
        forall|i: int|
            0 <= i < encoded(bytes, set).len() ==> {
                let e = #[trigger] encoded(bytes, set)[i];
                e < 0x80 && (e == 0x25 || (0x30 <= e <= 0x39) || (0x41 <= e <= 0x46)
                    || !is_escaped(e, set))
            },
    decreases bytes.len(),
{
    if bytes.len() > 0 {
        lemma_encoded_bytes(bytes.drop_last(), set);
        let b = bytes.last();
        let head = encoded(bytes.drop_last(), set);
        let tail = encoded_byte(b, set);
        assert(b / 16 < 16 && b % 16 < 16);
        assert forall|i: int| 0 <= i < encoded(bytes, set).len() implies {
            let e = #[trigger] encoded(bytes, set)[i];
            e < 0x80 && (e == 0x25 || (0x30 <= e <= 0x39) || (0x41 <= e <= 0x46) || !is_escaped(
                e,
                set,
            ))
        } by {
            if i < head.len() {
                assert(encoded(bytes, set)[i] == head[i]);
            } else {
                assert(encoded(bytes, set)[i] == tail[i - head.len()]);
            }
        }
    }
}

/// Unescaping undoes encoding, in either position.
pub proof fn lemma_unescaped_encoded(bytes: Seq<u8>, set: EscapeSet)
    ensures
        unescaped(encoded(bytes, set)) == bytes,
    decreases bytes.len(),
{
    if bytes.len() > 0 {
        let b = bytes[0];
        let rest = bytes.drop_first();
        assert(bytes == seq![b] + rest);
        lemma_encoded_concat(seq![b], rest, set);
        assert(seq![b].drop_last() == Seq::<u8>::empty());
        assert(encoded(seq![b], set) == encoded_byte(b, set)) by {
            assert(encoded(Seq::<u8>::empty(), set) == Seq::<u8>::empty());
        }
        let e = encoded(bytes, set);
        lemma_unescaped_encoded(rest, set);
        if is_escaped(b, set) {
            assert(e.skip(3) == encoded(rest, set));
            let h = hex_digit(b / 16);
            let l = hex_digit(b % 16);
            assert(e[0] == 0x25 && e[1] == h && e[2] == l);
            assert(is_hex(h) && is_hex(l));
            assert(hex_value(h) == b / 16 && hex_value(l) == b % 16);
            assert((hex_value(h) * 16 + hex_value(l)) as u8 == b);
            assert(unescaped(e) == seq![b] + unescaped(e.skip(3)));
        } else {
            assert(e.skip(1) == encoded(rest, set));
            assert(e[0] == b);
            assert(b != 0x25);
            assert(unescaped(e) == seq![b] + unescaped(e.skip(1)));
        }
    } else {
        assert(encoded(bytes, set) == Seq::<u8>::empty());
    }
}

/// The UTF-8 form of ASCII text is the bytes of its characters.
pub proof fn lemma_ascii_text_bytes(bytes: Seq<u8>)
    requires
        forall|i: int| 0 <= i < bytes.len() ==> bytes[i] < 0x80,
    ensures
        encode_utf8(ascii_text(bytes)) == bytes,
{
    let text = ascii_text(bytes);
    assert(is_ascii_chars(text)) by {
        assert forall|i: int| 0 <= i < text.len() implies '\0' <= #[trigger] text[i]
            <= '\u{7f}' by {
            assert(bytes[i] < 0x80);
        }
    }
    is_ascii_chars_encode_utf8(text);
    assert forall|i: int| 0 <= i < bytes.len() implies encode_utf8(text)[i] == bytes[i] by {
        assert(text[i] as u8 == encode_utf8(text)[i]);
        assert(bytes[i] < 0x80);
    }
    assert(encode_utf8(text) =~= bytes);
}

/// Characters are ordered as their scalar values are.
pub proof fn lemma_char_order(c: char)
    ensures
        '\0' <= c,
        (c as u32 <= 0x7f) == (c <= '\u{7f}'),
        c as u32 as char == c,
{
}

/// No bytes stand for the empty text.
pub proof fn lemma_decoded_nothing()
    ensures
        decoded(Seq::<u8>::empty()) == Seq::<char>::empty(),
{
    assert(unescaped(Seq::<u8>::empty()) == Seq::<u8>::empty());
    assert(valid_utf8(Seq::<u8>::empty()));
    assert(decode_utf8(Seq::<u8>::empty()) == Seq::<char>::empty());
}

/// A text whose UTF-8 form holds ASCII bytes only is ASCII: it has as many
/// characters as bytes, and each byte is its character.
pub proof fn lemma_ascii_bytes_text(text: Seq<char>)
    requires
        forall|i: int| 0 <= i < encode_utf8(text).len() ==> encode_utf8(text)[i] < 0x80,
    ensures
        is_ascii_chars(text),
        encode_utf8(text).len() == text.len(),
        forall|i: int| 0 <= i < text.len() ==> encode_utf8(text)[i] == #[trigger] text[i] as u8,
    decreases text.len(),
{
    if text.len() > 0 {
        let c = text[0] as u32;
        let rest = text.drop_first();
        let first = encode_scalar(c);
        let bytes = encode_utf8(text);
        char_is_scalar(text[0]);
        assert(bytes[0] == first[0]);
        assert(has_width_1_encoding(c)) by {
            assert(forall|x: u8| #![auto] (0xC0u8 | x) >= 0x80) by (bit_vector);
            assert(forall|x: u8| #![auto] (0xE0u8 | x) >= 0x80) by (bit_vector);
            assert(forall|x: u8| #![auto] (0xF0u8 | x) >= 0x80) by (bit_vector);
        }
        assert(bytes.skip(1) == encode_utf8(rest));
        assert forall|i: int| 0 <= i < encode_utf8(rest).len() implies encode_utf8(rest)[i]
            < 0x80 by {
            assert(encode_utf8(rest)[i] == bytes[i + 1]);
        }
        lemma_ascii_bytes_text(rest);
        assert forall|i: int| 0 <= i < text.len() implies '\0' <= #[trigger] text[i]
            <= '\u{7f}' by {
            if i > 0 {
                assert(text[i] == rest[i - 1]);
            } else {
                lemma_char_order(text[0]);
            }
        }
        is_ascii_chars_encode_utf8(text);
    }
}

/// Decoding the encoded form of a text gives the text back, in either
/// position.
pub proof fn lemma_decoded_encoded(text: Seq<char>, set: EscapeSet)
    ensures
        decoded(encoded(encode_utf8(text), set)) == text,
{
    lemma_unescaped_encoded(encode_utf8(text), set);
    encode_utf8_valid_utf8(text);
    encode_utf8_decode_utf8(text);
}

} // verus!
