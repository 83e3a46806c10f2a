//! Values that fill one path segment or one query value.
//!
//! A piece is read from a single decoded text and written as one. Three kinds
//! are built in: text, which is read as it stands; signed integers in decimal
//! notation; and booleans, written `true` and `false`. A template names the
//! kind of each of its fields, and a route holds their values.
use crate::percent::lemma_ascii_bytes_text;
use crate::text::text_eq;
use vstd::prelude::*;
use vstd::string::*;
use vstd::utf8::*;

verus! {

/// A value that can be a part of a path or the value of a query key.
pub trait RoutePiece: Sized {
    /// Attempts to read a piece from a text.
    fn parse_route_piece(s: &str) -> Option<Self>;

    /// Writes this piece as a text.
    fn render_route_piece(&self) -> String;
}

/// The type of value that a field holds.
#[derive(Clone, Copy, Debug, PartialEq, Eq, Structural)]
pub enum PieceKind {
    /// Any text, as it stands.
    Text,
    /// A signed integer in decimal notation.
    Int,
    /// `true` or `false`.
    Bool,
}

/// The value of one field of a route.
#[derive(Clone, Debug, PartialEq, Eq)]
pub enum Piece {
    Text(String),
    Int(i32),
    Bool(bool),
}

/// What a field value is in contracts.
pub enum PieceValue {
    Text(Seq<char>),
    Int(i32),
    Bool(bool),
}

impl View for Piece {
    type V = PieceValue;

    open spec fn view(&self) -> PieceValue {
        match self {
            Piece::Text(text) => PieceValue::Text(text@),
            Piece::Int(n) => PieceValue::Int(*n),
            Piece::Bool(b) => PieceValue::Bool(*b),
        }
    }
}

impl DeepView for Piece {
    type V = PieceValue;

    open spec fn deep_view(&self) -> PieceValue {
        self@
    }
}

/// The kind of a field value.
pub open spec fn kind_of(value: PieceValue) -> PieceKind {
    match value {
        PieceValue::Text(_) => PieceKind::Text,
        PieceValue::Int(_) => PieceKind::Int,
        PieceValue::Bool(_) => PieceKind::Bool,
    }
}

/// The kinds of a list of field values.
pub open spec fn kinds_of(fields: Seq<PieceValue>) -> Seq<PieceKind> {
    Seq::new(fields.len(), |i: int| kind_of(fields[i]))
}

/// The field value of kind `kind` that `text` writes, where it writes one.
pub open spec fn read_piece(kind: PieceKind, text: Seq<char>) -> Option<PieceValue> {
    match kind {
        PieceKind::Text => Some(PieceValue::Text(text)),
        PieceKind::Int => match int_of_text(text) {
            Some(n) => Some(PieceValue::Int(n)),
            None => None,
        },
        PieceKind::Bool => match bool_of_text(text) {
            Some(b) => Some(PieceValue::Bool(b)),
            None => None,
        },
    }
}

/// The text written for a field value.
pub open spec fn written_piece(value: PieceValue) -> Seq<char> {
    match value {
        PieceValue::Text(text) => text,
        PieceValue::Int(n) => text_of_int(n),
        PieceValue::Bool(b) => text_of_bool(b),
    }
}

impl Piece {
    /// Reads a field value of kind `kind` from a text.
    pub fn parse(kind: PieceKind, text: &str) -> (piece: Option<Piece>)
        ensures
            piece.deep_view() == read_piece(kind, text@),
    {
        match kind {
            PieceKind::Text => match String::parse_route_piece(text) {
                Some(t) => Some(Piece::Text(t)),
                None => None,
            },
            PieceKind::Int => match i32::parse_route_piece(text) {
                Some(n) => Some(Piece::Int(n)),
                None => None,
            },
            PieceKind::Bool => match bool::parse_route_piece(text) {
                Some(b) => Some(Piece::Bool(b)),
                None => None,
            },
        }
    }

    /// Writes this field value as a text.
    pub fn render(&self) -> (text: String)
        ensures
            text@ == written_piece(self@),
    {
        match self {
            Piece::Text(t) => t.render_route_piece(),
            Piece::Int(n) => n.render_route_piece(),
            Piece::Bool(b) => b.render_route_piece(),
        }
    }

    /// The kind of this field value.
    pub fn kind(&self) -> (kind: PieceKind)
        ensures
            kind == kind_of(self@),
    {
        match self {
            Piece::Text(_) => PieceKind::Text,
            Piece::Int(_) => PieceKind::Int,
            Piece::Bool(_) => PieceKind::Bool,
        }
    }
}

impl RoutePiece for String {
    /// Every text reads as itself.
    fn parse_route_piece(s: &str) -> (piece: Option<Self>)
        ensures
            piece matches Some(text) && text@ == s@,
    {
        Some(s.to_owned())
    }

    fn render_route_piece(&self) -> (text: String)
        ensures
            text@ == self@,
    {
        self.clone()
    }
}

/// True for the decimal digits.
pub open spec fn is_digit(c: char) -> bool {
    '0' <= c && c <= '9'
}

/// The value of the decimal digit `c`.
pub open spec fn digit_value(c: char) -> int {
    (c as u32) as int - 0x30
}

/// The decimal digit of a value below ten.
pub open spec fn digit_char(d: int) -> char {
    ((0x30 + d) as u8) as char
}

/// True when every character of `text` is a decimal digit.
pub open spec fn all_digits(text: Seq<char>) -> bool {
    forall|i: int| 0 <= i < text.len() ==> is_digit(#[trigger] text[i])
}

/// The number that the decimal digits `digits` write; leading zeros count for
/// nothing.
pub open spec fn digits_value(digits: Seq<char>) -> int
    decreases digits.len(),
{
    if digits.len() == 0 {
        0
    } else {
        digits_value(digits.drop_last()) * 10 + digit_value(digits.last())
    }
}

/// The decimal digits of `n`, without leading zeros.
pub open spec fn digits_of(n: nat) -> Seq<char>
    decreases n,
{
    if n < 10 {
        seq![digit_char(n as int)]
    } else {
        digits_of(n / 10).push(digit_char((n % 10) as int))
    }
}

/// The integer that `text` writes: an optional sign, `+` or `-`, and then one
/// or more decimal digits whose signed value is in the range of `i32`. Any
/// other text writes none.
pub open spec fn int_of_text(text: Seq<char>) -> Option<i32> {
    let signed = text.len() > 0 && (text[0] == '-' || text[0] == '+');
    let digits = if signed {
        text.skip(1)
    } else {
        text
    };
    let value = if text.len() > 0 && text[0] == '-' {
        -digits_value(digits)
    } else {
        digits_value(digits)
    };
    if digits.len() > 0 && all_digits(digits) && i32::MIN <= value <= i32::MAX {
        Some(value as i32)
    } else {
        None
    }
}

/// The text written for the integer `n`: its decimal digits, after a `-` for
/// a negative one.
pub open spec fn text_of_int(n: i32) -> Seq<char> {
    if n < 0 {
        seq!['-'] + digits_of((-(n as int)) as nat)
    } else {
        digits_of(n as nat)
    }
}

/// True when every byte of `digits` is a decimal digit.
pub open spec fn all_digit_bytes(digits: Seq<u8>) -> bool {
    forall|i: int| 0 <= i < digits.len() ==> 0x30 <= #[trigger] digits[i] <= 0x39
}

/// The number that the bytes of decimal digits write.
pub open spec fn bytes_value(digits: Seq<u8>) -> int
    decreases digits.len(),
{
    if digits.len() == 0 {
        0
    } else {
        bytes_value(digits.drop_last()) * 10 + (digits.last() - 0x30)
    }
}

/// The integer that the bytes `bytes` write, as `int_of_text` has it for
/// text.
pub open spec fn int_of_bytes(bytes: Seq<u8>) -> Option<i32> {
    let signed = bytes.len() > 0 && (bytes[0] == 0x2d || bytes[0] == 0x2b);
    let digits = if signed {
        bytes.skip(1)
    } else {
        bytes
    };
    let value = if bytes.len() > 0 && bytes[0] == 0x2d {
        -bytes_value(digits)
    } else {
        bytes_value(digits)
    };
    if digits.len() > 0 && all_digit_bytes(digits) && i32::MIN <= value <= i32::MAX {
        Some(value as i32)
    } else {
        None
    }
}

/// Reads a signed decimal integer from its bytes.
pub fn parse_decimal(bytes: &[u8]) -> (value: Option<i32>)
    ensures
        value == int_of_bytes(bytes@),
{
    let n = bytes.len();
    if n == 0 {
        return None;
    }
    let negative = bytes[0] == 0x2d;
    let start: usize = if bytes[0] == 0x2d || bytes[0] == 0x2b {
        1
    } else {
        0
    };
    let ghost digits = bytes@.skip(start as int);
    let mut acc: i64 = 0;
    let mut over = false;
    let mut i: usize = start;
    proof {
        assert(digits.take(0) == Seq::<u8>::empty());
    }
    while i < n
        invariant
            start <= i <= n,
            0 < n == bytes@.len(),
            negative == (bytes@[0] == 0x2d),
            start == if bytes@[0] == 0x2d || bytes@[0] == 0x2b {
                1usize
            } else {
                0usize
            },
            digits == bytes@.skip(start as int),
            all_digit_bytes(digits.take(i - start)),
            0 <= acc <= 0x8000_0000,
            !over ==> acc == bytes_value(digits.take(i - start)),
            over ==> bytes_value(digits.take(i - start)) > 0x8000_0000,
        decreases n - i,
    {
        let b = bytes[i];
        assert(digits[i - start] == b);
        if b < 0x30 || b > 0x39 {
            return None;
        }
        proof {
            let next = digits.take(i + 1 - start);
            assert(next.drop_last() == digits.take(i - start));
            assert(next.last() == b);
            assert forall|j: int| 0 <= j < next.len() implies 0x30 <= #[trigger] next[j]
                <= 0x39 by {
                if j < next.len() - 1 {
                    assert(next[j] == digits.take(i - start)[j]);
                }
            }
        }
        if !over {
            acc = acc * 10 + (b - 0x30) as i64;
            if acc > 0x8000_0000 {
                over = true;
                acc = 0x8000_0000;
            }
        }
        i = i + 1;
    }
    proof {
        assert(digits.take(n - start) == digits);
        assert(bytes@.skip(0) == bytes@);
    }
    if start == n || over {
        return None;
    }
    if negative {
        Some((-acc) as i32)
    } else if acc > 0x7fff_ffff {
        None
    } else {
        Some(acc as i32)
    }
}

/// Appends the decimal digits of `n` to `out`.
fn push_digits(out: &mut String, n: u32)
    ensures
        final(out)@ == old(out)@ + digits_of(n as nat),
    decreases n,
{
    if n >= 10 {
        push_digits(out, n / 10);
    }
    let d = (n % 10) as u8;
    out.push((0x30 + d) as char);
    proof {
        if n >= 10 {
            assert(old(out)@ + digits_of((n / 10) as nat).push(digit_char((n % 10) as int)) == (
            old(out)@ + digits_of((n / 10) as nat)).push(digit_char((n % 10) as int)));
        } else {
            assert(old(out)@ + seq![digit_char(n as int)] == old(out)@.push(digit_char(n as int)));
        }
    }
}

impl RoutePiece for i32 {
    fn parse_route_piece(s: &str) -> (piece: Option<Self>)
        ensures
            piece == int_of_text(s@),
    {
        proof {
            lemma_int_of_bytes(s@);
        }
        parse_decimal(s.as_bytes())
    }

    fn render_route_piece(&self) -> (text: String)
        ensures
            text@ == text_of_int(*self),
    {
        let mut text = String::new();
        let n = *self;
        if n < 0 {
            text.push('-');
            let m = (-(n as i64)) as u32;
            assert(text@ == seq!['-']);
            push_digits(&mut text, m);
        } else {
            assert(text@ + digits_of(n as nat) == digits_of(n as nat));
            push_digits(&mut text, n as u32);
        }
        text
    }
}

/// The text `true`.
pub open spec fn true_text() -> Seq<char> {
    seq!['t', 'r', 'u', 'e']
}

/// The text `false`.
pub open spec fn false_text() -> Seq<char> {
    seq!['f', 'a', 'l', 's', 'e']
}

/// The boolean that `text` writes: `true` or `false`, and none for any other
/// text.
pub open spec fn bool_of_text(text: Seq<char>) -> Option<bool> {
    if text == true_text() {
        Some(true)
    } else if text == false_text() {
        Some(false)
    } else {
        None
    }
}

/// The text written for the boolean `b`.
pub open spec fn text_of_bool(b: bool) -> Seq<char> {
    if b {
        true_text()
    } else {
        false_text()
    }
}

impl RoutePiece for bool {
    fn parse_route_piece(s: &str) -> (piece: Option<Self>)
        ensures
            piece == bool_of_text(s@),
    {
        proof {
            reveal_strlit("true");
            reveal_strlit("false");
            assert("true"@ == true_text());
            assert("false"@ == false_text());
        }
        if text_eq(s, "true") {
            Some(true)
        } else if text_eq(s, "false") {
            Some(false)
        } else {
            None
        }
    }

    fn render_route_piece(&self) -> (text: String)
        ensures
            text@ == text_of_bool(*self),
    {
        proof {
            reveal_strlit("true");
            reveal_strlit("false");
            assert("true"@ == true_text());
            assert("false"@ == false_text());
        }
        if *self {
            "true".to_owned()
        } else {
            "false".to_owned()
        }
    }
}

/// How the characters that matter to numbers compare and convert.
pub proof fn lemma_digit_char(c: char)
    ensures
        is_digit(c) <==> 0x30 <= c as u32 <= 0x39,
        c == '-' <==> c as u32 == 0x2d,
        c == '+' <==> c as u32 == 0x2b,
        c <= '\u{7f}' <==> c as u32 <= 0x7f,
        '\0' <= c,
        c as u32 <= 0x7f ==> (c as u8) as u32 == c as u32,
{
}

/// The digit of a value below ten is a digit, and has that value.
pub proof fn lemma_digit_char_value(d: int)
    requires
        0 <= d < 10,
    ensures
        is_digit(digit_char(d)),
        digit_value(digit_char(d)) == d,
        digit_char(d) != '-',
        digit_char(d) != '+',
{
    let c = digit_char(d);
    lemma_digit_char(c);
    assert(c as u32 == 0x30 + d);
}

/// The digits of a number are digits, at least one, and write the number.
pub proof fn lemma_digits_of(n: nat)
    ensures
        digits_of(n).len() > 0,
        all_digits(digits_of(n)),
        digits_value(digits_of(n)) == n,
    decreases n,
{
    if n < 10 {
        lemma_digit_char_value(n as int);
        let d = digits_of(n);
        assert(d.drop_last() == Seq::<char>::empty());
        assert(digits_value(d.drop_last()) == 0);
    } else {
        lemma_digits_of(n / 10);
        lemma_digit_char_value((n % 10) as int);
        let d = digits_of(n);
        assert(d.drop_last() == digits_of(n / 10));
        assert forall|i: int| 0 <= i < d.len() implies is_digit(#[trigger] d[i]) by {
            if i < d.len() - 1 {
                assert(d[i] == digits_of(n / 10)[i]);
            }
        }
    }
}

/// A text that writes an integer is ASCII.
pub proof fn lemma_int_text_ascii(text: Seq<char>)
    requires
        int_of_text(text) is Some,
    ensures
        is_ascii_chars(text),
{
    let signed = text.len() > 0 && (text[0] == '-' || text[0] == '+');
    assert forall|i: int| 0 <= i < text.len() implies '\0' <= #[trigger] text[i] <= '\u{7f}' by {
        lemma_digit_char(text[i]);
        if signed && i > 0 {
            assert(text.skip(1)[i - 1] == text[i]);
        }
    }
}

/// Characters and bytes that agree write the same number.
proof fn lemma_digits_bytes_value(text: Seq<char>, bytes: Seq<u8>)
    requires
        text.len() == bytes.len(),
        forall|j: int| 0 <= j < text.len() ==> bytes[j] as u32 == (#[trigger] text[j]) as u32,
    ensures
        digits_value(text) == bytes_value(bytes),
    decreases text.len(),
{
    if text.len() > 0 {
        lemma_digits_bytes_value(text.drop_last(), bytes.drop_last());
    }
}

/// A text writes the integer that its UTF-8 form writes.
pub proof fn lemma_int_of_bytes(text: Seq<char>)
    ensures
        int_of_text(text) == int_of_bytes(encode_utf8(text)),
{
    let bytes = encode_utf8(text);
    if forall|i: int| 0 <= i < bytes.len() ==> bytes[i] < 0x80 {
        lemma_ascii_bytes_text(text);
        assert forall|j: int| 0 <= j < text.len() implies bytes[j] as u32 == (
        #[trigger] text[j]) as u32 && is_digit(text[j]) == (0x30 <= bytes[j] <= 0x39) by {
            lemma_digit_char(text[j]);
        }
        if text.len() > 0 {
            lemma_digit_char(text[0]);
            let signed = text[0] == '-' || text[0] == '+';
            let start: int = if signed {
                1
            } else {
                0
            };
            let digits = text.skip(start);
            let digit_bytes = bytes.skip(start);
            assert(text.skip(0) == text);
            assert(bytes.skip(0) == bytes);
            assert(bytes[0] as u32 == text[0] as u32);
            assert forall|j: int| 0 <= j < digits.len() implies digit_bytes[j] as u32 == (
            #[trigger] digits[j]) as u32 by {
                assert(digits[j] == text[j + start]);
            }
            lemma_digits_bytes_value(digits, digit_bytes);
            if all_digits(digits) {
                assert forall|j: int| 0 <= j < digit_bytes.len() implies 0x30
                    <= #[trigger] digit_bytes[j] <= 0x39 by {
                    assert(is_digit(digits[j]));
                    assert(digits[j] == text[j + start]);
                }
            }
            if all_digit_bytes(digit_bytes) {
                assert forall|j: int| 0 <= j < digits.len() implies is_digit(
                    #[trigger] digits[j],
                ) by {
                    assert(0x30 <= digit_bytes[j] <= 0x39);
                    assert(digits[j] == text[j + start]);
                }
            }
        }
    } else {
        let i = choose|i: int| 0 <= i < bytes.len() && bytes[i] >= 0x80;
        if int_of_text(text) is Some {
            lemma_int_text_ascii(text);
            is_ascii_chars_encode_utf8(text);
            lemma_digit_char(text[i]);
        }
        if int_of_bytes(bytes) is Some {
            let signed = bytes[0] == 0x2d || bytes[0] == 0x2b;
            if signed {
                assert(bytes.skip(1)[i - 1] == bytes[i]);
            }
        }
    }
}

/// Reading the text written for an integer gives the integer back.
pub proof fn lemma_int_round_trip(n: i32)
    ensures
        int_of_text(text_of_int(n)) == Some(n),
{
    let text = text_of_int(n);
    if n < 0 {
        let m = (-(n as int)) as nat;
        lemma_digits_of(m);
        assert(text[0] == '-');
        assert(text.skip(1) == digits_of(m));
    } else {
        let m = n as nat;
        lemma_digits_of(m);
        assert(is_digit(text[0]));
        lemma_digit_char(text[0]);
    }
}

/// Reading the text written for a boolean gives the boolean back.
pub proof fn lemma_bool_round_trip(b: bool)
    ensures
        bool_of_text(text_of_bool(b)) == Some(b),
{
    assert(true_text().len() != false_text().len());
}

/// Reading what is written for a field value, as its kind, gives the value.
pub proof fn lemma_piece_round_trip(value: PieceValue)
    ensures
        read_piece(kind_of(value), written_piece(value)) == Some(value),
{
    match value {
        PieceValue::Text(_) => {},
        PieceValue::Int(n) => {
            lemma_int_round_trip(n);
        },
        PieceValue::Bool(b) => {
            lemma_bool_round_trip(b);
        },
    }
}

} // verus!
