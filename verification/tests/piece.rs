use routetype::piece::parse_decimal;
use routetype::{Piece, PieceKind, RoutePiece};

#[test]
fn text_pieces_are_read_as_they_stand() {
    assert_eq!(String::parse_route_piece(""), Some("".to_owned()));
    assert_eq!(String::parse_route_piece("a b"), Some("a b".to_owned()));
    assert_eq!("a b".to_owned().render_route_piece(), "a b");
}

#[test]
fn integers_are_read_in_decimal() {
    assert_eq!(i32::parse_route_piece("42"), Some(42));
    assert_eq!(i32::parse_route_piece("-42"), Some(-42));
    assert_eq!(i32::parse_route_piece("+42"), Some(42));
    assert_eq!(i32::parse_route_piece("0"), Some(0));
    assert_eq!(i32::parse_route_piece("-0"), Some(0));
    assert_eq!(i32::parse_route_piece("007"), Some(7));
    assert_eq!(i32::parse_route_piece("2147483647"), Some(i32::MAX));
    assert_eq!(i32::parse_route_piece("-2147483648"), Some(i32::MIN));
    assert_eq!(
        i32::parse_route_piece("0000000000000000000002147483647"),
        Some(i32::MAX)
    );
}

#[test]
fn other_texts_are_no_integers() {
    for text in [
        "",
        "-",
        "+",
        "fortytwo",
        "4 2",
        " 42",
        "42 ",
        "--42",
        "+-42",
        "4-2",
        "0x10",
        "1.0",
        "2147483648",
        "-2147483649",
        "99999999999999999999999999",
        "٤٢",
        "4２",
    ] {
        assert_eq!(i32::parse_route_piece(text), None, "{:?}", text);
        assert_eq!(text.parse::<i32>().ok(), None, "{:?}", text);
    }
}

#[test]
fn integers_agree_with_the_standard_library() {
    for n in [
        0,
        1,
        -1,
        9,
        10,
        -10,
        99,
        100,
        12345,
        -98765,
        i32::MAX,
        i32::MIN,
        i32::MAX - 1,
        i32::MIN + 1,
    ] {
        let text = n.render_route_piece();
        assert_eq!(text, n.to_string());
        assert_eq!(i32::parse_route_piece(&text), Some(n));
    }
    assert_eq!(parse_decimal(b"+0012"), "+0012".parse::<i32>().ok());
}

#[test]
fn booleans_are_true_and_false() {
    assert_eq!(bool::parse_route_piece("true"), Some(true));
    assert_eq!(bool::parse_route_piece("false"), Some(false));
    assert_eq!(bool::parse_route_piece("True"), None);
    assert_eq!(bool::parse_route_piece("1"), None);
    assert_eq!(bool::parse_route_piece(""), None);
    assert_eq!(bool::parse_route_piece("truee"), None);
    assert_eq!(true.render_route_piece(), "true");
    assert_eq!(false.render_route_piece(), "false");
}

#[test]
fn pieces_by_kind() {
    assert_eq!(
        Piece::parse(PieceKind::Text, "7"),
        Some(Piece::Text("7".to_owned()))
    );
    assert_eq!(Piece::parse(PieceKind::Int, "7"), Some(Piece::Int(7)));
    assert_eq!(Piece::parse(PieceKind::Bool, "7"), None);
    assert_eq!(Piece::parse(PieceKind::Int, "seven"), None);
    assert_eq!(Piece::Int(-7).render(), "-7");
    assert_eq!(Piece::Bool(true).render(), "true");
    assert_eq!(Piece::Text("x y".to_owned()).render(), "x y");
    assert_eq!(Piece::Int(1).kind(), PieceKind::Int);
    assert_eq!(Piece::Bool(true).kind(), PieceKind::Bool);
    assert_eq!(Piece::Text("".to_owned()).kind(), PieceKind::Text);
}
