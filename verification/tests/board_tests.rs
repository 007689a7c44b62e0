use reversi::board::{parse, serialize, Board};

#[test]
fn test_serialize_initial() {
    let b = Board::new();
    let s = serialize(&b);
    assert_eq!(
        s,
        "---------------------------XO------OOO--------------------------"
    );
}

#[test]
fn test_round_trip_initial() {
    let b = Board::new();
    let s = serialize(&b);
    assert_eq!(parse(&s), b);
}

#[test]
fn test_round_trip_midgame() {
    let expr = "--XXXXX--OOOXX-O-OOOXXOX-OXOXOXXOXXXOXXX--XOXOXX-XXXOOO--OOOOO--";
    let b = parse(expr);
    assert_eq!(serialize(&b), expr);
    assert_eq!(parse(&serialize(&b)), b);
}

#[test]
fn test_parse_coerces_unknown_characters_to_empty() {
    let expr = "..XXXXX..OOOXX.O.OOOXXOX.OXOXOXXOXXXOXXX..XOXOXX.XXXOOO..OOOOO..";
    let b = parse(expr);
    let canonical = parse("--XXXXX--OOOXX-O-OOOXXOX-OXOXOXXOXXXOXXX--XOXOXX-XXXOOO--OOOOO--");
    assert_eq!(b, canonical);
}
