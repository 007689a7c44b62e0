use reversi::board::{parse, serialize, Board};
use reversi::mobility::{get_mobility, put};
use reversi::monte_carlo::playout;
use reversi::render::print_movility;
use reversi::search::{complete_search, find_best_move, one_mobility_check};

#[test]
fn test_find_best_move() {
    let b = Board::new();
    println!("{}", print_movility(&b));
    assert!(vec![29, 43, 45].contains(&find_best_move(&b, 100)));
}

#[test]
fn test_one_mobility_check() {
    let b = Board { me: 114633790074399, opp: 18446066489965990112 };
    println!("{}", print_movility(&b));
    let m = get_mobility(&b);
    println!("mobility is {}, {:#064b}", m, m);
    assert_eq!(one_mobility_check(&b), Some(49));
}

#[test]
fn test_one_mobility_board_best_move() {
    let b = Board { me: 114633790074399, opp: 18446066489965990112 };
    assert_eq!(find_best_move(&b, 1000), 49);
}

#[test]
fn test_complete_search_ffo_benchmark() {
    let b = parse("--XXXXX--OOOXX-O-OOOXXOX-OXOXOXXOXXXOXXX--XOXOXX-XXXOOO--OOOOO--");
    let r = complete_search(&b);
    println!("score {} at {} after {} nodes", r.score, r.idx, r.searched);
    assert_eq!(r.score, 18);
    assert_eq!(r.idx, 62);
    assert!(r.game_end);
}

#[test]
fn test_complete_search_deterministic() {
    let b = Board { me: 114633790074399, opp: 18446066489965990112 };
    let r1 = complete_search(&b);
    let r2 = complete_search(&b);
    assert_eq!(r1.score, r2.score);
    assert_eq!(r1.idx, r2.idx);
    assert_eq!(r1.game_end, r2.game_end);
    assert_eq!(r1.searched, r2.searched);
}

#[test]
fn test_complete_search_stalemate() {
    // one side holds half the board and the other nothing: neither side can
    // move, and an early end scores by mobility difference, which is zero
    let b = Board { me: 0xFFFF_FFFF, opp: 0 };
    let r = complete_search(&b);
    assert!(r.game_end);
    assert_eq!(r.idx, 255);
    assert_eq!(r.score, 0);
    assert_eq!(r.searched, 1);
}

#[test]
fn test_complete_search_full_board() {
    let b = Board { me: u64::MAX, opp: 0 };
    let r = complete_search(&b);
    assert_eq!(r.score, 64);
    assert!(r.game_end);
    assert_eq!(r.idx, 255);
}

#[test]
fn test_playout_reaches_game_end() {
    let b = Board::new();
    let r = playout(&b);
    assert!(r.game_end);
    assert!(-64 <= r.score && r.score <= 64);
}

#[test]
fn test_zero_budget_still_answers_a_legal_move() {
    let b = Board::new();
    let mv = find_best_move(&b, 0);
    assert!(get_mobility(&b) >> mv & 1 == 1);
}

#[test]
fn test_self_play_keeps_positions_well_formed() {
    let mut b = Board::new();
    let mut steps = 0;
    loop {
        assert_eq!(b.me & b.opp, 0);
        assert_eq!(parse(&serialize(&b)), b);
        let mob = get_mobility(&b);
        let opp_mob = get_mobility(&b.pass());
        if mob > 0 {
            let mv = find_best_move(&b, 5);
            assert!(mob >> mv & 1 == 1);
            b = put(&b, mv);
        } else if opp_mob > 0 {
            b = b.pass();
        } else {
            break;
        }
        steps += 1;
        assert!(steps <= 128);
    }
    assert_eq!(get_mobility(&b), 0);
    assert_eq!(get_mobility(&b.pass()), 0);
}
