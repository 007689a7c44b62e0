use reversi::board::Board;
use reversi::mobility::{get_flip, get_mobility, put};
use reversi::render::{print_flip, print_movility};

#[test]
fn test_mobility() {
    let cases: Vec<(u64, u64, u64)> = vec![
        (2319419934292831486, 71312739668481, 54187231568462080),
        (71308411146753, 2319419934326385918, 6363025526856089856),
        (17853105328272, 9055578781130816, 6944060251842973216),
        (134217728, 240786604032, 43981001981952),
        (35253091565568, 172201869312, 292595957760),
    ];
    for (me, opp, m) in cases {
        let b = Board { me, opp };
        println!("{}", print_movility(&b));
        assert_eq!(get_mobility(&b), m);
    }
}

#[test]
fn test_flip() {
    // Capture runs are anchored at the placed stone: each expected pair is
    // what applying the move under that rule yields for the given cells.
    let cases: Vec<(u64, u64, u8, u64, u64)> = vec![
        (134217728, 240786604032, 45, 172067127296, 35253225783296),
        (172067127296, 35253225783296, 19, 35253091565568, 172201869312),
        (35253091565568, 172201869312, 20, 171933433856, 35253361049600),
        (171933433856, 35253361049600, 21, 35253091565568, 172205015040),
        (68719476736, 35356577103872, 12, 35356307619840, 68988964864),
        (35356307619840, 68988964864, 29, 68720529408, 35357112926208),
        (68720529408, 35357112926208, 30, 35357110829056, 69796368384),
        (35357110829056, 69796368384, 22, 69793222656, 35357118169088),
        (1073745920, 35425837645824, 14, 35425833451520, 1077956608),
        (3361235072, 9055819091939328, 4, 9055819091935232, 3361239184),
        (9055750104023040, 72349151376, 26, 71946498192, 9055750573785088),
        (71946498192, 9055750573785088, 44, 9055613134831616, 17801571496080),
        (9055613134831616, 17801571496080, 6, 17801570439312, 9055613135888448),
        (4569828968426750, 9078395931725824, 9, 9078395931463680, 4569828968689406),
        (9078395931463680, 4569828968689406, 17, 4569828966854398, 9078395933429760),
        (4569828966854398, 9078395933429760, 16, 9078395929366528, 4569828970983166),
        (9078395929366528, 4569828970983166, 33, 4569571272945406, 9078662217338880),
        (4569571272945406, 9078662217338880, 25, 9078644970360832, 4569588553477886),
        (9078644970360832, 4569588553477886, 0, 4569588418997502, 9078645104841217),
        (4534404046908670, 9113829476930049, 61, 71308411146753, 2319419934326385918),
        (71308411146753, 2319419934326385918, 32, 2319419934292831486, 71312739668481),
    ];
    for (me, opp, idx, next_me, next_opp) in cases {
        let b = Board { me, opp };
        let actual = put(&b, idx);
        let expected = Board { me: next_me, opp: next_opp };
        println!("Actual\n{}", print_movility(&actual));
        println!("Expected\n{}", print_movility(&expected));
        assert_eq!(actual, expected);
    }
}

#[test]
fn test_initial_mobility() {
    let b = Board::new();
    assert_eq!(get_mobility(&b), 43981001981952);
    assert_eq!(get_mobility(&b), (1u64 << 29) | (1u64 << 43) | (1u64 << 45));
}

#[test]
fn test_empty_board_has_no_moves() {
    let b = Board { me: 0, opp: 0 };
    assert_eq!(get_mobility(&b), 0);
}

#[test]
fn test_move_accounting() {
    let b = Board::new();
    let flip = get_flip(&b, 29);
    assert_eq!(flip, 1u64 << 28);
    let next = put(&b, 29);
    let occupied_before = (b.me | b.opp).count_ones();
    let occupied_after = (next.me | next.opp).count_ones();
    assert_eq!(occupied_after, occupied_before + 1);
    assert_eq!(next.opp.count_ones(), b.me.count_ones() + 1 + flip.count_ones());
}

#[test]
fn test_flip_rendering_marks_flipped_cells() {
    let b = Board::new();
    let s = print_flip(&b, 29);
    // one blank cell per unflipped square, one mark for the flipped stone
    assert_eq!(s.chars().filter(|c| *c == '\u{ff3f}').count(), 1);
    assert_eq!(s.chars().count(), 125);
}
