use goban::pieces::util::coord::{valid_coords, IntoCoord, IntoIdx};
use goban::goban::CoordUtil;
use goban::pieces::goban::Goban;
use goban::pieces::neighbor::NeighborTable;
use goban::pieces::neighbors::{array_to_1_dim, get_neighbors, get_neighbors_point, init_neighbors_table, neighbor_points_center, neighbor_points_corner};
use goban::pieces::stones::{Color, Stone};
use goban::rules::deadstones::{chains_changed, PL};
use goban::rules::game::Game;
use goban::rules::{EndGame, GobanSizes, IllegalRules, Move, PlayError, CHINESE, JAPANESE};
use goban::sgf::error::SgfErrorKind;
use goban::sgf::node::GameNode;
use goban::sgf::parser::parse;
use goban::sgf::token::{Color as SgfColor, Outcome, SgfToken};

#[test]
fn token_read_back_after_write() {
    for (ident, value) in [
        ("KM", "6.50"),
        ("KM", "-0.5"),
        ("SZ", "13:9"),
        ("SZ", "19"),
        ("RE", "W+3.5"),
        ("RE", "B+Resign"),
        ("LB", "cd:x"),
        ("B", ""),
        ("AW", "sS"),
        ("FOO", "bar"),
        ("B", "zzz"),
        ("HA", "+4"),
    ] {
        let token = SgfToken::from_pair(ident, value);
        let text: String = SgfToken::from_pair(ident, value).into();
        let open = text.find('[').unwrap();
        let again = SgfToken::from_pair(&text[..open], &text[open + 1..text.len() - 1]);
        assert_eq!(token, again);
    }
}

#[test]
fn token_values_are_normalised_when_written() {
    let token = SgfToken::from_pair("KM", "6.50");
    assert_eq!(token, SgfToken::Komi(65));
    let text: String = token.into();
    assert_eq!(text, "KM[6.5]");
    let token = SgfToken::from_pair("RE", "B+Resign");
    assert_eq!(token, SgfToken::Result(Outcome::WinnerByResign(SgfColor::Black)));
    let text: String = token.into();
    assert_eq!(text, "RE[B+R]");
}

#[test]
fn invalid_and_unknown_tokens() {
    assert_eq!(
        SgfToken::from_pair("KM", "6.55"),
        SgfToken::Invalid(("KM".to_string(), "6.55".to_string()))
    );
    assert_eq!(
        SgfToken::from_pair("B", "a"),
        SgfToken::Invalid(("B".to_string(), "a".to_string()))
    );
    assert_eq!(
        SgfToken::from_pair("XX", "1"),
        SgfToken::Unknown(("XX".to_string(), "1".to_string()))
    );
}

#[test]
fn tree_written_back_is_the_source() {
    let sgf_source = "(;EV[event]PB[black]PW[white]C[comment];B[aa])";
    let tree = parse(sgf_source).unwrap();
    assert_eq!(tree.get_unknown_nodes().len(), 0);
    assert_eq!(tree.get_invalid_nodes().len(), 0);
    let sgf_string: String = tree.into();
    assert_eq!(sgf_source, sgf_string);
}

#[test]
fn tree_with_variations_written_back() {
    let src = "(;B[aa](;W[bb];B[cc])(;W[dd]))";
    let tree = parse(src).unwrap();
    assert_eq!(tree.count_max_nodes(), 3);
    assert_eq!(tree.get_varation_length(1), Ok(1));
    assert_eq!(tree.get_varation_length(2).unwrap_err().kind, SgfErrorKind::VariationNotFound);
    let text: String = tree.into();
    assert_eq!(text, src);
}

#[test]
fn parse_errors() {
    assert_eq!(parse("").unwrap_err().kind, SgfErrorKind::ParseError);
    assert_eq!(parse("(;B[aa]").unwrap_err().kind, SgfErrorKind::ParseError);
    assert_eq!(parse("()").unwrap_err().kind, SgfErrorKind::ParseError);
    assert_eq!(parse("(;B)").unwrap_err().kind, SgfErrorKind::ParseError);
    assert_eq!(parse(" (;B[aa])").unwrap_err().kind, SgfErrorKind::ParseError);
    assert_eq!(
        parse("(;B[aa](;SZ[19]))").unwrap_err().kind,
        SgfErrorKind::InvalidRootTokenPlacement
    );
    assert!(parse("(;SZ[19];B[aa]) trailing").is_ok());
}

#[test]
fn parse_several_values_and_spaces() {
    let tree = parse("(;AB[aa][bb]\n  ;W[cc] )").unwrap();
    assert_eq!(tree.nodes.len(), 2);
    assert_eq!(tree.nodes[0].tokens.len(), 2);
    assert_eq!(
        tree.nodes[0].tokens[1],
        SgfToken::Add { color: SgfColor::Black, coordinate: (2, 2) }
    );
}

#[test]
fn same_position_same_hash() {
    let mut a = Goban::new((9, 9));
    a.push((1, 1), Color::Black);
    a.push((2, 2), Color::White);
    let mut b = Goban::new((9, 9));
    b.push((2, 2), Color::White);
    b.push((1, 1), Color::Black);
    assert_eq!(a.zobrist_hash(), b.zobrist_hash());
    assert!(a == b);
    let mut c = Goban::new((9, 9));
    c.push((1, 1), Color::White);
    c.push((2, 2), Color::Black);
    assert_ne!(a.zobrist_hash(), c.zobrist_hash());
    assert!(a != c);
}

#[test]
fn pretty_string_of_a_small_goban() {
    let mut g = Goban::new((3, 3));
    g.push((1, 1), Color::Black);
    g.push((0, 2), Color::White);
    assert_eq!(g.pretty_string(), "┏┯○\n┠●┨\n┗┷┛\n");
}

#[test]
fn matrix_and_queries() {
    let mut g = Goban::new((19, 19));
    g.push((0, 1), Color::Black);
    g.push((1, 0), Color::White);
    let m = g.matrix();
    assert_eq!(m.len(), 19);
    assert_eq!(m[0][1], Some(Color::Black));
    assert_eq!(m[1][0], Some(Color::White));
    assert_eq!(g.get_empty_idx(), vec![1, 19]);
    assert_eq!(g.get_coords_by_color(Some(Color::White)), vec![(1, 0)]);
    assert_eq!(g.get_coords_by_color(None).len(), 359);
    assert_eq!(g.get_stones_by_color(Some(Color::Black)).len(), 1);
    let around = g.get_connected_points((0, 0));
    assert_eq!(around.len(), 2);
    let stones = g.get_connected_stones((0, 0));
    assert_eq!(stones.len(), 2);
    let chains = g.chains();
    let idx = chains.iter().position(|c| c.is_some()).unwrap();
    assert_eq!(g.chain_stones(idx).len(), 1);
}

#[test]
fn chain_stones_follow_the_chain() {
    let mut g = Goban::new((9, 9));
    g.push((0, 0), Color::Black);
    g.push((0, 1), Color::Black);
    g.push((0, 2), Color::Black);
    let idx = g.chains().iter().position(|c| c.is_some()).unwrap();
    let mut coords: Vec<_> = g.chain_stones(idx).iter().map(|s| s.coord).collect();
    coords.sort();
    assert_eq!(coords, vec![(0, 0), (0, 1), (0, 2)]);
}

#[test]
fn from_slice_rebuilds_the_goban() {
    let mut stones = vec![None; 9];
    stones[4] = Some(Color::Black);
    stones[0] = Some(Color::White);
    let g = Goban::from_slice(&stones);
    assert_eq!(g.size(), (3, 3));
    assert_eq!(g.get_color((1, 1)), Some(Color::Black));
    assert_eq!(g.get_color((0, 0)), Some(Color::White));
    assert_eq!(g.number_of_stones(), (1, 1));
}

#[test]
fn neighbor_tables() {
    assert_eq!(get_neighbors_point(0), vec![(0, 1), (1, 0)]);
    assert_eq!(get_neighbors(0), vec![1, 19]);
    assert_eq!(get_neighbors_point(1).len(), 3);
    assert_eq!(get_neighbors_point(20).len(), 4);
    assert_eq!(neighbor_points_center((5, 5)), [(6, 5), (4, 5), (5, 6), (5, 4)]);
    assert_eq!(neighbor_points_corner((18, 18)), [(17, 18), (18, 17)]);
    let t = NeighborTable::new(3);
    assert_eq!(t.get(4), &vec![7, 1, 5, 3]);
    assert_eq!(t.get_point((0, 0)), &vec![3, 1]);
}

#[test]
fn coord_util_round_trip() {
    let c = CoordUtil::new(19, 19);
    assert_eq!(c.to((3, 4)), 61);
    assert_eq!(c.from(61), (3, 4));
    let c = CoordUtil::new(2, 3);
    assert_eq!(c.to((0, 2)), 2);
    assert_eq!(c.to((1, 0)), 3);
    assert_eq!(c.to((1, 2)), 5);
    assert_eq!(c.from(3), (1, 0));
    let mut seen = vec![];
    for r in 0..2 {
        for k in 0..3 {
            let i = c.to((r, k));
            assert!(i < 6 && !seen.contains(&i));
            assert_eq!(c.from(i), (r, k));
            seen.push(i);
        }
    }
}

#[test]
fn play_errors() {
    let mut g = Game::new(GobanSizes::Nine, JAPANESE);
    g.try_play(Move::Play(4, 4)).unwrap();
    assert_eq!(g.try_play(Move::Play(4, 4)), Err(PlayError::PointNotEmpty));
    g.try_play(Move::Pass).unwrap();
    g.try_play(Move::Pass).unwrap();
    assert!(g.is_over());
    assert_eq!(g.try_play(Move::Play(0, 0)), Err(PlayError::GamePaused));
    g.resume();
    assert!(!g.is_over());
    assert_eq!(g.passes(), 0);
}

#[test]
fn fill_eye_refused_when_asked() {
    let mut g = Game::new(GobanSizes::Nine, CHINESE);
    for m in [(0, 1), (8, 8), (1, 0), (8, 7), (1, 1), (8, 6)] {
        g.play(Move::Play(m.0, m.1));
    }
    assert!(g.check_eye(Stone { coord: (0, 0), color: Color::Black }));
    assert_eq!(g.check_point_by((0, 0), IllegalRules::filleye()), Some(PlayError::FillEye));
    assert_eq!(g.check_point((0, 0)), None);
}

#[test]
fn resign_sets_the_winner() {
    let mut g = Game::new(GobanSizes::Nine, CHINESE);
    g.play(Move::Resign(Color::White));
    assert!(g.is_over());
    assert_eq!(g.outcome(), Some(EndGame::WinnerByResign(Color::White)));
}

#[test]
fn legal_points_are_empty() {
    let mut g = Game::new(GobanSizes::Nine, CHINESE);
    g.play(Move::Play(2, 2));
    g.play(Move::Play(3, 3));
    let legals = g.legals();
    assert_eq!(legals.len(), 79);
    for p in legals {
        assert_eq!(g.goban().get_color(p), None);
    }
    assert_eq!(g.pseudo_legals().len(), 79);
}

#[test]
fn random_playout_move() {
    let g = Game::new(GobanSizes::Nine, CHINESE);
    match PL::fast_play_random(&g) {
        Move::Play(x, y) => assert!(x < 9 && y < 9),
        m => panic!("unexpected {:?}", m),
    }
    assert_eq!(g.legals_moves().len(), 81);
    assert!(!g.is_final());
}

#[test]
fn builder_settings() {
    let g = Game::builder().size((9, 9)).komi(55).rule(JAPANESE).build().unwrap();
    assert_eq!(g.komi(), 55);
    assert_eq!(g.goban().size(), (9, 9));
    assert_eq!(g.turn(), Color::Black);
    let g = Game::builder().put_handicap(&[(2, 2), (6, 6)]).build().unwrap();
    assert_eq!(g.handicap(), 2);
    assert_eq!(g.turn(), Color::White);
    assert_eq!(g.goban().get_color((2, 2)), Some(Color::Black));
    assert_eq!(g.komi(), 75);
}

#[test]
fn builder_failures() {
    assert!(Game::builder().size((20, 20)).build().is_err());
    assert!(Game::builder()
        .add(Stone { coord: (1, 1), color: Color::Black })
        .add(Stone { coord: (1, 1), color: Color::White })
        .build()
        .is_err());
    assert!(Game::builder().moves(&[Move::Play(0, 0), Move::Play(0, 0)]).build().is_err());
    assert!(Game::builder().moves(&[Move::Play(0, 0), Move::Pass, Move::Play(0, 1)]).build().is_ok());
}

#[test]
fn builder_repeated_handicap_point() {
    let g = Game::builder().size((19, 19)).put_handicap(&[(3, 3), (3, 3)]).build().unwrap();
    assert_eq!(g.handicap(), 2);
    assert_eq!(g.goban().get_color((3, 3)), Some(Color::Black));
    assert_eq!(g.turn(), Color::White);
    let g = Game::builder()
        .add(Stone { coord: (2, 2), color: Color::White })
        .add(Stone { coord: (2, 2), color: Color::White })
        .build()
        .unwrap();
    assert_eq!(g.goban().get_color((2, 2)), Some(Color::White));
    assert_eq!(g.turn(), Color::Black);
}

#[test]
fn from_sgf_sets_up_and_replays() {
    let g = Game::from_sgf("(;SZ[9]KM[5.5]AB[aa]PL[W];W[ee];B[ce])").unwrap();
    assert_eq!(g.goban().size(), (9, 9));
    assert_eq!(g.komi(), 55);
    assert_eq!(g.goban().get_color((0, 0)), Some(Color::Black));
    assert_eq!(g.goban().get_color((4, 4)), Some(Color::White));
    assert_eq!(g.goban().get_color((4, 2)), Some(Color::Black));
    assert_eq!(g.turn(), Color::White);
    assert!(Game::from_sgf("(;SZ[9]PL[X])").is_err());
    assert!(Game::from_sgf("not sgf").is_err());
    assert!(Game::from_sgf("(;B[aa];SZ[9])").is_err());
}

#[test]
fn game_clone_is_equal() {
    let mut g = Game::new(GobanSizes::Nine, CHINESE);
    g.play(Move::Play(1, 1));
    let h = g.clone();
    assert!(g.goban() == h.goban());
    assert_eq!(g.turn(), h.turn());
    assert_eq!(g.last_hash(), h.last_hash());
}

#[test]
fn random_playout_moves_vary() {
    let g = Game::new(GobanSizes::Nine, CHINESE);
    let first = PL::fast_play_random(&g);
    let mut differs = false;
    for _ in 0..200 {
        if PL::fast_play_random(&g) != first {
            differs = true;
        }
    }
    assert!(differs);
}

#[test]
fn playout_to_the_end() {
    let mut g = Game::new(GobanSizes::Nine, CHINESE);
    let mut moves = 0;
    while !g.is_over() && moves < 1000 {
        let m = PL::fast_play_random(&g);
        assert!(g.can_play(m));
        g.play(m);
        moves += 1;
    }
    assert!(moves > 10);
}

#[test]
fn neighbor_tables_agree() {
    let (idx, pts, ranges) = init_neighbors_table();
    assert_eq!(idx.len(), 1368);
    assert_eq!(pts.len(), 1368);
    assert_eq!(ranges.len(), 361);
    assert_eq!(ranges[0].0, 0);
    assert_eq!(ranges[360].1, 1368);
    for i in 0..360 {
        assert_eq!(ranges[i].1, ranges[i + 1].0);
    }
    for i in 0..361 {
        let (a, b) = ranges[i];
        assert_eq!(pts[a..b].to_vec(), get_neighbors_point(i));
        assert_eq!(idx[a..b].to_vec(), get_neighbors(i));
    }
    assert_eq!(array_to_1_dim(&[(0, 0), (1, 2), (18, 18)]), vec![0, 21, 360]);
}

#[test]
fn valid_neighbor_coords() {
    assert_eq!(valid_coords((0, 0), (19, 19)).as_slice(), &[(1, 0), (0, 1)]);
    assert_eq!(valid_coords((5, 5), (19, 19)).len(), 4);
    assert_eq!(valid_coords((8, 0), (9, 9)).as_slice(), &[(7, 0), (8, 1)]);
    assert_eq!(24usize.into_coord((19, 19)), (1, 5));
    assert_eq!((1u8, 5u8).into_idx((19, 19)), 24);
}

#[test]
fn floating_stones_are_the_chains_without_two_eyes() {
    let mut b = Game::builder();
    b.size((5, 5));
    for c in [(0, 1), (1, 0), (1, 1), (2, 1), (3, 0), (3, 1), (4, 1)] {
        b.add(Stone { coord: c, color: Color::Black });
    }
    b.add(Stone { coord: (2, 3), color: Color::White });
    let g = b.build().unwrap();
    let floating = g.get_floating_stones();
    assert_eq!(floating.len(), 1);
    let stones = g.goban().chain_stones(floating[0]);
    assert_eq!(stones, vec![Stone { coord: (2, 3), color: Color::White }]);

    let mut b = Game::builder();
    b.size((5, 5));
    for c in [(0, 1), (1, 0), (1, 1)] {
        b.add(Stone { coord: c, color: Color::Black });
    }
    let g = b.build().unwrap();
    assert_eq!(g.get_floating_stones().len(), 1);
}

#[test]
fn iterator_follows_first_variations_then_stays_done() {
    let tree = parse("(;B[aa](;W[bb](;B[cc])(;B[dd]))(;W[ee]))").unwrap();
    let mut it = tree.iter();
    let mv = |c: SgfColor, x: u8, y: u8| GameNode { tokens: vec![SgfToken::Move { color: c, coordinate_or_pass: Some((x, y)) }] };
    assert_eq!(it.next(), Some(&mv(SgfColor::Black, 1, 1)));
    assert_eq!(it.next(), Some(&mv(SgfColor::White, 2, 2)));
    assert_eq!(it.next(), Some(&mv(SgfColor::Black, 3, 3)));
    assert_eq!(it.next(), None);
    assert_eq!(it.next(), None);
    let mut it = tree.iter();
    assert!(it.pick_variation(1).is_ok());
    assert_eq!(it.next(), Some(&mv(SgfColor::Black, 1, 1)));
    assert_eq!(it.next(), Some(&mv(SgfColor::White, 5, 5)));
    assert_eq!(it.next(), None);
}

#[test]
fn chains_changed_keeps_the_chains_that_lost_a_stone() {
    let start = Game::builder()
        .size((5, 5))
        .add(Stone { coord: (0, 0), color: Color::Black })
        .add(Stone { coord: (0, 1), color: Color::Black })
        .add(Stone { coord: (2, 2), color: Color::White })
        .build()
        .unwrap();
    let end = Game::builder()
        .size((5, 5))
        .add(Stone { coord: (0, 0), color: Color::Black })
        .add(Stone { coord: (2, 2), color: Color::White })
        .build()
        .unwrap();
    let slots: Vec<usize> = start
        .goban()
        .chains()
        .iter()
        .enumerate()
        .filter(|(_, c)| c.is_some())
        .map(|(i, _)| i)
        .collect();
    assert_eq!(slots.len(), 2);
    let changed = chains_changed(start.goban(), end.goban(), &slots);
    assert_eq!(changed.len(), 1);
    let stones = start.goban().chain_stones(changed[0]);
    assert!(stones.contains(&Stone { coord: (0, 1), color: Color::Black }));
    assert!(chains_changed(start.goban(), start.goban(), &slots).is_empty());
}
