use shogi_core::Color;
use shogi_engine::codec::decode;
use shogi_engine::model::EngineError;
use shogi_engine::search::{
    build_oracle_pos, has_duplicates, minimax, perft, search, single_search, treesearch,
};
use shogi_engine::eval::evaluate;
use shogi_engine::oracle::to_sfen;
use shogi_engine::sfen::{generate_pos, get_color, get_enemy_color, sfen_parse};

const START: &str = "lnsgkgsnl/1r5b1/ppppppppp/9/9/9/PPPPPPPPP/1B5R1/LNSGKGSNL b - 1";

#[test]
fn perft_counts_the_known_start_values() {
    assert_eq!(perft(START, 0), Ok(1));
    assert_eq!(perft(START, 1), Ok(30));
    assert_eq!(perft(START, 2), Ok(900));
}

#[test]
fn perft_rejects_malformed_texts() {
    assert_eq!(perft("garbage", 3), Err(EngineError::MalformedEncoding));
}

#[test]
fn perft_is_deterministic() {
    assert_eq!(perft(START, 2), perft(START, 2));
}

#[test]
fn perft_depth_one_matches_the_move_count() {
    let (texts, moves) = single_search(START);
    assert_eq!(perft(START, 1), Ok(moves.len() as u64));
    assert_eq!(texts.len(), moves.len());
}

#[test]
fn perft_is_consistent_across_depths() {
    // the count at depth two is the sum over every child of its count one
    // ply shallower
    let (texts, _) = single_search(START);
    let mut total: u64 = 0;
    for t in &texts {
        total += perft(t, 1).unwrap();
    }
    assert_eq!(perft(START, 2), Ok(total));
}

#[test]
fn tree_leaves_sit_at_the_depth_limit() {
    let tree = treesearch(START, 2, 0, None).unwrap();
    assert_eq!(tree.sfen, START);
    assert!(tree.game_move.is_none());
    // one child per legal move, each labelled with its move
    assert_eq!(tree.children.len(), 30);
    for child in &tree.children {
        assert!(child.game_move.is_some());
        // every inner node again has one child per legal move of its own
        // position
        let (texts, _) = single_search(&child.sfen);
        assert_eq!(child.children.len(), texts.len());
        // the depth limit makes all grandchildren leaves
        for grand in &child.children {
            assert!(grand.children.is_empty());
        }
    }
}

#[test]
fn tree_search_rejects_malformed_roots() {
    assert!(matches!(
        treesearch("garbage", 2, 0, None),
        Err(EngineError::MalformedEncoding)
    ));
}

#[test]
fn one_ply_backup_returns_the_root_evaluation() {
    let tree = treesearch(START, 1, 1, None).unwrap();
    let (pair, mv, features, text) = minimax(&tree, 1, Color::Black).unwrap();
    assert_eq!(pair, evaluate(START).unwrap());
    assert!(mv.is_none());
    assert_eq!(features.len(), 7);
    assert_eq!(text, START);
}

#[test]
fn deeper_backup_picks_a_move() {
    let tree = treesearch(START, 2, 0, None).unwrap();
    let (_, mv, features, text) = minimax(&tree, 2, Color::Black).unwrap();
    assert!(mv.is_some());
    assert_eq!(features.len(), 7);
    // the chosen text is one of the children's positions
    assert!(tree.children.iter().any(|c| c.sfen == text));
}

#[test]
fn flat_search_collects_all_leaves() {
    let leaves = search(START, 1, 0);
    assert_eq!(leaves.len(), 30);
    assert!(!has_duplicates(&leaves));
    let two = search(START, 2, 0);
    assert_eq!(two.len(), 900);
}

#[test]
fn duplicate_detection_sees_repeats() {
    let distinct = vec!["a".to_string(), "b".to_string(), "c".to_string()];
    assert!(!has_duplicates(&distinct));
    let repeated = vec!["a".to_string(), "b".to_string(), "a".to_string()];
    assert!(has_duplicates(&repeated));
}

#[test]
fn rebuilt_positions_reencode_to_the_start_text() {
    let rec = decode(START).unwrap();
    let pos = build_oracle_pos(&rec);
    assert_eq!(to_sfen(&pos), START);
}

#[test]
fn generate_pos_places_the_parsed_pairs() {
    let pairs = sfen_parse(START);
    let mut pos = generate_pos(pairs);
    shogi_engine::oracle::set_side(&mut pos, false);
    assert_eq!(to_sfen(&pos), START);
}

#[test]
fn color_getters_read_the_side_field() {
    assert_eq!(get_color(START), Color::Black);
    assert_eq!(get_enemy_color(START), Color::White);
    let white_to_move = "lnsgkgsnl/1r5b1/ppppppppp/9/9/9/PPPPPPPPP/1B5R1/LNSGKGSNL w - 2";
    assert_eq!(get_color(white_to_move), Color::White);
    assert_eq!(get_enemy_color(white_to_move), Color::Black);
}
