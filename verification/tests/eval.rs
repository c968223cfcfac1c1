use shogi_core::Color;
use shogi_engine::eval::{
    bishop_mobility, enemy_king_vuln, eval_hand, evaluate, evaluate_full, evaluate_piece_table,
    lance_mobility, mobility, promoted_pieces, pst, rook_mobility,
};
use shogi_engine::model::EngineError;

const START: &str = "lnsgkgsnl/1r5b1/ppppppppp/9/9/9/PPPPPPPPP/1B5R1/LNSGKGSNL b - 1";
const MIDGAME: &str = "8l/1l+R2P3/p2pBG1pp/kps1p4/Nn1P2G2/P1P1P2PP/1pS6/1KSG3+r1/LN2+p3L w Sbgn3p 124";

#[test]
fn promoted_pieces_counts_each_side() {
    let prom = "lnsgkgs+nl/1+r5b1/ppppppppp/9/9/9/PPPPPPPPP/1B5R+L/L+N+SGKGSN1 w - 1";
    // black: +L, +N, +S; white: +n, +r
    assert_eq!(promoted_pieces(prom), (3, 2));
    assert_eq!(promoted_pieces(START), (0, 0));
}

#[test]
fn promoted_piece_scores_once_and_via_its_own_table() {
    // one promoted rook for black: counted once by the promoted-piece
    // sub-score, and scored by the promoted-rook table, not the rook table
    let s = "+R8/9/9/9/9/9/9/9/9 b - 1";
    assert_eq!(promoted_pieces(s), (1, 0));
    let black_pst = evaluate_piece_table(s, "black");
    let pro_rook_table = pst('E');
    let rook_table = pst('R');
    assert_eq!(black_pst, pro_rook_table[80] as i32);
    assert_ne!(black_pst, rook_table[80] as i32);
}

#[test]
fn piece_table_reads_own_view_per_side() {
    // a single white pawn on the first square scores the first pawn entry
    let w = "p8/9/9/9/9/9/9/9/9 b - 1";
    assert_eq!(evaluate_piece_table(w, "white"), pst('P')[0] as i32);
    assert_eq!(evaluate_piece_table(w, "black"), 0);
    // the black pawn lands on the last square of the reversed view
    let b = "P8/9/9/9/9/9/9/9/9 b - 1";
    assert_eq!(evaluate_piece_table(b, "black"), pst('P')[80] as i32);
    assert_eq!(evaluate_piece_table(b, "white"), 0);
    // any other color name scores nothing
    assert_eq!(evaluate_piece_table(b, "red"), 0);
}

#[test]
fn kings_score_nothing_in_the_tables() {
    assert_eq!(evaluate_piece_table("k8/9/9/9/9/9/9/9/8K b - 1", "white"), 0);
    assert_eq!(evaluate_piece_table("k8/9/9/9/9/9/9/9/8K b - 1", "black"), 0);
}

#[test]
fn hand_values_weigh_held_pieces() {
    // white holds a bishop (2), a gold (22), a knight (9) and three pawns
    // (nothing); black holds one silver (15)
    assert_eq!(eval_hand(MIDGAME), (33, 15));
    assert_eq!(eval_hand(START), (0, 0));
    // a count multiplies the weight that follows it
    assert_eq!(eval_hand("9/9/9/9/9/9/9/9/9 b 2L3g 1"), (66, 36));
}

#[test]
fn mobility_counts_destinations() {
    // the black rook on 2h can reach six squares, the lances one each, the
    // bishops none
    assert_eq!(mobility(START, "SQ_2H".to_string()), 6);
    assert_eq!(rook_mobility(START), (6, 6));
    assert_eq!(lance_mobility(START), (2, 2));
    assert_eq!(bishop_mobility(START), (0, 0));
}

#[test]
fn king_vulnerability_is_never_negative_and_deterministic() {
    for side in [Color::White, Color::Black] {
        let a = enemy_king_vuln(START, side).unwrap();
        let b = enemy_king_vuln(START, side).unwrap();
        assert_eq!(a, b);
        // an unsigned result: the index saturates at zero by construction
        assert!(a < u64::MAX);
    }
}

#[test]
fn king_vulnerability_requires_exactly_one_enemy_king() {
    assert_eq!(
        enemy_king_vuln("9/9/9/9/9/9/9/9/9 b - 1", Color::White),
        Err(EngineError::InvariantViolation)
    );
    assert_eq!(
        enemy_king_vuln("k3k4/9/9/9/9/9/9/9/4K4 b - 1", Color::Black),
        Err(EngineError::InvariantViolation)
    );
    assert_eq!(
        enemy_king_vuln("garbage", Color::White),
        Err(EngineError::MalformedEncoding)
    );
}

#[test]
fn evaluate_is_deterministic() {
    let a = evaluate(START).unwrap();
    let b = evaluate(START).unwrap();
    assert_eq!(a, b);
    let c = evaluate(MIDGAME).unwrap();
    let d = evaluate(MIDGAME).unwrap();
    assert_eq!(c, d);
}

#[test]
fn evaluate_propagates_errors() {
    assert_eq!(evaluate("garbage"), Err(EngineError::MalformedEncoding));
    assert_eq!(
        evaluate("9/9/9/9/9/9/9/9/9 b - 1"),
        Err(EngineError::InvariantViolation)
    );
    assert_eq!(
        evaluate("k8/9/9/9/9/9/9/9/9 b - 1"),
        Err(EngineError::InvariantViolation)
    );
}

#[test]
fn evaluate_full_breaks_out_the_features() {
    let out = evaluate_full(START).unwrap();
    assert_eq!(out.features.len(), 7);
    // no promoted pieces, empty hands, and the known mobility counts
    assert_eq!(out.features[0], (0, 0));
    assert_eq!(out.features[3], (6, 6));
    assert_eq!(out.features[4], (2, 2));
    assert_eq!(out.features[5], (0, 0));
    assert_eq!(out.features[6], (0, 0));
    // the fitness pair matches the plain evaluation
    assert_eq!(evaluate(START).unwrap(), (out.white, out.black));
}
