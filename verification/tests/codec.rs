use shogi_engine::codec::{decode, encode};
use shogi_engine::model::EngineError;
use shogi_engine::sfen::{convert_promoted_pieces, flip, flip_case, sfen_parse};

const START: &str = "lnsgkgsnl/1r5b1/ppppppppp/9/9/9/PPPPPPPPP/1B5R1/LNSGKGSNL b - 1";
const MIDGAME: &str = "8l/1l+R2P3/p2pBG1pp/kps1p4/Nn1P2G2/P1P1P2PP/1pS6/1KSG3+r1/LN2+p3L w Sbgn3p 124";

#[test]
fn decode_reads_every_field() {
    let p = decode(MIDGAME).unwrap();
    assert_eq!(p.board.len(), 81);
    assert_eq!(p.side, 1);
    assert_eq!(p.ply, 124);
    // black hand: one silver (kind order pawn..rook)
    assert_eq!(p.hand[0..7], [0, 0, 0, 1, 0, 0, 0]);
    // white hand: three pawns, a knight, a gold and a bishop
    assert_eq!(p.hand[7..14], [3, 0, 1, 0, 1, 1, 0]);
    // the black king stands on file 8, rank h: cell (8-1)*9 + (8-1)
    assert_eq!(p.board[(8 - 1) * 9 + 7], 8);
}

#[test]
fn decode_rejects_malformed_boards() {
    assert_eq!(decode("x").err(), Some(EngineError::MalformedEncoding));
    // ten files in one rank
    assert_eq!(
        decode("llnsgkgsnl/1r5b1/ppppppppp/9/9/9/PPPPPPPPP/1B5R1/LNSGKGSNL b - 1").err(),
        Some(EngineError::MalformedEncoding)
    );
    // eight ranks only
    assert_eq!(
        decode("lnsgkgsnl/1r5b1/ppppppppp/9/9/9/PPPPPPPPP/1B5R1 b - 1").err(),
        Some(EngineError::MalformedEncoding)
    );
    // a bad side letter
    assert_eq!(
        decode("lnsgkgsnl/1r5b1/ppppppppp/9/9/9/PPPPPPPPP/1B5R1/LNSGKGSNL x - 1").err(),
        Some(EngineError::MalformedEncoding)
    );
    // a promotion marker on a gold
    assert_eq!(
        decode("lnsgkgsnl/1r5b1/pppp+gpppp/9/9/9/PPPPPPPPP/1B5R1/LNSGKGSNL b - 1").err(),
        Some(EngineError::MalformedEncoding)
    );
}

#[test]
fn round_trip_is_exact_on_canonical_texts() {
    for s in [START, MIDGAME] {
        let p = decode(s).unwrap();
        assert_eq!(encode(&p), s);
    }
}

#[test]
fn round_trip_canonicalizes_digit_runs() {
    // "45" denotes the same nine empty squares as "9"
    let loose = "lnsgkgsnl/1r5b1/ppppppppp/45/9/9/PPPPPPPPP/1B5R1/LNSGKGSNL b - 1";
    let p = decode(loose).unwrap();
    assert_eq!(encode(&p), START);
    // the re-encoded text decodes to the same fields
    let q = decode(&encode(&p)).unwrap();
    assert_eq!(p.board, q.board);
    assert_eq!(p.side, q.side);
    assert_eq!(p.ply, q.ply);
    assert_eq!(p.hand, q.hand);
}

#[test]
fn case_flip_swaps_the_sides() {
    assert_eq!(flip_case("aZ9+/ K"), "Az9+/ k");
}

#[test]
fn case_flip_twice_is_identity() {
    for s in [START, MIDGAME, "", "+P7k/9 b - 1"] {
        assert_eq!(flip_case(&flip_case(s)), s);
    }
}

#[test]
fn flip_reverses_the_board_field_only() {
    assert_eq!(
        flip("lnsgkgsnl/1r5b1/ppppppppp/9/9/9/PPPPPPPPP/1B5R1/LNSGKGSNL b - 1"),
        "LNSGKGSNL/1R5B1/PPPPPPPPP/9/9/9/ppppppppp/1b5r1/lnsgkgsnl b - 1"
    );
}

#[test]
fn promotion_markers_collapse_to_stand_ins() {
    assert_eq!(convert_promoted_pieces("+P+L+N+S+B+R"), "ZXYQWE");
    assert_eq!(convert_promoted_pieces("+p+l+n+s+b+r"), "zxyqwe");
    // an unknown follower is kept, the marker dropped
    assert_eq!(convert_promoted_pieces("a+Gb"), "aGb");
    // a trailing marker vanishes
    assert_eq!(convert_promoted_pieces("P+"), "P");
}

#[test]
fn sfen_parse_names_every_square() {
    let pairs = sfen_parse(START);
    assert_eq!(pairs.len(), 81);
    assert_eq!(pairs[0], ("SQ_9A".to_string(), "W_L".to_string()));
    assert_eq!(pairs[4], ("SQ_5A".to_string(), "W_K".to_string()));
    assert_eq!(pairs[80], ("SQ_1I".to_string(), "B_L".to_string()));
    // an empty square skipped by a digit holds three spaces
    assert_eq!(pairs[9], ("SQ_9B".to_string(), "   ".to_string()));
    assert_eq!(pairs[10], ("SQ_8B".to_string(), "W_R".to_string()));
}

#[test]
fn sfen_parse_collapses_promotions() {
    let pairs = sfen_parse("+R8/9/9/9/9/9/9/9/9 b - 1");
    assert_eq!(pairs[0], ("SQ_9A".to_string(), "B_PR".to_string()));
}
