//! The static evaluator: six weighted features, computed independently per
//! side from a position text.

use vstd::prelude::*;

use shogi_core::{Color, PartialPosition};

use crate::codec::decode;
use crate::model::{
    split_char, digit_val, ints_of, clip_u32, valid_text, decode_state, text_ostate, EngineError,
    SIDE_IDX,
};
use crate::oracle::{
    color_white, is_white, legal_moves, move_is_promotion, move_promotes, move_to_index,
    move_to_sq, oracle_moves, ostate, reach_count, reachable_count, set_cell, set_side,
    normal_probe, probe_normal,
};
use crate::search::{build_oracle_pos, clip_u64};
use crate::sfen::{convert_promoted_spec, flip_case_spec, flip_spec};

verus! {

/// Weight of each piece kind held in hand.
pub open spec fn hand_weight(c: char) -> int {
    if c == 'p' || c == 'P' { 0 }
    else if c == 'l' || c == 'L' { 18 }
    else if c == 'n' || c == 'N' { 9 }
    else if c == 's' || c == 'S' { 15 }
    else if c == 'g' || c == 'G' { 22 }
    else if c == 'r' || c == 'R' { 18 }
    else if c == 'b' || c == 'B' { 2 }
    else { 0 }
}

/// Whether `c` is an ASCII capital letter.
pub open spec fn is_upper(c: char) -> bool {
    'A' <= c <= 'Z'
}

/// Whether `c` is an ASCII small letter.
pub open spec fn is_lower(c: char) -> bool {
    'a' <= c <= 'z'
}

/// Whether `c` is any decimal digit.
pub open spec fn is_digit10(c: char) -> bool {
    '0' <= c <= '9'
}

// ---------------------------------------------------------------------------
// Promoted pieces
// ---------------------------------------------------------------------------

/// How many promotion markers are followed by a capital (for black) or a
/// small (for white) letter.
pub open spec fn promoted_count(s: Seq<char>, black: bool) -> nat
    decreases s.len(),
{
    if s.len() <= 1 {
        0
    } else {
        (if s[0] == '+' && (if black {
            is_upper(s[1])
        } else {
            is_lower(s[1])
        }) {
            1nat
        } else {
            0nat
        }) + promoted_count(s.skip(1), black)
    }
}

/// Counts the promoted pieces of each side: occurrences of the promotion
/// marker followed by a capital letter (black) or a small letter (white).
/// Returns (black, white).
pub fn promoted_pieces(sfen: &str) -> (r: (u32, u32))
    requires
        sfen@.len() == 0 || sfen@[sfen@.len() - 1] != '+',
        sfen@.len() <= 0xffff_ffff,
    ensures
        r.0 as nat == promoted_count(sfen@, true),
        r.1 as nat == promoted_count(sfen@, false),
{
    let v = crate::codec::str_to_chars(sfen);
    let n = v.len();
    let mut black: u32 = 0;
    let mut white: u32 = 0;
    let mut i: usize = 0;
    proof {
        assert(sfen@.skip(0) =~= sfen@);
    }
    while i < n
        invariant
            v@ == sfen@,
            n == v@.len() <= 0xffff_ffff,
            sfen@.len() == 0 || sfen@[sfen@.len() - 1] != '+',
            0 <= i <= n,
            black as nat + promoted_count(sfen@.skip(i as int), true) == promoted_count(
                sfen@,
                true,
            ),
            white as nat + promoted_count(sfen@.skip(i as int), false) == promoted_count(
                sfen@,
                false,
            ),
            black <= i,
            white <= i,
        decreases n - i,
    {
        let c = v[i];
        proof {
            assert(sfen@.skip(i as int)[0] == c);
            assert(sfen@.skip(i as int).skip(1) =~= sfen@.skip(i + 1 as int));
        }
        if c == '+' {
            proof {
                assert(i + 1 < n);
                assert(sfen@.skip(i as int)[1] == v@[i + 1 as int]);
            }
            let nxt = v[i + 1];
            if 'A' <= nxt && nxt <= 'Z' {
                black = black + 1;
            }
            if 'a' <= nxt && nxt <= 'z' {
                white = white + 1;
            }
        } else {
            proof {
                if sfen@.skip(i as int).len() > 1 {
                    assert(sfen@.skip(i as int)[0] != '+');
                }
            }
        }
        i = i + 1;
    }
    proof {
        assert(promoted_count(sfen@.skip(n as int), true) == 0);
        assert(promoted_count(sfen@.skip(n as int), false) == 0);
    }
    (black, white)
}

// ---------------------------------------------------------------------------
// Pieces in hand
// ---------------------------------------------------------------------------

/// The weighted value of the hand entries of one side, read left to right:
/// a digit replaces the pending count, any other character books its weight
/// times the pending count (one when no digit is pending) to the side its
/// case selects, and clears the count.
pub open spec fn hand_value(s: Seq<char>, cur: Option<int>, black: bool) -> nat
    decreases s.len(),
{
    if s.len() == 0 {
        0
    } else if is_digit10(s[0]) {
        hand_value(s.skip(1), Some(digit_val(s[0])), black)
    } else {
        let cnt = match cur {
            Option::Some(n) => n,
            Option::None => 1,
        };
        let scored = if black {
            is_upper(s[0])
        } else {
            !is_upper(s[0])
        };
        (if scored && 0 <= cnt {
            (hand_weight(s[0]) * cnt) as nat
        } else {
            0nat
        }) + hand_value(s.skip(1), Option::None, black)
    }
}

/// The exec weight of one hand letter.
fn hand_weight_exec(c: char) -> (r: u32)
    ensures
        r as int == hand_weight(c),
        r <= 22,
{
    match c {
        'l' | 'L' => 18,
        'n' | 'N' => 9,
        's' | 'S' => 15,
        'g' | 'G' => 22,
        'r' | 'R' => 18,
        'b' | 'B' => 2,
        _ => 0,
    }
}

/// Sums the weighted pieces each side holds in hand, from the third
/// space-separated field of the text: count-prefixed letters, capitals for
/// black and smalls for white. Returns (white, black); each total saturates
/// at the largest 32-bit value.
pub fn eval_hand(sfen: &str) -> (r: (u32, u32))
    requires
        split_char(sfen@, ' ').len() >= 3,
    ensures
        r.0 as nat == clip_u32(hand_value(split_char(sfen@, ' ')[2], Option::None, false)),
        r.1 as nat == clip_u32(hand_value(split_char(sfen@, ' ')[2], Option::None, true)),
{
    let cs = crate::codec::str_to_chars(sfen);
    let parts = crate::codec::split_chars(&cs, ' ');
    let field = &parts[2];
    let ghost f = split_char(sfen@, ' ')[2];
    proof {
        assert(field@ == f);
        assert(f.skip(0) =~= f);
    }
    let n = field.len();
    let mut white: u32 = 0;
    let mut black: u32 = 0;
    let mut count: u32 = 0;
    let mut has_count: bool = false;
    let ghost wspec = hand_value(f, Option::None, false);
    let ghost bspec = hand_value(f, Option::None, true);
    let mut i: usize = 0;
    while i < n
        invariant
            field@ == f,
            n == f.len(),
            0 <= i <= n,
            wspec == hand_value(f, Option::None, false),
            bspec == hand_value(f, Option::None, true),
            count <= 9,
            white as nat == clip_u32(
                (wspec - hand_value(
                    f.skip(i as int),
                    if has_count {
                        Option::Some(count as int)
                    } else {
                        Option::None
                    },
                    false,
                )) as nat,
            ),
            black as nat == clip_u32(
                (bspec - hand_value(
                    f.skip(i as int),
                    if has_count {
                        Option::Some(count as int)
                    } else {
                        Option::None
                    },
                    true,
                )) as nat,
            ),
            hand_value(
                f.skip(i as int),
                if has_count {
                    Option::Some(count as int)
                } else {
                    Option::None
                },
                false,
            ) <= wspec,
            hand_value(
                f.skip(i as int),
                if has_count {
                    Option::Some(count as int)
                } else {
                    Option::None
                },
                true,
            ) <= bspec,
        decreases n - i,
    {
        let c = field[i];
        proof {
            assert(f.skip(i as int)[0] == c);
            assert(f.skip(i as int).skip(1) =~= f.skip(i + 1 as int));
        }
        if '0' <= c && c <= '9' {
            count = (c as u8 - 48) as u32;
            has_count = true;
        } else {
            let cnt = if has_count {
                count
            } else {
                1
            };
            let w = hand_weight_exec(c);
            proof {
                assert(w as int * cnt as int <= 198) by (nonlinear_arith)
                    requires
                        w <= 22,
                        cnt <= 9,
                ;
            }
            let add = w * cnt;
            if 'A' <= c && c <= 'Z' {
                black = saturating_add_u32(black, add);
            } else {
                white = saturating_add_u32(white, add);
            }
            count = 0;
            has_count = false;
        }
        i = i + 1;
    }
    proof {
        assert(f.skip(n as int).len() == 0);
    }
    (white, black)
}

/// Adds two 32-bit counters, stopping at the largest 32-bit value.
fn saturating_add_u32(a: u32, b: u32) -> (r: u32)
    ensures
        r as nat == clip_u32(a as nat + b as nat),
{
    if a <= u32::MAX - b {
        a + b
    } else {
        u32::MAX
    }
}


/// The 81 piece-square weights looked up for the letter 'P'.
pub open spec fn pst_pawn() -> Seq<int> {
    seq![
        3, 19, 9, 4, 28, 0, 3, 31, 6,
        8, 1, 26, 0, 16, 0, 10, 20, 22,
        24, 16, 3, 3, 29, 8, 9, 30, 4,
        28, 3, 5, 17, 15, 3, 1, 0, 1,
        13, 3, 21, 29, 3, 24, 29, 1, 17,
        27, 14, 23, 12, 16, 18, 4, 27, 28,
        14, 14, 24, 17, 5, 22, 16, 26, 10,
        29, 28, 0, 29, 11, 6, 8, 31, 9,
        9, 19, 23, 6, 11, 7, 3, 30, 26,
    ]
}

/// The 81 piece-square weights looked up for the letter 'L'.
pub open spec fn pst_lance() -> Seq<int> {
    seq![
        12, 3, 24, 25, 5, 13, 30, 29, 23,
        25, 14, 18, 26, 11, 18, 6, 18, 2,
        8, 26, 0, 3, 7, 4, 0, 22, 4,
        20, 27, 18, 16, 28, 6, 17, 1, 30,
        6, 12, 14, 14, 12, 28, 13, 9, 18,
        5, 25, 5, 18, 3, 18, 21, 0, 6,
        6, 15, 26, 26, 27, 2, 10, 15, 4,
        0, 7, 13, 21, 6, 2, 10, 19, 1,
        2, 19, 15, 12, 12, 2, 5, 19, 2,
    ]
}

/// The 81 piece-square weights looked up for the letter 'N'.
pub open spec fn pst_knight() -> Seq<int> {
    seq![
        8, 3, 19, 27, 8, 0, 3, 29, 16,
        17, 22, 17, 12, 4, 13, 27, 28, 28,
        8, 9, 6, 15, 23, 21, 2, 14, 28,
        16, 16, 28, 12, 26, 24, 0, 13, 18,
        24, 24, 25, 15, 12, 29, 5, 7, 31,
        20, 10, 20, 26, 24, 29, 16, 16, 1,
        21, 23, 10, 27, 31, 2, 12, 12, 5,
        8, 27, 27, 7, 19, 20, 19, 14, 19,
        29, 4, 28, 8, 3, 7, 28, 0, 24,
    ]
}

/// The 81 piece-square weights looked up for the letter 'S'.
pub open spec fn pst_silver() -> Seq<int> {
    seq![
        3, 1, 24, 30, 21, 15, 11, 24, 8,
        11, 0, 25, 29, 5, 11, 30, 29, 24,
        6, 30, 29, 18, 7, 14, 24, 23, 30,
        16, 4, 19, 12, 8, 29, 26, 0, 23,
        6, 22, 31, 10, 22, 7, 19, 2, 9,
        29, 6, 15, 21, 29, 13, 2, 1, 29,
        20, 28, 13, 2, 5, 0, 5, 31, 23,
        21, 26, 17, 6, 14, 1, 10, 22, 10,
        8, 19, 7, 10, 15, 24, 22, 11, 10,
    ]
}

/// The 81 piece-square weights looked up for the letter 'G'.
pub open spec fn pst_gold() -> Seq<int> {
    seq![
        11, 22, 26, 18, 9, 14, 19, 16, 30,
        13, 6, 23, 3, 29, 2, 8, 18, 5,
        11, 26, 1, 5, 12, 1, 2, 13, 29,
        15, 2, 13, 5, 22, 3, 8, 21, 3,
        5, 0, 7, 1, 11, 2, 26, 1, 29,
        13, 5, 17, 10, 17, 26, 13, 6, 13,
        11, 23, 18, 21, 20, 19, 29, 0, 16,
        12, 8, 30, 14, 14, 15, 28, 2, 9,
        1, 21, 21, 3, 25, 20, 12, 0, 0,
    ]
}

/// The 81 piece-square weights looked up for the letter 'R'.
pub open spec fn pst_rook() -> Seq<int> {
    seq![
        2, 2, 29, 8, 18, 20, 2, 22, 26,
        26, 6, 11, 28, 2, 13, 20, 29, 30,
        28, 23, 30, 6, 20, 6, 10, 4, 5,
        17, 10, 20, 20, 3, 20, 16, 11, 21,
        25, 9, 9, 6, 9, 26, 24, 5, 27,
        1, 10, 16, 4, 13, 14, 25, 26, 10,
        25, 9, 29, 9, 6, 4, 1, 31, 5,
        0, 30, 10, 28, 20, 28, 12, 22, 25,
        7, 11, 14, 13, 4, 12, 7, 12, 0,
    ]
}

/// The 81 piece-square weights looked up for the letter 'B'.
pub open spec fn pst_bishop() -> Seq<int> {
    seq![
        28, 2, 7, 2, 8, 7, 21, 25, 8,
        13, 5, 0, 12, 12, 14, 15, 14, 2,
        9, 25, 11, 18, 8, 29, 15, 21, 22,
        4, 23, 28, 10, 31, 13, 2, 1, 18,
        0, 25, 14, 22, 4, 1, 24, 18, 1,
        25, 17, 26, 6, 21, 3, 12, 5, 24,
        30, 3, 13, 16, 9, 23, 22, 3, 16,
        25, 29, 25, 4, 31, 9, 15, 1, 30,
        1, 13, 19, 8, 13, 6, 13, 24, 12,
    ]
}

/// The 81 piece-square weights looked up for the letter 'W'.
pub open spec fn pst_pro_bishop() -> Seq<int> {
    seq![
        31, 30, 22, 4, 0, 2, 24, 21, 31,
        30, 22, 5, 2, 8, 4, 1, 18, 3,
        6, 30, 19, 2, 16, 28, 19, 24, 3,
        23, 22, 22, 7, 3, 17, 7, 26, 1,
        7, 23, 24, 29, 21, 30, 16, 2, 28,
        21, 27, 8, 30, 17, 15, 30, 20, 5,
        1, 11, 26, 28, 8, 8, 25, 26, 23,
        6, 8, 15, 0, 4, 29, 12, 30, 12,
        20, 12, 7, 24, 7, 27, 13, 10, 5,
    ]
}

/// The 81 piece-square weights looked up for the letter 'E'.
pub open spec fn pst_pro_rook() -> Seq<int> {
    seq![
        21, 0, 6, 13, 31, 28, 6, 2, 31,
        8, 19, 30, 2, 25, 0, 4, 9, 17,
        10, 28, 18, 2, 31, 6, 20, 18, 6,
        8, 24, 31, 6, 2, 25, 7, 20, 2,
        22, 17, 25, 23, 15, 18, 19, 0, 27,
        23, 20, 24, 31, 26, 11, 6, 19, 8,
        11, 0, 2, 7, 7, 2, 29, 31, 5,
        8, 10, 13, 6, 26, 19, 16, 25, 28,
        15, 30, 1, 30, 20, 25, 11, 31, 23,
    ]
}

/// The table the given letter selects; empty for any other letter.
pub open spec fn pst_table_spec(piece: char) -> Seq<int> {
    match piece {
        'P' => pst_pawn(),
        'L' => pst_lance(),
        'N' => pst_knight(),
        'S' => pst_silver(),
        'G' => pst_gold(),
        'R' => pst_rook(),
        'B' => pst_bishop(),
        'W' => pst_pro_bishop(),
        'E' => pst_pro_rook(),
        _ => Seq::<int>::empty(),
    }
}

/// The piece-square table of one piece letter, as the evaluator reads it:
/// 81 weights in board reading order. Letters without a table give an
/// empty vector.
pub fn pst(piece: char) -> (r: Vec<u8>)
    ensures
        ints_of(r@) == pst_table_spec(piece),
        r@.len() == pst_table_spec(piece).len(),
{
    let t: Vec<u8> = match piece {
        'P' => vec![
            3, 19, 9, 4, 28, 0, 3, 31, 6,
            8, 1, 26, 0, 16, 0, 10, 20, 22,
            24, 16, 3, 3, 29, 8, 9, 30, 4,
            28, 3, 5, 17, 15, 3, 1, 0, 1,
            13, 3, 21, 29, 3, 24, 29, 1, 17,
            27, 14, 23, 12, 16, 18, 4, 27, 28,
            14, 14, 24, 17, 5, 22, 16, 26, 10,
            29, 28, 0, 29, 11, 6, 8, 31, 9,
            9, 19, 23, 6, 11, 7, 3, 30, 26,
        ],
        'L' => vec![
            12, 3, 24, 25, 5, 13, 30, 29, 23,
            25, 14, 18, 26, 11, 18, 6, 18, 2,
            8, 26, 0, 3, 7, 4, 0, 22, 4,
            20, 27, 18, 16, 28, 6, 17, 1, 30,
            6, 12, 14, 14, 12, 28, 13, 9, 18,
            5, 25, 5, 18, 3, 18, 21, 0, 6,
            6, 15, 26, 26, 27, 2, 10, 15, 4,
            0, 7, 13, 21, 6, 2, 10, 19, 1,
            2, 19, 15, 12, 12, 2, 5, 19, 2,
        ],
        'N' => vec![
            8, 3, 19, 27, 8, 0, 3, 29, 16,
            17, 22, 17, 12, 4, 13, 27, 28, 28,
            8, 9, 6, 15, 23, 21, 2, 14, 28,
            16, 16, 28, 12, 26, 24, 0, 13, 18,
            24, 24, 25, 15, 12, 29, 5, 7, 31,
            20, 10, 20, 26, 24, 29, 16, 16, 1,
            21, 23, 10, 27, 31, 2, 12, 12, 5,
            8, 27, 27, 7, 19, 20, 19, 14, 19,
            29, 4, 28, 8, 3, 7, 28, 0, 24,
        ],
        'S' => vec![
            3, 1, 24, 30, 21, 15, 11, 24, 8,
            11, 0, 25, 29, 5, 11, 30, 29, 24,
            6, 30, 29, 18, 7, 14, 24, 23, 30,
            16, 4, 19, 12, 8, 29, 26, 0, 23,
            6, 22, 31, 10, 22, 7, 19, 2, 9,
            29, 6, 15, 21, 29, 13, 2, 1, 29,
            20, 28, 13, 2, 5, 0, 5, 31, 23,
            21, 26, 17, 6, 14, 1, 10, 22, 10,
            8, 19, 7, 10, 15, 24, 22, 11, 10,
        ],
        'G' => vec![
            11, 22, 26, 18, 9, 14, 19, 16, 30,
            13, 6, 23, 3, 29, 2, 8, 18, 5,
            11, 26, 1, 5, 12, 1, 2, 13, 29,
            15, 2, 13, 5, 22, 3, 8, 21, 3,
            5, 0, 7, 1, 11, 2, 26, 1, 29,
            13, 5, 17, 10, 17, 26, 13, 6, 13,
            11, 23, 18, 21, 20, 19, 29, 0, 16,
            12, 8, 30, 14, 14, 15, 28, 2, 9,
            1, 21, 21, 3, 25, 20, 12, 0, 0,
        ],
        'R' => vec![
            2, 2, 29, 8, 18, 20, 2, 22, 26,
            26, 6, 11, 28, 2, 13, 20, 29, 30,
            28, 23, 30, 6, 20, 6, 10, 4, 5,
            17, 10, 20, 20, 3, 20, 16, 11, 21,
            25, 9, 9, 6, 9, 26, 24, 5, 27,
            1, 10, 16, 4, 13, 14, 25, 26, 10,
            25, 9, 29, 9, 6, 4, 1, 31, 5,
            0, 30, 10, 28, 20, 28, 12, 22, 25,
            7, 11, 14, 13, 4, 12, 7, 12, 0,
        ],
        'B' => vec![
            28, 2, 7, 2, 8, 7, 21, 25, 8,
            13, 5, 0, 12, 12, 14, 15, 14, 2,
            9, 25, 11, 18, 8, 29, 15, 21, 22,
            4, 23, 28, 10, 31, 13, 2, 1, 18,
            0, 25, 14, 22, 4, 1, 24, 18, 1,
            25, 17, 26, 6, 21, 3, 12, 5, 24,
            30, 3, 13, 16, 9, 23, 22, 3, 16,
            25, 29, 25, 4, 31, 9, 15, 1, 30,
            1, 13, 19, 8, 13, 6, 13, 24, 12,
        ],
        'W' => vec![
            31, 30, 22, 4, 0, 2, 24, 21, 31,
            30, 22, 5, 2, 8, 4, 1, 18, 3,
            6, 30, 19, 2, 16, 28, 19, 24, 3,
            23, 22, 22, 7, 3, 17, 7, 26, 1,
            7, 23, 24, 29, 21, 30, 16, 2, 28,
            21, 27, 8, 30, 17, 15, 30, 20, 5,
            1, 11, 26, 28, 8, 8, 25, 26, 23,
            6, 8, 15, 0, 4, 29, 12, 30, 12,
            20, 12, 7, 24, 7, 27, 13, 10, 5,
        ],
        'E' => vec![
            21, 0, 6, 13, 31, 28, 6, 2, 31,
            8, 19, 30, 2, 25, 0, 4, 9, 17,
            10, 28, 18, 2, 31, 6, 20, 18, 6,
            8, 24, 31, 6, 2, 25, 7, 20, 2,
            22, 17, 25, 23, 15, 18, 19, 0, 27,
            23, 20, 24, 31, 26, 11, 6, 19, 8,
            11, 0, 2, 7, 7, 2, 29, 31, 5,
            8, 10, 13, 6, 26, 19, 16, 25, 28,
            15, 30, 1, 30, 20, 25, 11, 31, 23,
        ],
        _ => Vec::new(),
    };
    proof {
        assert(ints_of(t@) =~= pst_table_spec(piece));
    }
    t
}

// ---------------------------------------------------------------------------
// Piece-square scoring
// ---------------------------------------------------------------------------

/// `s` with every rank separator removed.
pub open spec fn remove_slashes(s: Seq<char>) -> Seq<char>
    decreases s.len(),
{
    if s.len() == 0 {
        Seq::<char>::empty()
    } else if s[0] == '/' {
        remove_slashes(s.skip(1))
    } else {
        seq![s[0]] + remove_slashes(s.skip(1))
    }
}

/// `s` with every digit replaced by that many empty-square markers.
pub open spec fn expand_cells(s: Seq<char>) -> Seq<char>
    decreases s.len(),
{
    if s.len() == 0 {
        Seq::<char>::empty()
    } else if is_digit10(s[0]) {
        Seq::new(digit_val(s[0]) as nat, |i: int| '*') + expand_cells(s.skip(1))
    } else {
        seq![s[0]] + expand_cells(s.skip(1))
    }
}

/// The square-by-square cell characters the piece-square scorer walks: the
/// board field of the text, rank separators removed, promotion markers
/// collapsed, digits expanded to empty-square markers.
pub open spec fn pst_cells(s: Seq<char>) -> Seq<char> {
    expand_cells(convert_promoted_spec(remove_slashes(split_char(s, ' ')[0])))
}

/// The view of the text that scores black with white's tables: promotion
/// markers collapsed, every letter's case swapped, and the board field
/// reversed.
pub open spec fn black_view(s: Seq<char>) -> Seq<char> {
    flip_spec(flip_case_spec(convert_promoted_spec(s)))
}

/// The weight one cell character contributes at board index `idx`: small
/// letters are looked up in their kind's table (promoted pawn, lance,
/// knight and silver share the gold table); anything else scores nothing.
pub open spec fn pst_val(c: char, idx: int) -> int {
    if !(0 <= idx < 81) {
        0
    } else if c == 'p' { pst_table_spec('P')[idx] }
    else if c == 'l' { pst_table_spec('L')[idx] }
    else if c == 'n' { pst_table_spec('N')[idx] }
    else if c == 's' { pst_table_spec('S')[idx] }
    else if c == 'g' { pst_table_spec('G')[idx] }
    else if c == 'r' { pst_table_spec('R')[idx] }
    else if c == 'b' { pst_table_spec('B')[idx] }
    else if c == 'e' { pst_table_spec('E')[idx] }
    else if c == 'w' { pst_table_spec('W')[idx] }
    else if c == 'z' || c == 'x' || c == 'y' || c == 'q' { pst_table_spec('G')[idx] }
    else { 0 }
}

/// The piece-square score of the first `n` cells.
pub open spec fn pst_score_n(cells: Seq<char>, n: int) -> int
    decreases n,
{
    if n <= 0 {
        0
    } else {
        pst_score_n(cells, n - 1) + pst_val(cells[n - 1], n - 1)
    }
}

/// The piece-square score of a cell walk.
pub open spec fn pst_score(cells: Seq<char>) -> int {
    pst_score_n(cells, cells.len() as int)
}

/// Expands the board field of a text into one character per square: rank
/// separators dropped, promotion pairs collapsed to their stand-ins, and
/// digits turned into that many empty-square markers.
pub fn pst_parse(sfen: &str) -> (r: Vec<char>)
    ensures
        r@ == pst_cells(sfen@),
{
    let cs = crate::codec::str_to_chars(sfen);
    let parts = crate::codec::split_chars(&cs, ' ');
    let field = &parts[0];
    let ghost f = split_char(sfen@, ' ')[0];
    proof {
        crate::model::lemma_split_len(sfen@, ' ');
        assert(field@ == f);
        assert(f.skip(0) =~= f);
    }
    // drop the rank separators
    let mut noslash: Vec<char> = Vec::new();
    let mut i: usize = 0;
    while i < field.len()
        invariant
            field@ == f,
            0 <= i <= f.len(),
            remove_slashes(f) =~= noslash@ + remove_slashes(f.skip(i as int)),
        decreases f.len() - i,
    {
        let c = field[i];
        proof {
            assert(f.skip(i as int)[0] == c);
            assert(f.skip(i as int).skip(1) =~= f.skip(i + 1 as int));
        }
        if c != '/' {
            noslash.push(c);
        }
        i = i + 1;
    }
    proof {
        assert(remove_slashes(f.skip(f.len() as int)).len() == 0);
        assert(noslash@ =~= remove_slashes(f));
    }
    // collapse promotion pairs
    let ns = crate::codec::chars_to_string(&noslash);
    let conv = crate::sfen::convert_promoted_pieces(ns.as_str());
    let cv = crate::codec::str_to_chars(conv.as_str());
    let ghost e = convert_promoted_spec(remove_slashes(f));
    proof {
        assert(cv@ == e);
        assert(e.skip(0) =~= e);
    }
    // expand digits
    let mut out: Vec<char> = Vec::new();
    let mut j: usize = 0;
    while j < cv.len()
        invariant
            cv@ == e,
            0 <= j <= e.len(),
            expand_cells(e) =~= out@ + expand_cells(e.skip(j as int)),
        decreases e.len() - j,
    {
        let c = cv[j];
        proof {
            assert(e.skip(j as int)[0] == c);
            assert(e.skip(j as int).skip(1) =~= e.skip(j + 1 as int));
        }
        if '0' <= c && c <= '9' {
            let d = (c as u8) - 48;
            let mut k: u8 = 0;
            let ghost outpre = out@;
            while k < d
                invariant
                    0 <= k <= d,
                    out@ =~= outpre + Seq::new(k as nat, |x: int| '*'),
                decreases d - k,
            {
                out.push('*');
                proof {
                    assert(outpre + Seq::new((k + 1) as nat, |x: int| '*') =~= (outpre + Seq::new(
                        k as nat,
                        |x: int| '*',
                    )).push('*'));
                }
                k = k + 1;
            }
            proof {
                assert(out@ =~= outpre + Seq::new(digit_val(c) as nat, |x: int| '*'));
            }
        } else {
            out.push(c);
        }
        j = j + 1;
        proof {
            assert(expand_cells(e) =~= out@ + expand_cells(e.skip(j as int)));
        }
    }
    proof {
        assert(expand_cells(e.skip(e.len() as int)).len() == 0);
        assert(out@ =~= expand_cells(e));
    }
    out
}

/// Whether two texts hold the same characters.
pub fn str_eq(a: &str, b: &str) -> (r: bool)
    ensures
        r == (a@ == b@),
{
    let n = a.unicode_len();
    if n != b.unicode_len() {
        proof {
            assert(a@ != b@);
        }
        return false;
    }
    let mut i: usize = 0;
    while i < n
        invariant
            n == a@.len() == b@.len(),
            0 <= i <= n,
            forall|q: int| 0 <= q < i ==> a@[q] == b@[q],
        decreases n - i,
    {
        if a.get_char(i) != b.get_char(i) {
            proof {
                assert(a@[i as int] != b@[i as int]);
            }
            return false;
        }
        i = i + 1;
    }
    proof {
        assert(a@ =~= b@);
    }
    true
}

/// The summed piece-square value of one side's pieces. For white the text's
/// own board is walked; for black the case-flipped, rank-reversed view is
/// walked instead, so the same tables serve both sides. Any other color
/// name scores zero. The walk must fit the 81-entry tables, as the lookup
/// has nothing beyond them.
pub fn evaluate_piece_table(sfen: &str, color: &str) -> (r: i32)
    requires
        color@ == "white"@ ==> pst_cells(sfen@).len() <= 81,
        color@ == "black"@ ==> pst_cells(black_view(sfen@)).len() <= 81,
    ensures
        color@ == "white"@ ==> r as int == pst_score(pst_cells(sfen@)),
        color@ == "black"@ ==> r as int == pst_score(pst_cells(black_view(sfen@))),
        color@ != "white"@ && color@ != "black"@ ==> r == 0,
{
    proof {
        reveal_strlit("black");
        reveal_strlit("white");
        assert("black"@[0] == 'b' && "white"@[0] == 'w');
    }
    let is_black = str_eq(color, "black");
    let is_white = str_eq(color, "white");
    if is_black {
        let clean = crate::sfen::convert_promoted_pieces(sfen);
        let case_flip = crate::sfen::flip_case(clean.as_str());
        let flipped = crate::sfen::flip(case_flip.as_str());
        let cells = pst_parse(flipped.as_str());
        pst_score_exec(&cells)
    } else if is_white {
        let cells = pst_parse(sfen);
        pst_score_exec(&cells)
    } else {
        0
    }
}

// ---------------------------------------------------------------------------
// Mobility
// ---------------------------------------------------------------------------

/// The file (1..=9) of a board cell index.
pub open spec fn file_of(idx: int) -> int {
    idx / 9 + 1
}

/// The rank (1..=9) of a board cell index.
pub open spec fn rank_of(idx: int) -> int {
    idx % 9 + 1
}

/// The oracle state `os` with the side to move set.
pub open spec fn with_side(os: Seq<int>, white: bool) -> Seq<int> {
    os.update(SIDE_IDX as int, if white { 1int } else { 0int })
}

/// The summed reach counts of the pieces with code `code` among the first
/// `n` board cells of the text's position, each counted with the side to
/// move set to the piece's owner.
pub open spec fn mobility_sum(s: Seq<char>, code: int, n: int) -> nat
    decreases n,
{
    if n <= 0 {
        0
    } else {
        mobility_sum(s, code, n - 1) + (if decode_state(s)->Some_0[n - 1] == code {
            reach_count(
                with_side(text_ostate(s), code >= 17),
                file_of(n - 1),
                rank_of(n - 1),
            )
        } else {
            0nat
        })
    }
}

/// Counts the destination squares reachable by the piece standing on the
/// coordinate named like "SQ_5A" (file digit, then rank letter), after the
/// position text is rebuilt for the oracle.
pub fn mobility(sfen: &str, coord: String) -> (r: u32)
    requires
        valid_text(sfen@),
        coord@.len() >= 5,
        '1' <= coord@[3] <= '9',
        'A' <= coord@[4] <= 'I',
    ensures
        r as nat == reach_count(
            text_ostate(sfen@),
            digit_val(coord@[3]),
            coord@[4] as int - 'A' as int + 1,
        ),
{
    let file = (coord.as_str().get_char(3) as u8) - 48;
    let rank = (coord.as_str().get_char(4) as u8) - 64;
    let rec = match decode(sfen) {
        Ok(p) => p,
        Err(_) => {
            proof {
                assert(false);
            }
            return 0;
        },
    };
    let pos = build_oracle_pos(&rec);
    let n = reachable_count(&pos, file, rank);
    n as u32
}

/// Sums the reach counts of both sides' pieces of one base kind (`wcode`
/// for white, `bcode = wcode - 16` for black): white total first.
fn kind_mobility(sfen: &str, bcode: u8) -> (r: (u32, u32))
    requires
        valid_text(sfen@),
        1 <= bcode <= 8,
    ensures
        r.0 as nat == mobility_sum(sfen@, bcode as int + 16, 81),
        r.1 as nat == mobility_sum(sfen@, bcode as int, 81),
{
    let rec = match decode(sfen) {
        Ok(p) => p,
        Err(_) => {
            proof {
                assert(false);
            }
            return (0, 0);
        },
    };
    let mut pos = build_oracle_pos(&rec);
    let ghost os = ostate(pos);
    let ghost ds = decode_state(sfen@)->Some_0;
    let wcode = bcode + 16;
    let mut white_total: u32 = 0;
    let mut black_total: u32 = 0;
    let mut idx: usize = 0;
    while idx < 81
        invariant
            rec.wf(),
            rec.state() == ds,
            ds == decode_state(sfen@)->Some_0,
            valid_text(sfen@),
            os == text_ostate(sfen@),
            ostate(pos) == os || ostate(pos) == with_side(os, true) || ostate(pos) == with_side(
                os,
                false,
            ),
            wcode == bcode + 16,
            1 <= bcode <= 8,
            0 <= idx <= 81,
            white_total as nat == mobility_sum(sfen@, wcode as int, idx as int),
            black_total as nat == mobility_sum(sfen@, bcode as int, idx as int),
            white_total <= 255 * idx,
            black_total <= 255 * idx,
        decreases 81 - idx,
    {
        let code = rec.board[idx];
        proof {
            assert(ds[idx as int] == code as int);
            assert(with_side(with_side(os, true), true) =~= with_side(os, true));
            assert(with_side(with_side(os, false), true) =~= with_side(os, true));
            assert(with_side(os, true).update(SIDE_IDX as int, 1int) =~= with_side(os, true));
            assert(with_side(with_side(os, true), false) =~= with_side(os, false));
            assert(with_side(with_side(os, false), false) =~= with_side(os, false));
        }
        let file = (idx / 9 + 1) as u8;
        let rank = (idx % 9 + 1) as u8;
        proof {
            assert(file as int == file_of(idx as int) && rank as int == rank_of(idx as int))
                by (nonlinear_arith)
                requires
                    file as int == idx as int / 9 + 1,
                    rank as int == idx as int % 9 + 1,
                    0 <= idx < 81,
            ;
        }
        if code == wcode {
            set_side(&mut pos, true);
            proof {
                assert(ostate(pos) =~= with_side(os, true));
            }
            let n = reachable_count(&pos, file, rank);
            white_total = white_total + (n as u32);
        } else if code == bcode {
            set_side(&mut pos, false);
            proof {
                assert(ostate(pos) =~= with_side(os, false));
            }
            let n = reachable_count(&pos, file, rank);
            black_total = black_total + (n as u32);
        }
        idx = idx + 1;
    }
    (white_total, black_total)
}

/// Sums each side's rook mobility: the count of destination squares of
/// every unpromoted rook, white total first.
pub fn rook_mobility(sfen: &str) -> (r: (u32, u32))
    requires
        valid_text(sfen@),
    ensures
        r.0 as nat == mobility_sum(sfen@, 23, 81),
        r.1 as nat == mobility_sum(sfen@, 7, 81),
{
    kind_mobility(sfen, 7)
}

/// Sums each side's lance mobility, white total first.
pub fn lance_mobility(sfen: &str) -> (r: (u32, u32))
    requires
        valid_text(sfen@),
    ensures
        r.0 as nat == mobility_sum(sfen@, 18, 81),
        r.1 as nat == mobility_sum(sfen@, 2, 81),
{
    kind_mobility(sfen, 2)
}

/// Sums each side's bishop mobility, white total first.
pub fn bishop_mobility(sfen: &str) -> (r: (u32, u32))
    requires
        valid_text(sfen@),
    ensures
        r.0 as nat == mobility_sum(sfen@, 22, 81),
        r.1 as nat == mobility_sum(sfen@, 6, 81),
{
    kind_mobility(sfen, 6)
}

// ---------------------------------------------------------------------------
// King vulnerability
// ---------------------------------------------------------------------------

/// Whether `code` is a piece of the given side.
pub open spec fn piece_of_side(code: int, white: bool) -> bool {
    if white {
        17 <= code <= 30
    } else {
        1 <= code <= 14
    }
}

/// How many of the first `n` board cells hold `code`.
pub open spec fn code_count(board: Seq<int>, code: int, n: int) -> nat
    decreases n,
{
    if n <= 0 {
        0
    } else {
        code_count(board, code, n - 1) + (if board[n - 1] == code {
            1nat
        } else {
            0nat
        })
    }
}

/// The first board cell at or after `i` holding `code`; 81 if none.
pub open spec fn find_code(board: Seq<int>, code: int, i: int) -> int
    decreases 81 - i,
{
    if i < 0 || i >= 81 {
        81
    } else if board[i] == code {
        i
    } else {
        find_code(board, code, i + 1)
    }
}

/// Whether some piece of the given side may make the non-promoting normal
/// move from its square to the target square, by the oracle's probe.
pub open spec fn has_attacker(os: Seq<int>, white: bool, tf: int, tr: int) -> bool {
    exists|idx: int|
        0 <= idx < 81 && piece_of_side(#[trigger] os[idx], white) && normal_probe(
            os,
            file_of(idx),
            rank_of(idx),
            tf,
            tr,
        )
}

/// How many of the first `n` cells hold a piece of the given side that may
/// reach the target square by a non-promoting normal move.
pub open spec fn attacker_count(os: Seq<int>, white: bool, tf: int, tr: int, n: int) -> nat
    decreases n,
{
    if n <= 0 {
        0
    } else {
        attacker_count(os, white, tf, tr, n - 1) + (if piece_of_side(os[n - 1], white)
            && normal_probe(os, file_of(n - 1), rank_of(n - 1), tf, tr) {
            1nat
        } else {
            0nat
        })
    }
}

/// The file offset of ring step `j` (0..9).
pub open spec fn ring_df(j: int) -> int {
    j / 3 - 1
}

/// The rank offset of ring step `j` (0..9).
pub open spec fn ring_dr(j: int) -> int {
    j % 3 - 1
}

/// Whether ring step `j` around the king square lands on the board and off
/// the king's own square.
pub open spec fn ring_ok(kf: int, kr: int, j: int) -> bool {
    let f = kf + ring_df(j);
    let r = kr + ring_dr(j);
    1 <= f <= 9 && 1 <= r <= 9 && !(f == kf && r == kr)
}

/// How many of the first `k` ring squares around the king have at least one
/// attacker of the given side.
pub open spec fn ring_attackers(os: Seq<int>, white: bool, kf: int, kr: int, k: int) -> nat
    decreases k,
{
    if k <= 0 {
        0
    } else {
        ring_attackers(os, white, kf, kr, k - 1) + (if ring_ok(kf, kr, k - 1) && has_attacker(
            os,
            white,
            kf + ring_df(k - 1),
            kr + ring_dr(k - 1),
        ) {
            1nat
        } else {
            0nat
        })
    }
}

/// The summed attacker counts (no deduplication) of the first `k` ring
/// squares around the king, for the given side.
pub open spec fn ring_defenders(os: Seq<int>, white: bool, kf: int, kr: int, k: int) -> nat
    decreases k,
{
    if k <= 0 {
        0
    } else {
        ring_defenders(os, white, kf, kr, k - 1) + (if ring_ok(kf, kr, k - 1) {
            attacker_count(os, white, kf + ring_df(k - 1), kr + ring_dr(k - 1), 81)
        } else {
            0nat
        })
    }
}

/// How many of the first `n` oracle moves land on the king's square without
/// promoting.
pub open spec fn kat_count(moves: Seq<shogi_core::Move>, ksq: int, n: int) -> nat
    decreases n,
{
    if n <= 0 {
        0
    } else {
        kat_count(moves, ksq, n - 1) + (if move_to_sq(moves[n - 1]) == ksq && !move_promotes(
            moves[n - 1],
        ) {
            1nat
        } else {
            0nat
        })
    }
}

/// The vulnerability index: attackers, less half the defenders, plus the
/// direct king attackers, less the king's escape squares — never below
/// zero.
pub open spec fn vuln_value(atk: int, def: int, kat: int, esc: int) -> nat {
    let x = atk - def / 2 + kat - esc;
    if x >= 0 {
        x as nat
    } else {
        0
    }
}

/// The enemy-king-vulnerability sub-score of a valid position text with
/// exactly one enemy king, as seen from the side `white`.
pub open spec fn vuln_spec(s: Seq<char>, white: bool) -> nat {
    let ds = decode_state(s)->Some_0;
    let os = with_side(text_ostate(s), white);
    let ekc = if white { 8int } else { 24int };
    let k = find_code(ds, ekc, 0);
    let kf = file_of(k);
    let kr = rank_of(k);
    let atk = ring_attackers(os, white, kf, kr, 9);
    let osd = with_side(text_ostate(s), !white);
    let def = ring_defenders(osd, !white, kf, kr, 9);
    let swapped = crate::model::set_cell_state(os, k, if white { 1int } else { 17int });
    let moves = oracle_moves(swapped);
    let kat = kat_count(moves, k + 1, moves.len() as int);
    let esc = reach_count(osd, kf, kr);
    vuln_value(atk as int, def as int, kat as int, esc as int)
}

/// The king-vulnerability index never falls below zero: the combination of
/// attackers, defenders, direct king attackers and escapes saturates at 0.
pub proof fn lemma_king_vuln_nonnegative(atk: int, def: int, kat: int, esc: int)
    ensures
        vuln_value(atk, def, kat, esc) >= 0,
        vuln_value(atk, def, kat, esc) as int >= atk - def / 2 + kat - esc,
{
}

/// Whether any piece of the given side can reach the target square, probing
/// the oracle square by square.
fn exists_attacker(pos: &PartialPosition, rec: &crate::codec::Position, white: bool, tf: u8, tr: u8)
    -> (r: bool)
    requires
        rec.wf(),
        1 <= tf <= 9,
        1 <= tr <= 9,
        forall|i: int| 0 <= i < 81 ==> ostate(*pos)[i] == rec.state()[i],
    ensures
        r == has_attacker(ostate(*pos), white, tf as int, tr as int),
{
    let mut idx: usize = 0;
    while idx < 81
        invariant
            rec.wf(),
            1 <= tf <= 9,
            1 <= tr <= 9,
            forall|i: int| 0 <= i < 81 ==> ostate(*pos)[i] == rec.state()[i],
            0 <= idx <= 81,
            forall|i: int|
                0 <= i < idx ==> !(piece_of_side(#[trigger] ostate(*pos)[i], white)
                    && normal_probe(
                    ostate(*pos),
                    file_of(i),
                    rank_of(i),
                    tf as int,
                    tr as int,
                )),
        decreases 81 - idx,
    {
        let code = rec.board[idx];
        let of_side = if white {
            code >= 17
        } else {
            1 <= code && code <= 14
        };
        proof {
            assert(rec.state()[idx as int] == code as int);
            assert(of_side == piece_of_side(ostate(*pos)[idx as int], white));
        }
        if of_side {
            let file = (idx / 9 + 1) as u8;
            let rank = (idx % 9 + 1) as u8;
            proof {
                assert(file as int == file_of(idx as int) && rank as int == rank_of(idx as int))
                    by (nonlinear_arith)
                    requires
                        file as int == idx as int / 9 + 1,
                        rank as int == idx as int % 9 + 1,
                        0 <= idx < 81,
                ;
            }
            if probe_normal(pos, file, rank, tf, tr) {
                proof {
                    assert(has_attacker(ostate(*pos), white, tf as int, tr as int));
                }
                return true;
            }
        }
        idx = idx + 1;
    }
    proof {
        assert(!has_attacker(ostate(*pos), white, tf as int, tr as int));
    }
    false
}

/// How many pieces of the given side can reach the target square.
fn count_attackers(pos: &PartialPosition, rec: &crate::codec::Position, white: bool, tf: u8, tr: u8)
    -> (r: u32)
    requires
        rec.wf(),
        1 <= tf <= 9,
        1 <= tr <= 9,
        forall|i: int| 0 <= i < 81 ==> ostate(*pos)[i] == rec.state()[i],
    ensures
        r as nat == attacker_count(ostate(*pos), white, tf as int, tr as int, 81),
{
    let mut count: u32 = 0;
    let mut idx: usize = 0;
    while idx < 81
        invariant
            rec.wf(),
            1 <= tf <= 9,
            1 <= tr <= 9,
            forall|i: int| 0 <= i < 81 ==> ostate(*pos)[i] == rec.state()[i],
            0 <= idx <= 81,
            count <= idx,
            count as nat == attacker_count(ostate(*pos), white, tf as int, tr as int, idx as int),
        decreases 81 - idx,
    {
        let code = rec.board[idx];
        let of_side = if white {
            code >= 17
        } else {
            1 <= code && code <= 14
        };
        proof {
            assert(rec.state()[idx as int] == code as int);
            assert(of_side == piece_of_side(ostate(*pos)[idx as int], white));
        }
        if of_side {
            let file = (idx / 9 + 1) as u8;
            let rank = (idx % 9 + 1) as u8;
            proof {
                assert(file as int == file_of(idx as int) && rank as int == rank_of(idx as int))
                    by (nonlinear_arith)
                    requires
                        file as int == idx as int / 9 + 1,
                        rank as int == idx as int % 9 + 1,
                        0 <= idx < 81,
                ;
            }
            if probe_normal(pos, file, rank, tf, tr) {
                count = count + 1;
            }
        }
        idx = idx + 1;
    }
    count
}

/// The vulnerability of the opposing king, seen from `side`: how many of
/// the king's neighbouring squares the mover attacks, less half of the
/// opponent's defending reach (summed without deduplication), plus the
/// moves that directly capture the king (counted with the king temporarily
/// replaced by a pawn), less the king's escape squares; never below zero,
/// and stopping at the largest machine word.
///
/// Fails with `MalformedEncoding` on an unparsable text and with
/// `InvariantViolation` unless the opponent has exactly one king.
pub fn enemy_king_vuln(sfen: &str, side: Color) -> (r: Result<u64, EngineError>)
    ensures
        r == Err::<u64, EngineError>(EngineError::MalformedEncoding) <==> !valid_text(sfen@),
        valid_text(sfen@) ==> (r == Err::<u64, EngineError>(EngineError::InvariantViolation)
            <==> code_count(
            decode_state(sfen@)->Some_0,
            if color_white(side) { 8int } else { 24int },
            81,
        ) != 1),
        valid_text(sfen@) && code_count(
            decode_state(sfen@)->Some_0,
            if color_white(side) { 8int } else { 24int },
            81,
        ) == 1 ==> r is Ok,
        r is Ok ==> r->Ok_0 as nat == clip_u64(vuln_spec(sfen@, color_white(side))),
{
    let rec = match decode(sfen) {
        Ok(p) => p,
        Err(e) => {
            return Err(e);
        },
    };
    let white = is_white(side);
    let ghost ds = decode_state(sfen@)->Some_0;
    // locate the single enemy king
    let ekc: u8 = if white { 8 } else { 24 };
    let mut cnt: u8 = 0;
    let mut k: usize = 0;
    let mut idx: usize = 0;
    while idx < 81
        invariant
            rec.wf(),
            rec.state() == ds,
            0 <= idx <= 81,
            cnt <= idx,
            cnt as nat == code_count(ds, ekc as int, idx as int),
            cnt >= 1 ==> 0 <= k < idx && ds[k as int] == ekc as int && k as int == find_code(
                ds,
                ekc as int,
                0,
            ) && forall|j: int| 0 <= j < k ==> ds[j] != ekc as int,
        decreases 81 - idx,
    {
        let code = rec.board[idx];
        proof {
            assert(rec.state()[idx as int] == code as int);
        }
        if code == ekc {
            if cnt == 0 {
                k = idx;
                proof {
                    lemma_count_zero(ds, ekc as int, idx as int);
                    lemma_find_first(ds, ekc as int, 0, k as int);
                }
            }
            cnt = cnt + 1;
        }
        idx = idx + 1;
    }
    if cnt != 1 {
        return Err(EngineError::InvariantViolation);
    }
    proof {
        lemma_unique_code(ds, ekc as int, k as int, 81);
    }
    let kf = (k / 9 + 1) as u8;
    let kr = (k % 9 + 1) as u8;
    proof {
        assert(kf as int == file_of(k as int) && kr as int == rank_of(k as int))
            by (nonlinear_arith)
            requires
                kf as int == k as int / 9 + 1,
                kr as int == k as int % 9 + 1,
                0 <= k < 81,
        ;
    }
    let mut pos = build_oracle_pos(&rec);
    set_side(&mut pos, white);
    let ghost os = with_side(crate::model::text_ostate(sfen@), white);
    let ghost osd = with_side(crate::model::text_ostate(sfen@), !white);
    proof {
        assert(ostate(pos) =~= os);
        assert(forall|i: int| 0 <= i < 81 ==> os[i] == ds[i]);
        assert(forall|i: int| 0 <= i < 81 ==> osd[i] == ds[i]);
        lemma_last_king_unique(ds, ekc as int, k as int, 81);
    }
    // attackers of the squares around the king
    let mut atk: u32 = 0;
    let mut step: usize = 0;
    while step < 9
        invariant
            rec.wf(),
            rec.state() == ds,
            1 <= kf <= 9,
            1 <= kr <= 9,
            ostate(pos) == os,
            forall|i: int| 0 <= i < 81 ==> os[i] == ds[i],
            0 <= step <= 9,
            atk <= step,
            atk as nat == ring_attackers(os, white, kf as int, kr as int, step as int),
        decreases 9 - step,
    {
        let f = kf as i32 + (step as i32) / 3 - 1;
        let r = kr as i32 + (step as i32) % 3 - 1;
        if 1 <= f && f <= 9 && 1 <= r && r <= 9 && !(f == kf as i32 && r == kr as i32) {
            proof {
                assert(ring_ok(kf as int, kr as int, step as int));
            }
            if exists_attacker(&pos, &rec, white, f as u8, r as u8) {
                atk = atk + 1;
            }
        } else {
            proof {
                assert(!ring_ok(kf as int, kr as int, step as int));
            }
        }
        step = step + 1;
    }
    // defending reach of the same squares, summed without deduplication
    set_side(&mut pos, !white);
    proof {
        assert(ostate(pos) =~= osd);
    }
    let mut def: u32 = 0;
    let mut step: usize = 0;
    while step < 9
        invariant
            rec.wf(),
            rec.state() == ds,
            1 <= kf <= 9,
            1 <= kr <= 9,
            ostate(pos) == osd,
            forall|i: int| 0 <= i < 81 ==> osd[i] == ds[i],
            0 <= step <= 9,
            def <= 81 * step,
            def as nat == ring_defenders(osd, !white, kf as int, kr as int, step as int),
        decreases 9 - step,
    {
        let f = kf as i32 + (step as i32) / 3 - 1;
        let r = kr as i32 + (step as i32) % 3 - 1;
        if 1 <= f && f <= 9 && 1 <= r && r <= 9 && !(f == kf as i32 && r == kr as i32) {
            proof {
                assert(ring_ok(kf as int, kr as int, step as int));
            }
            let c = count_attackers(&pos, &rec, !white, f as u8, r as u8);
            proof {
                lemma_attacker_count_bound(osd, !white, f as int, r as int, 81);
            }
            def = def + c;
        } else {
            proof {
                assert(!ring_ok(kf as int, kr as int, step as int));
            }
        }
        step = step + 1;
    }
    // direct attackers of the king, with the king standing in as a pawn
    set_side(&mut pos, white);
    proof {
        assert(ostate(pos) =~= os);
    }
    let pawn: u8 = if white {
        1
    } else {
        17
    };
    set_cell(&mut pos, kf, kr, pawn);
    let ghost swapped = crate::model::set_cell_state(os, k as int, pawn as int);
    proof {
        assert(crate::model::cell_index(kf as int, kr as int) == k as int) by (nonlinear_arith)
            requires
                kf as int == k as int / 9 + 1,
                kr as int == k as int % 9 + 1,
                0 <= k < 81,
        ;
        assert(ostate(pos) == swapped);
    }
    let moves = legal_moves(&pos);
    let ksq: u8 = (k + 1) as u8;
    let mut kat: u64 = 0;
    let mut j: usize = 0;
    while j < moves.len()
        invariant
            moves@ == oracle_moves(swapped),
            0 <= j <= moves@.len(),
            kat <= j,
            ksq as int == k as int + 1,
            kat as nat == kat_count(moves@, k as int + 1, j as int),
        decreases moves@.len() - j,
    {
        let m = moves[j];
        if move_to_index(m) == ksq && !move_is_promotion(m) {
            kat = kat + 1;
        }
        j = j + 1;
    }
    // restore the king
    set_cell(&mut pos, kf, kr, ekc);
    proof {
        assert(os[crate::model::BK_CACHE_IDX as int] == crate::model::last_king_entry(
            ds.take(81),
            false,
        ));
        assert(os[crate::model::WK_CACHE_IDX as int] == crate::model::last_king_entry(
            ds.take(81),
            true,
        ));
        assert(crate::model::set_cell_state(swapped, k as int, ekc as int) =~= os);
        assert(ostate(pos) == os);
    }
    // the king's escape squares
    set_side(&mut pos, !white);
    proof {
        assert(ostate(pos) =~= osd);
    }
    let esc = reachable_count(&pos, kf, kr);
    // combine
    let x: i128 = atk as i128 - (def / 2) as i128 + kat as i128 - esc as i128;
    let v: u64 = if x <= 0 {
        0
    } else if x > u64::MAX as i128 {
        u64::MAX
    } else {
        x as u64
    };
    proof {
        assert(v as nat == clip_u64(
            vuln_value(atk as int, def as int, kat as int, esc as int),
        ));
        assert(find_code(ds, ekc as int, 0) == k as int);
    }
    Ok(v)
}

/// A code seen first at `k` is where `find_code` stops.
proof fn lemma_find_first(board: Seq<int>, code: int, i: int, k: int)
    requires
        0 <= i <= k < 81,
        board[k] == code,
        forall|j: int| i <= j < k ==> board[j] != code,
    ensures
        find_code(board, code, i) == k,
    decreases k - i,
{
    if i < k {
        lemma_find_first(board, code, i + 1, k);
    }
}

/// With exactly one occurrence, every other cell differs.
proof fn lemma_unique_code(board: Seq<int>, code: int, k: int, n: int)
    requires
        0 <= k < n,
        board[k] == code,
        code_count(board, code, n) == 1,
        forall|j: int| 0 <= j < k ==> board[j] != code,
    ensures
        forall|j: int| 0 <= j < n && j != k ==> board[j] != code,
{
    assert forall|j: int| 0 <= j < n && j != k implies board[j] != code by {
        if board[j] == code {
            lemma_code_count_two(board, code, k, j, n);
        }
    }
}

/// Two distinct occurrences force a count of at least two.
proof fn lemma_code_count_two(board: Seq<int>, code: int, a: int, b: int, n: int)
    requires
        0 <= a < b < n || 0 <= b < a < n,
        board[a] == code,
        board[b] == code,
    ensures
        code_count(board, code, n) >= 2,
    decreases n,
{
    let hi = if a > b { a } else { b };
    let lo = if a > b { b } else { a };
    if n - 1 > hi {
        lemma_code_count_two(board, code, a, b, n - 1);
    } else {
        lemma_code_count_one(board, code, lo, n - 1);
    }
}

/// One occurrence forces a count of at least one.
proof fn lemma_code_count_one(board: Seq<int>, code: int, a: int, n: int)
    requires
        0 <= a < n,
        board[a] == code,
    ensures
        code_count(board, code, n) >= 1,
    decreases n,
{
    if n - 1 > a {
        lemma_code_count_one(board, code, a, n - 1);
    }
}

/// Attacker counts never exceed the board.
proof fn lemma_attacker_count_bound(os: Seq<int>, white: bool, tf: int, tr: int, n: int)
    requires
        0 <= n,
    ensures
        attacker_count(os, white, tf, tr, n) <= n,
    decreases n,
{
    if n > 0 {
        lemma_attacker_count_bound(os, white, tf, tr, n - 1);
    }
}

/// A zero count means the code is absent.
proof fn lemma_count_zero(board: Seq<int>, code: int, n: int)
    requires
        code_count(board, code, n) == 0,
    ensures
        forall|j: int| 0 <= j < n ==> board[j] != code,
    decreases n,
{
    if n > 0 {
        lemma_count_zero(board, code, n - 1);
    }
}

/// With a unique king its cache entry is one past its cell.
proof fn lemma_last_king_unique(board: Seq<int>, code: int, k: int, n: int)
    requires
        code == 8 || code == 24,
        0 <= k < n <= board.len(),
        board[k] == code,
        forall|j: int| 0 <= j < n && j != k ==> board[j] != code,
    ensures
        crate::model::last_king_entry(board.take(n), code == 24) == k + 1,
    decreases n,
{
    assert(board.take(n).last() == board[n - 1]);
    if n - 1 == k {
    } else {
        assert(board.take(n).drop_last() =~= board.take(n - 1));
        lemma_last_king_unique(board, code, k, n - 1);
    }
}

// ---------------------------------------------------------------------------
// The composite evaluation
// ---------------------------------------------------------------------------

/// The piece-square score as a count that can enter the fitness sum: the
/// table walk never goes negative, so the clamp is only formal.
pub open spec fn pst_nat(cells: Seq<char>) -> nat {
    if pst_score(cells) >= 0 {
        pst_score(cells) as nat
    } else {
        0
    }
}

/// One side's fitness: the six weighted sub-scores summed. White reads the
/// text as it stands; black reads the case-flipped, rank-reversed view for
/// the table walk. Promoted pieces weigh 27, the king-vulnerability index
/// 22, rook mobility 16, lance and bishop mobility 17 each; the hand enters
/// unweighted.
pub open spec fn fitness_spec(s: Seq<char>, white: bool) -> nat {
    27 * promoted_count(s, !white) + pst_nat(
        if white {
            pst_cells(s)
        } else {
            pst_cells(black_view(s))
        },
    ) + 22 * vuln_spec(s, white) + 16 * mobility_sum(s, if white { 23int } else { 7int }, 81) + 17
        * mobility_sum(s, if white { 18int } else { 2int }, 81) + 17 * mobility_sum(
        s,
        if white { 22int } else { 6int },
        81,
    ) + hand_value(split_char(s, ' ')[2], Option::None, !white)
}

/// The six per-feature sub-scores of one side, in the order promoted
/// pieces, piece-square total, king vulnerability, rook, lance and bishop
/// mobility, hand value — each raw, before weighting.
pub open spec fn feature_spec(s: Seq<char>, white: bool, k: int) -> nat {
    if k == 0 { promoted_count(s, !white) }
    else if k == 1 { pst_nat(if white { pst_cells(s) } else { pst_cells(black_view(s)) }) }
    else if k == 2 { vuln_spec(s, white) }
    else if k == 3 { mobility_sum(s, if white { 23int } else { 7int }, 81) }
    else if k == 4 { mobility_sum(s, if white { 18int } else { 2int }, 81) }
    else if k == 5 { mobility_sum(s, if white { 22int } else { 6int }, 81) }
    else { hand_value(split_char(s, ' ')[2], Option::None, !white) }
}

/// A full evaluation: each side's fitness and the raw per-feature
/// breakdown, one (white, black) pair per feature.
pub struct EvalOutcome {
    pub white: u64,
    pub black: u64,
    pub features: Vec<(u64, u64)>,
}

impl EvalOutcome {
    /// What a correct outcome for text `s` holds: the clipped fitness pair
    /// and the seven clipped raw features.
    pub open spec fn ok_for(&self, s: Seq<char>) -> bool {
        &&& self.white as nat == clip_u64(fitness_spec(s, true))
        &&& self.black as nat == clip_u64(fitness_spec(s, false))
        &&& self.features@.len() == 7
        &&& forall|k: int|
            0 <= k < 7 ==> (#[trigger] self.features@[k]).0 as nat == clip_u64(
                feature_spec(s, true, k),
            ) && self.features@[k].1 as nat == clip_u64(feature_spec(s, false, k))
    }
}

/// Counts the promoted pieces of both sides, tolerating any text.
fn promoted_total(sfen: &str) -> (r: (u64, u64))
    ensures
        r.0 as nat == promoted_count(sfen@, true),
        r.1 as nat == promoted_count(sfen@, false),
{
    let v = crate::codec::str_to_chars(sfen);
    let n = v.len();
    let mut black: u64 = 0;
    let mut white: u64 = 0;
    let mut i: usize = 0;
    proof {
        assert(sfen@.skip(0) =~= sfen@);
    }
    while i < n
        invariant
            v@ == sfen@,
            n == v@.len(),
            0 <= i <= n,
            black as nat + promoted_count(sfen@.skip(i as int), true) == promoted_count(
                sfen@,
                true,
            ),
            white as nat + promoted_count(sfen@.skip(i as int), false) == promoted_count(
                sfen@,
                false,
            ),
            black <= i,
            white <= i,
        decreases n - i,
    {
        let c = v[i];
        proof {
            assert(sfen@.skip(i as int)[0] == c);
            assert(sfen@.skip(i as int).skip(1) =~= sfen@.skip(i + 1 as int));
        }
        if c == '+' && i + 1 < n {
            proof {
                assert(sfen@.skip(i as int)[1] == v@[i + 1 as int]);
            }
            let nxt = v[i + 1];
            if 'A' <= nxt && nxt <= 'Z' {
                black = black + 1;
            }
            if 'a' <= nxt && nxt <= 'z' {
                white = white + 1;
            }
        }
        i = i + 1;
    }
    proof {
        assert(promoted_count(sfen@.skip(n as int), true) == 0);
        assert(promoted_count(sfen@.skip(n as int), false) == 0);
    }
    (black, white)
}

/// The piece-square score of a cell walk of any length; cells beyond the
/// tables score nothing.
fn pst_score_exec(cells: &Vec<char>) -> (r: i32)
    ensures
        r as int == pst_score(cells@),
        r >= 0,
{
    let tbl_p = pst('P');
    let tbl_l = pst('L');
    let tbl_n = pst('N');
    let tbl_s = pst('S');
    let tbl_g = pst('G');
    let tbl_r = pst('R');
    let tbl_b = pst('B');
    let tbl_w = pst('W');
    let tbl_e = pst('E');
    let mut score: i32 = 0;
    let mut i: usize = 0;
    while i < cells.len()
        invariant
            ints_of(tbl_p@) == pst_table_spec('P'),
            ints_of(tbl_l@) == pst_table_spec('L'),
            ints_of(tbl_n@) == pst_table_spec('N'),
            ints_of(tbl_s@) == pst_table_spec('S'),
            ints_of(tbl_g@) == pst_table_spec('G'),
            ints_of(tbl_r@) == pst_table_spec('R'),
            ints_of(tbl_b@) == pst_table_spec('B'),
            ints_of(tbl_w@) == pst_table_spec('W'),
            ints_of(tbl_e@) == pst_table_spec('E'),
            tbl_p@.len() == 81,
            tbl_l@.len() == 81,
            tbl_n@.len() == 81,
            tbl_s@.len() == 81,
            tbl_g@.len() == 81,
            tbl_r@.len() == 81,
            tbl_b@.len() == 81,
            tbl_w@.len() == 81,
            tbl_e@.len() == 81,
            0 <= i <= cells@.len(),
            score as int == pst_score_n(cells@, i as int),
            0 <= score <= 255 * (if i <= 81 { i as int } else { 81 }),
        decreases cells@.len() - i,
    {
        let c = cells[i];
        let v: u8 = if i >= 81 {
            proof {
                assert(pst_val(c, i as int) == 0);
            }
            0
        } else {
            match c {
                'p' => tbl_p[i],
                'l' => tbl_l[i],
                'n' => tbl_n[i],
                's' => tbl_s[i],
                'g' => tbl_g[i],
                'r' => tbl_r[i],
                'b' => tbl_b[i],
                'e' => tbl_e[i],
                'w' => tbl_w[i],
                'z' | 'x' | 'y' | 'q' => tbl_g[i],
                _ => 0,
            }
        };
        proof {
            assert(v as int == pst_val(c, i as int));
        }
        score = score + (v as i32);
        i = i + 1;
    }
    score
}

/// Adds two counters, stopping at the largest machine word.
fn sat_add(a: u64, b: u64) -> (r: u64)
    ensures
        r as nat == clip_u64(a as nat + b as nat),
{
    if a <= u64::MAX - b {
        a + b
    } else {
        u64::MAX
    }
}

/// Scales a clipped counter, staying clipped.
fn sat_mul(c: u64, a: u64) -> (r: u64)
    requires
        1 <= c <= 32,
    ensures
        r as nat == clip_u64(c as nat * a as nat),
{
    if a <= u64::MAX / c {
        proof {
            assert(c as nat * a as nat <= 0xffff_ffff_ffff_ffff) by (nonlinear_arith)
                requires
                    1 <= c <= 32,
                    a as nat <= 0xffff_ffff_ffff_ffff as nat / c as nat,
            ;
        }
        c * a
    } else {
        proof {
            assert(c as nat * a as nat > 0xffff_ffff_ffff_ffff) by (nonlinear_arith)
                requires
                    1 <= c <= 32,
                    a as nat > 0xffff_ffff_ffff_ffff as nat / c as nat,
            ;
        }
        u64::MAX
    }
}

/// Scaling a clipped value by a small weight clips like scaling the value.
proof fn lemma_clip_mul(c: nat, a: nat)
    requires
        1 <= c,
    ensures
        clip_u64(c * clip_u64(a)) == clip_u64(c * a),
{
    if a > 0xffff_ffff_ffff_ffff {
        assert(c * a >= a) by (nonlinear_arith)
            requires 1 <= c && 0 <= a,
        ;
        assert(c * 0xffff_ffff_ffff_ffff as nat >= 0xffff_ffff_ffff_ffff as nat)
            by (nonlinear_arith)
            requires 1 <= c,
        ;
    }
}

/// Evaluates both sides' fitness with the raw feature breakdown. Fails with
/// `MalformedEncoding` on an unparsable text, and with `InvariantViolation`
/// unless each side has exactly one king.
pub fn evaluate_full(sfen: &str) -> (r: Result<EvalOutcome, EngineError>)
    ensures
        r == Err::<EvalOutcome, EngineError>(EngineError::MalformedEncoding) <==> !valid_text(
            sfen@,
        ),
        valid_text(sfen@) ==> (r == Err::<EvalOutcome, EngineError>(
            EngineError::InvariantViolation,
        ) <==> !(code_count(decode_state(sfen@)->Some_0, 8, 81) == 1 && code_count(
            decode_state(sfen@)->Some_0,
            24,
            81,
        ) == 1)),
        valid_text(sfen@) && code_count(decode_state(sfen@)->Some_0, 8, 81) == 1 && code_count(
            decode_state(sfen@)->Some_0,
            24,
            81,
        ) == 1 ==> r is Ok,
        r is Ok ==> r->Ok_0.ok_for(sfen@),
{
    if let Err(e) = decode(sfen) {
        return Err(e);
    }
    // promoted pieces
    let (prom_b, prom_w) = promoted_total(sfen);
    // piece-square totals
    let wcells = pst_parse(sfen);
    let clean = crate::sfen::convert_promoted_pieces(sfen);
    let case_flip = crate::sfen::flip_case(clean.as_str());
    let flipped = crate::sfen::flip(case_flip.as_str());
    let bcells = pst_parse(flipped.as_str());
    let pst_w = pst_score_exec(&wcells) as u64;
    let pst_b = pst_score_exec(&bcells) as u64;
    // king vulnerability, which also checks the one-king invariant
    let vuln_w = match enemy_king_vuln(sfen, crate::oracle::mk_color(true)) {
        Ok(v) => v,
        Err(e) => {
            return Err(e);
        },
    };
    let vuln_b = match enemy_king_vuln(sfen, crate::oracle::mk_color(false)) {
        Ok(v) => v,
        Err(e) => {
            return Err(e);
        },
    };
    // mobility
    let (rook_w, rook_b) = rook_mobility(sfen);
    let (lance_w, lance_b) = lance_mobility(sfen);
    let (bishop_w, bishop_b) = bishop_mobility(sfen);
    // hand
    proof {
        assert(split_char(sfen@, ' ').len() == 4);
    }
    let (hand_w, hand_b) = hand_total(sfen);
    // weighted sums
    let white = fitness_sum(prom_w, pst_w, vuln_w, rook_w as u64, lance_w as u64,
        bishop_w as u64, hand_w);
    let black = fitness_sum(prom_b, pst_b, vuln_b, rook_b as u64, lance_b as u64,
        bishop_b as u64, hand_b);
    proof {
        lemma_fitness_clip(sfen@, true, vuln_w as nat, hand_w as nat);
        lemma_fitness_clip(sfen@, false, vuln_b as nat, hand_b as nat);
        assert(white as nat == clip_u64(fitness_spec(sfen@, true)));
        assert(black as nat == clip_u64(fitness_spec(sfen@, false)));
    }
    let mut features: Vec<(u64, u64)> = Vec::new();
    features.push((prom_w, prom_b));
    features.push((pst_w, pst_b));
    features.push((vuln_w, vuln_b));
    features.push((rook_w as u64, rook_b as u64));
    features.push((lance_w as u64, lance_b as u64));
    features.push((bishop_w as u64, bishop_b as u64));
    features.push((hand_w, hand_b));
    let out = EvalOutcome { white, black, features };
    proof {
        assert forall|k: int| 0 <= k < 7 implies (#[trigger] out.features@[k]).0 as nat
            == clip_u64(feature_spec(sfen@, true, k)) && out.features@[k].1 as nat == clip_u64(
            feature_spec(sfen@, false, k),
        ) by {
        }
    }
    Ok(out)
}

/// One side's weighted fitness from its already clipped sub-scores.
fn fitness_sum(prom: u64, pst_v: u64, vuln: u64, rook: u64, lance: u64, bishop: u64, hand: u64)
    -> (r: u64)
    ensures
        r as nat == clip_u64(
            27 * (prom as nat) + (pst_v as nat) + 22 * clip_u64(vuln as nat) + 16 * (rook as nat)
                + 17 * (lance as nat) + 17 * (bishop as nat) + clip_u64(hand as nat),
        ),
{
    let mut total = sat_mul(27, prom);
    total = sat_add(total, pst_v);
    total = sat_add(total, sat_mul(22, vuln));
    total = sat_add(total, sat_mul(16, rook));
    total = sat_add(total, sat_mul(17, lance));
    total = sat_add(total, sat_mul(17, bishop));
    total = sat_add(total, hand);
    total
}

/// Evaluates a position text: both sides' fitness, white first. Errors as
/// `evaluate_full` does.
pub fn evaluate(sfen: &str) -> (r: Result<(u64, u64), EngineError>)
    ensures
        r == Err::<(u64, u64), EngineError>(EngineError::MalformedEncoding) <==> !valid_text(
            sfen@,
        ),
        valid_text(sfen@) ==> (r == Err::<(u64, u64), EngineError>(
            EngineError::InvariantViolation,
        ) <==> !(code_count(decode_state(sfen@)->Some_0, 8, 81) == 1 && code_count(
            decode_state(sfen@)->Some_0,
            24,
            81,
        ) == 1)),
        valid_text(sfen@) && code_count(decode_state(sfen@)->Some_0, 8, 81) == 1 && code_count(
            decode_state(sfen@)->Some_0,
            24,
            81,
        ) == 1 ==> r is Ok,
        r is Ok ==> r->Ok_0.0 as nat == clip_u64(fitness_spec(sfen@, true))
            && r->Ok_0.1 as nat == clip_u64(fitness_spec(sfen@, false)),
{
    match evaluate_full(sfen) {
        Ok(out) => Ok((out.white, out.black)),
        Err(e) => Err(e),
    }
}

/// The evaluation is deterministic: any two fitness pairs the evaluator's
/// contract admits for the same text are bit-identical. There is no hidden
/// state: the contract pins both components to functions of the text alone.
pub proof fn lemma_evaluate_deterministic(s: Seq<char>, a: (u64, u64), b: (u64, u64))
    requires
        a.0 as nat == clip_u64(fitness_spec(s, true)),
        a.1 as nat == clip_u64(fitness_spec(s, false)),
        b.0 as nat == clip_u64(fitness_spec(s, true)),
        b.1 as nat == clip_u64(fitness_spec(s, false)),
    ensures
        a == b,
{
}

/// The weighted hand values of both sides, white first, each stopping at
/// the largest machine word.
fn hand_total(sfen: &str) -> (r: (u64, u64))
    requires
        split_char(sfen@, ' ').len() >= 3,
    ensures
        r.0 as nat == clip_u64(hand_value(split_char(sfen@, ' ')[2], Option::None, false)),
        r.1 as nat == clip_u64(hand_value(split_char(sfen@, ' ')[2], Option::None, true)),
{
    let cs = crate::codec::str_to_chars(sfen);
    let parts = crate::codec::split_chars(&cs, ' ');
    let field = &parts[2];
    let ghost f = split_char(sfen@, ' ')[2];
    proof {
        assert(field@ == f);
        assert(f.skip(0) =~= f);
    }
    let n = field.len();
    let mut white: u64 = 0;
    let mut black: u64 = 0;
    let mut count: u64 = 0;
    let mut has_count: bool = false;
    let ghost wspec = hand_value(f, Option::None, false);
    let ghost bspec = hand_value(f, Option::None, true);
    let mut i: usize = 0;
    while i < n
        invariant
            field@ == f,
            n == f.len(),
            0 <= i <= n,
            wspec == hand_value(f, Option::None, false),
            bspec == hand_value(f, Option::None, true),
            count <= 9,
            white as nat == clip_u64(
                (wspec - hand_value(
                    f.skip(i as int),
                    if has_count {
                        Option::Some(count as int)
                    } else {
                        Option::None
                    },
                    false,
                )) as nat,
            ),
            black as nat == clip_u64(
                (bspec - hand_value(
                    f.skip(i as int),
                    if has_count {
                        Option::Some(count as int)
                    } else {
                        Option::None
                    },
                    true,
                )) as nat,
            ),
            hand_value(
                f.skip(i as int),
                if has_count {
                    Option::Some(count as int)
                } else {
                    Option::None
                },
                false,
            ) <= wspec,
            hand_value(
                f.skip(i as int),
                if has_count {
                    Option::Some(count as int)
                } else {
                    Option::None
                },
                true,
            ) <= bspec,
        decreases n - i,
    {
        let c = field[i];
        proof {
            assert(f.skip(i as int)[0] == c);
            assert(f.skip(i as int).skip(1) =~= f.skip(i + 1 as int));
        }
        if '0' <= c && c <= '9' {
            count = (c as u8 - 48) as u64;
            has_count = true;
        } else {
            let cnt = if has_count {
                count
            } else {
                1
            };
            let w = hand_weight_exec(c) as u64;
            proof {
                assert(w * cnt <= 198) by (nonlinear_arith)
                    requires
                        w <= 22,
                        cnt <= 9,
                ;
            }
            let add = w * cnt;
            if 'A' <= c && c <= 'Z' {
                black = sat_add(black, add);
            } else {
                white = sat_add(white, add);
            }
            count = 0;
            has_count = false;
        }
        i = i + 1;
    }
    proof {
        assert(f.skip(n as int).len() == 0);
    }
    (white, black)
}

/// A clipped term inside a clipped sum clips like the raw term.
proof fn lemma_clip_sum_term(a: nat, c: nat, v: nat)
    requires
        1 <= c,
    ensures
        clip_u64(a + c * clip_u64(v)) == clip_u64(a + c * v),
{
    if v > 0xffff_ffff_ffff_ffff {
        assert(c * 0xffff_ffff_ffff_ffff as nat >= 0xffff_ffff_ffff_ffff as nat)
            by (nonlinear_arith)
            requires 1 <= c,
        ;
        assert(c * v >= v) by (nonlinear_arith)
            requires 1 <= c && 0 <= v,
        ;
    }
}

/// The stepwise saturated fitness sum equals the clipped exact fitness.
proof fn lemma_fitness_clip(s: Seq<char>, white: bool, vclip: nat, hclip: nat)
    requires
        vclip == clip_u64(vuln_spec(s, white)),
        hclip == clip_u64(hand_value(split_char(s, ' ')[2], Option::None, !white)),
    ensures
        clip_u64(
            27 * promoted_count(s, !white) + pst_nat(
                if white {
                    pst_cells(s)
                } else {
                    pst_cells(black_view(s))
                },
            ) + 22 * clip_u64(vclip) + 16 * mobility_sum(s, if white { 23int } else { 7int }, 81)
                + 17 * mobility_sum(s, if white { 18int } else { 2int }, 81) + 17 * mobility_sum(
                s,
                if white { 22int } else { 6int },
                81,
            ) + clip_u64(hclip),
        ) == clip_u64(fitness_spec(s, white)),
{
    let p = 27 * promoted_count(s, !white) + pst_nat(
        if white {
            pst_cells(s)
        } else {
            pst_cells(black_view(s))
        },
    );
    let m = 16 * mobility_sum(s, if white { 23int } else { 7int }, 81) + 17 * mobility_sum(
        s,
        if white { 18int } else { 2int },
        81,
    ) + 17 * mobility_sum(s, if white { 22int } else { 6int }, 81);
    let h = hand_value(split_char(s, ' ')[2], Option::None, !white);
    let v = vuln_spec(s, white);
    lemma_clip_sum_term(p + 22 * clip_u64(v) + m, 1, h);
    lemma_clip_sum_term(p + m + h, 22, v);
    assert(clip_u64(clip_u64(vclip)) == clip_u64(v));
    assert(clip_u64(clip_u64(hclip)) == clip_u64(h));
    lemma_clip_sum_term(p + 22 * clip_u64(v) + m, 1, clip_u64(h));
    lemma_clip_sum_term(p + m + clip_u64(h), 22, clip_u64(v));
}

} // verus!
