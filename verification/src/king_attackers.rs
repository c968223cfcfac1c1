//! A self-contained board scanner that counts the pieces attacking a king
//! on a plain 9x9 board, with its own piece model and single-character
//! parser. Here the lower-case letters belong to black.

use vstd::prelude::*;

verus! {

/// The eight piece kinds of the scanner's own model.
#[derive(Clone, Copy, Debug, PartialEq, Eq, Structural)]
pub enum PieceType {
    King,
    Rook,
    Bishop,
    Gold,
    Silver,
    Knight,
    Lance,
    Pawn,
}

/// The two players of the scanner's own model.
#[derive(Clone, Copy, Debug, PartialEq, Eq, Structural)]
pub enum Camp {
    Black,
    White,
}

/// A piece together with its owner.
#[derive(Clone, Copy, Debug, PartialEq, Eq, Structural)]
pub struct Piece {
    pub piece_type: PieceType,
    pub color: Camp,
}

/// A 9x9 board, stored row-major: the cell at row `i`, column `j` is entry
/// `9 * i + j`.
pub type Board = Vec<Option<Piece>>;

/// The kind a letter names, regardless of case; `None` for other letters.
pub open spec fn kind_of_char(c: char) -> Option<PieceType> {
    let l = crate::sfen::flip_case_char(c);
    let low = if 'a' <= c <= 'z' {
        c
    } else if 'A' <= c <= 'Z' {
        l
    } else {
        c
    };
    if low == 'k' { Some(PieceType::King) }
    else if low == 'r' { Some(PieceType::Rook) }
    else if low == 'b' { Some(PieceType::Bishop) }
    else if low == 'g' { Some(PieceType::Gold) }
    else if low == 's' { Some(PieceType::Silver) }
    else if low == 'n' { Some(PieceType::Knight) }
    else if low == 'l' { Some(PieceType::Lance) }
    else if low == 'p' { Some(PieceType::Pawn) }
    else { None }
}

/// The piece a letter denotes: lower case is black, anything else white.
pub open spec fn piece_of_char(c: char) -> Option<Piece> {
    match kind_of_char(c) {
        Some(t) => Some(
            Piece {
                piece_type: t,
                color: if 'a' <= c <= 'z' {
                    Camp::Black
                } else {
                    Camp::White
                },
            },
        ),
        None => None,
    }
}

/// Reads one board letter into a piece, lower case owned by black.
pub fn parse_piece(c: char) -> (r: Option<Piece>)
    ensures
        r == piece_of_char(c),
{
    let low: char = if 'A' <= c && c <= 'Z' {
        ((c as u8) + 32) as char
    } else {
        c
    };
    proof {
        if 'A' <= c <= 'Z' {
            assert(low == crate::sfen::flip_case_char(c));
        }
    }
    let piece_type = match low {
        'k' => PieceType::King,
        'r' => PieceType::Rook,
        'b' => PieceType::Bishop,
        'g' => PieceType::Gold,
        's' => PieceType::Silver,
        'n' => PieceType::Knight,
        'l' => PieceType::Lance,
        'p' => PieceType::Pawn,
        _ => {
            return None;
        },
    };
    let color = if 'a' <= c && c <= 'z' {
        Camp::Black
    } else {
        Camp::White
    };
    Some(Piece { piece_type, color })
}

/// The board a text fills: starting at the top-left cell, a separator moves
/// to the next row's start, a digit skips that many columns, a piece letter
/// fills the cell and anything else just advances. Rows and columns beyond
/// the board are ignored.
pub open spec fn fill_board(s: Seq<char>, row: int, col: int, b: Seq<Option<Piece>>) -> Seq<
    Option<Piece>,
>
    decreases s.len(),
{
    if s.len() == 0 {
        b
    } else if s[0] == '/' {
        fill_board(s.skip(1), row + 1, 0, b)
    } else if '1' <= s[0] <= '9' {
        fill_board(s.skip(1), row, col + crate::model::digit_val(s[0]), b)
    } else {
        match piece_of_char(s[0]) {
            Some(p) => {
                if 0 <= row < 9 && 0 <= col < 9 {
                    fill_board(s.skip(1), row, col + 1, b.update(9 * row + col, Some(p)))
                } else {
                    fill_board(s.skip(1), row, col + 1, b)
                }
            },
            None => fill_board(s.skip(1), row, col + 1, b),
        }
    }
}

/// Parses a board text into the 81-cell board.
pub fn parse_board(afen: &str) -> (r: Board)
    ensures
        r@ == fill_board(afen@, 0, 0, Seq::new(81, |i: int| None::<Piece>)),
        r@.len() == 81,
{
    let v = crate::codec::str_to_chars(afen);
    let mut board: Board = vec![None; 81];
    proof {
        assert(board@ =~= Seq::new(81, |i: int| None::<Piece>));
        assert(afen@.skip(0) =~= afen@);
    }
    // `rank` and `file` mirror the unbounded row and column counters of the
    // text walk, clamped at 9: beyond the board the exact excess is
    // irrelevant, since nothing is placed there.
    let mut rank: u8 = 0;
    let mut file: u8 = 0;
    let ghost mut row: int = 0;
    let ghost mut col: int = 0;
    let mut i: usize = 0;
    let ghost goal = fill_board(afen@, 0, 0, Seq::new(81, |q: int| None::<Piece>));
    while i < v.len()
        invariant
            v@ == afen@,
            0 <= i <= afen@.len(),
            board@.len() == 81,
            goal == fill_board(afen@, 0, 0, Seq::new(81, |q: int| None::<Piece>)),
            goal == fill_board(afen@.skip(i as int), row, col, board@),
            0 <= row,
            0 <= col,
            rank as int == (if row < 9 { row } else { 9 }),
            file as int == (if col < 9 { col } else { 9 }),
        decreases afen@.len() - i,
    {
        let c = v[i];
        proof {
            assert(afen@.skip(i as int)[0] == c);
            assert(afen@.skip(i as int).skip(1) =~= afen@.skip(i + 1 as int));
        }
        if c == '/' {
            if rank < 9 {
                rank = rank + 1;
            }
            file = 0;
            proof {
                row = row + 1;
                col = 0;
            }
        } else if '1' <= c && c <= '9' {
            let d = c as u8 - 48;
            file = if file + d < 9 {
                file + d
            } else {
                9
            };
            proof {
                col = col + crate::model::digit_val(c);
            }
        } else {
            match parse_piece(c) {
                Some(p) => {
                    if rank < 9 && file < 9 {
                        let idx = (9 * rank + file) as usize;
                        vec_set(&mut board, idx, Some(p));
                    }
                },
                None => {
                },
            }
            file = if file < 9 {
                file + 1
            } else {
                9
            };
            proof {
                col = col + 1;
            }
        }
        i = i + 1;
    }
    proof {
        assert(afen@.skip(afen@.len() as int).len() == 0);
    }
    board
}

/// Replaces one element of a vector.
pub fn vec_set<T>(v: &mut Vec<T>, i: usize, x: T)
    requires
        i < old(v)@.len(),
    ensures
        final(v)@ == old(v)@.update(i as int, x),
{
    v.remove(i);
    v.insert(i, x);
    proof {
        assert(final(v)@ =~= old(v)@.update(i as int, x));
    }
}

// ---------------------------------------------------------------------------
// Counting the attackers of a king
// ---------------------------------------------------------------------------

/// The row offset of neighbourhood direction `k` (0..8).
pub open spec fn dir_dx(k: int) -> int {
    if k == 0 { -1 } else if k == 1 { 0 } else if k == 2 { 1 } else if k == 3 { -1 }
    else if k == 4 { 1 } else if k == 5 { -1 } else if k == 6 { 0 } else { 1 }
}

/// The column offset of neighbourhood direction `k` (0..8).
pub open spec fn dir_dy(k: int) -> int {
    if k == 0 { -1 } else if k == 1 { -1 } else if k == 2 { -1 } else if k == 3 { 0 }
    else if k == 4 { 0 } else if k == 5 { 1 } else if k == 6 { 1 } else { 1 }
}

/// Whether one step from (i, j) lands exactly on (ki, kj) on the board.
pub open spec fn step_hits(i: int, j: int, dx: int, dy: int, ki: int, kj: int) -> bool {
    let ni = i + dx;
    let nj = j + dy;
    0 <= ni < 9 && 0 <= nj < 9 && ni == ki && nj == kj
}

/// Whether sliding from (i, j) in direction (dx, dy) reaches (ki, kj)
/// before leaving the board or meeting another piece.
pub open spec fn ray_hits(
    b: Seq<Option<Piece>>,
    i: int,
    j: int,
    dx: int,
    dy: int,
    ki: int,
    kj: int,
    fuel: nat,
) -> bool
    decreases fuel,
{
    if fuel == 0 {
        false
    } else {
        let ni = i + dx;
        let nj = j + dy;
        if !(0 <= ni < 9 && 0 <= nj < 9) {
            false
        } else if ni == ki && nj == kj {
            true
        } else if b[9 * ni + nj] is Some {
            false
        } else {
            ray_hits(b, ni, nj, dx, dy, ki, kj, (fuel - 1) as nat)
        }
    }
}

/// How many of the first `k` neighbourhood directions step from (i, j) onto
/// the king.
pub open spec fn step_count(i: int, j: int, ki: int, kj: int, k: int) -> nat
    decreases k,
{
    if k <= 0 {
        0
    } else {
        step_count(i, j, ki, kj, k - 1) + (if step_hits(i, j, dir_dx(k - 1), dir_dy(k - 1), ki, kj) {
            1nat
        } else {
            0nat
        })
    }
}

/// How many of the directions `lo..k` slide from (i, j) onto the king.
pub open spec fn ray_count(
    b: Seq<Option<Piece>>,
    i: int,
    j: int,
    ki: int,
    kj: int,
    lo: int,
    k: int,
) -> nat
    decreases k - lo,
{
    if k <= lo {
        0
    } else {
        ray_count(b, i, j, ki, kj, lo, k - 1) + (if ray_hits(
            b,
            i,
            j,
            dir_dx(k - 1),
            dir_dy(k - 1),
            ki,
            kj,
            9,
        ) {
            1nat
        } else {
            0nat
        })
    }
}

/// How many ways the piece `p` standing at (i, j) attacks the king at
/// (ki, kj): kings and golds step in all eight directions, rooks slide the
/// first four directions and bishops the last four, silvers step four ways,
/// knights two, lances and pawns one (always upward, regardless of owner).
pub open spec fn piece_hits(
    b: Seq<Option<Piece>>,
    p: Piece,
    i: int,
    j: int,
    ki: int,
    kj: int,
) -> nat {
    match p.piece_type {
        PieceType::King => step_count(i, j, ki, kj, 8),
        PieceType::Gold => step_count(i, j, ki, kj, 8),
        PieceType::Rook => ray_count(b, i, j, ki, kj, 0, 4),
        PieceType::Bishop => ray_count(b, i, j, ki, kj, 4, 8),
        PieceType::Silver => (if step_hits(i, j, -1, -1, ki, kj) { 1nat } else { 0nat }) + (
        if step_hits(i, j, -1, 1, ki, kj) { 1nat } else { 0nat }) + (if step_hits(
            i,
            j,
            0,
            -1,
            ki,
            kj,
        ) { 1nat } else { 0nat }) + (if step_hits(i, j, 0, 1, ki, kj) { 1nat } else { 0nat }),
        PieceType::Knight => (if step_hits(i, j, -2, -1, ki, kj) { 1nat } else { 0nat }) + (
        if step_hits(i, j, -2, 1, ki, kj) { 1nat } else { 0nat }),
        PieceType::Lance => if step_hits(i, j, -1, 0, ki, kj) { 1nat } else { 0nat },
        PieceType::Pawn => if step_hits(i, j, -1, 0, ki, kj) { 1nat } else { 0nat },
    }
}

/// The first cell holding the king of `kc` at or after `idx`; 81 if none.
pub open spec fn find_king(b: Seq<Option<Piece>>, kc: Camp, idx: int) -> int
    decreases 81 - idx,
{
    if idx < 0 || idx >= 81 {
        81
    } else if b[idx] == Some(Piece { piece_type: PieceType::King, color: kc }) {
        idx
    } else {
        find_king(b, kc, idx + 1)
    }
}

/// The attack instances of the opponent's pieces among the first `n` cells.
pub open spec fn attack_total(
    b: Seq<Option<Piece>>,
    opp: Camp,
    ki: int,
    kj: int,
    n: int,
) -> nat
    decreases n,
{
    if n <= 0 {
        0
    } else {
        attack_total(b, opp, ki, kj, n - 1) + (match b[n - 1] {
            Some(p) => if p.color == opp {
                piece_hits(b, p, (n - 1) / 9, (n - 1) % 9, ki, kj)
            } else {
                0nat
            },
            None => 0nat,
        })
    }
}

/// Whether sliding from (i, j) reaches the king; mirrors `ray_hits`.
fn ray_hits_exec(b: &Board, i: u8, j: u8, dx: i8, dy: i8, ki: u8, kj: u8, fuel: u8) -> (r: bool)
    requires
        b@.len() == 81,
        i < 9,
        j < 9,
        -2 <= dx <= 2,
        -2 <= dy <= 2,
    ensures
        r == ray_hits(b@, i as int, j as int, dx as int, dy as int, ki as int, kj as int,
            fuel as nat),
    decreases fuel,
{
    if fuel == 0 {
        return false;
    }
    let ni = i as i8 + dx;
    let nj = j as i8 + dy;
    if !(0 <= ni && ni < 9 && 0 <= nj && nj < 9) {
        return false;
    }
    if ni as u8 == ki && nj as u8 == kj {
        return true;
    }
    let idx = (9 * (ni as usize)) + nj as usize;
    if b[idx].is_some() {
        return false;
    }
    ray_hits_exec(b, ni as u8, nj as u8, dx, dy, ki, kj, fuel - 1)
}

/// Whether one step lands on the king; mirrors `step_hits`.
fn step_hits_exec(i: u8, j: u8, dx: i8, dy: i8, ki: u8, kj: u8) -> (r: bool)
    requires
        i < 9,
        j < 9,
        -2 <= dx <= 2,
        -2 <= dy <= 2,
    ensures
        r == step_hits(i as int, j as int, dx as int, dy as int, ki as int, kj as int),
{
    let ni = i as i8 + dx;
    let nj = j as i8 + dy;
    0 <= ni && ni < 9 && 0 <= nj && nj < 9 && ni as u8 == ki && nj as u8 == kj
}

/// How many ways the piece at (i, j) attacks the king; mirrors
/// `piece_hits`.
fn piece_hits_exec(b: &Board, p: Piece, i: u8, j: u8, ki: u8, kj: u8) -> (r: u8)
    requires
        b@.len() == 81,
        i < 9,
        j < 9,
    ensures
        r as nat == piece_hits(b@, p, i as int, j as int, ki as int, kj as int),
        r <= 8,
{
    match p.piece_type {
        PieceType::King | PieceType::Gold => {
            let mut count: u8 = 0;
            let mut k: u8 = 0;
            while k < 8
                invariant
                    i < 9,
                    j < 9,
                    0 <= k <= 8,
                    count <= k,
                    count as nat == step_count(i as int, j as int, ki as int, kj as int, k as int),
                decreases 8 - k,
            {
                let dx: i8 = match k {
                    0 => -1, 1 => 0, 2 => 1, 3 => -1, 4 => 1, 5 => -1, 6 => 0, _ => 1,
                };
                let dy: i8 = match k {
                    0 => -1, 1 => -1, 2 => -1, 3 => 0, 4 => 0, 5 => 1, 6 => 1, _ => 1,
                };
                proof {
                    assert(dx as int == dir_dx(k as int) && dy as int == dir_dy(k as int));
                }
                if step_hits_exec(i, j, dx, dy, ki, kj) {
                    count = count + 1;
                }
                k = k + 1;
            }
            count
        },
        PieceType::Rook | PieceType::Bishop => {
            let is_rook = matches!(p.piece_type, PieceType::Rook);
            let lo: u8 = if is_rook {
                0
            } else {
                4
            };
            let mut count: u8 = 0;
            let mut k: u8 = lo;
            while k < lo + 4
                invariant
                    b@.len() == 81,
                    i < 9,
                    j < 9,
                    lo == 0 || lo == 4,
                    lo <= k <= lo + 4,
                    count <= k,
                    count as nat == ray_count(b@, i as int, j as int, ki as int, kj as int,
                        lo as int, k as int),
                decreases lo + 4 - k,
            {
                let dx: i8 = match k {
                    0 => -1, 1 => 0, 2 => 1, 3 => -1, 4 => 1, 5 => -1, 6 => 0, _ => 1,
                };
                let dy: i8 = match k {
                    0 => -1, 1 => -1, 2 => -1, 3 => 0, 4 => 0, 5 => 1, 6 => 1, _ => 1,
                };
                proof {
                    assert(dx as int == dir_dx(k as int) && dy as int == dir_dy(k as int));
                }
                if ray_hits_exec(b, i, j, dx, dy, ki, kj, 9) {
                    count = count + 1;
                }
                k = k + 1;
            }
            count
        },
        PieceType::Silver => {
            let mut count: u8 = 0;
            if step_hits_exec(i, j, -1, -1, ki, kj) {
                count = count + 1;
            }
            if step_hits_exec(i, j, -1, 1, ki, kj) {
                count = count + 1;
            }
            if step_hits_exec(i, j, 0, -1, ki, kj) {
                count = count + 1;
            }
            if step_hits_exec(i, j, 0, 1, ki, kj) {
                count = count + 1;
            }
            count
        },
        PieceType::Knight => {
            let mut count: u8 = 0;
            if step_hits_exec(i, j, -2, -1, ki, kj) {
                count = count + 1;
            }
            if step_hits_exec(i, j, -2, 1, ki, kj) {
                count = count + 1;
            }
            count
        },
        PieceType::Lance | PieceType::Pawn => {
            if step_hits_exec(i, j, -1, 0, ki, kj) {
                1
            } else {
                0
            }
        },
    }
}

/// Counts how many attack instances the opponent's pieces have against the
/// king of `king_color`: sliding pieces are blocked by any piece in the
/// way, steppers hit adjacent squares, and pawns, lances and knights always
/// point up the rows. Zero when that king is absent.
pub fn count_attacking_pieces(board: &Board, king_color: Camp) -> (r: usize)
    requires
        board@.len() == 81,
    ensures
        find_king(board@, king_color, 0) < 81 ==> r as nat == attack_total(
            board@,
            if king_color == Camp::Black {
                Camp::White
            } else {
                Camp::Black
            },
            find_king(board@, king_color, 0) / 9,
            find_king(board@, king_color, 0) % 9,
            81,
        ),
        find_king(board@, king_color, 0) == 81 ==> r == 0,
{
    let opponent = match king_color {
        Camp::Black => Camp::White,
        Camp::White => Camp::Black,
    };
    // find the king
    let mut kidx: usize = 0;
    loop
        invariant
            board@.len() == 81,
            0 <= kidx <= 81,
            find_king(board@, king_color, 0) == find_king(board@, king_color, kidx as int),
        ensures
            kidx as int == find_king(board@, king_color, 0),
        decreases 81 - kidx,
    {
        if kidx == 81 {
            break ;
        }
        match board[kidx] {
            Some(p) => {
                if matches!(p.piece_type, PieceType::King) && p.color == king_color {
                    proof {
                        assert(board@[kidx as int] == Some(
                            Piece { piece_type: PieceType::King, color: king_color },
                        ));
                    }
                    break ;
                }
            },
            None => {
            },
        }
        proof {
            assert(board@[kidx as int] != Some(
                Piece { piece_type: PieceType::King, color: king_color },
            ));
        }
        kidx = kidx + 1;
    }
    if kidx == 81 {
        return 0;
    }
    let ki = (kidx / 9) as u8;
    let kj = (kidx % 9) as u8;
    let mut count: usize = 0;
    let mut n: usize = 0;
    while n < 81
        invariant
            board@.len() == 81,
            ki as int == kidx as int / 9,
            kj as int == kidx as int % 9,
            kidx < 81,
            opponent == (if king_color == Camp::Black {
                Camp::White
            } else {
                Camp::Black
            }),
            0 <= n <= 81,
            count <= 8 * n,
            count as nat == attack_total(board@, opponent, ki as int, kj as int, n as int),
        decreases 81 - n,
    {
        match board[n] {
            Some(p) => {
                if p.color == opponent {
                    let i = (n / 9) as u8;
                    let j = (n % 9) as u8;
                    let hits = piece_hits_exec(board, p, i, j, ki, kj);
                    count = count + hits as usize;
                }
            },
            None => {
            },
        }
        n = n + 1;
    }
    count
}

} // verus!
