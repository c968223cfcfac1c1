//! The trusted boundary to the rules oracle.
//!
//! Everything the engine knows about legal moves comes from the crates
//! `shogi_core` (the position type and move application) and
//! `shogi_legality_lite` (move generation and legality). Each function here
//! wraps exactly one of their operations; its contract states, over the
//! oracle-state model of `model`, what that operation's source shows.
//! Results that would take pages to state (which moves are legal, what a
//! move does to the position) are only named, never spelled out: every name
//! is a pure function of the oracle state, which the oracle's determinism
//! guarantees.

use vstd::prelude::*;

use shogi_core::{Move, PartialPosition, Piece, PieceKind, Square};
use shogi_legality_lite::{all_legal_moves_partial, is_legal_partial_lite, normal_from_candidates};

use crate::model::{
    empty_ostate, encode_state, is_piece_code, set_cell_state, wf_ostate, cell_index, STATE_LEN,
    SIDE_IDX,
};

verus! {

#[verifier::external_type_specification]
#[verifier::external_body]
pub struct ExPartialPosition(PartialPosition);

#[verifier::external_type_specification]
#[verifier::external_body]
pub struct ExMove(Move);

#[verifier::external_type_specification]
#[verifier::external_body]
pub struct ExColor(shogi_core::Color);

/// The contents of a `PartialPosition`: its board, side, ply and hands as
/// the 97 encoded entries, followed by the two king-cache entries.
pub uninterp spec fn ostate(p: PartialPosition) -> Seq<int>;

/// What `all_legal_moves_partial` returns for a position with this state,
/// in the oracle's order.
pub uninterp spec fn oracle_moves(st: Seq<int>) -> Seq<Move>;

/// The state `make_move` leaves behind when it accepts move `m` on a
/// position with state `st`.
pub uninterp spec fn applied_state(st: Seq<int>, m: Move) -> Seq<int>;

/// The destination square index (1..=81) of a move.
pub uninterp spec fn move_to_sq(m: Move) -> int;

/// Whether a move promotes the moved piece.
pub uninterp spec fn move_promotes(m: Move) -> bool;

/// How many destination squares `normal_from_candidates` reports for the
/// piece on the given square of a position with state `st`.
pub uninterp spec fn reach_count(st: Seq<int>, file: int, rank: int) -> nat;

/// Whether `is_legal_partial_lite` accepts the non-promoting normal move
/// between the given squares on a position with state `st`.
pub uninterp spec fn normal_probe(st: Seq<int>, ff: int, fr: int, tf: int, tr: int) -> bool;

/// Whether `make_move` accepts move `m` on a position with state `st`.
pub uninterp spec fn move_accepted(st: Seq<int>, m: Move) -> bool;

/// Whether a `Color` value is white.
pub uninterp spec fn color_white(c: shogi_core::Color) -> bool;

/// Relies on PartialPosition::empty: an empty board, black to move, ply 1,
/// empty hands, no king caches.
#[verifier::external_body]
pub fn empty_pos() -> (p: PartialPosition)
    ensures
        ostate(p) == empty_ostate(),
{
    PartialPosition::empty()
}

/// Relies on PartialPosition::piece_set: places the piece with `code` on
/// the square, and records the square in the owning side's king cache when
/// the piece is a king. `Square::new` and `Piece::new` only convert the
/// plain arguments.
#[verifier::external_body]
pub fn set_cell(p: &mut PartialPosition, file: u8, rank: u8, code: u8)
    requires
        1 <= file <= 9,
        1 <= rank <= 9,
        is_piece_code(code as int),
    ensures
        ostate(*final(p)) == set_cell_state(
            ostate(*old(p)),
            cell_index(file as int, rank as int),
            code as int,
        ),
{
    let sq = Square::new(file, rank).unwrap();
    let kind = PieceKind::from_u8(code & 15).unwrap();
    let color = if code >= 17 {
        shogi_core::Color::White
    } else {
        shogi_core::Color::Black
    };
    p.piece_set(sq, Some(Piece::new(kind, color)));
}

/// Relies on PartialPosition::side_to_move_set: sets only the side entry.
#[verifier::external_body]
pub fn set_side(p: &mut PartialPosition, white: bool)
    ensures
        ostate(*final(p)) == ostate(*old(p)).update(
            SIDE_IDX as int,
            if white {
                1int
            } else {
                0int
            },
        ),
{
    p.side_to_move_set(
        if white {
            shogi_core::Color::White
        } else {
            shogi_core::Color::Black
        },
    );
}

/// Relies on PartialPosition's Clone: the copy has the same contents.
#[verifier::external_body]
pub fn clone_pos(p: &PartialPosition) -> (q: PartialPosition)
    ensures
        ostate(q) == ostate(*p),
{
    p.clone()
}

/// Relies on PartialPosition::to_sfen_owned: it writes the canonical text
/// of the board, side, hand and ply entries, which is this library's
/// `encode_state` of them; the king caches are not written.
#[verifier::external_body]
pub fn to_sfen(p: &PartialPosition) -> (r: String)
    ensures
        r@ == encode_state(ostate(*p).take(STATE_LEN as int)),
{
    p.to_sfen_owned()
}

/// Relies on all_legal_moves_partial: a deterministic function of the
/// position, so its result carries the name `oracle_moves`; its source
/// keeps only moves that `make_move` accepts.
#[verifier::external_body]
pub fn legal_moves(p: &PartialPosition) -> (r: Vec<Move>)
    ensures
        r@ == oracle_moves(ostate(*p)),
        forall|i: int| 0 <= i < r@.len() ==> move_accepted(ostate(*p), #[trigger] r@[i]),
{
    all_legal_moves_partial(p)
}

/// Relies on PartialPosition::make_move: on success the position becomes
/// `applied_state` of its old state and the move, and its contents stay
/// structurally sound; on failure the position is untouched.
#[verifier::external_body]
pub fn make_move(p: &mut PartialPosition, m: Move) -> (ok: bool)
    ensures
        ok == move_accepted(ostate(*old(p)), m),
        ok ==> ostate(*final(p)) == applied_state(ostate(*old(p)), m) && wf_ostate(
            applied_state(ostate(*old(p)), m),
        ),
        !ok ==> ostate(*final(p)) == ostate(*old(p)),
{
    p.make_move(m).is_some()
}

/// Relies on Move::to and Square::index: the destination square index,
/// which is always in 1..=81.
#[verifier::external_body]
pub fn move_to_index(m: Move) -> (r: u8)
    ensures
        r as int == move_to_sq(m),
        1 <= r <= 81,
{
    m.to().index()
}

/// Relies on Move::is_promoting.
#[verifier::external_body]
pub fn move_is_promotion(m: Move) -> (r: bool)
    ensures
        r == move_promotes(m),
{
    m.is_promoting()
}

/// Relies on normal_from_candidates and Bitboard::count: how many squares
/// the piece on the given square may move to.
#[verifier::external_body]
pub fn reachable_count(p: &PartialPosition, file: u8, rank: u8) -> (n: u8)
    requires
        1 <= file <= 9,
        1 <= rank <= 9,
    ensures
        n as nat == reach_count(ostate(*p), file as int, rank as int),
{
    normal_from_candidates(p, Square::new(file, rank).unwrap()).count()
}

/// Relies on is_legal_partial_lite, probing the non-promoting normal move
/// between two squares; `Square::new` and `Move::Normal` only convert the
/// plain arguments.
#[verifier::external_body]
pub fn probe_normal(p: &PartialPosition, ff: u8, fr: u8, tf: u8, tr: u8) -> (r: bool)
    requires
        1 <= ff <= 9,
        1 <= fr <= 9,
        1 <= tf <= 9,
        1 <= tr <= 9,
    ensures
        r == normal_probe(ostate(*p), ff as int, fr as int, tf as int, tr as int),
{
    let from = Square::new(ff, fr).unwrap();
    let to = Square::new(tf, tr).unwrap();
    is_legal_partial_lite(p, Move::Normal { from, to, promote: false })
}

/// Builds a `Color` value from its whiteness.
#[verifier::external_body]
pub fn mk_color(white: bool) -> (c: shogi_core::Color)
    ensures
        color_white(c) == white,
{
    if white {
        shogi_core::Color::White
    } else {
        shogi_core::Color::Black
    }
}

/// Relies on Color's two variants: reads a `Color` value's whiteness back.
#[verifier::external_body]
pub fn is_white(c: shogi_core::Color) -> (r: bool)
    ensures
        r == color_white(c),
{
    matches!(c, shogi_core::Color::White)
}

} // verus!
