//! The game-tree search: building oracle positions from decoded texts,
//! the perft leaf counter, the bounded-depth tree builder, and the
//! minimax backup.

use vstd::prelude::*;

use shogi_core::{Color, Move, PartialPosition};

use crate::codec::{decode, Position};
use crate::eval::{evaluate_full, feature_spec, fitness_spec, code_count};
use crate::model::{
    build_ostate, empty_ostate, encode_state, valid_text, wf_state, cell_index,
    decode_state, last_king_entry, lemma_state_round_trip,
    set_cell_state, text_ostate, EngineError, BK_CACHE_IDX, OSTATE_LEN, PLY_IDX, SIDE_IDX,
    STATE_LEN, WK_CACHE_IDX,
};
use crate::oracle::{
    applied_state, clone_pos, color_white, empty_pos, is_white, legal_moves, make_move,
    move_accepted, oracle_moves, ostate, set_cell, set_side, to_sfen,
};

verus! {

/// The oracle state of a position part-way through being built: the first
/// `n` board cells placed (in ascending order), nothing else set yet.
pub open spec fn build_prefix(st: Seq<int>, n: int) -> Seq<int> {
    Seq::new(
        OSTATE_LEN as nat,
        |i: int|
            if i < 81 {
                if i < n {
                    st[i]
                } else {
                    0
                }
            } else if i == PLY_IDX {
                1
            } else if i == BK_CACHE_IDX {
                last_king_entry(st.take(n), false)
            } else if i == WK_CACHE_IDX {
                last_king_entry(st.take(n), true)
            } else {
                0
            },
    )
}

/// Placing one more cell advances the build prefix.
proof fn lemma_build_step(st: Seq<int>, n: int)
    requires
        wf_state(st),
        0 <= n < 81,
    ensures
        st[n] == 0 ==> build_prefix(st, n + 1) =~= build_prefix(st, n),
        st[n] != 0 ==> build_prefix(st, n + 1) =~= set_cell_state(build_prefix(st, n), n, st[n]),
{
    assert(st.take(n + 1).last() == st[n]);
    assert(st.take(n + 1).drop_last() =~= st.take(n));
}

/// Builds the oracle's position for a decoded record: its board and side,
/// with empty hands and ply one, exactly as the engine hands positions to
/// the rules oracle.
pub fn build_oracle_pos(p: &Position) -> (q: PartialPosition)
    requires
        p.wf(),
    ensures
        ostate(q) == build_ostate(p.state()),
{
    let mut q = empty_pos();
    proof {
        assert(st0(p).take(0) =~= Seq::<int>::empty());
        assert(build_prefix(st0(p), 0) =~= empty_ostate());
    }
    let mut idx: usize = 0;
    while idx < 81
        invariant
            p.wf(),
            0 <= idx <= 81,
            ostate(q) == build_prefix(p.state(), idx as int),
        decreases 81 - idx,
    {
        let code = p.board[idx];
        proof {
            lemma_build_step(p.state(), idx as int);
            assert(p.state()[idx as int] == code as int);
        }
        if code != 0 {
            let file = (idx / 9 + 1) as u8;
            let rank = (idx % 9 + 1) as u8;
            proof {
                assert(cell_index(file as int, rank as int) == idx as int) by (nonlinear_arith)
                    requires
                        file as int == idx as int / 9 + 1,
                        rank as int == idx as int % 9 + 1,
                        0 <= idx < 81,
                ;
            }
            set_cell(&mut q, file, rank, code);
        }
        idx = idx + 1;
    }
    set_side(&mut q, p.side == 1);
    proof {
        assert(st0(p).take(81) =~= st0(p).take(81));
        assert(ostate(q) =~= build_ostate(p.state()));
    }
    q
}

/// Shorthand for a record's state, used inside proofs.
pub open spec fn st0(p: &Position) -> Seq<int> {
    p.state()
}

/// The text of the position reached by applying move `m` to a position with
/// oracle state `st`.
pub open spec fn child_text(st: Seq<int>, m: Move) -> Seq<char> {
    encode_state(applied_state(st, m).take(STATE_LEN as int))
}

/// The number of positions reachable in exactly `depth` plies from the
/// position a text denotes, counting by the rules oracle's move lists; 1 at
/// depth zero, 0 for a malformed text.
pub open spec fn perft_spec(s: Seq<char>, depth: nat) -> nat
    decreases depth, 0int,
{
    if depth == 0 {
        1
    } else if valid_text(s) {
        let st = text_ostate(s);
        perft_sum(st, oracle_moves(st), oracle_moves(st).len() as int, (depth - 1) as nat)
    } else {
        0
    }
}

/// The sum of the perft counts of the first `j` children of a position with
/// oracle state `st` and move list `moves`.
pub open spec fn perft_sum(st: Seq<int>, moves: Seq<Move>, j: int, depth: nat) -> nat
    decreases depth, j + 1,
{
    if j <= 0 {
        0
    } else {
        perft_sum(st, moves, j - 1, depth) + perft_spec(child_text(st, moves[j - 1]), depth)
    }
}

/// `n` clipped to what a machine word can hold.
pub open spec fn clip_u64(n: nat) -> nat {
    if n > 0xffff_ffff_ffff_ffff {
        0xffff_ffff_ffff_ffff
    } else {
        n
    }
}

/// Clipping distributes over addition of clipped summands.
proof fn lemma_clip_add(a: nat, b: nat)
    ensures
        clip_u64(clip_u64(a) + clip_u64(b)) == clip_u64(a + b),
{
}

/// Counts the positions reachable in exactly `depth` plies, re-encoding and
/// re-decoding each intermediate position as the engine always does (hands
/// and ply are rebuilt afresh at every level). The count saturates at the
/// largest machine word.
pub fn perft(sfen: &str, depth: u32) -> (r: Result<u64, EngineError>)
    ensures
        r is Ok <==> valid_text(sfen@),
        r is Err ==> r->Err_0 == EngineError::MalformedEncoding,
        r is Ok ==> r->Ok_0 as nat == clip_u64(perft_spec(sfen@, depth as nat)),
    decreases depth,
{
    let rec = match decode(sfen) {
        Ok(p) => p,
        Err(e) => {
            return Err(e);
        },
    };
    if depth == 0 {
        return Ok(1);
    }
    let pos = build_oracle_pos(&rec);
    proof {
        assert(ostate(pos) == text_ostate(sfen@));
    }
    let moves = legal_moves(&pos);
    let ghost st = ostate(pos);
    let ghost dm1 = (depth - 1) as nat;
    let mut total: u64 = 0;
    let mut j: usize = 0;
    while j < moves.len()
        invariant
            st == text_ostate(sfen@),
            valid_text(sfen@),
            moves@ == oracle_moves(st),
            forall|i: int| 0 <= i < moves@.len() ==> move_accepted(st, #[trigger] moves@[i]),
            ostate(pos) == st,
            depth >= 1,
            dm1 == (depth - 1) as nat,
            0 <= j <= moves@.len(),
            total as nat == clip_u64(perft_sum(st, moves@, j as int, dm1)),
        decreases moves@.len() - j,
    {
        let m = moves[j];
        let mut tmp = clone_pos(&pos);
        let ok = make_move(&mut tmp, m);
        if !ok {
            proof {
                assert(false);
            }
            return Err(EngineError::OracleError);
        }
        let child = to_sfen(&tmp);
        proof {
            assert(child@ == child_text(st, m));
            lemma_state_round_trip(applied_state(st, m).take(STATE_LEN as int));
            assert(valid_text(child@));
        }
        let sub = match perft(child.as_str(), depth - 1) {
            Ok(n) => n,
            Err(e) => {
                proof {
                    assert(false);
                }
                return Err(e);
            },
        };
        proof {
            lemma_clip_add(perft_sum(st, moves@, j as int, dm1), perft_spec(child@, dm1));
            assert(perft_sum(st, moves@, j as int + 1, dm1) == perft_sum(st, moves@, j as int, dm1)
                + perft_spec(child_text(st, moves@[j as int]), dm1));
        }
        total = saturating_add(total, sub);
        j = j + 1;
    }
    proof {
        assert(perft_spec(sfen@, depth as nat) == perft_sum(
            st,
            moves@,
            moves@.len() as int,
            dm1,
        ));
    }
    Ok(total)
}

/// Adds two counters, stopping at the largest machine word.
fn saturating_add(a: u64, b: u64) -> (r: u64)
    ensures
        r as nat == clip_u64(a as nat + b as nat),
{
    if a <= u64::MAX - b {
        a + b
    } else {
        u64::MAX
    }
}

/// Perft counts are consistent across depths: at any positive depth the
/// count is exactly the sum, over the oracle's legal moves, of the counts
/// of the resulting positions one ply shallower. Re-running changes
/// nothing: the count is a function of the text and the depth alone.
pub proof fn lemma_perft_consistent(s: Seq<char>, depth: nat)
    requires
        valid_text(s),
        depth >= 1,
    ensures
        perft_spec(s, depth) == perft_sum(
            text_ostate(s),
            oracle_moves(text_ostate(s)),
            oracle_moves(text_ostate(s)).len() as int,
            (depth - 1) as nat,
        ),
{
}

/// Perft is deterministic: any two counts the counter's contract admits
/// for the same text and depth are the same number.
pub proof fn lemma_perft_deterministic(s: Seq<char>, depth: nat, a: u64, b: u64)
    requires
        a as nat == clip_u64(perft_spec(s, depth)),
        b as nat == clip_u64(perft_spec(s, depth)),
    ensures
        a == b,
{
}

/// In a correctly built tree with budget left, a leaf can only be a
/// position for which the oracle reports no legal move; every other node
/// keeps its full child list, so every leaf sits at the depth limit or on a
/// terminal position.
pub proof fn lemma_leaf_is_terminal(t: GameTree, budget: nat)
    requires
        tree_ok(t, budget),
        budget > 0,
        t.children@.len() == 0,
    ensures
        oracle_moves(text_ostate(t.sfen@)).len() == 0,
{
}

/// At depth one the perft count equals the number of legal moves the
/// oracle reports for the position.
pub proof fn lemma_perft_depth_one(s: Seq<char>)
    requires
        valid_text(s),
    ensures
        perft_spec(s, 1) == oracle_moves(text_ostate(s)).len(),
{
    let st = text_ostate(s);
    lemma_perft_sum_ones(st, oracle_moves(st), oracle_moves(st).len() as int);
}

/// At depth zero every child contributes one leaf.
proof fn lemma_perft_sum_ones(st: Seq<int>, moves: Seq<Move>, j: int)
    requires
        0 <= j <= moves.len(),
    ensures
        perft_sum(st, moves, j, 0) == j,
    decreases j,
{
    if j > 0 {
        lemma_perft_sum_ones(st, moves, j - 1);
        assert(perft_spec(child_text(st, moves[j - 1]), 0) == 1);
    }
}

/// One node of the game tree: the text of the position it stands for, the
/// move that led to it from its parent (absent at the root), and one child
/// per legal move, in the oracle's order.
pub struct GameTree {
    pub sfen: String,
    pub game_move: Option<Move>,
    pub children: Vec<GameTree>,
}

impl GameTree {
    /// A childless node.
    pub fn new(sfen: String, game_move: Option<Move>) -> (r: GameTree)
        ensures
            r.sfen == sfen,
            r.game_move == game_move,
            r.children@.len() == 0,
    {
        GameTree { sfen, game_move, children: Vec::new() }
    }
}

/// The shape of a correctly built tree with `budget` plies of depth left:
/// every node holds a valid position text; a node with no budget left is a
/// leaf; any other node has exactly one child per legal move of its
/// position, in the oracle's order, each labelled with its move and itself
/// correctly built one ply shallower. A leaf above the depth limit can only
/// be a position without legal moves.
pub open spec fn tree_ok(t: GameTree, budget: nat) -> bool
    decreases budget,
{
    &&& valid_text(t.sfen@)
    &&& budget == 0 ==> t.children@.len() == 0
    &&& budget > 0 ==> {
        let st = text_ostate(t.sfen@);
        &&& t.children@.len() == oracle_moves(st).len()
        &&& forall|i: int|
            0 <= i < oracle_moves(st).len() ==> {
                &&& (#[trigger] t.children@[i]).sfen@ == child_text(st, oracle_moves(st)[i])
                &&& t.children@[i].game_move == Some(oracle_moves(st)[i])
                &&& tree_ok(t.children@[i], (budget - 1) as nat)
            }
    }
}

/// The depth budget a call with these counters builds to.
pub open spec fn depth_budget(depth: u32, current_depth: u32) -> nat {
    if current_depth < depth {
        (depth - current_depth) as nat
    } else {
        0
    }
}

/// Builds the game tree of all positions reachable from `sfen` while
/// `current_depth` stays below `depth`, each child labelled with the legal
/// move that produced it. Fails with `MalformedEncoding` on an unparsable
/// root text; reachable positions always re-encode to valid texts.
pub fn treesearch(sfen: &str, depth: u32, current_depth: u32, game_move: Option<Move>) -> (r:
    Result<GameTree, EngineError>)
    ensures
        r is Ok <==> valid_text(sfen@),
        r is Err ==> r->Err_0 == EngineError::MalformedEncoding,
        r is Ok ==> r->Ok_0.sfen@ == sfen@ && r->Ok_0.game_move == game_move && tree_ok(
            r->Ok_0,
            depth_budget(depth, current_depth),
        ),
    decreases depth - current_depth,
{
    let rec = match decode(sfen) {
        Ok(p) => p,
        Err(e) => {
            return Err(e);
        },
    };
    let own = sfen.to_owned();
    if current_depth >= depth {
        let t = GameTree::new(own, game_move);
        return Ok(t);
    }
    let pos = build_oracle_pos(&rec);
    proof {
        assert(ostate(pos) == text_ostate(sfen@));
    }
    let moves = legal_moves(&pos);
    let ghost st = ostate(pos);
    let ghost bm1 = (depth_budget(depth, current_depth) - 1) as nat;
    let mut children: Vec<GameTree> = Vec::new();
    let mut j: usize = 0;
    while j < moves.len()
        invariant
            st == text_ostate(sfen@),
            valid_text(sfen@),
            moves@ == oracle_moves(st),
            forall|i: int| 0 <= i < moves@.len() ==> move_accepted(st, #[trigger] moves@[i]),
            ostate(pos) == st,
            current_depth < depth,
            bm1 == (depth_budget(depth, current_depth) - 1) as nat,
            bm1 == depth_budget(depth, (current_depth + 1) as u32),
            0 <= j <= moves@.len(),
            children@.len() == j,
            forall|i: int|
                0 <= i < j ==> {
                    &&& (#[trigger] children@[i]).sfen@ == child_text(st, moves@[i])
                    &&& children@[i].game_move == Some(moves@[i])
                    &&& tree_ok(children@[i], bm1)
                },
        decreases moves@.len() - j,
    {
        let m = moves[j];
        let mut tmp = clone_pos(&pos);
        let ok = make_move(&mut tmp, m);
        if !ok {
            proof {
                assert(false);
            }
            return Err(EngineError::OracleError);
        }
        let child_sfen = to_sfen(&tmp);
        proof {
            assert(child_sfen@ == child_text(st, m));
            lemma_state_round_trip(applied_state(st, m).take(STATE_LEN as int));
            assert(valid_text(child_sfen@));
        }
        let sub = match treesearch(child_sfen.as_str(), depth, current_depth + 1, Some(m)) {
            Ok(t) => t,
            Err(e) => {
                proof {
                    assert(false);
                }
                return Err(e);
            },
        };
        children.push(sub);
        j = j + 1;
    }
    let t = GameTree { sfen: own, game_move, children };
    proof {
        assert(tree_ok(t, depth_budget(depth, current_depth)));
    }
    Ok(t)
}

// ---------------------------------------------------------------------------
// Minimax backup
// ---------------------------------------------------------------------------

/// Why a leaf position cannot be evaluated, if it cannot.
pub open spec fn leaf_err(s: Seq<char>) -> Option<EngineError> {
    if !valid_text(s) {
        Some(EngineError::MalformedEncoding)
    } else if !(code_count(decode_state(s)->Some_0, 8, 81) == 1 && code_count(
        decode_state(s)->Some_0,
        24,
        81,
    ) == 1) {
        Some(EngineError::InvariantViolation)
    } else {
        None
    }
}

/// Whether the side to move in a valid text is white.
pub open spec fn text_side_white(s: Seq<char>) -> bool {
    decode_state(s)->Some_0[SIDE_IDX as int] == 1
}

/// The four-branch side-aware comparison the backup uses: whether the leaf
/// text `c` beats the current best leaf text `b`, given the side to move at
/// the node (`cur_white`) and the maximizing side (`max_white`). When the
/// mover is the maximizing side it seeks a strictly higher fitness on its
/// own component; otherwise it seeks a strictly lower fitness on the other
/// component. The rule is deliberately asymmetric over the two independent
/// fitness components and does not reduce to a single-score minimax; it is
/// a fixed part of the engine's design.
pub open spec fn beats(c: Seq<char>, b: Seq<char>, cur_white: bool, max_white: bool) -> bool {
    let cw = clip_u64(fitness_spec(c, true));
    let cb = clip_u64(fitness_spec(c, false));
    let bw = clip_u64(fitness_spec(b, true));
    let bb = clip_u64(fitness_spec(b, false));
    ||| (!max_white && cur_white != max_white && cw < bw)
    ||| (max_white && cur_white == max_white && cw > bw)
    ||| (!max_white && cur_white == max_white && cb > bb)
    ||| (max_white && cur_white != max_white && cb < bb)
}

/// The minimax outcome of a tree: the text of the chosen leaf and, at an
/// inner node, the index of the chosen child; or the first evaluation
/// error met in traversal order.
pub open spec fn mm_spec(t: GameTree, depth: nat, max_white: bool) -> Result<
    (Seq<char>, Option<int>),
    EngineError,
>
    decreases depth, 1int,
{
    if !valid_text(t.sfen@) {
        Err(EngineError::MalformedEncoding)
    } else if depth <= 1 || t.children@.len() == 0 {
        match leaf_err(t.sfen@) {
            Some(e) => Err(e),
            None => Ok((t.sfen@, None::<int>)),
        }
    } else {
        match mm_fold(t, depth, max_white, t.children@.len() as int) {
            Ok(best) => match best {
                Some(p) => Ok((p.0, Some(p.1))),
                None => Ok((t.sfen@, None::<int>)),
            },
            Err(e) => Err(e),
        }
    }
}

/// The running best after the first `j` children of `t` are examined.
pub open spec fn mm_fold(t: GameTree, depth: nat, max_white: bool, j: int) -> Result<
    Option<(Seq<char>, int)>,
    EngineError,
>
    decreases depth, 0int, j,
{
    if j <= 0 || depth == 0 {
        Ok(None::<(Seq<char>, int)>)
    } else {
        match mm_fold(t, depth, max_white, j - 1) {
            Err(e) => Err(e),
            Ok(prev) => match mm_spec(t.children@[j - 1], (depth - 1) as nat, max_white) {
                Err(e) => Err(e),
                Ok(sub) => Ok(
                    match prev {
                        None => Some((sub.0, j - 1)),
                        Some(best) => {
                            if beats(sub.0, best.0, text_side_white(t.sfen@), max_white) {
                                Some((sub.0, j - 1))
                            } else {
                                Some(best)
                            }
                        },
                    },
                ),
            },
        }
    }
}

/// An error met among the first `j` children persists through the rest.
proof fn lemma_mm_fold_err(t: GameTree, depth: nat, max_white: bool, j: int, n: int)
    requires
        j <= n,
        mm_fold(t, depth, max_white, j) is Err,
    ensures
        mm_fold(t, depth, max_white, n) == mm_fold(t, depth, max_white, j),
    decreases n - j,
{
    if j < n {
        lemma_mm_fold_err(t, depth, max_white, j + 1, n);
    }
}

/// A chosen child index lies among the examined children.
proof fn lemma_mm_fold_range(t: GameTree, depth: nat, max_white: bool, j: int)
    requires
        mm_fold(t, depth, max_white, j) is Ok,
        mm_fold(t, depth, max_white, j)->Ok_0 is Some,
    ensures
        0 <= mm_fold(t, depth, max_white, j)->Ok_0->Some_0.1 < j,
    decreases j,
{
    if j > 0 {
        if mm_fold(t, depth, max_white, j - 1) is Ok && mm_fold(
            t,
            depth,
            max_white,
            j - 1,
        )->Ok_0 is Some {
            lemma_mm_fold_range(t, depth, max_white, j - 1);
        }
    }
}

/// Walks the tree bottom-up and backs the leaf evaluations up through the
/// four-branch comparison, returning the chosen leaf's fitness pair, the
/// move that enters its subtree (absent at a leaf), its raw feature
/// breakdown and its text. Fails with the first evaluation error met.
#[verifier::rlimit(60)]
pub fn minimax(tree: &GameTree, depth: u32, maximizing_player: Color) -> (r: Result<
    ((u64, u64), Option<Move>, Vec<(u64, u64)>, String),
    EngineError,
>)
    requires
        depth >= 1,
    ensures
        r is Ok <==> mm_spec(*tree, depth as nat, color_white(maximizing_player)) is Ok,
        r is Err ==> r->Err_0 == mm_spec(
            *tree,
            depth as nat,
            color_white(maximizing_player),
        )->Err_0,
        r is Ok ==> {
            let best = mm_spec(*tree, depth as nat, color_white(maximizing_player))->Ok_0;
            &&& r->Ok_0.3@ == best.0
            &&& r->Ok_0.0.0 as nat == clip_u64(fitness_spec(best.0, true))
            &&& r->Ok_0.0.1 as nat == clip_u64(fitness_spec(best.0, false))
            &&& r->Ok_0.1 == (match best.1 {
                Some(i) => tree.children@[i].game_move,
                None => None::<Move>,
            })
            &&& r->Ok_0.2@.len() == 7
            &&& forall|k: int|
                0 <= k < 7 ==> (#[trigger] r->Ok_0.2@[k]).0 as nat == clip_u64(
                    feature_spec(best.0, true, k),
                ) && r->Ok_0.2@[k].1 as nat == clip_u64(feature_spec(best.0, false, k))
        },
    decreases depth,
{
    let ghost mw = color_white(maximizing_player);
    let rec = match decode(tree.sfen.as_str()) {
        Ok(p) => p,
        Err(e) => {
            return Err(e);
        },
    };
    if depth == 1 || tree.children.len() == 0 {
        let out = match evaluate_full(tree.sfen.as_str()) {
            Ok(o) => o,
            Err(e) => {
                return Err(e);
            },
        };
        let text = tree.sfen.clone();
        return Ok(((out.white, out.black), None, out.features, text));
    }
    let maxw = is_white(maximizing_player);
    let curr_white = rec.side == 1;
    proof {
        assert(curr_white == text_side_white(tree.sfen@));
    }
    let n = tree.children.len();
    let mut best: Option<((u64, u64), Option<Move>, Vec<(u64, u64)>, String)> = None;
    let mut j: usize = 0;
    while j < n
        invariant
            depth >= 2,
            mw == color_white(maximizing_player),
            maxw == mw,
            valid_text(tree.sfen@),
            curr_white == text_side_white(tree.sfen@),
            n == tree.children@.len(),
            0 <= j <= n,
            mm_fold(*tree, depth as nat, mw, j as int) is Ok,
            best is None <==> mm_fold(*tree, depth as nat, mw, j as int)->Ok_0 is None,
            best is Some ==> {
                let bspec = mm_fold(*tree, depth as nat, mw, j as int)->Ok_0->Some_0;
                let b = best->Some_0;
                &&& 0 <= bspec.1 < j
                &&& b.3@ == bspec.0
                &&& b.0.0 as nat == clip_u64(fitness_spec(bspec.0, true))
                &&& b.0.1 as nat == clip_u64(fitness_spec(bspec.0, false))
                &&& b.1 == tree.children@[bspec.1].game_move
                &&& b.2@.len() == 7
                &&& forall|k: int|
                    0 <= k < 7 ==> (#[trigger] b.2@[k]).0 as nat == clip_u64(
                        feature_spec(bspec.0, true, k),
                    ) && b.2@[k].1 as nat == clip_u64(feature_spec(bspec.0, false, k))
            },
        decreases n - j,
    {
        proof {
            if mm_fold(*tree, depth as nat, mw, j as int)->Ok_0 is Some {
                lemma_mm_fold_range(*tree, depth as nat, mw, j as int);
            }
        }
        let child = &tree.children[j];
        let sub = match minimax(child, depth - 1, maximizing_player) {
            Ok(s) => s,
            Err(e) => {
                proof {
                    assert(mm_fold(*tree, depth as nat, mw, j as int + 1) is Err);
                    lemma_mm_fold_err(*tree, depth as nat, mw, j as int + 1, n as int);
                    assert(mm_spec(*tree, depth as nat, mw) is Err);
                }
                return Err(e);
            },
        };
        let replace: bool = match &best {
            Option::None => true,
            Option::Some(b) => {
                let ceval = sub.0;
                let beval = b.0;
                (!maxw && curr_white && ceval.0 < beval.0) || (maxw && curr_white && ceval.0
                    > beval.0) || (!maxw && !curr_white && ceval.1 > beval.1) || (maxw
                    && !curr_white && ceval.1 < beval.1)
            },
        };
        proof {
            if best is Some {
                let bspec = mm_fold(*tree, depth as nat, mw, j as int)->Ok_0->Some_0;
                let cspec = mm_spec(tree.children@[j as int], (depth - 1) as nat, mw)->Ok_0;
                assert(replace == beats(cspec.0, bspec.0, curr_white, mw));
            }
        }
        if replace {
            best = Some((sub.0, child.game_move, sub.2, sub.3));
        }
        j = j + 1;
    }
    match best {
        Option::Some(b) => {
            proof {
                lemma_mm_fold_range(*tree, depth as nat, mw, n as int);
            }
            Ok(b)
        },
        Option::None => {
            proof {
                assert(false);
            }
            Err(EngineError::MalformedEncoding)
        },
    }
}

/// On a one-ply search the backup returns the root's own evaluation with no
/// move: at depth one every tree is treated as a leaf.
pub proof fn lemma_minimax_one_ply(t: GameTree, max_white: bool)
    requires
        valid_text(t.sfen@),
        leaf_err(t.sfen@) is None,
    ensures
        mm_spec(t, 1, max_white) == Ok::<(Seq<char>, Option<int>), EngineError>(
            (t.sfen@, None::<int>),
        ),
{
}

// ---------------------------------------------------------------------------
// Flat expansions
// ---------------------------------------------------------------------------

/// Expands a position one ply: the texts of all positions one legal move
/// away, and the moves themselves, in the oracle's order.
pub fn single_search(sfen: &str) -> (r: (Vec<String>, Vec<Move>))
    requires
        valid_text(sfen@),
    ensures
        r.1@ == oracle_moves(text_ostate(sfen@)),
        r.0@.len() == r.1@.len(),
        forall|i: int|
            0 <= i < r.0@.len() ==> (#[trigger] r.0@[i])@ == child_text(
                text_ostate(sfen@),
                oracle_moves(text_ostate(sfen@))[i],
            ),
{
    let rec = match decode(sfen) {
        Ok(p) => p,
        Err(_) => {
            proof {
                assert(false);
            }
            return (Vec::new(), Vec::new());
        },
    };
    let pos = build_oracle_pos(&rec);
    let ghost st = ostate(pos);
    let moves = legal_moves(&pos);
    let mut sfen_list: Vec<String> = Vec::new();
    let mut j: usize = 0;
    while j < moves.len()
        invariant
            st == text_ostate(sfen@),
            moves@ == oracle_moves(st),
            forall|i: int| 0 <= i < moves@.len() ==> move_accepted(st, #[trigger] moves@[i]),
            ostate(pos) == st,
            0 <= j <= moves@.len(),
            sfen_list@.len() == j,
            forall|i: int|
                0 <= i < j ==> (#[trigger] sfen_list@[i])@ == child_text(st, moves@[i]),
        decreases moves@.len() - j,
    {
        let m = moves[j];
        let mut tmp = clone_pos(&pos);
        let ok = make_move(&mut tmp, m);
        proof {
            assert(ok);
        }
        let child = to_sfen(&tmp);
        sfen_list.push(child);
        j = j + 1;
    }
    (sfen_list, moves)
}

/// The texts of the positions exactly `depth` plies below `s`, leftmost
/// subtree first.
pub open spec fn leaf_texts(s: Seq<char>, depth: nat) -> Seq<Seq<char>>
    decreases depth, 0int,
{
    if depth == 0 || !valid_text(s) {
        seq![s]
    } else {
        let st = text_ostate(s);
        leaf_cat(st, oracle_moves(st), oracle_moves(st).len() as int, (depth - 1) as nat)
    }
}

/// The leaf texts of the first `j` children, concatenated.
pub open spec fn leaf_cat(st: Seq<int>, moves: Seq<Move>, j: int, depth: nat) -> Seq<Seq<char>>
    decreases depth, j + 1,
{
    if j <= 0 {
        Seq::<Seq<char>>::empty()
    } else {
        leaf_cat(st, moves, j - 1, depth) + leaf_texts(child_text(st, moves[j - 1]), depth)
    }
}

/// Collects the texts of every position reachable in exactly
/// `depth - current_depth` plies, depth first.
pub fn search(sfen: &str, depth: u32, current_depth: u32) -> (r: Vec<String>)
    requires
        valid_text(sfen@),
        current_depth <= depth,
    ensures
        r.deep_view() =~~= leaf_texts(sfen@, (depth - current_depth) as nat),
    decreases depth - current_depth,
{
    let rec = match decode(sfen) {
        Ok(p) => p,
        Err(_) => {
            proof {
                assert(false);
            }
            return Vec::new();
        },
    };
    if current_depth == depth {
        let mut r: Vec<String> = Vec::new();
        r.push(sfen.to_owned());
        proof {
            assert(r.deep_view() =~~= seq![sfen@]);
        }
        return r;
    }
    let pos = build_oracle_pos(&rec);
    let ghost st = ostate(pos);
    let moves = legal_moves(&pos);
    let ghost dm1 = (depth - current_depth - 1) as nat;
    let mut out: Vec<String> = Vec::new();
    let mut j: usize = 0;
    while j < moves.len()
        invariant
            st == text_ostate(sfen@),
            valid_text(sfen@),
            moves@ == oracle_moves(st),
            forall|i: int| 0 <= i < moves@.len() ==> move_accepted(st, #[trigger] moves@[i]),
            ostate(pos) == st,
            current_depth < depth,
            dm1 == (depth - current_depth - 1) as nat,
            0 <= j <= moves@.len(),
            out.deep_view() =~~= leaf_cat(st, moves@, j as int, dm1),
        decreases moves@.len() - j,
    {
        let m = moves[j];
        let mut tmp = clone_pos(&pos);
        let ok = make_move(&mut tmp, m);
        proof {
            assert(ok);
        }
        let child = to_sfen(&tmp);
        proof {
            assert(child@ == child_text(st, m));
            lemma_state_round_trip(applied_state(st, m).take(STATE_LEN as int));
            assert(valid_text(child@));
        }
        let mut deeper = search(child.as_str(), depth, current_depth + 1);
        let ghost pre = out.deep_view();
        let ghost add = deeper.deep_view();
        out.append(&mut deeper);
        proof {
            assert(out.deep_view() =~~= pre + add);
        }
        j = j + 1;
    }
    out
}

/// Whether any two entries hold the same text.
pub fn has_duplicates(vec: &Vec<String>) -> (r: bool)
    ensures
        r == exists|i: int, j: int| 0 <= i < j < vec@.len() && vec@[i]@ == vec@[j]@,
{
    let n = vec.len();
    let mut i: usize = 0;
    while i < n
        invariant
            n == vec@.len(),
            0 <= i <= n,
            forall|a: int, b: int| 0 <= a < b < n && a < i ==> vec@[a]@ != vec@[b]@,
        decreases n - i,
    {
        let mut j: usize = i + 1;
        while j < n
            invariant
                n == vec@.len(),
                0 <= i < n,
                i < j <= n,
                forall|b: int| i < b < j ==> vec@[i as int]@ != vec@[b]@,
            decreases n - j,
        {
            if crate::eval::str_eq(vec[i].as_str(), vec[j].as_str()) {
                proof {
                    assert(vec@[i as int]@ == vec@[j as int]@);
                }
                return true;
            }
            j = j + 1;
        }
        i = i + 1;
    }
    false
}

} // verus!
