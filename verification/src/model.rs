//! The mathematical model of a game state.
//!
//! A full game state is modelled as a sequence of 97 integers:
//! entries 0..81 are the board cells (0 for an empty square, otherwise a
//! piece code), entry 81 is the side to move (0 black, 1 white), entry 82
//! is the ply counter, entries 83..90 are black's hand counts and entries
//! 90..97 white's, both in the kind order pawn, lance, knight, silver,
//! gold, bishop, rook.
//!
//! Piece codes follow the board crate's convention: 1..=8 are black pawn,
//! lance, knight, silver, gold, bishop, rook, king; adding 8 promotes
//! (9..=14); adding 16 makes the piece white (17..=30).

use vstd::prelude::*;

verus! {

/// Failures of the engine core, as surfaced to callers.
#[derive(Clone, Copy, Debug, PartialEq, Eq, Structural)]
pub enum EngineError {
    /// The position text cannot be parsed.
    MalformedEncoding,
    /// A position breaks the exactly-one-king-per-side invariant that the
    /// evaluator depends on.
    InvariantViolation,
    /// The rules oracle rejected a move it had itself reported as legal.
    OracleError,
}

pub const SIDE_IDX: usize = 81;

pub const PLY_IDX: usize = 82;

pub const BLACK_HAND_IDX: usize = 83;

pub const WHITE_HAND_IDX: usize = 90;

pub const STATE_LEN: usize = 97;

/// The board cell holding `file` and `rank` (both 1..=9).
pub open spec fn cell_index(file: int, rank: int) -> int {
    (file - 1) * 9 + (rank - 1)
}

/// Whether `code` denotes a piece (possibly promoted) of either side.
pub open spec fn is_piece_code(code: int) -> bool {
    1 <= code <= 14 || 17 <= code <= 30
}

/// The kind part of a piece code: 1..=14, where 9..=14 are promoted kinds.
pub open spec fn code_kind(code: int) -> int {
    if code >= 17 {
        code - 16
    } else {
        code
    }
}

/// A well-formed game state: 97 entries, valid cells, a boolean side,
/// a ply that fits the oracle's counter, and byte-sized hand counts.
pub open spec fn wf_state(st: Seq<int>) -> bool {
    &&& st.len() == STATE_LEN
    &&& forall|i: int| 0 <= i < 81 ==> st[i] == 0 || is_piece_code(#[trigger] st[i])
    &&& (st[SIDE_IDX as int] == 0 || st[SIDE_IDX as int] == 1)
    &&& 0 <= st[PLY_IDX as int] <= 0xffff
    &&& forall|i: int| BLACK_HAND_IDX <= i < STATE_LEN ==> 0 <= #[trigger] st[i] <= 0xff
}

// ---------------------------------------------------------------------------
// Characters of the encoding
// ---------------------------------------------------------------------------

/// The board letter of an unpromoted piece code (1..=8 upper case for black,
/// 17..=24 lower case for white); '?' for anything else.
pub open spec fn char_of_base_code(code: int) -> char {
    if code == 1 { 'P' } else if code == 2 { 'L' } else if code == 3 { 'N' }
    else if code == 4 { 'S' } else if code == 5 { 'G' } else if code == 6 { 'B' }
    else if code == 7 { 'R' } else if code == 8 { 'K' } else if code == 17 { 'p' }
    else if code == 18 { 'l' } else if code == 19 { 'n' } else if code == 20 { 's' }
    else if code == 21 { 'g' } else if code == 22 { 'b' } else if code == 23 { 'r' }
    else if code == 24 { 'k' } else { '?' }
}

/// The unpromoted piece code of a board letter; 0 if the letter is no piece.
pub open spec fn base_code_of_char(c: char) -> int {
    if c == 'P' { 1 } else if c == 'L' { 2 } else if c == 'N' { 3 }
    else if c == 'S' { 4 } else if c == 'G' { 5 } else if c == 'B' { 6 }
    else if c == 'R' { 7 } else if c == 'K' { 8 } else if c == 'p' { 17 }
    else if c == 'l' { 18 } else if c == 'n' { 19 } else if c == 's' { 20 }
    else if c == 'g' { 21 } else if c == 'b' { 22 } else if c == 'r' { 23 }
    else if c == 'k' { 24 } else { 0 }
}

/// Whether `code` is an unpromoted piece code.
pub open spec fn is_base_code(code: int) -> bool {
    1 <= code <= 8 || 17 <= code <= 24
}

/// Whether the kind of `code` may promote (pawn, lance, knight, silver,
/// bishop, rook).
pub open spec fn promotable_code(code: int) -> bool {
    is_base_code(code) && code_kind(code) != 5 && code_kind(code) != 8
}

/// The promoted code of an unpromoted one: pawn, lance, knight and silver
/// gain 8; bishop and rook gain 7 (their promoted kinds are 13 and 14).
pub open spec fn promote_code(code: int) -> int {
    if code_kind(code) <= 4 {
        code + 8
    } else {
        code + 7
    }
}

/// The unpromoted code of a promoted one; inverse of `promote_code`.
pub open spec fn unpromote_code(code: int) -> int {
    if code_kind(code) <= 12 {
        code - 8
    } else {
        code - 7
    }
}

/// The characters a piece code occupies in a board rank: one letter, with a
/// leading '+' for a promoted piece.
pub open spec fn piece_chars(code: int) -> Seq<char> {
    if code_kind(code) >= 9 {
        seq!['+', char_of_base_code(unpromote_code(code))]
    } else {
        seq![char_of_base_code(code)]
    }
}

/// The digit character of `d` (0..=9).
pub open spec fn digit_char(d: int) -> char {
    if d == 0 { '0' } else if d == 1 { '1' } else if d == 2 { '2' }
    else if d == 3 { '3' } else if d == 4 { '4' } else if d == 5 { '5' }
    else if d == 6 { '6' } else if d == 7 { '7' } else if d == 8 { '8' }
    else if d == 9 { '9' } else { '?' }
}

/// Whether `c` is a decimal digit.
pub open spec fn is_digit(c: char) -> bool {
    '0' <= c <= '9'
}

/// The numeric value of a digit character.
pub open spec fn digit_val(c: char) -> int {
    c as int - '0' as int
}

/// The decimal notation of `n` (no sign, no leading zeros).
pub open spec fn dec_chars(n: int) -> Seq<char>
    decreases n,
{
    if n <= 9 {
        seq![digit_char(if n < 0 { 0 } else { n })]
    } else {
        dec_chars(n / 10).push(digit_char(n % 10))
    }
}

/// The number denoted by a digit sequence (most significant first),
/// continuing from `acc`.
pub open spec fn dec_val(s: Seq<char>, acc: int) -> int
    decreases s.len(),
{
    if s.len() == 0 {
        acc
    } else {
        dec_val(s.skip(1), acc * 10 + digit_val(s[0]))
    }
}

/// Whether `s` is a valid decimal notation: all digits, nonempty, and no
/// leading zero unless the number is zero itself.
pub open spec fn is_dec(s: Seq<char>) -> bool {
    &&& s.len() > 0
    &&& forall|i: int| 0 <= i < s.len() ==> is_digit(#[trigger] s[i])
    &&& (s[0] == '0' ==> s.len() == 1)
}

// ---------------------------------------------------------------------------
// Splitting and joining on a separator
// ---------------------------------------------------------------------------

/// The parts of `s` between occurrences of `sep`; always at least one part.
pub open spec fn split_char(s: Seq<char>, sep: char) -> Seq<Seq<char>>
    decreases s.len(),
{
    if s.len() == 0 {
        seq![Seq::<char>::empty()]
    } else {
        let rest = split_char(s.skip(1), sep);
        if s[0] == sep {
            seq![Seq::<char>::empty()] + rest
        } else {
            seq![seq![s[0]] + rest[0]] + rest.skip(1)
        }
    }
}

/// Splitting always yields at least one part.
pub proof fn lemma_split_len(s: Seq<char>, sep: char)
    ensures
        split_char(s, sep).len() >= 1,
    decreases s.len(),
{
    if s.len() > 0 {
        lemma_split_len(s.skip(1), sep);
    }
}

/// A text without the separator splits into itself alone.
pub proof fn lemma_split_none(s: Seq<char>, sep: char)
    requires
        forall|i: int| 0 <= i < s.len() ==> s[i] != sep,
    ensures
        split_char(s, sep) =~~= seq![s],
    decreases s.len(),
{
    if s.len() == 0 {
        assert(split_char(s, sep) =~~= seq![s]);
    } else {
        lemma_split_none(s.skip(1), sep);
        lemma_split_len(s.skip(1), sep);
        assert(seq![s[0]] + s.skip(1) =~= s);
    }
}

/// Splitting `a + sep + b` gives `a` followed by the parts of `b`, provided
/// `a` holds no separator.
pub proof fn lemma_split_join(a: Seq<char>, b: Seq<char>, sep: char)
    requires
        forall|i: int| 0 <= i < a.len() ==> a[i] != sep,
    ensures
        split_char(a + seq![sep] + b, sep) =~~= seq![a] + split_char(b, sep),
    decreases a.len(),
{
    lemma_split_len(b, sep);
    if a.len() == 0 {
        assert((a + seq![sep] + b).skip(1) =~= b);
        assert(split_char(a + seq![sep] + b, sep) =~~= seq![Seq::<char>::empty()] + split_char(b, sep));
    } else {
        let s = a + seq![sep] + b;
        assert(s.skip(1) =~= a.skip(1) + seq![sep] + b);
        lemma_split_join(a.skip(1), b, sep);
        let rest = split_char(s.skip(1), sep);
        assert(rest[0] == a.skip(1));
        assert(seq![s[0]] + rest[0] =~= a);
        assert(rest.skip(1) =~~= split_char(b, sep));
    }
}

// ---------------------------------------------------------------------------
// Board field
// ---------------------------------------------------------------------------

/// Run-length encoding of the cells of one rank, with `pending` empty
/// squares not yet written out.
pub open spec fn rle_rank(cells: Seq<int>, pending: int) -> Seq<char>
    decreases cells.len(),
{
    if cells.len() == 0 {
        if pending > 0 {
            seq![digit_char(pending)]
        } else {
            Seq::<char>::empty()
        }
    } else if cells[0] == 0 {
        rle_rank(cells.skip(1), pending + 1)
    } else if pending > 0 {
        seq![digit_char(pending)] + piece_chars(cells[0]) + rle_rank(cells.skip(1), 0)
    } else {
        piece_chars(cells[0]) + rle_rank(cells.skip(1), 0)
    }
}

/// The cells denoted by the text of one rank; `None` if the text is not a
/// sequence of piece letters, promoted pieces and digit runs.
pub open spec fn parse_rank(s: Seq<char>) -> Option<Seq<int>>
    decreases s.len(),
{
    if s.len() == 0 {
        Some(Seq::<int>::empty())
    } else if '1' <= s[0] <= '9' {
        match parse_rank(s.skip(1)) {
            Some(rest) => Some(Seq::new(digit_val(s[0]) as nat, |i: int| 0) + rest),
            None => None,
        }
    } else if s[0] == '+' {
        if s.len() >= 2 && promotable_code(base_code_of_char(s[1])) {
            match parse_rank(s.skip(2)) {
                Some(rest) => Some(seq![promote_code(base_code_of_char(s[1]))] + rest),
                None => None,
            }
        } else {
            None
        }
    } else if base_code_of_char(s[0]) != 0 {
        match parse_rank(s.skip(1)) {
            Some(rest) => Some(seq![base_code_of_char(s[0])] + rest),
            None => None,
        }
    } else {
        None
    }
}

/// Parsing inverts the run-length encoding of a rank, carrying `pending`
/// leading empty squares.
pub proof fn lemma_rank_round_trip(cells: Seq<int>, pending: int)
    requires
        forall|i: int| 0 <= i < cells.len() ==> cells[i] == 0 || is_piece_code(#[trigger] cells[i]),
        0 <= pending,
        pending + cells.len() <= 9,
    ensures
        parse_rank(rle_rank(cells, pending)) == Some(
            Seq::new(pending as nat, |i: int| 0) + cells,
        ),
    decreases cells.len(),
{
    let zeros = Seq::new(pending as nat, |i: int| 0);
    if cells.len() == 0 {
        if pending > 0 {
            let t = seq![digit_char(pending)];
            assert(t.skip(1) =~= Seq::<char>::empty());
            assert(parse_rank(t.skip(1)) == Some(Seq::<int>::empty()));
            assert(digit_val(digit_char(pending)) == pending);
            assert('1' <= t[0] <= '9');
            let r = parse_rank(t);
            assert(r is Some);
            assert(r->Some_0 =~= zeros + cells);
        } else {
            assert(zeros + cells =~= Seq::<int>::empty());
        }
    } else if cells[0] == 0 {
        lemma_rank_round_trip(cells.skip(1), pending + 1);
        let r = parse_rank(rle_rank(cells, pending));
        assert(r is Some);
        assert(r->Some_0 =~= zeros + cells);
    } else {
        let c = cells[0];
        lemma_rank_round_trip(cells.skip(1), 0);
        let tail = rle_rank(cells.skip(1), 0);
        assert(Seq::new(0 as nat, |i: int| 0) + cells.skip(1) =~= cells.skip(1));
        let pc = piece_chars(c);
        // after the piece's characters, parsing continues with the tail
        if code_kind(c) >= 9 {
            assert(base_code_of_char(char_of_base_code(unpromote_code(c))) == unpromote_code(c));
            assert(promote_code(unpromote_code(c)) == c);
            assert((pc + tail).skip(2) =~= tail);
            let r = parse_rank(pc + tail);
            assert(r is Some);
            assert(r->Some_0 =~= cells);
            assert(r == Some(cells));
        } else {
            assert(base_code_of_char(char_of_base_code(c)) == c);
            assert((pc + tail).skip(1) =~= tail);
            let r = parse_rank(pc + tail);
            assert(r is Some);
            assert(r->Some_0 =~= cells);
            assert(r == Some(cells));
        }
        if pending > 0 {
            let full = seq![digit_char(pending)] + pc + tail;
            assert(full[0] == digit_char(pending));
            assert(digit_val(digit_char(pending)) == pending);
            assert(full.skip(1) =~= pc + tail);
            let r = parse_rank(full);
            assert(r is Some);
            assert(r->Some_0 =~= zeros + cells);
            assert(rle_rank(cells, pending) =~= full);
        } else {
            assert(zeros + cells =~= cells);
            assert(rle_rank(cells, pending) =~= pc + tail);
        }
    }
}

// ---------------------------------------------------------------------------
// Whole-board field
// ---------------------------------------------------------------------------

/// Characters that may occur inside one rank of the board field.
pub open spec fn is_rank_char(c: char) -> bool {
    ('1' <= c <= '9') || c == '+' || base_code_of_char(c) != 0
}

/// The cells of the 0-based rank `r` of `st`, file 9 first, as the board
/// field writes them.
pub open spec fn rank_cells(st: Seq<int>, r: int) -> Seq<int> {
    Seq::new(9, |j: int| st[9 * (8 - j) + r])
}

/// The board field from rank `r` on: run-length texts joined by '/'.
pub open spec fn encode_board_from(st: Seq<int>, r: int) -> Seq<char>
    decreases 9 - r,
{
    if r >= 8 {
        rle_rank(rank_cells(st, 8), 0)
    } else {
        rle_rank(rank_cells(st, r), 0) + seq!['/'] + encode_board_from(st, r + 1)
    }
}

/// The board field of a state.
pub open spec fn encode_board(st: Seq<int>) -> Seq<char> {
    encode_board_from(st, 0)
}

/// The 81 board cells denoted by a board field: nine '/'-separated ranks of
/// nine squares each, or `None`.
pub open spec fn parse_board(s: Seq<char>) -> Option<Seq<int>> {
    let parts = split_char(s, '/');
    if parts.len() == 9 && (forall|r: int|
        0 <= r < 9 ==> parse_rank(#[trigger] parts[r]) is Some && parse_rank(
            parts[r],
        )->Some_0.len() == 9) {
        Some(Seq::new(81, |idx: int| parse_board_cell(parts, idx)))
    } else {
        None
    }
}

/// Helper of `parse_board`: the cell at state index `idx`.
pub open spec fn parse_board_cell(parts: Seq<Seq<char>>, idx: int) -> int {
    parse_rank(parts[idx % 9])->Some_0[8 - idx / 9]
}

/// Every character written by the run-length encoding of a rank is a rank
/// character (in particular neither '/' nor ' ').
pub proof fn lemma_rle_chars(cells: Seq<int>, pending: int)
    requires
        forall|i: int| 0 <= i < cells.len() ==> cells[i] == 0 || is_piece_code(#[trigger] cells[i]),
        0 <= pending,
        pending + cells.len() <= 9,
    ensures
        forall|i: int|
            0 <= i < rle_rank(cells, pending).len() ==> is_rank_char(
                #[trigger] rle_rank(cells, pending)[i],
            ),
    decreases cells.len(),
{
    if cells.len() == 0 {
        if pending > 0 {
            let full = seq![digit_char(pending)];
            assert(rle_rank(cells, pending) == full);
            assert(is_rank_char(full[0]));
        }
    } else if cells[0] == 0 {
        lemma_rle_chars(cells.skip(1), pending + 1);
        let full = rle_rank(cells.skip(1), pending + 1);
        assert(rle_rank(cells, pending) == full);
        assert forall|i: int|
            0 <= i < rle_rank(cells, pending).len() implies is_rank_char(
            #[trigger] rle_rank(cells, pending)[i],
        ) by {
            assert(rle_rank(cells, pending)[i] == full[i]);
        }
    } else {
        lemma_rle_chars(cells.skip(1), 0);
        let c = cells[0];
        let pc = piece_chars(c);
        let tail = rle_rank(cells.skip(1), 0);
        assert(forall|i: int| 0 <= i < pc.len() ==> is_rank_char(#[trigger] pc[i]));
        if pending > 0 {
            let full = seq![digit_char(pending)] + pc + tail;
            assert(rle_rank(cells, pending) == full);
            assert forall|i: int| 0 <= i < full.len() implies is_rank_char(#[trigger] full[i]) by {
                if i == 0 {
                    assert(full[i] == digit_char(pending));
                } else if i < 1 + pc.len() {
                    assert(full[i] == pc[i - 1]);
                } else {
                    assert(full[i] == tail[i - 1 - pc.len()]);
                }
            }
        } else {
            let full = pc + tail;
            assert(rle_rank(cells, pending) == full);
            assert forall|i: int| 0 <= i < full.len() implies is_rank_char(#[trigger] full[i]) by {
                if i < pc.len() {
                    assert(full[i] == pc[i]);
                } else {
                    assert(full[i] == tail[i - pc.len()]);
                }
            }
        }
    }
}

/// Parsing inverts the encoding of the whole board field.
pub proof fn lemma_board_round_trip(st: Seq<int>)
    requires
        wf_state(st),
    ensures
        parse_board(encode_board(st)) is Some,
        parse_board(encode_board(st))->Some_0 =~= st.take(81),
{
    lemma_board_split(st, 0);
    let parts = split_char(encode_board(st), '/');
    assert forall|r: int| 0 <= r < 9 implies parse_rank(#[trigger] parts[r]) is Some && parse_rank(
        parts[r],
    )->Some_0 =~= rank_cells(st, r) by {
        lemma_rank_round_trip(rank_cells(st, r), 0);
        assert(Seq::new(0 as nat, |i: int| 0) + rank_cells(st, r) =~= rank_cells(st, r));
    }
    let board = parse_board(encode_board(st))->Some_0;
    assert forall|idx: int| 0 <= idx < 81 implies board[idx] == st[idx] by {
        let r = idx % 9;
        let j = 8 - idx / 9;
        assert(board[idx] == parse_rank(parts[r])->Some_0[j]);
        assert(parse_rank(parts[r])->Some_0[j] == rank_cells(st, r)[j]);
        assert(rank_cells(st, r)[j] == st[9 * (8 - j) + r]);
        assert(9 * (8 - (8 - idx / 9)) + idx % 9 == idx) by (nonlinear_arith)
            requires 0 <= idx < 81;
    }
}

/// The board field splits on '/' into the nine rank texts.
proof fn lemma_board_split(st: Seq<int>, r: int)
    requires
        wf_state(st),
        0 <= r <= 8,
    ensures
        split_char(encode_board_from(st, r), '/') =~~= Seq::new(
            (9 - r) as nat,
            |k: int| rle_rank(rank_cells(st, r + k), 0),
        ),
    decreases 9 - r,
{
    lemma_rle_chars(rank_cells(st, r), 0);
    if r == 8 {
        lemma_split_none(rle_rank(rank_cells(st, 8), 0), '/');
    } else {
        lemma_board_split(st, r + 1);
        lemma_split_join(
            rle_rank(rank_cells(st, r), 0),
            encode_board_from(st, r + 1),
            '/',
        );
    }
}

// ---------------------------------------------------------------------------
// Side and ply fields
// ---------------------------------------------------------------------------

/// The side-to-move field: "b" or "w".
pub open spec fn encode_side(st: Seq<int>) -> Seq<char> {
    if st[SIDE_IDX as int] == 1 {
        seq!['w']
    } else {
        seq!['b']
    }
}

/// The side denoted by a side field, if any.
pub open spec fn parse_side(s: Seq<char>) -> Option<int> {
    if s.len() == 1 && s[0] == 'b' {
        Some(0)
    } else if s.len() == 1 && s[0] == 'w' {
        Some(1)
    } else {
        None
    }
}

/// The ply field: the counter in decimal.
pub open spec fn encode_ply(st: Seq<int>) -> Seq<char> {
    dec_chars(st[PLY_IDX as int])
}

/// The ply denoted by a ply field, if it is a decimal number the oracle's
/// counter can hold.
pub open spec fn parse_ply(s: Seq<char>) -> Option<int> {
    if is_dec(s) && 0 <= dec_val(s, 0) <= 0xffff {
        Some(dec_val(s, 0))
    } else {
        None
    }
}

/// Appending a digit multiplies the parsed value by ten.
proof fn lemma_dec_val_push(s: Seq<char>, d: int, acc: int)
    requires
        0 <= d <= 9,
    ensures
        dec_val(s.push(digit_char(d)), acc) == dec_val(s, acc) * 10 + d,
    decreases s.len(),
{
    if s.len() == 0 {
        assert(s.push(digit_char(d))[0] == digit_char(d));
        assert(s.push(digit_char(d)).skip(1) =~= Seq::<char>::empty());
        assert(dec_val(Seq::<char>::empty(), acc * 10 + d) == acc * 10 + d);
        assert(digit_val(digit_char(d)) == d);
    } else {
        assert(s.push(digit_char(d))[0] == s[0]);
        assert(s.push(digit_char(d)).skip(1) =~= s.skip(1).push(digit_char(d)));
        lemma_dec_val_push(s.skip(1), d, acc * 10 + digit_val(s[0]));
        assert(dec_val(s.push(digit_char(d)), acc) == dec_val(
            s.skip(1).push(digit_char(d)),
            acc * 10 + digit_val(s[0]),
        ));
    }
}

/// The decimal notation of `n` denotes `n`, and is a valid notation.
pub proof fn lemma_dec_round_trip(n: int)
    requires
        0 <= n,
    ensures
        dec_val(dec_chars(n), 0) == n,
        is_dec(dec_chars(n)),
        n >= 1 ==> dec_chars(n)[0] != '0',
    decreases n,
{
    if n <= 9 {
        let t = dec_chars(n);
        assert(t.skip(1) =~= Seq::<char>::empty());
        assert(dec_val(Seq::<char>::empty(), n) == n);
        assert(digit_val(digit_char(n)) == n);
    } else {
        lemma_dec_round_trip(n / 10);
        lemma_dec_val_push(dec_chars(n / 10), n % 10, 0);
        let t = dec_chars(n);
        assert(t[0] == dec_chars(n / 10)[0]);
        assert(forall|i: int|
            0 <= i < t.len() - 1 ==> t[i] == #[trigger] dec_chars(n / 10)[i]);
    }
}

// ---------------------------------------------------------------------------
// Hand field
// ---------------------------------------------------------------------------

/// The piece code written at hand slot `k` (0..14): rook down to pawn,
/// black first.
pub open spec fn hand_slot_code(k: int) -> int {
    if k < 7 {
        7 - k
    } else {
        30 - k
    }
}

/// The letter of hand slot `k`.
pub open spec fn hand_slot_letter(k: int) -> char {
    char_of_base_code(hand_slot_code(k))
}

/// The state index of the count for hand slot `k`.
pub open spec fn hand_slot_idx(k: int) -> int {
    if k < 7 {
        89 - k
    } else {
        103 - k
    }
}

/// The count held at hand slot `k`.
pub open spec fn hand_slot_count(st: Seq<int>, k: int) -> int {
    st[hand_slot_idx(k)]
}

/// Whether both hands are empty.
pub open spec fn hands_empty(st: Seq<int>) -> bool {
    forall|k: int| 0 <= k < 14 ==> hand_slot_count(st, k) == 0
}

/// The text of one hand entry: nothing if absent, the letter alone for one
/// piece, a decimal count before the letter otherwise.
pub open spec fn hand_entry(count: int, letter: char) -> Seq<char> {
    if count <= 0 {
        Seq::<char>::empty()
    } else if count == 1 {
        seq![letter]
    } else {
        dec_chars(count) + seq![letter]
    }
}

/// The hand entries from slot `k` on.
pub open spec fn encode_hand_slots(st: Seq<int>, k: int) -> Seq<char>
    decreases 14 - k,
{
    if k >= 14 {
        Seq::<char>::empty()
    } else {
        hand_entry(hand_slot_count(st, k), hand_slot_letter(k)) + encode_hand_slots(st, k + 1)
    }
}

/// The hand field: '-' for empty hands, the entries otherwise.
pub open spec fn encode_hand(st: Seq<int>) -> Seq<char> {
    if hands_empty(st) {
        seq!['-']
    } else {
        encode_hand_slots(st, 0)
    }
}

/// How many decimal digits `s` starts with.
pub open spec fn digits_len(s: Seq<char>) -> int
    decreases s.len(),
{
    if s.len() > 0 && is_digit(s[0]) {
        1 + digits_len(s.skip(1))
    } else {
        0
    }
}

/// The hand counts (slot order) denoted by `s` from slot `k` on; `None` if
/// `s` is not in the canonical entry order.
pub open spec fn parse_hand_slots(s: Seq<char>, k: int) -> Option<Seq<int>>
    decreases 14 - k,
{
    if k >= 14 {
        if s.len() == 0 {
            Some(Seq::<int>::empty())
        } else {
            None
        }
    } else if s.len() > 0 && s[0] == hand_slot_letter(k) {
        match parse_hand_slots(s.skip(1), k + 1) {
            Some(rest) => Some(seq![1] + rest),
            None => None,
        }
    } else if s.len() > 0 && is_digit(s[0]) && digits_len(s) < s.len() && s[digits_len(s)]
        == hand_slot_letter(k) {
        let dl = digits_len(s);
        let v = dec_val(s.take(dl), 0);
        if s[0] != '0' && 2 <= v <= 255 {
            match parse_hand_slots(s.skip(dl + 1), k + 1) {
                Some(rest) => Some(seq![v] + rest),
                None => None,
            }
        } else {
            None
        }
    } else {
        match parse_hand_slots(s, k + 1) {
            Some(rest) => Some(seq![0] + rest),
            None => None,
        }
    }
}

/// The 14 hand counts (slot order) denoted by a hand field, if any.
pub open spec fn parse_hand(s: Seq<char>) -> Option<Seq<int>> {
    if s.len() == 1 && s[0] == '-' {
        Some(Seq::new(14, |i: int| 0))
    } else {
        parse_hand_slots(s, 0)
    }
}

/// The first slot at or after `k` whose count is positive; 14 if none.
pub open spec fn first_held_slot(st: Seq<int>, k: int) -> int
    decreases 14 - k,
{
    if k >= 14 {
        14
    } else if hand_slot_count(st, k) > 0 {
        k
    } else {
        first_held_slot(st, k + 1)
    }
}

/// Slot letters are not digits.
proof fn lemma_slot_letter_not_digit(k: int)
    requires
        0 <= k < 14,
    ensures
        !is_digit(hand_slot_letter(k)),
{
}

/// Distinct slots carry distinct letters.
proof fn lemma_slot_letters_distinct(j: int, k: int)
    requires
        0 <= j < 14,
        0 <= k < 14,
        j != k,
    ensures
        hand_slot_letter(j) != hand_slot_letter(k),
{
}

/// The leading digit run of `digits + t` is exactly `digits` when `t` does
/// not start with a digit.
proof fn lemma_digits_len(d: Seq<char>, t: Seq<char>)
    requires
        forall|i: int| 0 <= i < d.len() ==> is_digit(#[trigger] d[i]),
        t.len() > 0,
        !is_digit(t[0]),
    ensures
        digits_len(d + t) == d.len(),
        (d + t).take(d.len() as int) =~= d,
    decreases d.len(),
{
    if d.len() == 0 {
        assert(d + t =~= t);
    } else {
        lemma_digits_len(d.skip(1), t);
        assert((d + t).skip(1) =~= d.skip(1) + t);
    }
}

/// The first characters of the hand entries from slot `k` on: empty iff no
/// slot holds a piece; otherwise they open the entry of the first held slot.
proof fn lemma_hand_head(st: Seq<int>, k: int)
    requires
        wf_state(st),
        0 <= k <= 14,
    ensures
        encode_hand_slots(st, k).len() == 0 <==> first_held_slot(st, k) == 14,
        first_held_slot(st, k) < 14 ==> {
            let s = encode_hand_slots(st, k);
            let j = first_held_slot(st, k);
            if hand_slot_count(st, j) == 1 {
                s[0] == hand_slot_letter(j)
            } else {
                &&& is_digit(s[0])
                &&& s[0] != '0'
                &&& digits_len(s) < s.len()
                &&& s[digits_len(s)] == hand_slot_letter(j)
            }
        },
    decreases 14 - k,
{
    if k >= 14 {
    } else {
        let c = hand_slot_count(st, k);
        let rest = encode_hand_slots(st, k + 1);
        if c == 0 {
            lemma_hand_head(st, k + 1);
            assert(encode_hand_slots(st, k) =~= rest);
        } else if c == 1 {
            let s = encode_hand_slots(st, k);
            assert(s =~= seq![hand_slot_letter(k)] + rest);
        } else {
            lemma_dec_round_trip(c);
            let s = encode_hand_slots(st, k);
            assert(s =~= dec_chars(c) + (seq![hand_slot_letter(k)] + rest));
            lemma_slot_letter_not_digit(k);
            lemma_digits_len(dec_chars(c), seq![hand_slot_letter(k)] + rest);
            assert(s[0] == dec_chars(c)[0]);
            assert(s[digits_len(s)] == (seq![hand_slot_letter(k)] + rest)[0]);
        }
    }
}

/// Parsing inverts the encoding of the hand entries from slot `k` on.
proof fn lemma_hand_slots_round_trip(st: Seq<int>, k: int)
    requires
        wf_state(st),
        0 <= k <= 14,
    ensures
        parse_hand_slots(encode_hand_slots(st, k), k) is Some,
        parse_hand_slots(encode_hand_slots(st, k), k)->Some_0 =~= Seq::new(
            (14 - k) as nat,
            |i: int| hand_slot_count(st, k + i),
        ),
    decreases 14 - k,
{
    if k >= 14 {
    } else {
        lemma_hand_slots_round_trip(st, k + 1);
        let c = hand_slot_count(st, k);
        let rest = encode_hand_slots(st, k + 1);
        let s = encode_hand_slots(st, k);
        let counts = Seq::new((14 - k) as nat, |i: int| hand_slot_count(st, k + i));
        if c == 0 {
            assert(s =~= rest);
            // the parser must not take an entry of a later slot for slot k
            lemma_hand_head(st, k + 1);
            if s.len() > 0 {
                let j = first_held_slot(st, k + 1);
                lemma_first_held_range(st, k + 1);
                lemma_slot_letters_distinct(j, k);
                lemma_slot_letter_not_digit(j);
                assert(s[0] != hand_slot_letter(k));
                if is_digit(s[0]) {
                    assert(hand_slot_count(st, j) >= 2);
                    assert(s[digits_len(s)] != hand_slot_letter(k));
                }
            }
            let r = parse_hand_slots(s, k);
            assert(r is Some);
            assert(r->Some_0 =~= counts);
        } else if c == 1 {
            assert(s =~= seq![hand_slot_letter(k)] + rest);
            assert(s[0] == hand_slot_letter(k));
            assert(s.skip(1) =~= rest);
            let r = parse_hand_slots(s, k);
            assert(r is Some);
            assert(r->Some_0 =~= counts);
        } else {
            lemma_dec_round_trip(c);
            lemma_slot_letter_not_digit(k);
            assert(s =~= dec_chars(c) + (seq![hand_slot_letter(k)] + rest));
            lemma_digits_len(dec_chars(c), seq![hand_slot_letter(k)] + rest);
            let dl = digits_len(s);
            assert(dl == dec_chars(c).len());
            assert(s[0] == dec_chars(c)[0]);
            assert(!is_digit(hand_slot_letter(k)));
            assert(s[0] != hand_slot_letter(k));
            assert(s[dl] == (seq![hand_slot_letter(k)] + rest)[0]);
            assert(s.take(dl) =~= dec_chars(c));
            assert(dec_val(s.take(dl), 0) == c);
            assert(s.skip(dl + 1) =~= rest);
            let r = parse_hand_slots(s, k);
            assert(r is Some);
            assert(r->Some_0 =~= counts);
        }
    }
}

/// Every character of the hand entries is a digit or a piece letter.
proof fn lemma_hand_chars(st: Seq<int>, k: int)
    requires
        wf_state(st),
        0 <= k <= 14,
    ensures
        forall|i: int|
            0 <= i < encode_hand_slots(st, k).len() ==> is_digit(
                #[trigger] encode_hand_slots(st, k)[i],
            ) || base_code_of_char(encode_hand_slots(st, k)[i]) != 0,
    decreases 14 - k,
{
    if k >= 14 {
    } else {
        lemma_hand_chars(st, k + 1);
        let c = hand_slot_count(st, k);
        let entry = hand_entry(c, hand_slot_letter(k));
        let rest = encode_hand_slots(st, k + 1);
        let s = encode_hand_slots(st, k);
        assert(s == entry + rest);
        if c >= 2 {
            lemma_dec_round_trip(c);
        }
        assert forall|i: int| 0 <= i < s.len() implies is_digit(#[trigger] s[i])
            || base_code_of_char(s[i]) != 0 by {
            if i < entry.len() {
                assert(s[i] == entry[i]);
                if c >= 2 {
                    if i < dec_chars(c).len() {
                        assert(entry[i] == dec_chars(c)[i]);
                    } else {
                        assert(entry[i] == hand_slot_letter(k));
                    }
                }
            } else {
                assert(s[i] == rest[i - entry.len()]);
            }
        }
    }
}

/// Parsing inverts the encoding of the whole hand field.
pub proof fn lemma_hand_round_trip(st: Seq<int>)
    requires
        wf_state(st),
    ensures
        parse_hand(encode_hand(st)) is Some,
        parse_hand(encode_hand(st))->Some_0 =~= Seq::new(
            14,
            |k: int| hand_slot_count(st, k),
        ),
{
    if hands_empty(st) {
        assert(parse_hand(seq!['-'])->Some_0 =~= Seq::new(14, |k: int| hand_slot_count(st, k)));
    } else {
        lemma_hand_slots_round_trip(st, 0);
        let s = encode_hand_slots(st, 0);
        lemma_hand_head(st, 0);
        let j = choose|j: int| 0 <= j < 14 && hand_slot_count(st, j) > 0;
        lemma_first_held_below(st, 0, j);
        assert(s.len() > 0);
        if s.len() == 1 && s[0] == '-' {
            lemma_hand_chars(st, 0);
            assert(is_digit(s[0]) || base_code_of_char(s[0]) != 0);
            assert(false);
        }
    }
}

/// If some slot at or after `k` is held, the first held slot is below 14.
proof fn lemma_first_held_below(st: Seq<int>, k: int, j: int)
    requires
        0 <= k <= j < 14,
        hand_slot_count(st, j) > 0,
    ensures
        first_held_slot(st, k) <= j,
    decreases 14 - k,
{
    if hand_slot_count(st, k) > 0 {
        assert(first_held_slot(st, k) == k);
    } else {
        assert(k != j);
        lemma_first_held_below(st, k + 1, j);
    }
}

/// The first held slot lies between `k` and 14.
proof fn lemma_first_held_range(st: Seq<int>, k: int)
    requires
        0 <= k <= 14,
    ensures
        k <= first_held_slot(st, k) <= 14,
        first_held_slot(st, k) < 14 ==> hand_slot_count(st, first_held_slot(st, k)) > 0,
    decreases 14 - k,
{
    if k < 14 && hand_slot_count(st, k) <= 0 {
        lemma_first_held_range(st, k + 1);
    }
}

// ---------------------------------------------------------------------------
// The whole position text
// ---------------------------------------------------------------------------

/// The canonical text of a game state: board, side, hand and ply fields
/// joined by single spaces. This is exactly what the board crate's SFEN
/// writer produces.
pub open spec fn encode_state(st: Seq<int>) -> Seq<char> {
    encode_board(st) + seq![' '] + encode_side(st) + seq![' '] + encode_hand(st) + seq![' ']
        + encode_ply(st)
}

/// A state assembled from decoded fields: 81 cells, side, ply, then the 14
/// hand counts reordered from slot order (rook first) to state order
/// (pawn first).
pub open spec fn assemble_state(board: Seq<int>, side: int, counts: Seq<int>, ply: int) -> Seq<
    int,
> {
    board + seq![side, ply] + Seq::new(
        14,
        |i: int| counts[if i < 7 { 6 - i } else { 20 - i }],
    )
}

/// The game state denoted by a position text, or `None` when the text is
/// malformed: it must hold exactly four space-separated fields, a 9x9 board
/// after run-length expansion, a one-letter side, a canonical hand and a
/// decimal ply.
pub open spec fn decode_state(s: Seq<char>) -> Option<Seq<int>> {
    let parts = split_char(s, ' ');
    if parts.len() == 4 {
        if parse_board(parts[0]) is Some && parse_side(parts[1]) is Some && parse_hand(parts[2])
            is Some && parse_ply(parts[3]) is Some {
            Some(
                assemble_state(
                    parse_board(parts[0])->Some_0,
                    parse_side(parts[1])->Some_0,
                    parse_hand(parts[2])->Some_0,
                    parse_ply(parts[3])->Some_0,
                ),
            )
        } else {
            None
        }
    } else {
        None
    }
}

/// Whether a position text is syntactically valid.
pub open spec fn valid_text(s: Seq<char>) -> bool {
    decode_state(s) is Some
}

/// Decoding inverts encoding: every well-formed state is recovered exactly
/// from its canonical text.
pub proof fn lemma_state_round_trip(st: Seq<int>)
    requires
        wf_state(st),
    ensures
        decode_state(encode_state(st)) is Some,
        decode_state(encode_state(st))->Some_0 =~= st,
{
    let b = encode_board(st);
    let si = encode_side(st);
    let h = encode_hand(st);
    let p = encode_ply(st);
    // none of the four fields contains a space
    assert forall|i: int| 0 <= i < b.len() implies b[i] != ' ' by {
        lemma_board_chars(st, i);
    }
    lemma_dec_round_trip(st[PLY_IDX as int]);
    assert forall|i: int| 0 <= i < h.len() implies h[i] != ' ' by {
        if !hands_empty(st) {
            lemma_hand_chars(st, 0);
        }
    }
    let s = encode_state(st);
    assert(s =~= b + seq![' '] + (si + seq![' '] + (h + seq![' '] + p)));
    lemma_split_join(b, si + seq![' '] + (h + seq![' '] + p), ' ');
    lemma_split_join(si, h + seq![' '] + p, ' ');
    lemma_split_join(h, p, ' ');
    lemma_split_none(p, ' ');
    let parts = split_char(s, ' ');
    assert(parts =~~= seq![b, si, h, p]);
    lemma_board_round_trip(st);
    lemma_hand_round_trip(st);
    let out = decode_state(s)->Some_0;
    let counts = parse_hand(h)->Some_0;
    assert forall|i: int| 0 <= i < 97 implies out[i] == st[i] by {
        if i < 81 {
            assert(out[i] == parse_board(b)->Some_0[i]);
            assert(st.take(81)[i] == st[i]);
        } else if i >= BLACK_HAND_IDX {
            let k = if i - 83 < 7 { 6 - (i - 83) } else { 20 - (i - 83) };
            assert(out[i] == counts[k]);
            assert(counts[k] == hand_slot_count(st, k));
            assert(hand_slot_idx(k) == i);
        }
    }
}

/// Every character of the board field is a rank character or the rank
/// separator; in particular no space.
proof fn lemma_board_chars(st: Seq<int>, i: int)
    requires
        wf_state(st),
        0 <= i < encode_board(st).len(),
    ensures
        is_rank_char(encode_board(st)[i]) || encode_board(st)[i] == '/',
{
    lemma_board_chars_from(st, 0, i);
}

proof fn lemma_board_chars_from(st: Seq<int>, r: int, i: int)
    requires
        wf_state(st),
        0 <= r <= 8,
        0 <= i < encode_board_from(st, r).len(),
    ensures
        is_rank_char(encode_board_from(st, r)[i]) || encode_board_from(st, r)[i] == '/',
    decreases 9 - r,
{
    lemma_rle_chars(rank_cells(st, r), 0);
    let head = rle_rank(rank_cells(st, r), 0);
    if r == 8 {
    } else {
        let s = encode_board_from(st, r);
        if i < head.len() {
            assert(s[i] == head[i]);
        } else if i == head.len() {
            assert(s[i] == '/');
        } else {
            assert(s[i] == encode_board_from(st, r + 1)[i - head.len() - 1]);
            lemma_board_chars_from(st, r + 1, i - head.len() - 1);
        }
    }
}

/// Whatever decodes is a well-formed state.
pub proof fn lemma_decode_wf(s: Seq<char>)
    requires
        decode_state(s) is Some,
    ensures
        wf_state(decode_state(s)->Some_0),
{
    let parts = split_char(s, ' ');
    let board = parse_board(parts[0])->Some_0;
    let counts = parse_hand(parts[2])->Some_0;
    let st = decode_state(s)->Some_0;
    let ranks = split_char(parts[0], '/');
    assert forall|i: int| 0 <= i < 81 implies st[i] == 0 || is_piece_code(#[trigger] st[i]) by {
        assert(st[i] == board[i]);
        assert(board[i] == parse_board_cell(ranks, i));
        lemma_parse_rank_codes(ranks[i % 9]);
        assert(0 <= 8 - i / 9 < parse_rank(ranks[i % 9])->Some_0.len()) by (nonlinear_arith)
            requires 0 <= i < 81 && parse_rank(ranks[i % 9])->Some_0.len() == 9;
    }
    lemma_parse_hand_bounds(s);
    assert forall|i: int| BLACK_HAND_IDX <= i < STATE_LEN implies 0 <= #[trigger] st[i]
        <= 0xff by {
        let k = if i - 83 < 7 { 6 - (i - 83) } else { 20 - (i - 83) };
        assert(st[i] == counts[k]);
    }
}

/// Cells produced by the rank parser are empty or valid piece codes.
proof fn lemma_parse_rank_codes(s: Seq<char>)
    requires
        parse_rank(s) is Some,
    ensures
        forall|i: int|
            0 <= i < parse_rank(s)->Some_0.len() ==> parse_rank(s)->Some_0[i] == 0
                || is_piece_code(#[trigger] parse_rank(s)->Some_0[i]),
    decreases s.len(),
{
    if s.len() == 0 {
    } else if '1' <= s[0] <= '9' {
        lemma_parse_rank_codes(s.skip(1));
    } else if s[0] == '+' {
        lemma_parse_rank_codes(s.skip(2));
    } else {
        lemma_parse_rank_codes(s.skip(1));
    }
}

/// Counts produced by the hand parser fit in a byte.
proof fn lemma_parse_hand_bounds(s: Seq<char>)
    requires
        decode_state(s) is Some,
    ensures
        forall|k: int|
            0 <= k < 14 ==> 0 <= #[trigger] parse_hand(
                split_char(s, ' ')[2],
            )->Some_0[k] <= 0xff,
{
    let h = split_char(s, ' ')[2];
    if h.len() == 1 && h[0] == '-' {
    } else {
        lemma_parse_hand_slots_bounds(h, 0);
    }
}

pub proof fn lemma_parse_hand_slots_bounds(s: Seq<char>, k: int)
    requires
        0 <= k <= 14,
        parse_hand_slots(s, k) is Some,
    ensures
        parse_hand_slots(s, k)->Some_0.len() == 14 - k,
        forall|i: int|
            0 <= i < 14 - k ==> 0 <= #[trigger] parse_hand_slots(s, k)->Some_0[i] <= 0xff,
    decreases 14 - k,
{
    if k >= 14 {
    } else if s.len() > 0 && s[0] == hand_slot_letter(k) {
        lemma_parse_hand_slots_bounds(s.skip(1), k + 1);
    } else if s.len() > 0 && is_digit(s[0]) && digits_len(s) < s.len() && s[digits_len(s)]
        == hand_slot_letter(k) {
        lemma_parse_hand_slots_bounds(s.skip(digits_len(s) + 1), k + 1);
    } else {
        lemma_parse_hand_slots_bounds(s, k + 1);
    }
}


/// Parsing digit text left to right threads the accumulator.
pub proof fn lemma_dec_val_append(a: Seq<char>, b: Seq<char>, acc: int)
    ensures
        dec_val(a + b, acc) == dec_val(b, dec_val(a, acc)),
    decreases a.len(),
{
    if a.len() == 0 {
        assert(a + b =~= b);
    } else {
        assert((a + b).skip(1) =~= a.skip(1) + b);
        lemma_dec_val_append(a.skip(1), b, acc * 10 + digit_val(a[0]));
    }
}

/// A parsed number never falls below its accumulator.
pub proof fn lemma_dec_val_lower(s: Seq<char>, acc: int)
    requires
        acc >= 0,
        forall|i: int| 0 <= i < s.len() ==> is_digit(#[trigger] s[i]),
    ensures
        dec_val(s, acc) >= acc,
    decreases s.len(),
{
    if s.len() > 0 {
        lemma_dec_val_lower(s.skip(1), acc * 10 + digit_val(s[0]));
    }
}


/// The integer view of a byte sequence.
pub open spec fn ints_of(v: Seq<u8>) -> Seq<int> {
    v.map_values(|x: u8| x as int)
}

/// If any of the nine rank texts fails to parse to nine squares, the whole
/// board field is rejected.
pub proof fn lemma_parse_board_none(s: Seq<char>, r: int)
    requires
        split_char(s, '/').len() == 9,
        0 <= r < 9,
        !(parse_rank(split_char(s, '/')[r]) is Some && parse_rank(
            split_char(s, '/')[r],
        )->Some_0.len() == 9),
    ensures
        parse_board(s) is None,
{
    let parts = split_char(s, '/');
    if parse_board(s) is Some {
        assert(parse_rank(parts[r]) is Some && parse_rank(parts[r])->Some_0.len() == 9);
        assert(false);
    }
}

/// Round-trip law over texts: decoding a valid position text and encoding
/// the result gives a text with exactly the same decoded fields; the only
/// differences the re-encoding may introduce are the canonicalization of
/// digit runs in the board field.
pub proof fn lemma_text_round_trip(s: Seq<char>)
    requires
        valid_text(s),
    ensures
        valid_text(encode_state(decode_state(s)->Some_0)),
        decode_state(encode_state(decode_state(s)->Some_0)) == decode_state(s),
{
    lemma_decode_wf(s);
    lemma_state_round_trip(decode_state(s)->Some_0);
}

// ---------------------------------------------------------------------------
// The oracle-facing state
// ---------------------------------------------------------------------------
//
// The rules oracle keeps, besides the fields the text encodes, a cached
// square per side where that side's king was last placed; its legality
// answers read that cache. The oracle-facing state therefore extends the
// 97 encoded entries with those two cache entries (0 for none, else the
// square index 1..=81).

pub const BK_CACHE_IDX: usize = 97;

pub const WK_CACHE_IDX: usize = 98;

pub const OSTATE_LEN: usize = 99;

/// A well-formed oracle state.
pub open spec fn wf_ostate(st: Seq<int>) -> bool {
    &&& st.len() == OSTATE_LEN
    &&& wf_state(st.take(STATE_LEN as int))
    &&& 0 <= st[BK_CACHE_IDX as int] <= 81
    &&& 0 <= st[WK_CACHE_IDX as int] <= 81
}

/// The oracle state of a freshly created empty position.
pub open spec fn empty_ostate() -> Seq<int> {
    Seq::new(OSTATE_LEN as nat, |i: int| if i == PLY_IDX { 1 } else { 0 })
}

/// Placing `code` on cell `idx`: the cell changes, and the king cache of
/// the owning side moves there when the piece is a king.
pub open spec fn set_cell_state(st: Seq<int>, idx: int, code: int) -> Seq<int> {
    let put = st.update(idx, code);
    if code == 8 {
        put.update(BK_CACHE_IDX as int, idx + 1)
    } else if code == 24 {
        put.update(WK_CACHE_IDX as int, idx + 1)
    } else {
        put
    }
}

/// The king cache entry after the cells of `board` are placed in ascending
/// order: one past the index of the side's last king cell, or 0.
pub open spec fn last_king_entry(board: Seq<int>, white: bool) -> int
    decreases board.len(),
{
    let king = if white { 24int } else { 8int };
    if board.len() == 0 {
        0
    } else if board.last() == king {
        board.len() as int
    } else {
        last_king_entry(board.drop_last(), white)
    }
}

/// The oracle state of a position built from the decoded fields of a text:
/// its board and side, empty hands, ply one, and the king caches that
/// placing the board cells in ascending order leaves behind.
pub open spec fn build_ostate(st: Seq<int>) -> Seq<int> {
    Seq::new(
        OSTATE_LEN as nat,
        |i: int|
            if i < 81 {
                st[i]
            } else if i == SIDE_IDX {
                st[SIDE_IDX as int]
            } else if i == PLY_IDX {
                1
            } else if i == BK_CACHE_IDX {
                last_king_entry(st.take(81), false)
            } else if i == WK_CACHE_IDX {
                last_king_entry(st.take(81), true)
            } else {
                0
            },
    )
}

/// The oracle state denoted by a position text, if the text is valid.
pub open spec fn text_ostate(s: Seq<char>) -> Seq<int> {
    build_ostate(decode_state(s)->Some_0)
}

/// `n` clipped to what a 32-bit counter can hold.
pub open spec fn clip_u32(n: nat) -> nat {
    if n > 0xffff_ffff {
        0xffff_ffff
    } else {
        n
    }
}

} // verus!
