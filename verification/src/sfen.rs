//! The position-text codec: case flipping, rank reversal, promotion-marker
//! normalization, and parsing of the board field.

use vstd::prelude::*;

use shogi_core::PartialPosition;

use crate::model::{split_char, lemma_split_len, cell_index, is_piece_code, set_cell_state};
use crate::oracle::{color_white, empty_pos, mk_color, ostate, set_cell};

verus! {

/// Relies on String::push: appends one character at the end.
pub assume_specification[ String::push ](s: &mut String, c: char)
    ensures
        final(s)@ == old(s)@.push(c),
;

/// `c` with its ASCII case swapped; other characters are unchanged.
pub open spec fn flip_case_char(c: char) -> char {
    if 'A' <= c <= 'Z' {
        (c as int + 32) as char
    } else if 'a' <= c <= 'z' {
        (c as int - 32) as char
    } else {
        c
    }
}

/// Swapping case twice gives the original character back.
pub proof fn lemma_flip_case_char_involutive(c: char)
    ensures
        flip_case_char(flip_case_char(c)) == c,
{
}

/// The text with every letter's case swapped, which exchanges the two
/// sides' pieces in a position text.
pub open spec fn flip_case_spec(s: Seq<char>) -> Seq<char> {
    s.map_values(|c: char| flip_case_char(c))
}

/// Swaps the ASCII case of every character of `sfen`.
pub fn flip_case(sfen: &str) -> (r: String)
    ensures
        r@ == flip_case_spec(sfen@),
{
    let n = sfen.unicode_len();
    let mut out = String::new();
    let mut i: usize = 0;
    while i < n
        invariant
            n == sfen@.len(),
            0 <= i <= n,
            out@ == flip_case_spec(sfen@.take(i as int)),
        decreases n - i,
    {
        let c = sfen.get_char(i);
        let f: char = if 'A' <= c && c <= 'Z' {
            (c as u8 + 32) as char
        } else if 'a' <= c && c <= 'z' {
            (c as u8 - 32) as char
        } else {
            c
        };
        assert(f == flip_case_char(c));
        out.push(f);
        proof {
            assert(sfen@.take(i + 1 as int).map_values(|c: char| flip_case_char(c))
                =~= sfen@.take(i as int).map_values(|c: char| flip_case_char(c)).push(f));
        }
        i = i + 1;
    }
    proof {
        assert(sfen@.take(n as int) =~= sfen@);
    }
    out
}

/// Case-flipping a position text twice returns the original text exactly.
pub proof fn lemma_flip_case_involutive(s: Seq<char>)
    ensures
        flip_case_spec(flip_case_spec(s)) =~= s,
{
}

/// The one-character stand-in for a promoted piece: the promotion marker
/// followed by this letter collapses to it.
pub open spec fn promo_char(c: char) -> char {
    if c == 'P' { 'Z' } else if c == 'L' { 'X' } else if c == 'N' { 'Y' }
    else if c == 'S' { 'Q' } else if c == 'B' { 'W' } else if c == 'R' { 'E' }
    else if c == 'p' { 'z' } else if c == 'l' { 'x' } else if c == 'n' { 'y' }
    else if c == 's' { 'q' } else if c == 'b' { 'w' } else if c == 'r' { 'e' }
    else { c }
}

/// The text with every promotion marker and the character after it replaced
/// by that character's one-character stand-in; a trailing lone marker is
/// dropped.
pub open spec fn convert_promoted_spec(s: Seq<char>) -> Seq<char>
    decreases s.len(),
{
    if s.len() == 0 {
        Seq::<char>::empty()
    } else if s[0] == '+' {
        if s.len() >= 2 {
            seq![promo_char(s[1])] + convert_promoted_spec(s.skip(2))
        } else {
            Seq::<char>::empty()
        }
    } else {
        seq![s[0]] + convert_promoted_spec(s.skip(1))
    }
}

/// Rewrites each promotion marker and the letter after it to a single
/// dedicated character per promoted piece.
pub fn convert_promoted_pieces(sfen: &str) -> (r: String)
    ensures
        r@ == convert_promoted_spec(sfen@),
{
    let v = crate::codec::str_to_chars(sfen);
    let n = v.len();
    let mut out: Vec<char> = Vec::new();
    let mut i: usize = 0;
    proof {
        assert(sfen@.skip(0) =~= sfen@);
    }
    while i < n
        invariant
            v@ == sfen@,
            n == v@.len(),
            0 <= i <= n,
            convert_promoted_spec(sfen@) =~= out@ + convert_promoted_spec(sfen@.skip(i as int)),
        decreases n - i,
    {
        let c = v[i];
        proof {
            assert(sfen@.skip(i as int)[0] == c);
            assert(sfen@.skip(i as int).skip(1) =~= sfen@.skip(i + 1 as int));
        }
        if c == '+' {
            if i + 1 < n {
                proof {
                    assert(sfen@.skip(i as int)[1] == v@[i + 1 as int]);
                    assert(sfen@.skip(i as int).skip(2) =~= sfen@.skip(i + 2 as int));
                }
                let nxt = v[i + 1];
                let u: char = match nxt {
                    'P' => 'Z', 'L' => 'X', 'N' => 'Y', 'S' => 'Q', 'B' => 'W', 'R' => 'E',
                    'p' => 'z', 'l' => 'x', 'n' => 'y', 's' => 'q', 'b' => 'w', 'r' => 'e',
                    _ => nxt,
                };
                proof {
                    assert(u == promo_char(nxt));
                }
                out.push(u);
                i = i + 2;
            } else {
                i = i + 1;
                proof {
                    assert(sfen@.skip(i as int) =~= Seq::<char>::empty());
                }
            }
        } else {
            out.push(c);
            i = i + 1;
        }
        proof {
            assert(convert_promoted_spec(sfen@) =~= out@ + convert_promoted_spec(
                sfen@.skip(i as int),
            ));
        }
    }
    proof {
        assert(sfen@.skip(n as int) =~= Seq::<char>::empty());
        assert(out@ =~= convert_promoted_spec(sfen@));
    }
    crate::codec::chars_to_string(&out)
}

/// The space-separated fields of `s`, with the first one (the board field)
/// reversed, joined back by single spaces.
pub open spec fn flip_spec(s: Seq<char>) -> Seq<char> {
    let parts = split_char(s, ' ');
    join_spaces(parts.update(0, parts[0].reverse()), 0)
}

/// The parts from index `i` on, joined by single spaces.
pub open spec fn join_spaces(parts: Seq<Seq<char>>, i: int) -> Seq<char>
    decreases parts.len() - i,
{
    if i < 0 || i >= parts.len() {
        Seq::<char>::empty()
    } else if i == parts.len() - 1 {
        parts[i]
    } else {
        parts[i] + seq![' '] + join_spaces(parts, i + 1)
    }
}

/// Reverses the order of the characters of the board field only, leaving
/// the side, hand and ply fields alone. The fields must be separated by
/// single spaces.
pub fn flip(sfen: &str) -> (r: String)
    ensures
        r@ == flip_spec(sfen@),
{
    let v = crate::codec::str_to_chars(sfen);
    let ghost parts0 = split_char(sfen@, ' ');
    let mut parts = crate::codec::split_chars(&v, ' ');
    proof {
        assert(v@.skip(0) =~= v@);
        lemma_split_len(sfen@, ' ');
    }
    // reverse the first part
    let first = parts.remove(0);
    let mut rev: Vec<char> = Vec::new();
    let mut i: usize = first.len();
    while i > 0
        invariant
            0 <= i <= first@.len(),
            rev@ =~= first@.skip(i as int).reverse(),
        decreases i,
    {
        i = i - 1;
        rev.push(first[i]);
        proof {
            assert(first@.skip(i as int).reverse() =~= first@.skip(i + 1 as int).reverse().push(
                first@[i as int],
            ));
        }
    }
    proof {
        assert(first@.skip(0) =~= first@);
        assert(rev@ =~= first@.reverse());
    }
    parts.insert(0, rev);
    proof {
        assert(parts.deep_view() =~~= parts0.update(0, parts0[0].reverse()));
    }
    // join with single spaces
    let mut out: Vec<char> = Vec::new();
    let mut k: usize = 0;
    let ghost fixed = parts.deep_view();
    while k < parts.len()
        invariant
            fixed == parts.deep_view(),
            parts@.len() == fixed.len() >= 1,
            0 <= k <= fixed.len(),
            k < fixed.len() ==> join_spaces(fixed, 0) =~= out@ + join_spaces(fixed, k as int),
            k == fixed.len() ==> join_spaces(fixed, 0) =~= out@,
        decreases parts@.len() - k,
    {
        let ghost outpre = out@;
        let part = &parts[k];
        let mut q: usize = 0;
        while q < part.len()
            invariant
                0 <= q <= part@.len(),
                out@ =~= outpre + part@.take(q as int),
            decreases part@.len() - q,
        {
            out.push(part[q]);
            proof {
                assert(part@.take(q + 1 as int) =~= part@.take(q as int).push(part@[q as int]));
            }
            q = q + 1;
        }
        proof {
            assert(part@.take(part@.len() as int) =~= part@);
            assert(part@ == fixed[k as int]);
        }
        if k + 1 < parts.len() {
            out.push(' ');
        }
        k = k + 1;
        proof {
            if k < fixed.len() {
                assert(join_spaces(fixed, 0) =~= out@ + join_spaces(fixed, k as int));
            } else {
                assert(join_spaces(fixed, 0) =~= out@);
            }
        }
    }
    proof {
        assert(out@ =~= flip_spec(sfen@));
    }
    crate::codec::chars_to_string(&out)
}

// ---------------------------------------------------------------------------
// The square-by-square parse
// ---------------------------------------------------------------------------

/// The uppercase owner-and-kind name of a board letter (the promotion
/// stand-ins included), or empty for anything else.
pub open spec fn cell_name(c: char) -> Seq<char> {
    if c == 'P' { seq!['B', '_', 'P'] } else if c == 'L' { seq!['B', '_', 'L'] }
    else if c == 'N' { seq!['B', '_', 'N'] } else if c == 'S' { seq!['B', '_', 'S'] }
    else if c == 'G' { seq!['B', '_', 'G'] } else if c == 'B' { seq!['B', '_', 'B'] }
    else if c == 'R' { seq!['B', '_', 'R'] } else if c == 'K' { seq!['B', '_', 'K'] }
    else if c == 'Z' { seq!['B', '_', 'P', 'P'] } else if c == 'X' { seq!['B', '_', 'P', 'L'] }
    else if c == 'Y' { seq!['B', '_', 'P', 'N'] } else if c == 'Q' { seq!['B', '_', 'P', 'S'] }
    else if c == 'W' { seq!['B', '_', 'P', 'B'] } else if c == 'E' { seq!['B', '_', 'P', 'R'] }
    else if c == 'p' { seq!['W', '_', 'P'] } else if c == 'l' { seq!['W', '_', 'L'] }
    else if c == 'n' { seq!['W', '_', 'N'] } else if c == 's' { seq!['W', '_', 'S'] }
    else if c == 'g' { seq!['W', '_', 'G'] } else if c == 'b' { seq!['W', '_', 'B'] }
    else if c == 'r' { seq!['W', '_', 'R'] } else if c == 'k' { seq!['W', '_', 'K'] }
    else if c == 'z' { seq!['W', '_', 'P', 'P'] } else if c == 'x' { seq!['W', '_', 'P', 'L'] }
    else if c == 'y' { seq!['W', '_', 'P', 'N'] } else if c == 'q' { seq!['W', '_', 'P', 'S'] }
    else if c == 'w' { seq!['W', '_', 'P', 'B'] } else if c == 'e' { seq!['W', '_', 'P', 'R'] }
    else { Seq::<char>::empty() }
}

/// The letter of the 0-based rank `r` in a square name.
pub open spec fn rank_letter(r: int) -> char {
    if r == 0 { 'A' } else if r == 1 { 'B' } else if r == 2 { 'C' } else if r == 3 { 'D' }
    else if r == 4 { 'E' } else if r == 5 { 'F' } else if r == 6 { 'G' } else if r == 7 { 'H' }
    else { 'I' }
}

/// The name of the square with 1-based file `f` on 0-based rank `r`.
pub open spec fn square_name(f: int, r: int) -> Seq<char> {
    seq!['S', 'Q', '_', crate::model::digit_char(f), rank_letter(r)]
}

/// Whether the walk of a converted board text stays on the board: at most
/// nine ranks, and never more than nine squares per rank.
pub open spec fn grid_fill_ok(s: Seq<char>, rank: int, file: int) -> bool
    decreases s.len(),
{
    if s.len() == 0 {
        true
    } else if s[0] == '/' {
        rank < 8 && grid_fill_ok(s.skip(1), rank + 1, 9)
    } else if '1' <= s[0] <= '9' {
        file >= crate::model::digit_val(s[0]) && 0 <= rank < 9 && grid_fill_ok(
            s.skip(1),
            rank,
            file - crate::model::digit_val(s[0]),
        )
    } else {
        file >= 1 && 0 <= rank < 9 && grid_fill_ok(s.skip(1), rank, file - 1)
    }
}

/// One grid cell, encoded as a character: the untouched marker, the
/// empty-square marker, or the board letter put there.
pub open spec fn cell_string(code: char) -> Seq<char> {
    if code == UNTOUCHED {
        seq![' ', ' ']
    } else if code == VACANT {
        seq![' ', ' ', ' ']
    } else {
        cell_name(code)
    }
}

/// The cell code of a square no character reached.
pub const UNTOUCHED: char = '\u{1}';

/// The cell code of a square a digit run skipped.
pub const VACANT: char = '\u{2}';

/// The 81 cell codes a converted board text fills, walked exactly as the
/// square-by-square parse does: rank by rank, file 9 down to 1, digits
/// marking that many squares vacant and any other character claiming one
/// square. Cell (rank r, 0-based file b) is entry `9 r + b`.
pub open spec fn grid_fill(s: Seq<char>, rank: int, file: int, g: Seq<char>) -> Seq<char>
    decreases s.len(), file + 1,
{
    if s.len() == 0 {
        g
    } else if s[0] == '/' {
        grid_fill(s.skip(1), rank + 1, 9, g)
    } else if '1' <= s[0] <= '9' {
        if 0 <= file {
            grid_fill_blanks(s, rank, file, g, crate::model::digit_val(s[0]))
        } else {
            g
        }
    } else {
        if 1 <= file <= 9 && 0 <= rank < 9 {
            grid_fill(s.skip(1), rank, file - 1, g.update(9 * rank + (file - 1), s[0]))
        } else {
            grid_fill(s.skip(1), rank, file - 1, g)
        }
    }
}

/// Marks `d` squares leftward as vacant, then continues the walk.
pub open spec fn grid_fill_blanks(s: Seq<char>, rank: int, file: int, g: Seq<char>, d: int) -> Seq<
    char,
>
    decreases s.len(), file,
{
    if s.len() == 0 {
        g
    } else if d <= 0 {
        grid_fill(s.skip(1), rank, file, g)
    } else if file >= 1 {
        if 0 <= rank < 9 && file <= 9 {
            grid_fill_blanks(s, rank, file - 1, g.update(9 * rank + (file - 1), VACANT), d - 1)
        } else {
            grid_fill_blanks(s, rank, file - 1, g, d - 1)
        }
    } else {
        g
    }
}

/// The cell codes of a raw position text: promotion markers collapsed
/// first, then the first space-separated field walked square by square.
pub open spec fn sfen_grid(s: Seq<char>) -> Seq<char> {
    grid_fill(
        split_char(convert_promoted_spec(s), ' ')[0],
        0,
        9,
        Seq::new(81, |i: int| UNTOUCHED),
    )
}

/// What the pair at output position `q` of the square-by-square parse
/// holds: the square name, and the grid cell of that square, walked rank by
/// rank with files 9 down to 1.
pub open spec fn sfen_pair(s: Seq<char>, q: int) -> (Seq<char>, Seq<char>) {
    let a = q / 9;
    let b = 8 - q % 9;
    (square_name(b + 1, a), cell_string(sfen_grid(s)[9 * a + b]))
}

/// The exec cell name of one board letter.
fn cell_name_exec(c: char) -> (r: Vec<char>)
    ensures
        r@ == cell_name(c),
{
    let mut out: Vec<char> = Vec::new();
    let base: char = match c {
        'P' | 'L' | 'N' | 'S' | 'G' | 'B' | 'R' | 'K' | 'Z' | 'X' | 'Y' | 'Q' | 'W' | 'E' => 'B',
        'p' | 'l' | 'n' | 's' | 'g' | 'b' | 'r' | 'k' | 'z' | 'x' | 'y' | 'q' | 'w' | 'e' => 'W',
        _ => {
            proof {
                assert(out@ =~= cell_name(c));
            }
            return out;
        },
    };
    out.push(base);
    out.push('_');
    match c {
        'P' | 'p' => out.push('P'),
        'L' | 'l' => out.push('L'),
        'N' | 'n' => out.push('N'),
        'S' | 's' => out.push('S'),
        'G' | 'g' => out.push('G'),
        'B' | 'b' => out.push('B'),
        'R' | 'r' => out.push('R'),
        'K' | 'k' => out.push('K'),
        'Z' | 'z' => {
            out.push('P');
            out.push('P');
        },
        'X' | 'x' => {
            out.push('P');
            out.push('L');
        },
        'Y' | 'y' => {
            out.push('P');
            out.push('N');
        },
        'Q' | 'q' => {
            out.push('P');
            out.push('S');
        },
        'W' | 'w' => {
            out.push('P');
            out.push('B');
        },
        _ => {
            out.push('P');
            out.push('R');
        },
    }
    proof {
        assert(out@ =~= cell_name(c));
    }
    out
}

/// Parses a position text into 81 named square/piece pairs:
/// squares named "SQ_9A" through "SQ_1I", walked file 9 to 1 within each
/// rank, each paired with the uppercase owner-and-kind name of its piece
/// (spaces for an empty square). The board field must fit the 9x9 board.
pub fn sfen_parse(dirty_sfen: &str) -> (r: Vec<(String, String)>)
    requires
        grid_fill_ok(split_char(convert_promoted_spec(dirty_sfen@), ' ')[0], 0, 9),
    ensures
        r@.len() == 81,
        forall|q: int|
            0 <= q < 81 ==> (#[trigger] r@[q]).0@ == sfen_pair(dirty_sfen@, q).0 && r@[q].1@
                == sfen_pair(dirty_sfen@, q).1,
{
    let conv = convert_promoted_pieces(dirty_sfen);
    let cs = crate::codec::str_to_chars(conv.as_str());
    let parts = crate::codec::split_chars(&cs, ' ');
    let field = &parts[0];
    let ghost f0 = split_char(convert_promoted_spec(dirty_sfen@), ' ')[0];
    proof {
        lemma_split_len(convert_promoted_spec(dirty_sfen@), ' ');
        assert(field@ == f0);
        assert(f0.skip(0) =~= f0);
    }
    let mut grid: Vec<char> = vec!['\u{1}'; 81];
    let ghost g0 = Seq::new(81, |i: int| UNTOUCHED);
    let ghost goal = grid_fill(f0, 0, 9, g0);
    proof {
        assert(grid@ =~= g0);
    }
    let mut rank: usize = 0;
    let mut file: usize = 9;
    let mut i: usize = 0;
    while i < field.len()
        invariant
            field@ == f0,
            goal == grid_fill(f0, 0, 9, g0),
            0 <= i <= f0.len(),
            grid@.len() == 81,
            rank <= 8,
            file <= 9,
            grid_fill_ok(f0.skip(i as int), rank as int, file as int),
            goal =~= grid_fill(f0.skip(i as int), rank as int, file as int, grid@),
        decreases f0.len() - i,
    {
        let c = field[i];
        proof {
            assert(f0.skip(i as int)[0] == c);
            assert(f0.skip(i as int).skip(1) =~= f0.skip(i + 1 as int));
        }
        if c == '/' {
            rank = rank + 1;
            file = 9;
        } else if '1' <= c && c <= '9' {
            let d = (c as u8 - 48) as usize;
            let ghost srest = f0.skip(i as int);
            let ghost file0 = file as int;
            let mut t: usize = 0;
            proof {
                assert(grid_fill_ok(srest, rank as int, file0));
            }
            while t < d
                invariant
                    srest == f0.skip(i as int),
                    srest.len() > 0,
                    '1' <= srest[0] <= '9',
                    d == crate::model::digit_val(srest[0]),
                    0 <= t <= d,
                    d <= file0 <= 9,
                    file as int == file0 - t,
                    rank <= 8,
                    grid@.len() == 81,
                    goal =~= grid_fill_blanks(srest, rank as int, file as int, grid@,
                        (d - t) as int),
                decreases d - t,
            {
                file = file - 1;
                crate::king_attackers::vec_set(&mut grid, 9 * rank + file, '\u{2}');
                t = t + 1;
            }
            proof {
                assert(goal =~= grid_fill_blanks(srest, rank as int, file as int, grid@, 0));
                assert(grid_fill_ok(srest.skip(1), rank as int, file0 - d));
            }
        } else {
            file = file - 1;
            crate::king_attackers::vec_set(&mut grid, 9 * rank + file, c);
        }
        i = i + 1;
        proof {
            assert(goal =~= grid_fill(f0.skip(i as int), rank as int, file as int, grid@));
        }
    }
    proof {
        assert(f0.skip(f0.len() as int).len() == 0);
        assert(grid@ =~= sfen_grid(dirty_sfen@));
    }
    // emit the 81 pairs
    let mut out: Vec<(String, String)> = Vec::new();
    let mut a: usize = 0;
    while a < 9
        invariant
            grid@.len() == 81,
            grid@ =~= sfen_grid(dirty_sfen@),
            0 <= a <= 9,
            out@.len() == 9 * a,
            forall|q: int|
                0 <= q < 9 * a ==> (#[trigger] out@[q]).0@ == sfen_pair(dirty_sfen@, q).0
                    && out@[q].1@ == sfen_pair(dirty_sfen@, q).1,
        decreases 9 - a,
    {
        let mut bi: usize = 0;
        while bi < 9
            invariant
                grid@.len() == 81,
                grid@ =~= sfen_grid(dirty_sfen@),
                0 <= a < 9,
                0 <= bi <= 9,
                out@.len() == 9 * a + bi,
                forall|q: int|
                    0 <= q < 9 * a + bi ==> (#[trigger] out@[q]).0@ == sfen_pair(dirty_sfen@, q).0
                        && out@[q].1@ == sfen_pair(dirty_sfen@, q).1,
            decreases 9 - bi,
        {
            let b = 8 - bi;
            let mut sq: Vec<char> = Vec::new();
            sq.push('S');
            sq.push('Q');
            sq.push('_');
            sq.push(crate::codec::digit_ch((b + 1) as u8));
            sq.push(match a {
                0 => 'A', 1 => 'B', 2 => 'C', 3 => 'D', 4 => 'E', 5 => 'F', 6 => 'G', 7 => 'H',
                _ => 'I',
            });
            let square = crate::codec::chars_to_string(&sq);
            let code = grid[9 * a + b];
            let cell: Vec<char> = if code == '\u{1}' {
                vec![' '; 2]
            } else if code == '\u{2}' {
                vec![' '; 3]
            } else {
                cell_name_exec(code)
            };
            let piece = crate::codec::chars_to_string(&cell);
            proof {
                let q = 9 * a as int + bi as int;
                assert(q / 9 == a as int && q % 9 == bi as int) by (nonlinear_arith)
                    requires
                        q == 9 * a as int + bi as int,
                        0 <= a < 9,
                        0 <= bi < 9,
                ;
                assert(sq@ =~= square_name(b as int + 1, a as int));
                assert(cell@ =~= cell_string(grid@[9 * a as int + b as int]));
            }
            out.push((square, piece));
            bi = bi + 1;
        }
        a = a + 1;
    }
    out
}

// ---------------------------------------------------------------------------
// Building an oracle position from parsed pairs
// ---------------------------------------------------------------------------

/// Whether a piece name holds only spaces (an empty square's pair).
pub open spec fn blank_name(p: Seq<char>) -> bool {
    forall|i: int| 0 <= i < p.len() ==> p[i] == ' '
}

/// The piece code of an owner-and-kind name such as "B_P" or "W_PS";
/// 0 if the name is no such thing.
pub open spec fn code_of_name(p: Seq<char>) -> int {
    if 3 <= p.len() <= 4 && p[1] == '_' && (p[0] == 'B' || p[0] == 'W') {
        let side = if p[0] == 'W' { 16int } else { 0int };
        if p.len() == 3 {
            let k = if p[2] == 'P' { 1int } else if p[2] == 'L' { 2 } else if p[2] == 'N' { 3 }
            else if p[2] == 'S' { 4 } else if p[2] == 'G' { 5 } else if p[2] == 'B' { 6 }
            else if p[2] == 'R' { 7 } else if p[2] == 'K' { 8 } else { 0 };
            if k == 0 { 0 } else { side + k }
        } else {
            if p[2] == 'P' {
                let k = if p[3] == 'P' { 9int } else if p[3] == 'L' { 10 } else if p[3] == 'N' {
                    11 } else if p[3] == 'S' { 12 } else if p[3] == 'B' { 13 }
                else if p[3] == 'R' { 14 } else { 0 };
                if k == 0 { 0 } else { side + k }
            } else {
                0
            }
        }
    } else {
        0
    }
}

/// The (file, rank) a square name such as "SQ_5A" denotes; (0, 0) if the
/// name is no such thing.
pub open spec fn square_of_name(sq: Seq<char>) -> (int, int) {
    if sq.len() == 5 && sq[0] == 'S' && sq[1] == 'Q' && sq[2] == '_' && '1' <= sq[3] <= '9' && 'A'
        <= sq[4] <= 'I' {
        (crate::model::digit_val(sq[3]), sq[4] as int - 'A' as int + 1)
    } else {
        (0, 0)
    }
}

/// Whether one pair can be placed: an empty square, or a well-formed square
/// name with a well-formed piece name.
pub open spec fn pair_ok(sq: Seq<char>, p: Seq<char>) -> bool {
    blank_name(p) || (square_of_name(sq) != (0int, 0int) && is_piece_code(code_of_name(p)))
}

/// The oracle state after placing the first `n` pairs on an empty position.
pub open spec fn gen_state(pairs: Seq<(String, String)>, n: int) -> Seq<int>
    decreases n,
{
    if n <= 0 {
        crate::model::empty_ostate()
    } else {
        let prev = gen_state(pairs, n - 1);
        let p = pairs[n - 1].1@;
        if blank_name(p) {
            prev
        } else {
            let fr = square_of_name(pairs[n - 1].0@);
            set_cell_state(prev, cell_index(fr.0, fr.1), code_of_name(p))
        }
    }
}

/// Places every non-blank pair of a square-by-square parse on a fresh
/// position, leaving the side, hands and ply untouched.
pub fn generate_pos(board: Vec<(String, String)>) -> (r: PartialPosition)
    requires
        forall|i: int|
            0 <= i < board@.len() ==> pair_ok(
                (#[trigger] board@[i]).0@,
                board@[i].1@,
            ),
    ensures
        ostate(r) == gen_state(board@, board@.len() as int),
{
    let mut pos = empty_pos();
    let mut i: usize = 0;
    while i < board.len()
        invariant
            forall|q: int|
                0 <= q < board@.len() ==> pair_ok((#[trigger] board@[q]).0@, board@[q].1@),
            0 <= i <= board@.len(),
            ostate(pos) == gen_state(board@, i as int),
        decreases board@.len() - i,
    {
        let pair = &board[i];
        let pname = &pair.1;
        // skip the blank pairs
        let mut blank = true;
        let mut q: usize = 0;
        let pn = pname.as_str().unicode_len();
        while q < pn
            invariant
                pn == pname@.len(),
                0 <= q <= pn,
                blank == (forall|x: int| 0 <= x < q ==> pname@[x] == ' '),
            decreases pn - q,
        {
            if pname.as_str().get_char(q) != ' ' {
                blank = false;
                proof {
                    assert(pname@[q as int] != ' ');
                }
                q = pn;
            } else {
                q = q + 1;
            }
        }
        if !blank {
            proof {
                assert(!blank_name(pname@));
            }
            // square name: "SQ_" then the file digit and the rank letter
            let sqs = pair.0.as_str();
            let file = (sqs.get_char(3) as u8) - 48;
            let rank = (sqs.get_char(4) as u8) - 64;
            // piece name: the owner letter, '_', then the kind
            let ps = pname.as_str();
            let side: u8 = if ps.get_char(0) == 'W' {
                16
            } else {
                0
            };
            let kind: u8 = if pn == 3 {
                match ps.get_char(2) {
                    'P' => 1, 'L' => 2, 'N' => 3, 'S' => 4, 'G' => 5, 'B' => 6, 'R' => 7, _ => 8,
                }
            } else {
                match ps.get_char(3) {
                    'P' => 9, 'L' => 10, 'N' => 11, 'S' => 12, 'B' => 13, _ => 14,
                }
            };
            let code = side + kind;
            proof {
                assert(code as int == code_of_name(pname@));
                assert(square_of_name(pair.0@) == (file as int, rank as int));
            }
            set_cell(&mut pos, file, rank, code);
        }
        i = i + 1;
        proof {
            assert(ostate(pos) == gen_state(board@, i as int));
        }
    }
    pos
}

/// The side to move a text names: black when its second space-separated
/// field is exactly "b", white otherwise.
pub fn get_color(sfen: &str) -> (r: shogi_core::Color)
    requires
        split_char(sfen@, ' ').len() >= 2,
    ensures
        color_white(r) == !(split_char(sfen@, ' ')[1] =~= seq!['b']),
{
    let cs = crate::codec::str_to_chars(sfen);
    let parts = crate::codec::split_chars(&cs, ' ');
    let fld = &parts[1];
    proof {
        assert(parts@[1]@ == parts.deep_view()[1]);
        assert(fld@ == split_char(sfen@, ' ')[1]);
    }
    let black = fld.len() == 1 && fld[0] == 'b';
    proof {
        assert(black == (split_char(sfen@, ' ')[1] =~= seq!['b']));
    }
    mk_color(!black)
}

/// The opponent of the side a text names: black when its second field is
/// exactly "w", white otherwise.
pub fn get_enemy_color(sfen: &str) -> (r: shogi_core::Color)
    requires
        split_char(sfen@, ' ').len() >= 2,
    ensures
        color_white(r) == !(split_char(sfen@, ' ')[1] =~= seq!['w']),
{
    let cs = crate::codec::str_to_chars(sfen);
    let parts = crate::codec::split_chars(&cs, ' ');
    let fld = &parts[1];
    proof {
        assert(parts@[1]@ == parts.deep_view()[1]);
        assert(fld@ == split_char(sfen@, ' ')[1]);
    }
    let white_field = fld.len() == 1 && fld[0] == 'w';
    proof {
        assert(white_field == (split_char(sfen@, ' ')[1] =~= seq!['w']));
    }
    mk_color(!white_field)
}

} // verus!
