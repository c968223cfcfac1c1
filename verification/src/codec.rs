//! The executable position codec: a structured `Position` record, the
//! decoder from position text, and the canonical encoder back to text.

use vstd::prelude::*;

use crate::model::{
    wf_state, split_char, STATE_LEN, SIDE_IDX, PLY_IDX, BLACK_HAND_IDX, base_code_of_char,
    parse_rank, parse_board, parse_board_cell, parse_side, parse_hand, parse_hand_slots,
    parse_ply, digits_len, dec_val, is_digit, is_dec, hand_slot_letter, decode_state,
    valid_text, EngineError, lemma_decode_wf, lemma_dec_val_append, lemma_dec_val_lower,
    ints_of, lemma_parse_board_none, digit_val, lemma_parse_hand_slots_bounds,
    char_of_base_code, digit_char, dec_chars, is_base_code, piece_chars, rle_rank, rank_cells,
    encode_board_from, encode_board, encode_hand, encode_hand_slots, encode_state,
    hand_slot_count, hand_slot_idx, hands_empty,
};

verus! {

/// A structured game state: 81 board cells (piece codes, 0 empty), the side
/// to move (0 black, 1 white), the ply counter, and 14 hand counts (pawn
/// through rook, black then white).
pub struct Position {
    pub board: Vec<u8>,
    pub side: u8,
    pub ply: u16,
    pub hand: Vec<u8>,
}

impl Position {
    /// The state sequence this record stands for.
    pub open spec fn state(&self) -> Seq<int> {
        Seq::new(
            STATE_LEN as nat,
            |i: int|
                if i < 81 {
                    self.board@[i] as int
                } else if i == SIDE_IDX {
                    self.side as int
                } else if i == PLY_IDX {
                    self.ply as int
                } else {
                    self.hand@[i - BLACK_HAND_IDX] as int
                },
        )
    }

    /// Structural well-formedness: right lengths and a well-formed state.
    pub open spec fn wf(&self) -> bool {
        &&& self.board@.len() == 81
        &&& self.hand@.len() == 14
        &&& wf_state(self.state())
    }
}

/// The characters of `s`, one element per char.
pub fn str_to_chars(s: &str) -> (v: Vec<char>)
    ensures
        v@ == s@,
{
    let n = s.unicode_len();
    let mut v: Vec<char> = Vec::new();
    let mut i: usize = 0;
    while i < n
        invariant
            n == s@.len(),
            0 <= i <= n,
            v@ == s@.take(i as int),
        decreases n - i,
    {
        v.push(s.get_char(i));
        proof {
            assert(s@.take(i + 1 as int) =~= s@.take(i as int).push(s@[i as int]));
        }
        i = i + 1;
    }
    proof {
        assert(s@.take(n as int) =~= s@);
    }
    v
}

/// A `String` holding exactly the characters of `v`.
pub fn chars_to_string(v: &Vec<char>) -> (s: String)
    ensures
        s@ == v@,
{
    let mut s = String::new();
    let mut i: usize = 0;
    while i < v.len()
        invariant
            0 <= i <= v@.len(),
            s@ == v@.take(i as int),
        decreases v@.len() - i,
    {
        s.push(v[i]);
        proof {
            assert(v@.take(i + 1 as int) =~= v@.take(i as int).push(v@[i as int]));
        }
        i = i + 1;
    }
    proof {
        assert(v@.take(v@.len() as int) =~= v@);
    }
    s
}

/// The parts of `v` split on `sep`.
pub fn split_chars(v: &Vec<char>, sep: char) -> (r: Vec<Vec<char>>)
    ensures
        r.deep_view() =~~= split_char(v@, sep),
        r@.len() >= 1,
{
    proof {
        assert(v@.skip(0) =~= v@);
    }
    split_exec(v, 0, sep)
}

/// The parts of `v` from position `i` on, split on `sep`.
fn split_exec(v: &Vec<char>, i: usize, sep: char) -> (r: Vec<Vec<char>>)
    requires
        i <= v@.len(),
    ensures
        r.deep_view() =~~= split_char(v@.skip(i as int), sep),
        r@.len() >= 1,
    decreases v@.len() - i,
{
    if i == v.len() {
        proof {
            assert(v@.skip(i as int) =~= Seq::<char>::empty());
        }
        let mut r: Vec<Vec<char>> = Vec::new();
        r.push(Vec::new());
        return r;
    }
    let mut rest = split_exec(v, i + 1, sep);
    proof {
        assert(v@.skip(i as int).skip(1) =~= v@.skip(i + 1 as int));
        assert(v@.skip(i as int)[0] == v@[i as int]);
    }
    let c = v[i];
    if c == sep {
        rest.insert(0, Vec::new());
        rest
    } else {
        let mut first = rest.remove(0);
        first.insert(0, c);
        rest.insert(0, first);
        rest
    }
}


/// The unpromoted piece code of a board letter; 0 if the letter is no piece.
pub fn base_code(c: char) -> (r: u8)
    ensures
        r as int == base_code_of_char(c),
{
    match c {
        'P' => 1, 'L' => 2, 'N' => 3, 'S' => 4, 'G' => 5, 'B' => 6, 'R' => 7, 'K' => 8,
        'p' => 17, 'l' => 18, 'n' => 19, 's' => 20, 'g' => 21, 'b' => 22, 'r' => 23, 'k' => 24,
        _ => 0,
    }
}

/// The cells denoted by the rank text `v[i..]`, if it parses.
fn parse_rank_exec(v: &Vec<char>, i: usize) -> (r: Option<Vec<u8>>)
    requires
        i <= v@.len(),
    ensures
        r is Some <==> parse_rank(v@.skip(i as int)) is Some,
        r is Some ==> ints_of(r->Some_0@) =~= parse_rank(v@.skip(i as int))->Some_0,
    decreases v@.len() - i,
{
    let ghost s = v@.skip(i as int);
    if i == v.len() {
        proof {
            assert(s =~= Seq::<char>::empty());
        }
        return Some(Vec::new());
    }
    let c = v[i];
    proof {
        assert(s[0] == c);
        assert(s.skip(1) =~= v@.skip(i + 1 as int));
    }
    if '1' <= c && c <= '9' {
        let d = (c as u8) - 48;
        match parse_rank_exec(v, i + 1) {
            Some(mut rest) => {
                let mut cells: Vec<u8> = vec![0u8; d as usize];
                proof {
                    assert(ints_of(cells@) =~= Seq::new(d as nat, |x: int| 0));
                }
                let ghost pre = cells@;
                let ghost tail = rest@;
                cells.append(&mut rest);
                proof {
                    assert(ints_of(cells@) =~= ints_of(pre) + ints_of(tail));
                }
                Some(cells)
            },
            None => None,
        }
    } else if c == '+' {
        if i + 1 < v.len() {
            let b = base_code(v[i + 1]);
            proof {
                assert(s[1] == v@[i + 1 as int]);
                assert(s.skip(2) =~= v@.skip(i + 2 as int));
            }
            let kind = if b >= 17 { b - 16 } else { b };
            if b != 0 && kind != 5 && kind != 8 {
                match parse_rank_exec(v, i + 2) {
                    Some(mut rest) => {
                        let code = if kind <= 4 { b + 8 } else { b + 7 };
                        rest.insert(0, code);
                        proof {
                            assert(ints_of(rest@) =~= seq![code as int] + ints_of(rest@.skip(1)));
                        }
                        Some(rest)
                    },
                    None => None,
                }
            } else {
                None
            }
        } else {
            None
        }
    } else {
        let b = base_code(c);
        if b != 0 {
            match parse_rank_exec(v, i + 1) {
                Some(mut rest) => {
                    rest.insert(0, b);
                    proof {
                        assert(ints_of(rest@) =~= seq![b as int] + ints_of(rest@.skip(1)));
                    }
                    Some(rest)
                },
                None => None,
            }
        } else {
            None
        }
    }
}

/// The 81 board cells denoted by a board field, if it parses.
fn parse_board_exec(part: &Vec<char>) -> (r: Option<Vec<u8>>)
    ensures
        r is Some <==> parse_board(part@) is Some,
        r is Some ==> ints_of(r->Some_0@) =~= parse_board(part@)->Some_0,
{
    let ghost parts_spec = split_char(part@, '/');
    let ranks = split_exec(part, 0, '/');
    proof {
        assert(part@.skip(0) =~= part@);
        assert(ranks.deep_view() =~~= parts_spec);
    }
    if ranks.len() != 9 {
        return None;
    }
    let mut cells: Vec<Vec<u8>> = Vec::new();
    let mut r: usize = 0;
    while r < 9
        invariant
            parts_spec == split_char(part@, '/'),
            ranks@.len() == 9,
            ranks.deep_view() =~~= parts_spec,
            parts_spec.len() == 9,
            0 <= r <= 9,
            cells@.len() == r,
            forall|q: int|
                0 <= q < r ==> parse_rank(#[trigger] parts_spec[q]) is Some && parse_rank(
                    parts_spec[q],
                )->Some_0.len() == 9,
            forall|q: int|
                0 <= q < r ==> ints_of(#[trigger] cells@[q]@) == parse_rank(parts_spec[q])->Some_0,
        decreases 9 - r,
    {
        proof {
            assert(ranks@[r as int]@ == ranks.deep_view()[r as int]);
            assert(ranks@[r as int]@.skip(0) =~= ranks@[r as int]@);
        }
        match parse_rank_exec(&ranks[r], 0) {
            Some(cs) => {
                if cs.len() != 9 {
                    proof {
                        assert(ints_of(cs@).len() == cs@.len());
                        assert(parse_rank(parts_spec[r as int])->Some_0.len() != 9);
                        lemma_parse_board_none(part@, r as int);
                    }
                    return None;
                }
                cells.push(cs);
            },
            None => {
                proof {
                    assert(parse_rank(parts_spec[r as int]) is None);
                    lemma_parse_board_none(part@, r as int);
                }
                return None;
            },
        }
        r = r + 1;
    }
    let mut board: Vec<u8> = Vec::new();
    let mut idx: usize = 0;
    while idx < 81
        invariant
            parts_spec == split_char(part@, '/'),
            parts_spec.len() == 9,
            cells@.len() == 9,
            forall|q: int|
                0 <= q < 9 ==> parse_rank(#[trigger] parts_spec[q]) is Some && parse_rank(
                    parts_spec[q],
                )->Some_0.len() == 9,
            forall|q: int|
                0 <= q < 9 ==> ints_of(#[trigger] cells@[q]@) == parse_rank(parts_spec[q])->Some_0,
            0 <= idx <= 81,
            board@.len() == idx,
            forall|j: int|
                0 <= j < idx ==> #[trigger] board@[j] as int == parse_board_cell(parts_spec, j),
        decreases 81 - idx,
    {
        let rr = idx % 9;
        let q = 8 - idx / 9;
        proof {
            assert(cells@[rr as int]@.len() == 9);
            assert(cells@[rr as int]@[q as int] as int == ints_of(cells@[rr as int]@)[q as int]);
        }
        let cell = cells[rr][q];
        board.push(cell);
        idx = idx + 1;
    }
    proof {
        assert(parse_board(part@) is Some);
        assert(ints_of(board@) =~= parse_board(part@)->Some_0);
    }
    Some(board)
}

/// Whether `c` is a decimal digit.
fn is_digit_exec(c: char) -> (r: bool)
    ensures
        r == is_digit(c),
{
    '0' <= c && c <= '9'
}

/// The length of the digit run starting at `v[i]`.
fn digits_len_exec(v: &Vec<char>, i: usize) -> (r: usize)
    requires
        i <= v@.len(),
    ensures
        r as int == digits_len(v@.skip(i as int)),
        i + r <= v@.len(),
    decreases v@.len() - i,
{
    let ghost s = v@.skip(i as int);
    if i < v.len() && is_digit_exec(v[i]) {
        proof {
            assert(s[0] == v@[i as int]);
            assert(s.skip(1) =~= v@.skip(i + 1 as int));
        }
        let rest = digits_len_exec(v, i + 1);
        1 + rest
    } else {
        proof {
            if i < v.len() {
                assert(s[0] == v@[i as int]);
            } else {
                assert(s.len() == 0);
            }
        }
        0
    }
}

/// The value of the digit text `v[i..j]`, unless it exceeds `bound`.
fn dec_val_exec(v: &Vec<char>, i: usize, j: usize, bound: u32) -> (r: Option<u32>)
    requires
        i <= j <= v@.len(),
        bound <= 0x10000,
        forall|q: int| i <= q < j ==> is_digit(#[trigger] v@[q]),
    ensures
        r is Some <==> dec_val(v@.subrange(i as int, j as int), 0) <= bound,
        r is Some ==> r->Some_0 as int == dec_val(v@.subrange(i as int, j as int), 0),
{
    let ghost whole = v@.subrange(i as int, j as int);
    let mut acc: u32 = 0;
    let mut k: usize = i;
    proof {
        assert(v@.subrange(i as int, i as int) =~= Seq::<char>::empty());
    }
    while k < j
        invariant
            i <= k <= j <= v@.len(),
            whole == v@.subrange(i as int, j as int),
            forall|q: int| i <= q < j ==> is_digit(#[trigger] v@[q]),
            bound <= 0x10000,
            acc <= bound,
            acc as int == dec_val(v@.subrange(i as int, k as int), 0),
        decreases j - k,
    {
        let d = (v[k] as u8) - 48;
        proof {
            let pre = v@.subrange(i as int, k as int);
            let c = v@[k as int];
            assert(v@.subrange(i as int, k + 1 as int) =~= pre + seq![c]);
            lemma_dec_val_append(pre, seq![c], 0);
            assert(seq![c].skip(1) =~= Seq::<char>::empty());
            assert(dec_val(Seq::<char>::empty(), acc as int * 10 + digit_val(c)) == acc as int
                * 10 + digit_val(c));
            assert(dec_val(seq![c], acc as int) == acc as int * 10 + digit_val(c));
        }
        let next = acc * 10 + (d as u32);
        if next > bound {
            proof {
                let done = v@.subrange(i as int, k + 1 as int);
                let rest = v@.subrange(k + 1 as int, j as int);
                assert(whole =~= done + rest);
                lemma_dec_val_append(done, rest, 0);
                assert forall|q: int| 0 <= q < rest.len() implies is_digit(
                    #[trigger] rest[q],
                ) by {
                    assert(rest[q] == v@[k + 1 + q]);
                }
                lemma_dec_val_lower(rest, next as int);
            }
            return None;
        }
        acc = next;
        k = k + 1;
    }
    proof {
        assert(v@.subrange(i as int, j as int) =~= whole);
    }
    Some(acc)
}

/// The 14 hand counts (slot order) denoted by `v[i..]` from slot `k` on.
fn parse_hand_slots_exec(v: &Vec<char>, i: usize, k: usize) -> (r: Option<Vec<u8>>)
    requires
        i <= v@.len(),
        k <= 14,
    ensures
        r is Some <==> parse_hand_slots(v@.skip(i as int), k as int) is Some,
        r is Some ==> ints_of(r->Some_0@) =~= parse_hand_slots(v@.skip(i as int), k as int)->Some_0,
    decreases 14 - k,
{
    let ghost s = v@.skip(i as int);
    if k == 14 {
        if i == v.len() {
            proof {
                assert(s.len() == 0);
            }
            return Some(Vec::new());
        } else {
            return None;
        }
    }
    let letter = hand_letter(k);
    if i < v.len() && v[i] == letter {
        proof {
            assert(s[0] == v@[i as int]);
            assert(s.skip(1) =~= v@.skip(i + 1 as int));
        }
        match parse_hand_slots_exec(v, i + 1, k + 1) {
            Some(mut rest) => {
                rest.insert(0, 1);
                proof {
                    assert(ints_of(rest@) =~= seq![1int] + ints_of(rest@.skip(1)));
                }
                Some(rest)
            },
            None => None,
        }
    } else {
        let dl = digits_len_exec(v, i);
        proof {
            if i < v.len() {
                assert(s[0] == v@[i as int]);
            }
        }
        if i < v.len() && is_digit_exec(v[i]) && dl < v.len() - i && v[i + dl] == letter {
            proof {
                assert(s[digits_len(s)] == v@[i + dl]);
                assert(digits_len(s) < s.len());
                assert(s.take(digits_len(s)) =~= v@.subrange(i as int, (i + dl) as int));
                assert forall|q: int| i <= q < i + dl implies is_digit(#[trigger] v@[q]) by {
                    lemma_digit_run(v@, i as int, q);
                }
            }
            match dec_val_exec(v, i, i + dl, 255) {
                Some(value) => {
                    if v[i] != '0' && 2 <= value {
                        proof {
                            assert(s.skip(digits_len(s) + 1) =~= v@.skip((i + dl + 1) as int));
                        }
                        match parse_hand_slots_exec(v, i + dl + 1, k + 1) {
                            Some(mut rest) => {
                                rest.insert(0, value as u8);
                                proof {
                                    assert(ints_of(rest@) =~= seq![value as int] + ints_of(
                                        rest@.skip(1),
                                    ));
                                }
                                Some(rest)
                            },
                            None => None,
                        }
                    } else {
                        None
                    }
                },
                None => {
                    // the digit run exceeds any count a hand can hold
                    None
                },
            }
        } else {
            match parse_hand_slots_exec(v, i, k + 1) {
                Some(mut rest) => {
                    rest.insert(0, 0);
                    proof {
                        assert(ints_of(rest@) =~= seq![0int] + ints_of(rest@.skip(1)));
                    }
                    Some(rest)
                },
                None => None,
            }
        }
    }
}

/// The letter of hand slot `k`.
fn hand_letter(k: usize) -> (r: char)
    requires
        k < 14,
    ensures
        r == hand_slot_letter(k as int),
{
    match k {
        0 => 'R', 1 => 'B', 2 => 'G', 3 => 'S', 4 => 'N', 5 => 'L', 6 => 'P',
        7 => 'r', 8 => 'b', 9 => 'g', 10 => 's', 11 => 'n', 12 => 'l', _ => 'p',
    }
}

/// Positions inside a digit run hold digits.
proof fn lemma_digit_run(s: Seq<char>, i: int, q: int)
    requires
        0 <= i <= q,
        q - i < digits_len(s.skip(i)),
        i <= s.len(),
    ensures
        q < s.len() && is_digit(s[q]),
    decreases q - i,
{
    assert(digits_len(s.skip(i)) > 0);
    assert(s.skip(i).len() > 0 && is_digit(s.skip(i)[0]));
    if q == i {
        assert(s[q] == s.skip(i)[0]);
    } else {
        assert(s.skip(i).skip(1) =~= s.skip(i + 1));
        lemma_digit_run(s, i + 1, q);
    }
}

/// Parses a position text into a structured `Position`.
///
/// Fails with `MalformedEncoding` unless the text holds exactly four
/// space-separated fields: a board of nine slash-delimited ranks of nine
/// files each (after run-length expansion and promotion prefixes), a side
/// letter, a canonical hand field and a decimal ply.
pub fn decode(s: &str) -> (r: Result<Position, EngineError>)
    ensures
        r is Ok <==> valid_text(s@),
        r is Ok ==> r->Ok_0.wf() && r->Ok_0.state() == decode_state(s@)->Some_0,
        r is Err ==> r->Err_0 == EngineError::MalformedEncoding,
{
    let cs = str_to_chars(s);
    let ghost parts_spec = split_char(s@, ' ');
    let parts = split_exec(&cs, 0, ' ');
    proof {
        assert(cs@.skip(0) =~= cs@);
        assert(parts.deep_view() =~~= parts_spec);
    }
    if parts.len() != 4 {
        return Err(EngineError::MalformedEncoding);
    }
    proof {
        assert(parts@[0]@ == parts_spec[0]);
        assert(parts@[1]@ == parts_spec[1]);
        assert(parts@[2]@ == parts_spec[2]);
        assert(parts@[3]@ == parts_spec[3]);
    }
    // board field
    let board = match parse_board_exec(&parts[0]) {
        Some(b) => b,
        None => {
            return Err(EngineError::MalformedEncoding);
        },
    };
    // side field
    let p1 = &parts[1];
    let side: u8 = if p1.len() == 1 {
        let c = p1[0];
        if c == 'b' {
            0
        } else if c == 'w' {
            1
        } else {
            return Err(EngineError::MalformedEncoding);
        }
    } else {
        return Err(EngineError::MalformedEncoding);
    };
    proof {
        assert(parse_side(parts_spec[1]) == Some(side as int));
    }
    // hand field
    let p2 = &parts[2];
    let counts: Vec<u8> = if p2.len() == 1 && p2[0] == '-' {
        let z = vec![0u8; 14];
        proof {
            assert(ints_of(z@) =~= parse_hand(parts_spec[2])->Some_0);
        }
        z
    } else {
        proof {
            assert(p2@.skip(0) =~= p2@);
        }
        match parse_hand_slots_exec(p2, 0, 0) {
            Some(c) => c,
            None => {
                return Err(EngineError::MalformedEncoding);
            },
        }
    };
    proof {
        assert(parse_hand(parts_spec[2]) is Some);
        if !(parts_spec[2].len() == 1 && parts_spec[2][0] == '-') {
            lemma_parse_hand_slots_bounds(parts_spec[2], 0);
        }
        assert(ints_of(counts@) =~= parse_hand(parts_spec[2])->Some_0);
        assert(counts@.len() == 14);
    }
    // reorder slot counts (rook first) into state order (pawn first)
    let mut hand: Vec<u8> = Vec::new();
    let mut i: usize = 0;
    while i < 14
        invariant
            counts@.len() == 14,
            0 <= i <= 14,
            hand@.len() == i,
            forall|j: int|
                0 <= j < i ==> #[trigger] hand@[j] == counts@[if j < 7 { 6 - j } else { 20 - j }],
        decreases 14 - i,
    {
        let k = if i < 7 { 6 - i } else { 20 - i };
        hand.push(counts[k]);
        i = i + 1;
    }
    // ply field
    let p3 = &parts[3];
    if p3.len() == 0 {
        proof {
            assert(!is_dec(parts_spec[3]));
        }
        return Err(EngineError::MalformedEncoding);
    }
    let mut j: usize = 0;
    while j < p3.len()
        invariant
            parts_spec == split_char(s@, ' '),
            parts_spec.len() == 4,
            p3@ == parts_spec[3],
            0 <= j <= p3@.len(),
            forall|q: int| 0 <= q < j ==> is_digit(#[trigger] p3@[q]),
        decreases p3@.len() - j,
    {
        if !is_digit_exec(p3[j]) {
            proof {
                assert(!is_dec(p3@));
            }
            return Err(EngineError::MalformedEncoding);
        }
        j = j + 1;
    }
    if p3[0] == '0' && p3.len() != 1 {
        proof {
            assert(!is_dec(p3@));
        }
        return Err(EngineError::MalformedEncoding);
    }
    proof {
        assert(is_dec(p3@));
        assert(p3@.subrange(0, p3@.len() as int) =~= p3@);
    }
    let ply32 = match dec_val_exec(p3, 0, p3.len(), 0xffff) {
        Some(value) => value,
        None => {
            proof {
                assert(dec_val(p3@, 0) > 0xffff);
                assert(parse_ply(parts_spec[3]) is None);
                assert(decode_state(s@) is None);
            }
            return Err(EngineError::MalformedEncoding);
        },
    };
    let ply = ply32 as u16;
    let pos = Position { board, side, ply, hand };
    proof {
        assert(parse_ply(parts_spec[3]) == Some(ply as int));
        assert(decode_state(s@) is Some);
        let st = decode_state(s@)->Some_0;
        assert(pos.state() =~= st);
        lemma_decode_wf(s@);
    }
    Ok(pos)
}

/// The board letter of an unpromoted piece code.
fn base_char(code: u8) -> (r: char)
    requires
        is_base_code(code as int),
    ensures
        r == char_of_base_code(code as int),
{
    match code {
        1 => 'P', 2 => 'L', 3 => 'N', 4 => 'S', 5 => 'G', 6 => 'B', 7 => 'R', 8 => 'K',
        17 => 'p', 18 => 'l', 19 => 'n', 20 => 's', 21 => 'g', 22 => 'b', 23 => 'r', _ => 'k',
    }
}

/// The digit character of `d`.
pub fn digit_ch(d: u8) -> (r: char)
    requires
        d <= 9,
    ensures
        r == digit_char(d as int),
{
    match d {
        0 => '0', 1 => '1', 2 => '2', 3 => '3', 4 => '4',
        5 => '5', 6 => '6', 7 => '7', 8 => '8', _ => '9',
    }
}

/// Appends the decimal notation of `n`.
fn push_dec(out: &mut Vec<char>, n: u16)
    ensures
        final(out)@ == old(out)@ + dec_chars(n as int),
    decreases n,
{
    if n <= 9 {
        out.push(digit_ch(n as u8));
        proof {
            assert(final(out)@ =~= old(out)@ + dec_chars(n as int));
        }
    } else {
        push_dec(out, n / 10);
        out.push(digit_ch((n % 10) as u8));
        proof {
            assert(final(out)@ =~= old(out)@ + dec_chars(n as int));
        }
    }
}

/// Appends the characters of the piece with code `code`.
fn push_piece(out: &mut Vec<char>, code: u8)
    requires
        is_piece_code_exec_ok(code),
    ensures
        final(out)@ == old(out)@ + piece_chars(code as int),
{
    let kind = if code >= 17 { code - 16 } else { code };
    if kind >= 9 {
        out.push('+');
        let base = if kind <= 12 { code - 8 } else { code - 7 };
        out.push(base_char(base));
        proof {
            assert(final(out)@ =~= old(out)@ + piece_chars(code as int));
        }
    } else {
        out.push(base_char(code));
        proof {
            assert(final(out)@ =~= old(out)@ + piece_chars(code as int));
        }
    }
}

/// Exec-visible form of `is_piece_code`.
pub open spec fn is_piece_code_exec_ok(code: u8) -> bool {
    crate::model::is_piece_code(code as int)
}

/// Appends the run-length text of rank `r` of the state.
fn push_rank(out: &mut Vec<char>, p: &Position, r: usize)
    requires
        p.wf(),
        r < 9,
    ensures
        final(out)@ == old(out)@ + rle_rank(rank_cells(p.state(), r as int), 0),
{
    let ghost st = p.state();
    let ghost cells = rank_cells(st, r as int);
    let mut pending: u8 = 0;
    let mut j: usize = 0;
    proof {
        assert(cells.skip(0) =~= cells);
    }
    while j < 9
        invariant
            p.wf(),
            r < 9,
            st == p.state(),
            cells == rank_cells(st, r as int),
            0 <= j <= 9,
            pending <= j,
            old(out)@.is_prefix_of(out@),
            rle_rank(cells, 0) =~= out@.skip(old(out)@.len() as int) + rle_rank(
                cells.skip(j as int),
                pending as int,
            ),
        decreases 9 - j,
    {
        let idx = 9 * (8 - j) + r;
        let cell = p.board[idx];
        proof {
            assert(cells.skip(j as int)[0] == cells[j as int]);
            assert(cells[j as int] == st[9 * (8 - j as int) + r as int]);
            assert(st[idx as int] == p.board@[idx as int] as int);
            assert(cells.skip(j as int).skip(1) =~= cells.skip(j + 1 as int));
        }
        if cell == 0 {
            pending = pending + 1;
        } else {
            if pending > 0 {
                out.push(digit_ch(pending));
            }
            push_piece(out, cell);
            pending = 0;
        }
        j = j + 1;
        proof {
            assert(rle_rank(cells, 0) =~= out@.skip(old(out)@.len() as int) + rle_rank(
                cells.skip(j as int),
                pending as int,
            ));
        }
    }
    if pending > 0 {
        out.push(digit_ch(pending));
    }
    proof {
        assert(cells.skip(9) =~= Seq::<int>::empty());
        assert(final(out)@ =~= old(out)@ + rle_rank(cells, 0));
    }
}

/// Appends the whole board field of the state.
fn push_board(out: &mut Vec<char>, p: &Position)
    requires
        p.wf(),
    ensures
        final(out)@ == old(out)@ + encode_board(p.state()),
{
    let ghost st = p.state();
    let mut r: usize = 0;
    while r < 8
        invariant
            p.wf(),
            st == p.state(),
            0 <= r <= 8,
            old(out)@.is_prefix_of(out@),
            encode_board(st) =~= out@.skip(old(out)@.len() as int) + encode_board_from(
                st,
                r as int,
            ),
        decreases 8 - r,
    {
        push_rank(out, p, r);
        out.push('/');
        r = r + 1;
        proof {
            assert(encode_board(st) =~= out@.skip(old(out)@.len() as int) + encode_board_from(
                st,
                r as int,
            ));
        }
    }
    push_rank(out, p, 8);
    proof {
        assert(final(out)@ =~= old(out)@ + encode_board(st));
    }
}

/// Appends the hand field of the state.
fn push_hand(out: &mut Vec<char>, p: &Position)
    requires
        p.wf(),
    ensures
        final(out)@ == old(out)@ + encode_hand(p.state()),
{
    let ghost st = p.state();
    // find whether any hand slot is held
    let mut any: bool = false;
    let mut k: usize = 0;
    let ghost mut witness: int = 0;
    while k < 14
        invariant
            p.wf(),
            st == p.state(),
            0 <= k <= 14,
            !any ==> forall|q: int| 0 <= q < k ==> hand_slot_count(st, q) == 0,
            any ==> 0 <= witness < k <= 14 && hand_slot_count(st, witness) > 0,
        decreases 14 - k,
    {
        let idx = if k < 7 { 6 - k } else { 20 - k };
        let c = p.hand[idx];
        proof {
            assert(st[83 + idx as int] == p.hand@[idx as int] as int);
            assert(hand_slot_idx(k as int) == 83 + idx as int);
        }
        if c > 0 {
            if !any {
                proof {
                    witness = k as int;
                }
            }
            any = true;
        }
        k = k + 1;
    }
    if !any {
        out.push('-');
        proof {
            assert(hands_empty(st));
            assert(final(out)@ =~= old(out)@ + encode_hand(st));
        }
        return ;
    }
    proof {
        assert(!hands_empty(st));
    }
    let mut k: usize = 0;
    while k < 14
        invariant
            p.wf(),
            st == p.state(),
            0 <= k <= 14,
            old(out)@.is_prefix_of(out@),
            encode_hand_slots(st, 0) =~= out@.skip(old(out)@.len() as int) + encode_hand_slots(
                st,
                k as int,
            ),
        decreases 14 - k,
    {
        let idx = if k < 7 { 6 - k } else { 20 - k };
        let c = p.hand[idx];
        proof {
            assert(st[83 + idx as int] == p.hand@[idx as int] as int);
            assert(hand_slot_idx(k as int) == 83 + idx as int);
            assert(hand_slot_count(st, k as int) == c as int);
        }
        if c == 1 {
            out.push(hand_letter(k));
        } else if c >= 2 {
            push_dec(out, c as u16);
            out.push(hand_letter(k));
        }
        k = k + 1;
        proof {
            assert(encode_hand_slots(st, 0) =~= out@.skip(old(out)@.len() as int)
                + encode_hand_slots(st, k as int));
        }
    }
    proof {
        assert(final(out)@ =~= old(out)@ + encode_hand(st));
    }
}

/// Writes the canonical position text of `p`: the board, side, hand and ply
/// fields joined by single spaces.
pub fn encode(p: &Position) -> (r: String)
    requires
        p.wf(),
    ensures
        r@ == encode_state(p.state()),
{
    let ghost st = p.state();
    let mut out: Vec<char> = Vec::new();
    push_board(&mut out, p);
    out.push(' ');
    if p.side == 1 {
        out.push('w');
    } else {
        out.push('b');
    }
    out.push(' ');
    push_hand(&mut out, p);
    out.push(' ');
    push_dec(&mut out, p.ply);
    proof {
        assert(st[PLY_IDX as int] == p.ply as int);
        assert(st[SIDE_IDX as int] == p.side as int);
        assert(out@ =~= encode_state(st));
    }
    chars_to_string(&out)
}

} // verus!
