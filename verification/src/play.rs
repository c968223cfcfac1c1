//! Plain-text decision helpers for the interactive play loop and the
//! opening-book reader: they interpret what the surrounding program reads,
//! and decide nothing else.

use vstd::prelude::*;

verus! {

/// Whether a typed move has the length of either accepted form: a plain
/// move such as "G,9 to F,9" (ten characters) or a promoting move such as
/// "D,4 to C,4 to P" (fifteen).
pub fn validate_user_move(user_input: &str) -> (r: bool)
    ensures
        r == (user_input@.len() == 10 || user_input@.len() == 15),
{
    let n = user_input.unicode_len();
    n == 10 || n == 15
}

/// The 1-based rank a capital letter names; `None` beyond 'I'.
pub fn char_to_u8(input: char) -> (r: Option<u8>)
    ensures
        r == (if 'A' <= input <= 'I' {
            Some((input as int - 'A' as int + 1) as u8)
        } else {
            None::<u8>
        }),
{
    match input {
        'A' => Some(1),
        'B' => Some(2),
        'C' => Some(3),
        'D' => Some(4),
        'E' => Some(5),
        'F' => Some(6),
        'G' => Some(7),
        'H' => Some(8),
        'I' => Some(9),
        _ => None,
    }
}

/// The boolean a book token names; `None` for any other token.
pub fn parse_bool(value: &str) -> (r: Option<bool>)
    ensures
        r == (if value@ =~= "true"@ {
            Some(true)
        } else if value@ =~= "false"@ {
            Some(false)
        } else {
            None::<bool>
        }),
{
    if crate::eval::str_eq(value, "true") {
        Some(true)
    } else if crate::eval::str_eq(value, "false") {
        Some(false)
    } else {
        None
    }
}

} // verus!
