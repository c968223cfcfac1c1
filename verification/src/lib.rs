//! A shogi engine core: a position-text codec, a static evaluator,
//! a bounded-depth game-tree search with minimax backup, and a perft
//! counter. Legal-move generation is delegated to an external rules
//! oracle, reached only through the trusted declarations in `oracle`.

pub mod codec;
pub mod eval;
pub mod king_attackers;
pub mod model;
pub mod oracle;
pub mod play;
pub mod search;
pub mod sfen;
