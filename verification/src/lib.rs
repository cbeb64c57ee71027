//! The rules of chess on bitboards.
//!
//! The crate has three parts. The first is the board itself: squares,
//! pieces and moves as small numbers (`square`, `file`, `rank`, `color`,
//! `piece`, `castle`, `moves`, `direction`), sets of squares as 64-bit words
//! (`bits`, `bitboard`), and the tables that are built once and then only
//! read (`attack`, `magic`, `mask`, `zobrist`, `tables`, `cuckoo`). The
//! attack tables of the sliders are filled through multiplicative hashing of
//! the occupancy; building them checks that no two occupancies collide, so
//! that every lookup is known to give what a walk over the board gives.
//!
//! The second part is the position (`board`, `fen`, `legal`, `movegen`,
//! `movelist`, `perft`, `text`): a state that keeps bitboards, mailbox,
//! castling rights, checkers, pinned pieces and an incrementally kept hash
//! in step; a reader of position strings; the tests for pseudo-legal and
//! legal moves; making and taking back moves; and the generator of
//! pseudo-legal moves.
//!
//! The third part states what the second is good for and proves it
//! (`sight`, `hashing`, `fits`, `found`, `unique`, `split`, `safety`,
//! `pins`, `complete`): what the checkers and the pinned pieces are in terms
//! of the board's geometry, when two hashes are equal, that the generator
//! finds the pseudo-legal moves, each once, that the quiet and the noisy
//! moves part them, and that the test of legality passes exactly the moves
//! that leave the mover's king out of attack.
//!
//! `pv`, `stack` and `movepick` hold what a search built on top of this
//! keeps for the line of play that it follows.

pub mod attack;
pub mod bitboard;
pub mod bits;
pub mod board;
pub mod castle;
pub mod color;
pub mod complete;
pub mod cuckoo;
pub mod direction;
pub mod fen;
pub mod file;
pub mod fits;
pub mod found;
pub mod hashing;
pub mod legal;
pub mod magic;
pub mod mask;
pub mod movegen;
pub mod movelist;
pub mod movepick;
pub mod moves;
pub mod perft;
pub mod piece;
pub mod pins;
pub mod pv;
pub mod rank;
pub mod safety;
pub mod sight;
pub mod split;
pub mod square;
pub mod stack;
pub mod tables;
pub mod text;
pub mod unique;
pub mod zobrist;
