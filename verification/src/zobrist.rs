use vstd::prelude::*;
use crate::piece::Piece;

verus! {

/// The seed of the key generator.
pub const SEED: u64 = 1070372;

/// The multiplier of the key generator.
pub const MULTIPLIER: u64 = 2685821657736338717;

/// Number of keys: twelve pieces on sixty-four squares, eight files, sixteen
/// masks of castling rights, and the side to move.
pub const KEY_COUNT: usize = 793;

/// The keys that a position's hash is made of.
#[derive(Debug)]
pub struct Zobrist {
    /// One key for each piece on each square.
    pub piece: [[u64; 64]; 12],
    /// One key for each file that a capture in passing can take place on.
    pub enpassant: [u64; 8],
    /// One key for each mask of castling rights.
    pub castling: [u64; 16],
    /// The key of the side to move.
    pub color: u64,
}

/// One step of the generator: three shifts folded in, then a multiplication
/// that wraps.
pub open spec fn scramble(seed: u64) -> u64 {
    let a = seed ^ (seed >> 12);
    let b = a ^ (a << 25);
    let c = b ^ (b >> 27);
    vstd::wrapping::u64_specs::wrapping_mul(c, MULTIPLIER)
}

/// The `n`-th key that the generator gives, counted from 0.
pub open spec fn key(n: nat) -> u64
    decreases n,
{
    if n == 0 {
        scramble(SEED)
    } else {
        scramble(key((n - 1) as nat))
    }
}

/// The key of `piece` on the square numbered `square`.
pub open spec fn piece_key(piece: Piece, square: int) -> u64 {
    key((piece.idx() * 64 + square) as nat)
}

/// The key of a capture in passing on the file numbered `file`.
pub open spec fn enpassant_key(file: int) -> u64 {
    key((768 + file) as nat)
}

/// The key of the castling mask `mask`.
pub open spec fn castling_key(mask: int) -> u64 {
    key((776 + mask) as nat)
}

/// The key of the side to move.
pub open spec fn color_key() -> u64 {
    key(792)
}

/// Whether the keys are all different from each other and from zero, so that
/// folding one in or out, or swapping one for another, changes a hash.
pub open spec fn keys_distinct() -> bool {
    &&& forall|i: int| 0 <= i < KEY_COUNT ==> #[trigger] key(i as nat) != 0
    &&& forall|i: int, j: int|
        0 <= i < j < KEY_COUNT ==> #[trigger] key(i as nat) != #[trigger] key(j as nat)
}

/// One step of the generator.
pub fn rand64(seed: u64) -> (r: u64)
    ensures
        r == scramble(seed),
{
    let mut seed = seed;
    seed ^= seed >> 12;
    seed ^= seed << 25;
    seed ^= seed >> 27;
    seed.wrapping_mul(MULTIPLIER)
}

impl Zobrist {
    /// Whether the table holds the generator's keys in their order: pieces
    /// first, square by square, then files, then castling masks, then the
    /// side to move; and these keys are all different and not zero.
    pub open spec fn wf(&self) -> bool {
        &&& keys_distinct()
        &&& forall|p: int, s: int|
            0 <= p < 12 && 0 <= s < 64 ==> #[trigger] self.piece[p][s] == key((p * 64 + s) as nat)
        &&& forall|f: int| 0 <= f < 8 ==> #[trigger] self.enpassant[f] == enpassant_key(f)
        &&& forall|c: int| 0 <= c < 16 ==> #[trigger] self.castling[c] == castling_key(c)
        &&& self.color == color_key()
    }

    /// The table of keys. `None` if two of the keys are equal or one is zero.
    pub fn new() -> (r: Option<Zobrist>)
        ensures
            r.is_some() == keys_distinct(),
            r matches Some(z) ==> z.wf(),
    {
        let mut keys: Vec<u64> = Vec::new();
        let mut seed = rand64(SEED);
        while keys.len() < KEY_COUNT
            invariant
                keys.len() <= KEY_COUNT,
                seed == key(keys.len() as nat),
                forall|i: int| 0 <= i < keys.len() ==> #[trigger] keys[i] == key(i as nat),
            decreases KEY_COUNT - keys.len(),
        {
            keys.push(seed);
            seed = rand64(seed);
        }
        let mut i: usize = 0;
        while i < KEY_COUNT
            invariant
                i <= KEY_COUNT,
                keys.len() == KEY_COUNT,
                forall|x: int| 0 <= x < KEY_COUNT ==> #[trigger] keys[x] == key(x as nat),
                forall|x: int| 0 <= x < i ==> #[trigger] key(x as nat) != 0,
                forall|x: int, y: int|
                    0 <= x < i && x < y < KEY_COUNT ==> #[trigger] key(x as nat) != #[trigger] key(
                        y as nat,
                    ),
            decreases KEY_COUNT - i,
        {
            if keys[i] == 0 {
                assert(key(i as nat) == 0);
                return None;
            }
            let mut j: usize = i + 1;
            while j < KEY_COUNT
                invariant
                    i < j <= KEY_COUNT,
                    keys.len() == KEY_COUNT,
                    forall|x: int| 0 <= x < KEY_COUNT ==> #[trigger] keys[x] == key(x as nat),
                    forall|y: int| i < y < j ==> key(i as nat) != #[trigger] key(y as nat),
                decreases KEY_COUNT - j,
            {
                if keys[i] == keys[j] {
                    assert(key(i as nat) == key(j as nat));
                    return None;
                }
                j += 1;
            }
            i += 1;
        }
        let mut piece = [[0u64; 64]; 12];
        let mut p: usize = 0;
        while p < 12
            invariant
                p <= 12,
                keys.len() == KEY_COUNT,
                forall|x: int| 0 <= x < KEY_COUNT ==> #[trigger] keys[x] == key(x as nat),
                forall|q: int, s: int|
                    0 <= q < p && 0 <= s < 64 ==> #[trigger] piece[q][s] == key((q * 64 + s) as nat),
            decreases 12 - p,
        {
            let mut row = [0u64; 64];
            let mut s: usize = 0;
            while s < 64
                invariant
                    p < 12,
                    s <= 64,
                    keys.len() == KEY_COUNT,
                    forall|x: int| 0 <= x < KEY_COUNT ==> #[trigger] keys[x] == key(x as nat),
                    forall|t: int| 0 <= t < s ==> #[trigger] row[t] == key((p * 64 + t) as nat),
                decreases 64 - s,
            {
                row[s] = keys[p * 64 + s];
                s += 1;
            }
            piece[p] = row;
            p += 1;
        }
        let mut enpassant = [0u64; 8];
        let mut f: usize = 0;
        while f < 8
            invariant
                f <= 8,
                keys.len() == KEY_COUNT,
                forall|x: int| 0 <= x < KEY_COUNT ==> #[trigger] keys[x] == key(x as nat),
                forall|g: int| 0 <= g < f ==> #[trigger] enpassant[g] == enpassant_key(g),
            decreases 8 - f,
        {
            enpassant[f] = keys[768 + f];
            f += 1;
        }
        let mut castling = [0u64; 16];
        let mut c: usize = 0;
        while c < 16
            invariant
                c <= 16,
                keys.len() == KEY_COUNT,
                forall|x: int| 0 <= x < KEY_COUNT ==> #[trigger] keys[x] == key(x as nat),
                forall|d: int| 0 <= d < c ==> #[trigger] castling[d] == castling_key(d),
            decreases 16 - c,
        {
            castling[c] = keys[776 + c];
            c += 1;
        }
        Some(Zobrist { piece, enpassant, castling, color: keys[792] })
    }
}

} // verus!
