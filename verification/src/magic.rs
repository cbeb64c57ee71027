use vstd::prelude::*;
use crate::bitboard::{Bitboard, FILE_A, RANK_1};
use crate::bits::{bit, popcount, single};

verus! {

/// Number of entries of the bishop attack table.
pub const BISHOP_TABLE_SIZE: usize = 5248;

/// Number of entries of the rook attack table.
pub const ROOK_TABLE_SIZE: usize = 102400;

/// The most bits a relevant-occupancy mask may have for a table to be built.
pub const MAX_MASK_BITS: u32 = 24;

/// The squares of the first and the eighth rank.
pub const RANK_18: u64 = 0xff00_0000_0000_00ff;

/// The squares of the `A` and the `H` file.
pub const FILE_AH: u64 = 0x8181_8181_8181_8181;

/// The four directions of a bishop, each as change of rank and change of file.
pub const BISHOP_DELTA: [(i32, i32); 4] = [(-1, -1), (-1, 1), (1, -1), (1, 1)];

/// The four directions of a rook, each as change of rank and change of file.
pub const ROOK_DELTA: [(i32, i32); 4] = [(-1, 0), (0, -1), (0, 1), (1, 0)];

/// The multipliers of the bishop, one for each square.
pub const BISHOP_MAGICS: [u64; 64] = [
    0xffedf9fd7cfcffff, 0xfc0962854a77f576, 0x5822022042000000, 0x2ca804a100200020,
    0x0204042200000900, 0x2002121024000002, 0xfc0a66c64a7ef576, 0x7ffdfdfcbd79ffff,
    0xfc0846a64a34fff6, 0xfc087a874a3cf7f6, 0x1001080204002100, 0x1810080489021800,
    0x0062040420010a00, 0x5028043004300020, 0xfc0864ae59b4ff76, 0x3c0860af4b35ff76,
    0x73c01af56cf4cffb, 0x41a01cfad64aaffc, 0x040c0422080a0598, 0x4228020082004050,
    0x0200800400e00100, 0x020b001230021040, 0x7c0c028f5b34ff76, 0xfc0a028e5ab4df76,
    0x0020208050a42180, 0x001004804b280200, 0x2048020024040010, 0x0102c04004010200,
    0x020408204c002010, 0x02411100020080c1, 0x102a008084042100, 0x0941030000a09846,
    0x0244100800400200, 0x4000901010080696, 0x0000280404180020, 0x0800042008240100,
    0x0220008400088020, 0x04020182000904c9, 0x0023010400020600, 0x0041040020110302,
    0xdcefd9b54bfcc09f, 0xf95ffa765afd602b, 0x1401210240484800, 0x0022244208010080,
    0x1105040104000210, 0x2040088800c40081, 0x43ff9a5cf4ca0c01, 0x4bffcd8e7c587601,
    0xfc0ff2865334f576, 0xfc0bf6ce5924f576, 0x80000b0401040402, 0x0020004821880a00,
    0x8200002022440100, 0x0009431801010068, 0xc3ffb7dc36ca8c89, 0xc3ff8a54f4ca2c89,
    0xfffffcfcfd79edff, 0xfc0863fccb147576, 0x040c000022013020, 0x2000104000420600,
    0x0400000260142410, 0x0800633408100500, 0xfc087e8e4bb2f736, 0x43ff9e4ef4ca2c89,
];

/// The multipliers of the rook, one for each square.
pub const ROOK_MAGICS: [u64; 64] = [
    0xa180022080400230, 0x0040100040022000, 0x0080088020001002, 0x0080080280841000,
    0x4200042010460008, 0x04800a0003040080, 0x0400110082041008, 0x008000a041000880,
    0x10138001a080c010, 0x0000804008200480, 0x00010011012000c0, 0x0022004128102200,
    0x000200081201200c, 0x202a001048460004, 0x0081000100420004, 0x4000800380004500,
    0x0000208002904001, 0x0090004040026008, 0x0208808010002001, 0x2002020020704940,
    0x8048010008110005, 0x6820808004002200, 0x0a80040008023011, 0x00b1460000811044,
    0x4204400080008ea0, 0xb002400180200184, 0x2020200080100380, 0x0010080080100080,
    0x2204080080800400, 0x0000a40080360080, 0x02040604002810b1, 0x008c218600004104,
    0x8180004000402000, 0x488c402000401001, 0x4018a00080801004, 0x1230002105001008,
    0x8904800800800400, 0x0042000c42003810, 0x008408110400b012, 0x0018086182000401,
    0x2240088020c28000, 0x001001201040c004, 0x0a02008010420020, 0x0010003009010060,
    0x0004008008008014, 0x0080020004008080, 0x0282020001008080, 0x50000181204a0004,
    0x48fffe99fecfaa00, 0x48fffe99fecfaa00, 0x497fffadff9c2e00, 0x613fffddffce9200,
    0xffffffe9ffe7ce00, 0xfffffff5fff3e600, 0x0010301802830400, 0x510ffff5f63c96a0,
    0xebffffb9ff9fc526, 0x61fffeddfeedaeae, 0x53bfffedffdeb1a2, 0x127fffb9ffdfb5f6,
    0x411fffddffdbf4d6, 0x0801000804000603, 0x0003ffef27eebe74, 0x7645fffecbfea79e,
];

/// What a slider's lookup needs for one square: the squares whose occupancy
/// matters, the multiplier that spreads their patterns over the square's
/// part of the table, the shift that cuts the product down to an index into
/// that part, and where the part begins.
#[derive(Debug, Clone, Copy, PartialEq, Eq, Structural)]
pub struct Magic {
    pub mask: u64,
    pub magic: u64,
    pub shift: u32,
    pub offset: usize,
}

/// Whether a direction is a single step that moves: each part is -1, 0 or 1,
/// and not both are 0.
pub open spec fn step_ok(dr: int, df: int) -> bool {
    -1 <= dr <= 1 && -1 <= df <= 1 && (dr != 0 || df != 0)
}

/// Whether each of four directions is a single step that moves.
pub open spec fn delta_ok(delta: [(i32, i32); 4]) -> bool {
    forall|i: int| 0 <= i < 4 ==> step_ok(#[trigger] delta[i].0 as int, delta[i].1 as int)
}

/// How many steps lead from rank `r`, file `f` to the edge of the board.
pub open spec fn room(r: int, f: int, dr: int, df: int) -> int {
    if dr > 0 {
        7 - r
    } else if dr < 0 {
        r
    } else if df > 0 {
        7 - f
    } else {
        f
    }
}

/// The squares that a slider on rank `r`, file `f` attacks in one direction:
/// one square after the other up to the edge of the board, or up to the
/// first occupied square, which is attacked too.
pub open spec fn ray(r: int, f: int, dr: int, df: int, occ: u64) -> u64
    decreases room(r, f, dr, df),
{
    let r1 = r + dr;
    let f1 = f + df;
    if step_ok(dr, df) && 0 <= r < 8 && 0 <= f < 8 && 0 <= r1 < 8 && 0 <= f1 < 8 {
        let b = single(r1 * 8 + f1);
        if occ & b != 0 {
            b
        } else {
            b | ray(r1, f1, dr, df, occ)
        }
    } else {
        0
    }
}

/// The squares that a slider on square `a` attacks in the first `n` of its
/// directions.
pub open spec fn rays(a: int, occ: u64, delta: [(i32, i32); 4], n: int) -> u64
    decreases n,
{
    if n <= 0 {
        0
    } else {
        rays(a, occ, delta, n - 1) | ray(
            a / 8,
            a % 8,
            delta[n - 1].0 as int,
            delta[n - 1].1 as int,
            occ,
        )
    }
}

/// The squares that a slider on square `a` attacks when the squares of `occ`
/// are occupied.
pub open spec fn slider(a: int, occ: u64, delta: [(i32, i32); 4]) -> u64 {
    rays(a, occ, delta, 4)
}

/// The squares on the rim of the board that cannot block a slider on square
/// `a`: those of the outer ranks and files but for the rank and the file of
/// `a` itself.
pub open spec fn edge(a: int) -> u64 {
    (RANK_18 & !(RANK_1 << ((a / 8 * 8) as u64))) | (FILE_AH & !(FILE_A << ((a % 8) as u64)))
}

/// The squares whose occupancy decides what a slider on square `a` attacks.
pub open spec fn relevant(a: int, delta: [(i32, i32); 4]) -> u64 {
    slider(a, 0, delta) & !edge(a)
}

/// Number of table entries for a mask.
pub open spec fn part_size(mask: u64) -> int {
    (1u64 << (popcount(mask) as u64)) as int
}

/// Where the part of square `a` begins: after the parts of the squares
/// before it.
pub open spec fn part_offset(a: int, delta: [(i32, i32); 4]) -> int
    decreases a,
{
    if a <= 0 {
        0
    } else {
        part_offset(a - 1, delta) + part_size(relevant(a - 1, delta))
    }
}

/// Whether every mask has at least one bit and no more than a table can
/// serve.
pub open spec fn masks_fit(delta: [(i32, i32); 4]) -> bool {
    forall|a: int| 0 <= a < 64 ==> 1 <= popcount(#[trigger] relevant(a, delta)) <= MAX_MASK_BITS
}

/// Whether `table` holds, for each square, the mask, shift and offset that
/// belong to the directions `delta`.
pub open spec fn magics_ok(table: [Magic; 64], delta: [(i32, i32); 4]) -> bool {
    &&& masks_fit(delta)
    &&& forall|a: int|
        0 <= a < 64 ==> {
            &&& (#[trigger] table[a]).mask == relevant(a, delta)
            &&& table[a].shift == 64 - popcount(relevant(a, delta))
            &&& table[a].offset == part_offset(a, delta)
        }
}

/// The lookup data of square `a` for the directions `delta` and a
/// multiplier.
pub open spec fn magic_for(a: int, multiplier: u64, delta: [(i32, i32); 4]) -> Magic {
    Magic {
        mask: relevant(a, delta),
        magic: multiplier,
        shift: (64 - popcount(relevant(a, delta))) as u32,
        offset: part_offset(a, delta) as usize,
    }
}

/// Whether the multipliers serve the directions `delta`: the masks fit, the
/// table has `size` entries, and no two occupancies of a square that share
/// a table entry differ in what the slider attacks.
pub open spec fn multipliers_ok(multipliers: [u64; 64], delta: [(i32, i32); 4], size: int) -> bool {
    &&& masks_fit(delta)
    &&& table_size(delta) == size
    &&& forall|a: int, o1: u64, o2: u64|
        0 <= a < 64 && #[trigger] magic_for(a, multipliers[a], delta).slot(o1) == #[trigger] magic_for(
            a,
            multipliers[a],
            delta,
        ).slot(o2) ==> slider(a, o1 & relevant(a, delta), delta) == slider(
            a,
            o2 & relevant(a, delta),
            delta,
        )
}

/// Whether no two occupancies of a square that share a table entry differ in
/// what the slider attacks.
pub open spec fn collision_free(table: [Magic; 64], delta: [(i32, i32); 4]) -> bool {
    forall|a: int, o1: u64, o2: u64|
        0 <= a < 64 && #[trigger] table[a].slot(o1) == #[trigger] table[a].slot(o2) ==> slider(
            a,
            o1 & table[a].mask,
            delta,
        ) == slider(a, o2 & table[a].mask, delta)
}

/// Whether `attacks` answers every lookup through `table` with what the
/// slider attacks, given the occupancy of the relevant squares.
pub open spec fn lookups_ok(attacks: Seq<u64>, table: [Magic; 64], delta: [(i32, i32); 4]) -> bool {
    forall|a: int, occ: u64|
        0 <= a < 64 ==> {
            &&& 0 <= #[trigger] table[a].slot(occ) < attacks.len()
            &&& attacks[table[a].slot(occ)] == slider(a, occ & table[a].mask, delta)
        }
}

impl Magic {
    /// Whether the shift leaves an index of at least one bit, and the part
    /// of the table ends within the range of `usize`.
    pub open spec fn wf(self) -> bool {
        &&& 1 <= self.shift < 64
        &&& self.offset + (1u64 << ((64 - self.shift) as u64)) <= usize::MAX
    }

    /// The table entry for the occupancy `occ`.
    pub open spec fn slot(self, occ: u64) -> int {
        (vstd::wrapping::u64_specs::wrapping_mul(occ & self.mask, self.magic) >> (
        self.shift as u64)) + self.offset
    }

    /// The table entry for the occupancy `occupied`. It lies in the part of
    /// the table that belongs to this square.
    #[inline(always)]
    pub fn index(self, occupied: Bitboard) -> (r: usize)
        requires
            self.wf(),
        ensures
            r == self.slot(occupied.data),
            self.offset <= r < self.offset + (1u64 << ((64 - self.shift) as u64)),
    {
        let product = (occupied.value() & self.mask).wrapping_mul(self.magic);
        proof {
            bv_shift_bound(product, self.shift as u64);
        }
        (product >> self.shift) as usize + self.offset
    }
}

proof fn bv_shift_bound(x: u64, s: u64)
    by (bit_vector)
    requires
        1 <= s < 64,
    ensures
        (x >> s) < (1u64 << ((64 - s) as u64)),
{
}

proof fn bv_or(x: u64, b: u64, y: u64)
    by (bit_vector)
    ensures
        x | 0 == x,
        (x | b) | y == x | (b | y),
{
}

proof fn bv_size(k: u64)
    by (bit_vector)
    requires
        k <= 24,
    ensures
        1 <= (1u64 << k) <= 0x100_0000,
{
}

proof fn bv_subsets(s: u64, t: u64, m: u64)
    by (bit_vector)
    ensures
        (t & m) & !m == 0,
        (t & m) & m == t & m,
        t & !m == 0 ==> t <= m && t & m == t,
        0u64 & !m == 0,
        s & !m == 0 && t & !m == 0 && s < t ==> s < (vstd::wrapping::u64_specs::wrapping_sub(s, m)
            & m) <= t,
        s & !m == 0 && (vstd::wrapping::u64_specs::wrapping_sub(s, m) & m) == 0 ==> s == m,
        s & !m == 0 && (vstd::wrapping::u64_specs::wrapping_sub(s, m) & m) != 0 ==> s < (
        vstd::wrapping::u64_specs::wrapping_sub(s, m) & m) <= m,
        (vstd::wrapping::u64_specs::wrapping_sub(s, m) & m) & !m == 0,
{
}

/// The squares that a slider on `square` attacks when the squares of
/// `occupied` are occupied, found by walking each of the four directions.
pub fn slider_attacks(square: usize, occupied: u64, delta: [(i32, i32); 4]) -> (result: u64)
    requires
        square < 64,
        delta_ok(delta),
    ensures
        result == slider(square as int, occupied, delta),
{
    let mut result: u64 = 0;
    let mut i: usize = 0;
    while i < 4
        invariant
            i <= 4,
            square < 64,
            delta_ok(delta),
            result == rays(square as int, occupied, delta, i as int),
        decreases 4 - i,
    {
        let dr: i32 = delta[i].0;
        let df: i32 = delta[i].1;
        let mut rank: i32 = (square / 8) as i32;
        let mut file: i32 = (square % 8) as i32;
        let ghost before = result;
        let ghost whole = ray(rank as int, file as int, dr as int, df as int, occupied);
        loop
            invariant_except_break
                0 <= rank < 8,
                0 <= file < 8,
                result | ray(rank as int, file as int, dr as int, df as int, occupied) == before
                    | whole,
            invariant
                step_ok(dr as int, df as int),
            ensures
                result == before | whole,
            decreases room(rank as int, file as int, dr as int, df as int),
        {
            let ghost rest = ray(rank as int, file as int, dr as int, df as int, occupied);
            let ghost acc = result;
            rank += dr;
            file += df;
            if rank < 0 || file < 0 || rank > 7 || file > 7 {
                proof {
                    bv_or(result, 0, 0);
                }
                break ;
            }
            let bit: u64 = 1u64 << ((file + rank * 8) as u64);
            result |= bit;
            if occupied & bit != 0 {
                break ;
            }
            proof {
                bv_or(acc, bit, ray(rank as int, file as int, dr as int, df as int, occupied));
            }
        }
        i += 1;
    }
    result
}

/// A part of the table that comes later begins where an earlier one has
/// ended, or after that.
pub proof fn lemma_parts_apart(a: int, b: int, delta: [(i32, i32); 4])
    requires
        0 <= a < b <= 64,
    ensures
        part_offset(a, delta) + part_size(relevant(a, delta)) <= part_offset(b, delta),
        0 <= part_offset(a, delta),
    decreases b,
{
    if a > 0 {
        lemma_parts_apart(a - 1, a, delta);
    }
    if b > a + 1 {
        lemma_parts_apart(a, b - 1, delta);
    }
}

/// With masks that fit, the whole table has at most `64 * 2^24` entries.
pub proof fn lemma_parts_bound(a: int, delta: [(i32, i32); 4])
    requires
        0 <= a <= 64,
        masks_fit(delta),
    ensures
        0 <= part_offset(a, delta) <= a * 0x100_0000,
        a < 64 ==> 1 <= part_size(relevant(a, delta)) <= 0x100_0000,
    decreases a,
{
    if a > 0 {
        lemma_parts_bound(a - 1, delta);
        bv_size(popcount(relevant(a - 1, delta)) as u64);
    }
    if a < 64 {
        bv_size(popcount(relevant(a, delta)) as u64);
    }
}

/// The lookup data of a slider for every square: masks from the
/// directions, multipliers as given, offsets one after the other. `None` if a
/// mask is empty or has more bits than a table can serve.
pub fn magic_table(magics: [u64; 64], delta: [(i32, i32); 4]) -> (r: Option<[Magic; 64]>)
    requires
        delta_ok(delta),
    ensures
        r.is_some() == masks_fit(delta),
        r matches Some(table) ==> {
            &&& magics_ok(table, delta)
            &&& forall|a: int| 0 <= a < 64 ==> (#[trigger] table[a]).magic == magics[a]
            &&& forall|a: int| 0 <= a < 64 ==> (#[trigger] table[a]).wf()
        },
{
    let mut table = [Magic { mask: 0, magic: 0, shift: 0, offset: 0 }; 64];
    let mut offset: usize = 0;
    let mut square: usize = 0;
    while square < 64
        invariant
            square <= 64,
            delta_ok(delta),
            offset == part_offset(square as int, delta),
            forall|a: int|
                0 <= a < square ==> 1 <= popcount(#[trigger] relevant(a, delta)) <= MAX_MASK_BITS,
            forall|a: int|
                0 <= a < square ==> {
                    &&& (#[trigger] table[a]).mask == relevant(a, delta)
                    &&& table[a].magic == magics[a]
                    &&& table[a].shift == 64 - popcount(relevant(a, delta))
                    &&& table[a].offset == part_offset(a, delta)
                    &&& table[a].wf()
                },
            offset <= square * 0x100_0000,
        decreases 64 - square,
    {
        let rank_mask: u64 = RANK_1 << ((square / 8 * 8) as u64);
        let file_mask: u64 = FILE_A << ((square % 8) as u64);
        let edge_mask: u64 = (RANK_18 & !rank_mask) | (FILE_AH & !file_mask);
        let mask: u64 = slider_attacks(square, 0, delta) & !edge_mask;
        let bits: u32 = mask.count_ones();
        if bits < 1 || bits > MAX_MASK_BITS {
            assert(!(1 <= popcount(relevant(square as int, delta)) <= MAX_MASK_BITS));
            return None;
        }
        proof {
            bv_size(bits as u64);
        }
        let size: usize = 1usize << bits;
        assert(size == part_size(mask)) by {
            assert((1usize << bits) == (1u64 << (bits as u64))) by (bit_vector)
                requires
                    bits <= 24,
            ;
        }
        table[square] = Magic { mask, magic: magics[square], shift: 64 - bits, offset };
        offset = offset + size;
        square += 1;
    }
    Some(table)
}

/// The lookup data of the bishop.
pub fn bishop_magic_table() -> (r: Option<[Magic; 64]>)
    ensures
        r.is_some() == masks_fit(BISHOP_DELTA),
        r matches Some(table) ==> {
            &&& magics_ok(table, BISHOP_DELTA)
            &&& forall|a: int| 0 <= a < 64 ==> (#[trigger] table[a]).magic == BISHOP_MAGICS[a]
            &&& forall|a: int| 0 <= a < 64 ==> (#[trigger] table[a]).wf()
        },
{
    magic_table(BISHOP_MAGICS, BISHOP_DELTA)
}

/// The lookup data of the rook.
pub fn rook_magic_table() -> (r: Option<[Magic; 64]>)
    ensures
        r.is_some() == masks_fit(ROOK_DELTA),
        r matches Some(table) ==> {
            &&& magics_ok(table, ROOK_DELTA)
            &&& forall|a: int| 0 <= a < 64 ==> (#[trigger] table[a]).magic == ROOK_MAGICS[a]
            &&& forall|a: int| 0 <= a < 64 ==> (#[trigger] table[a]).wf()
        },
{
    magic_table(ROOK_MAGICS, ROOK_DELTA)
}

/// Whether no lookup leads to entry `k` of the table.
pub open spec fn unused(table: [Magic; 64], k: int) -> bool {
    forall|a: int, occ: u64| 0 <= a < 64 ==> #[trigger] table[a].slot(occ) != k
}

/// Number of entries of the whole table for the directions `delta`.
pub open spec fn table_size(delta: [(i32, i32); 4]) -> int {
    part_offset(64, delta)
}

/// The attack table of a slider, filled through its lookup data: for every
/// square and every occupancy of its relevant squares, the entry that the
/// lookup leads to holds what the slider attacks. `None` if `SIZE` is not the
/// number of entries that the masks ask for, or if two occupancies of a
/// square that share an entry differ in what the slider attacks.
pub fn slider_table<const SIZE: usize>(magics: &[Magic; 64], delta: [(i32, i32); 4]) -> (r: Option<
    Vec<u64>,
>)
    requires
        delta_ok(delta),
        magics_ok(*magics, delta),
    ensures
        r.is_some() == (SIZE == table_size(delta) && collision_free(*magics, delta)),
        r matches Some(table) ==> table.len() == SIZE && lookups_ok(table@, *magics, delta),
        r matches Some(table) ==> forall|k: int|
            0 <= k < SIZE && unused(*magics, k) ==> #[trigger] table[k] == 0,
{
    let last = magics[63];
    let bits: u32 = last.mask.count_ones();
    proof {
        lemma_parts_bound(63, delta);
        lemma_parts_bound(64, delta);
        bv_size(bits as u64);
        assert((1usize << bits) == (1u64 << (bits as u64))) by (bit_vector)
            requires
                bits <= 24,
        ;
    }
    let total: usize = last.offset + (1usize << bits);
    if total != SIZE {
        return None;
    }
    let mut table: Vec<u64> = Vec::new();
    let mut seen: Vec<bool> = Vec::new();
    let mut n: usize = 0;
    while n < SIZE
        invariant
            n <= SIZE,
            table.len() == n,
            seen.len() == n,
            forall|k: int| 0 <= k < n ==> !#[trigger] seen[k],
            forall|k: int| 0 <= k < n ==> #[trigger] table[k] == 0,
        decreases SIZE - n,
    {
        table.push(0);
        seen.push(false);
        n += 1;
    }
    let ghost mut source: Seq<u64> = Seq::new(SIZE as nat, |k: int| 0u64);
    let ghost mut owner: Seq<int> = Seq::new(SIZE as nat, |k: int| 0int);
    let mut square: usize = 0;
    while square < 64
        invariant
            square <= 64,
            owner.len() == SIZE,
            forall|k: int| 0 <= k < SIZE && !seen[k] ==> #[trigger] table[k] == 0,
            forall|k: int|
                0 <= k < SIZE && #[trigger] seen[k] ==> 0 <= owner[k] < 64 && magics[owner[k]].slot(
                    source[k],
                ) == k,
            delta_ok(delta),
            magics_ok(*magics, delta),
            SIZE == table_size(delta),
            table.len() == SIZE,
            seen.len() == SIZE,
            source.len() == SIZE,
            forall|k: int|
                part_offset(square as int, delta) <= k < SIZE ==> !#[trigger] seen[k],
            forall|a: int, occ: u64|
                0 <= a < square ==> {
                    &&& 0 <= #[trigger] magics[a].slot(occ) < part_offset(square as int, delta)
                    &&& table[magics[a].slot(occ)] == slider(a, occ & magics[a].mask, delta)
                },
        decreases 64 - square,
    {
        let magic = magics[square];
        let ghost sq = square as int;
        let ghost lo = part_offset(sq, delta);
        let ghost hi = lo + part_size(magic.mask);
        proof {
            lemma_parts_bound(sq, delta);
            lemma_parts_apart(sq, 64, delta);
            bv_size(popcount(magic.mask) as u64);
            assert((1u64 << ((64 - magic.shift) as u64)) == part_size(magic.mask));
            assert(magic.wf());
            bv_subsets(0, 0, magic.mask);
        }
        let mut occupied: u64 = 0;
        let ghost mut done = false;
        loop
            invariant_except_break
                !done,
                occupied & !magic.mask == 0,
            invariant
                square < 64,
                sq == square,
                owner.len() == SIZE,
                forall|k: int| 0 <= k < SIZE && !seen[k] ==> #[trigger] table[k] == 0,
                forall|k: int|
                    0 <= k < SIZE && #[trigger] seen[k] ==> 0 <= owner[k] < 64
                        && magics[owner[k]].slot(source[k]) == k,
                magic == magics[sq],
                magic.wf(),
                delta_ok(delta),
                magics_ok(*magics, delta),
                lo == part_offset(sq, delta),
                hi == lo + part_size(magic.mask),
                (1u64 << ((64 - magic.shift) as u64)) == part_size(magic.mask),
                0 <= lo,
                hi <= SIZE,
                table.len() == SIZE,
                seen.len() == SIZE,
                source.len() == SIZE,
                forall|k: int| hi <= k < SIZE ==> !#[trigger] seen[k],
                forall|k: int|
                    lo <= k < hi && #[trigger] seen[k] ==> {
                        &&& magic.slot(source[k]) == k
                        &&& table[k] == slider(sq, source[k] & magic.mask, delta)
                    },
                forall|a: int, occ: u64|
                    0 <= a < square ==> {
                        &&& 0 <= #[trigger] magics[a].slot(occ) < lo
                        &&& table[magics[a].slot(occ)] == slider(a, occ & magics[a].mask, delta)
                    },
                forall|t: u64|
                    t & !magic.mask == 0 && (done || t < occupied) ==> {
                        &&& lo <= #[trigger] magic.slot(t) < hi
                        &&& seen[magic.slot(t)]
                        &&& table[magic.slot(t)] == slider(sq, t, delta)
                    },
            ensures
                done,
            decreases magic.mask - occupied,
        {
            let index = magic.index(Bitboard::from_raw(occupied));
            let attacks = slider_attacks(square, occupied, delta);
            proof {
                bv_subsets(occupied, occupied, magic.mask);
            }
            if seen[index] {
                if table[index] != attacks {
                    proof {
                        let other = source[index as int];
                        assert(magics[sq].slot(other) == magics[sq].slot(occupied));
                        assert(slider(sq, other & magics[sq].mask, delta) != slider(
                            sq,
                            occupied & magics[sq].mask,
                            delta,
                        ));
                    }
                    return None;
                }
            } else {
                table.set(index, attacks);
                seen.set(index, true);
                proof {
                    source = source.update(index as int, occupied);
                    owner = owner.update(index as int, sq);
                }
            }
            let ghost current = occupied;
            occupied = occupied.wrapping_sub(magic.mask) & magic.mask;
            proof {
                bv_subsets(current, magic.mask, magic.mask);
                assert forall|t: u64|
                    t & !magic.mask == 0 && (occupied == 0 || t < occupied) implies {
                    &&& lo <= #[trigger] magic.slot(t) < hi
                    &&& seen[magic.slot(t)]
                    &&& table[magic.slot(t)] == slider(sq, t, delta)
                } by {
                    bv_subsets(current, t, magic.mask);
                    bv_shift_bound(
                        vstd::wrapping::u64_specs::wrapping_mul(t & magic.mask, magic.magic),
                        magic.shift as u64,
                    );
                    if t < current {
                        assert(seen[magic.slot(t)]);
                    } else if t == current {
                        assert(magic.slot(t) == index);
                    } else {
                        assert(occupied == 0);
                        assert(current == magic.mask);
                    }
                }
            }
            if occupied == 0 {
                proof {
                    done = true;
                }
                break ;
            }
        }
        proof {
            lemma_parts_apart(sq, sq + 1, delta);
            assert forall|a: int, occ: u64| 0 <= a < square + 1 implies {
                &&& 0 <= #[trigger] magics[a].slot(occ) < part_offset(square + 1, delta)
                &&& table[magics[a].slot(occ)] == slider(a, occ & magics[a].mask, delta)
            } by {
                if a == square {
                    bv_subsets(occ, occ, magic.mask);
                    let t = occ & magic.mask;
                    assert(magic.slot(t) == magic.slot(occ));
                    bv_shift_bound(
                        vstd::wrapping::u64_specs::wrapping_mul(occ & magic.mask, magic.magic),
                        magic.shift as u64,
                    );
                }
            }
        }
        square += 1;
    }
    proof {
        assert forall|a: int, o1: u64, o2: u64|
            0 <= a < 64 && #[trigger] magics[a].slot(o1) == #[trigger] magics[a].slot(
                o2,
            ) implies slider(a, o1 & magics[a].mask, delta) == slider(
            a,
            o2 & magics[a].mask,
            delta,
        ) by {}
        assert forall|k: int| 0 <= k < SIZE && unused(*magics, k) implies #[trigger] table[k]
            == 0 by {
            if seen[k] {
                assert(magics[owner[k]].slot(source[k]) == k);
            }
        }
    }
    Some(table)
}

/// The attack table of the bishop for the lookup data `magics`.
pub fn bishop_table(magics: &[Magic; 64]) -> (r: Option<Vec<u64>>)
    requires
        magics_ok(*magics, BISHOP_DELTA),
    ensures
        r.is_some() == (BISHOP_TABLE_SIZE == table_size(BISHOP_DELTA) && collision_free(
            *magics,
            BISHOP_DELTA,
        )),
        r matches Some(table) ==> table.len() == BISHOP_TABLE_SIZE && lookups_ok(
            table@,
            *magics,
            BISHOP_DELTA,
        ),
        r matches Some(table) ==> forall|k: int|
            0 <= k < BISHOP_TABLE_SIZE && unused(*magics, k) ==> #[trigger] table[k] == 0,
{
    slider_table::<BISHOP_TABLE_SIZE>(magics, BISHOP_DELTA)
}

/// The attack table of the rook for the lookup data `magics`.
pub fn rook_table(magics: &[Magic; 64]) -> (r: Option<Vec<u64>>)
    requires
        magics_ok(*magics, ROOK_DELTA),
    ensures
        r.is_some() == (ROOK_TABLE_SIZE == table_size(ROOK_DELTA) && collision_free(
            *magics,
            ROOK_DELTA,
        )),
        r matches Some(table) ==> table.len() == ROOK_TABLE_SIZE && lookups_ok(
            table@,
            *magics,
            ROOK_DELTA,
        ),
        r matches Some(table) ==> forall|k: int|
            0 <= k < ROOK_TABLE_SIZE && unused(*magics, k) ==> #[trigger] table[k] == 0,
{
    slider_table::<ROOK_TABLE_SIZE>(magics, ROOK_DELTA)
}

/// A table of lookup data that belongs to its multipliers is free of
/// collisions exactly if the multipliers are.
pub proof fn lemma_collision_free(
    table: [Magic; 64],
    multipliers: [u64; 64],
    delta: [(i32, i32); 4],
    size: int,
)
    requires
        magics_ok(table, delta),
        forall|a: int| 0 <= a < 64 ==> (#[trigger] table[a]).magic == multipliers[a],
    ensures
        multipliers_ok(multipliers, delta, size) == (size == table_size(delta) && collision_free(
            table,
            delta,
        )),
{
    lemma_parts_bound(64, delta);
    assert forall|a: int| 0 <= a < 64 implies #[trigger] table[a] == magic_for(
        a,
        multipliers[a],
        delta,
    ) by {
        lemma_parts_bound(a, delta);
        lemma_parts_apart(a, 64, delta);
    }
    if size == table_size(delta) && collision_free(table, delta) {
        assert forall|a: int, o1: u64, o2: u64|
            0 <= a < 64 && #[trigger] magic_for(a, multipliers[a], delta).slot(o1)
                == #[trigger] magic_for(a, multipliers[a], delta).slot(o2) implies slider(
            a,
            o1 & relevant(a, delta),
            delta,
        ) == slider(a, o2 & relevant(a, delta), delta) by {
            assert(table[a].slot(o1) == table[a].slot(o2));
        }
    }
    if multipliers_ok(multipliers, delta, size) {
        assert forall|a: int, o1: u64, o2: u64|
            0 <= a < 64 && #[trigger] table[a].slot(o1) == #[trigger] table[a].slot(
                o2,
            ) implies slider(a, o1 & table[a].mask, delta) == slider(
            a,
            o2 & table[a].mask,
            delta,
        ) by {
            assert(magic_for(a, multipliers[a], delta).slot(o1) == magic_for(
                a,
                multipliers[a],
                delta,
            ).slot(o2));
        }
    }
}

/// Whether the mask `m` holds every square ahead of rank `r`, file `f` in
/// a direction, but for the last one before the edge.
pub open spec fn covers(m: u64, r: int, f: int, dr: int, df: int) -> bool
    decreases room(r, f, dr, df),
{
    let r1 = r + dr;
    let f1 = f + df;
    if step_ok(dr, df) && 0 <= r < 8 && 0 <= f < 8 && 0 <= r1 < 8 && 0 <= f1 < 8 {
        &&& (0 <= r1 + dr < 8 && 0 <= f1 + df < 8 ==> bit(m, r1 * 8 + f1))
        &&& covers(m, r1, f1, dr, df)
    } else {
        true
    }
}

proof fn bv_masked(occ: u64, m: u64, i: u64)
    by (bit_vector)
    requires
        i < 64,
    ensures
        (m >> i) & 1 == 1 ==> ((occ & m) & (1u64 << i) != 0) == (occ & (1u64 << i) != 0),
        0u64 & (1u64 << i) == 0,
        (1u64 << i) | 0 == (1u64 << i),
{
}

proof fn bv_edge(a: u64, s: u64)
    by (bit_vector)
    requires
        a < 64,
        s < 64,
    ensures
        ((((0xff00_0000_0000_00ffu64 & !(0xffu64 << ((a / 8 * 8) as u64))) | (
        0x8181_8181_8181_8181u64 & !(0x0101_0101_0101_0101u64 << ((a % 8) as u64)))) >> s) & 1
            == 1) == (((s / 8 == 0 || s / 8 == 7) && s / 8 != a / 8) || ((s % 8 == 0 || s % 8
            == 7) && s % 8 != a % 8)),
{
}

/// A walk that only squares of a mask can stop goes the same way whether
/// the other squares are occupied or not.
pub proof fn lemma_ray_masked(r: int, f: int, dr: int, df: int, occ: u64, m: u64)
    requires
        covers(m, r, f, dr, df),
    ensures
        ray(r, f, dr, df, occ & m) == ray(r, f, dr, df, occ),
    decreases room(r, f, dr, df),
{
    let r1 = r + dr;
    let f1 = f + df;
    if step_ok(dr, df) && 0 <= r < 8 && 0 <= f < 8 && 0 <= r1 < 8 && 0 <= f1 < 8 {
        lemma_ray_masked(r1, f1, dr, df, occ, m);
        bv_masked(occ, m, (r1 * 8 + f1) as u64);
        if 0 <= r1 + dr < 8 && 0 <= f1 + df < 8 {
        } else {
            assert(ray(r1, f1, dr, df, occ) == 0);
            assert(ray(r1, f1, dr, df, occ & m) == 0);
        }
    }
}

/// On an empty board the walk from a square further along a line is part
/// of the walk from a square before it.
proof fn lemma_ray_tail(r: int, f: int, dr: int, df: int, i: int)
    requires
        step_ok(dr, df),
        0 <= r < 8,
        0 <= f < 8,
        0 <= r + dr < 8,
        0 <= f + df < 8,
        0 <= i < 64,
    ensures
        bit(ray(r, f, dr, df, 0), i) == (i == (r + dr) * 8 + f + df || bit(
            ray(r + dr, f + df, dr, df, 0),
            i,
        )),
{
    let s = (r + dr) * 8 + f + df;
    bv_masked(0, 0, s as u64);
    crate::bits::lemma_bit_or(single(s), ray(r + dr, f + df, dr, df, 0), i);
    crate::bits::lemma_bit_single(s, i);
}

/// A square that the slider attacks on an empty board and that does not lie
/// on the rim, or lies there on the slider's own rank or file, is one of the
/// slider's relevant squares.
proof fn lemma_relevant_square(a: int, delta: [(i32, i32); 4], s: int)
    requires
        0 <= a < 64,
        0 <= s < 64,
        bit(slider(a, 0, delta), s),
        (1 <= s / 8 <= 6) || s / 8 == a / 8,
        (1 <= s % 8 <= 6) || s % 8 == a % 8,
    ensures
        bit(relevant(a, delta), s),
{
    bv_edge(a as u64, s as u64);
    crate::bits::lemma_bit_and(slider(a, 0, delta), !edge(a), s);
    crate::bits::lemma_bit_not(edge(a), s);
}

/// The mask of a square covers each of the slider's walks from it. The
/// walk is followed from the square itself to rank `r`, file `f`, which
/// lies on it.
#[verifier::rlimit(30)]
proof fn lemma_relevant_covers(a: int, delta: [(i32, i32); 4], n: int, r: int, f: int)
    requires
        0 <= a < 64,
        delta_ok(delta),
        0 <= n < 4,
        0 <= r < 8,
        0 <= f < 8,
        delta[n].0 == 1 ==> r >= a / 8,
        delta[n].0 == -1 ==> r <= a / 8,
        delta[n].0 == 0 ==> r == a / 8,
        delta[n].1 == 1 ==> f >= a % 8,
        delta[n].1 == -1 ==> f <= a % 8,
        delta[n].1 == 0 ==> f == a % 8,
        forall|i: int|
            0 <= i < 64 && bit(ray(r, f, delta[n].0 as int, delta[n].1 as int, 0), i) ==> bit(
                slider(a, 0, delta),
                i,
            ),
    ensures
        covers(relevant(a, delta), r, f, delta[n].0 as int, delta[n].1 as int),
    decreases room(r, f, delta[n].0 as int, delta[n].1 as int),
{
    let dr = delta[n].0 as int;
    let df = delta[n].1 as int;
    let r1 = r + dr;
    let f1 = f + df;
    if 0 <= r1 < 8 && 0 <= f1 < 8 {
        let s = r1 * 8 + f1;
        assert forall|i: int| 0 <= i < 64 && bit(ray(r1, f1, dr, df, 0), i) implies bit(
            slider(a, 0, delta),
            i,
        ) by {
            lemma_ray_tail(r, f, dr, df, i);
        }
        lemma_relevant_covers(a, delta, n, r1, f1);
        if 0 <= r1 + dr < 8 && 0 <= f1 + df < 8 {
            lemma_ray_tail(r, f, dr, df, s);
            assert(bit(ray(r, f, dr, df, 0), s));
            assert(s / 8 == r1 && s % 8 == f1);
            lemma_relevant_square(a, delta, s);
        }
    }
}

/// The squares of one of the slider's walks are squares that the slider
/// attacks.
proof fn lemma_ray_in_slider(a: int, occ: u64, delta: [(i32, i32); 4], n: int, i: int)
    requires
        0 <= n < 4,
        0 <= i < 64,
        bit(ray(a / 8, a % 8, delta[n].0 as int, delta[n].1 as int, occ), i),
    ensures
        bit(slider(a, occ, delta), i),
{
    reveal_with_fuel(rays, 5);
    let r0 = ray(a / 8, a % 8, delta[0].0 as int, delta[0].1 as int, occ);
    let r1 = ray(a / 8, a % 8, delta[1].0 as int, delta[1].1 as int, occ);
    let r2 = ray(a / 8, a % 8, delta[2].0 as int, delta[2].1 as int, occ);
    let r3 = ray(a / 8, a % 8, delta[3].0 as int, delta[3].1 as int, occ);
    crate::bits::lemma_bit_or(0, r0, i);
    crate::bits::lemma_bit_or(0 | r0, r1, i);
    crate::bits::lemma_bit_or((0 | r0) | r1, r2, i);
    crate::bits::lemma_bit_or(((0 | r0) | r1) | r2, r3, i);
}

/// What a slider attacks depends on the occupancy of its relevant squares
/// alone: a lookup, which sees no other square, gives what the walk over
/// the whole board gives.
pub proof fn lemma_slider_masked(a: int, occ: u64, delta: [(i32, i32); 4])
    requires
        0 <= a < 64,
        delta_ok(delta),
    ensures
        slider(a, occ & relevant(a, delta), delta) == slider(a, occ, delta),
{
    reveal_with_fuel(rays, 5);
    let m = relevant(a, delta);
    assert forall|n: int| 0 <= n < 4 implies ray(
        a / 8,
        a % 8,
        delta[n].0 as int,
        delta[n].1 as int,
        occ & m,
    ) == ray(a / 8, a % 8, delta[n].0 as int, delta[n].1 as int, occ) by {
        assert forall|i: int|
            0 <= i < 64 && bit(
                ray(a / 8, a % 8, delta[n].0 as int, delta[n].1 as int, 0),
                i,
            ) implies bit(slider(a, 0, delta), i) by {
            lemma_ray_in_slider(a, 0, delta, n, i);
        }
        lemma_relevant_covers(a, delta, n, a / 8, a % 8);
        lemma_ray_masked(a / 8, a % 8, delta[n].0 as int, delta[n].1 as int, occ, m);
    }
}

} // verus!
