use vstd::prelude::*;
use crate::bits::{bit, lemma_bit_or, lemma_bit_single, lemma_bit_zero, single};
use crate::bitboard::lemma_line_bits;

verus! {

/// Whether squares `a` and `b` lie on one diagonal, and `s` on it too.
pub open spec fn on_diagonal(a: int, b: int, s: int) -> bool {
    &&& vstd::math::abs(a % 8 - b % 8) == vstd::math::abs(a / 8 - b / 8)
    &&& if (a / 8 < b / 8) == (a % 8 < b % 8) {
        s / 8 - a / 8 == s % 8 - a % 8
    } else {
        s / 8 - a / 8 == a % 8 - s % 8
    }
}

/// Whether square `s` lies strictly inside the stretch of rank, file or
/// diagonal that joins the squares `a` and `b`. No square does if `a` and `b`
/// are one square, or share no such line.
pub open spec fn between_has(a: int, b: int, s: int) -> bool {
    &&& a != b
    &&& {
        ||| a / 8 == b / 8 && s / 8 == a / 8 && (a % 8 < s % 8 < b % 8 || b % 8 < s % 8 < a % 8)
        ||| a % 8 == b % 8 && s % 8 == a % 8 && (a / 8 < s / 8 < b / 8 || b / 8 < s / 8 < a / 8)
        ||| on_diagonal(a, b, s) && (a / 8 < s / 8 < b / 8 || b / 8 < s / 8 < a / 8)
    }
}

/// Whether square `s` lies on the rank, file or diagonal through the squares
/// `a` and `b`, taken from edge to edge. No square does if `a` and `b` are
/// one square, or share no such line.
pub open spec fn line_has(a: int, b: int, s: int) -> bool {
    &&& a != b
    &&& {
        ||| a / 8 == b / 8 && s / 8 == a / 8
        ||| a % 8 == b % 8 && s % 8 == a % 8
        ||| on_diagonal(a, b, s)
    }
}

/// How many steps along the diagonal from `a` towards `b` lead to the rank
/// of `s`; negative if that rank lies behind `a`.
pub open spec fn diagonal_steps(a: int, b: int, s: int) -> int {
    if a / 8 < b / 8 {
        s / 8 - a / 8
    } else {
        a / 8 - s / 8
    }
}

/// `k` steps in the direction `delta`, which is 1 or -1.
pub open spec fn toward(delta: i32, k: int) -> int {
    if delta == 1 {
        k
    } else {
        -k
    }
}

/// The square `k` steps from `a` along the diagonal towards `b` is the one
/// square of that diagonal that is `k` steps away.
proof fn lemma_diagonal_square(a: int, b: int, k: int, s: int)
    requires
        0 <= a < 64,
        0 <= b < 64,
        0 <= s < 64,
        a / 8 != b / 8,
        a % 8 != b % 8,
        vstd::math::abs(a % 8 - b % 8) == vstd::math::abs(a / 8 - b / 8),
        0 <= a / 8 + (if a / 8 < b / 8 {
            k
        } else {
            -k
        }) < 8,
        0 <= a % 8 + (if a % 8 < b % 8 {
            k
        } else {
            -k
        }) < 8,
    ensures
        (s == (a / 8 + (if a / 8 < b / 8 {
            k
        } else {
            -k
        })) * 8 + a % 8 + (if a % 8 < b % 8 {
            k
        } else {
            -k
        })) == (on_diagonal(a, b, s) && diagonal_steps(a, b, s) == k),
{
}

/// Whether a word holds the squares strictly between `a` and `b`.
pub open spec fn is_between(mask: u64, a: int, b: int) -> bool {
    forall|s: int| 0 <= s < 64 ==> #[trigger] bit(mask, s) == between_has(a, b, s)
}

/// Whether a word holds the squares of the line through `a` and `b`.
pub open spec fn is_line(mask: u64, a: int, b: int) -> bool {
    forall|s: int| 0 <= s < 64 ==> #[trigger] bit(mask, s) == line_has(a, b, s)
}

/// Adding one square to a set.
proof fn lemma_add_square(mask: u64, k: int)
    requires
        0 <= k < 64,
    ensures
        forall|s: int| 0 <= s < 64 ==> #[trigger] bit(mask | single(k), s) == (bit(mask, s) || s == k),
{
    assert forall|s: int| 0 <= s < 64 implies #[trigger] bit(mask | single(k), s) == (bit(mask, s)
        || s == k) by {
        lemma_bit_or(mask, single(k), s);
        lemma_bit_single(k, s);
    }
}

/// The empty set.
proof fn lemma_no_square()
    ensures
        forall|s: int| 0 <= s < 64 ==> !#[trigger] bit(0, s),
{
    assert forall|s: int| 0 <= s < 64 implies !#[trigger] bit(0, s) by {
        lemma_bit_zero(s);
    }
}

fn file(square: i32) -> (r: i32)
    requires
        0 <= square < 64,
    ensures
        r == square % 8,
{
    square % 8
}

fn rank(square: i32) -> (r: i32)
    requires
        0 <= square < 64,
    ensures
        r == square / 8,
{
    square / 8
}

fn square(rank: i32, file: i32) -> (r: i32)
    requires
        0 <= rank < 8,
        0 <= file < 8,
    ensures
        r == rank * 8 + file,
        0 <= r < 64,
{
    rank * 8 + file
}

fn distance(x: i32, y: i32) -> (r: i32)
    requires
        0 <= x < 8,
        0 <= y < 8,
    ensures
        r == vstd::math::abs(x - y),
{
    if x < y {
        y - x
    } else {
        x - y
    }
}

/// The squares strictly between `a` and `b`.
pub fn between_mask(a: i32, b: i32) -> (mask: u64)
    requires
        0 <= a < 64,
        0 <= b < 64,
    ensures
        is_between(mask, a as int, b as int),
{
    let mut mask: u64 = 0;
    proof {
        lemma_no_square();
    }
    if a == b {
        return mask;
    }
    let ra = rank(a);
    let rb = rank(b);
    let fa = file(a);
    let fb = file(b);
    if ra == rb {
        let lo = if fa < fb {
            fa
        } else {
            fb
        };
        let hi = if fa < fb {
            fb
        } else {
            fa
        };
        let mut i = lo + 1;
        while i < hi
            invariant
                0 <= lo < i <= hi < 8,
                0 <= ra < 8,
                forall|s: int|
                    0 <= s < 64 ==> #[trigger] bit(mask, s) == (s / 8 == ra && lo < s % 8 < i),
            decreases hi - i,
        {
            let ghost before = mask;
            mask |= 1u64 << (square(ra, i) as u64);
            proof {
                lemma_add_square(before, ra * 8 + i);
                assert(mask == before | single(ra * 8 + i));
                assert forall|s: int| 0 <= s < 64 implies #[trigger] bit(mask, s) == (s / 8 == ra
                    && lo < s % 8 < i + 1) by {
                    assert(bit(mask, s) == (bit(before, s) || s == ra * 8 + i));
                }
            }
            i += 1;
        }
    } else if fa == fb {
        let lo = if ra < rb {
            ra
        } else {
            rb
        };
        let hi = if ra < rb {
            rb
        } else {
            ra
        };
        let mut i = lo + 1;
        while i < hi
            invariant
                0 <= lo < i <= hi < 8,
                0 <= fa < 8,
                forall|s: int|
                    0 <= s < 64 ==> #[trigger] bit(mask, s) == (s % 8 == fa && lo < s / 8 < i),
            decreases hi - i,
        {
            let ghost before = mask;
            mask |= 1u64 << (square(i, fa) as u64);
            proof {
                lemma_add_square(before, i * 8 + fa);
                assert(mask == before | single(i * 8 + fa));
                assert forall|s: int| 0 <= s < 64 implies #[trigger] bit(mask, s) == (s % 8 == fa
                    && lo < s / 8 < i + 1) by {
                    assert(bit(mask, s) == (bit(before, s) || s == i * 8 + fa));
                }
            }
            i += 1;
        }
    } else if distance(fa, fb) == distance(ra, rb) {
        let mut r = ra;
        let mut f = fa;
        let delta_r: i32 = if ra < rb {
            1
        } else {
            -1
        };
        let delta_f: i32 = if fa < fb {
            1
        } else {
            -1
        };
        let ghost n = vstd::math::abs(ra - rb);
        let ghost mut k: int = 0;
        loop
            invariant_except_break
                0 <= k < n,
                r == ra + toward(delta_r, k),
                f == fa + toward(delta_f, k),
                forall|s: int|
                    0 <= s < 64 ==> #[trigger] bit(mask, s) == (on_diagonal(a as int, b as int, s)
                        && 0 < diagonal_steps(a as int, b as int, s) <= k),
            invariant
                0 <= a < 64,
                0 <= b < 64,
                ra == a / 8,
                rb == b / 8,
                fa == a % 8,
                fb == b % 8,
                ra != rb,
                fa != fb,
                vstd::math::abs(fa - fb) == vstd::math::abs(ra - rb),
                delta_r == (if ra < rb {
                    1i32
                } else {
                    -1i32
                }),
                delta_f == (if fa < fb {
                    1i32
                } else {
                    -1i32
                }),
                n == vstd::math::abs(ra - rb),
            ensures
                is_between(mask, a as int, b as int),
            decreases n - k,
        {
            r += delta_r;
            f += delta_f;
            proof {
                k = k + 1;
            }
            if r == rb || f == fb {
                break ;
            }
            let ghost before = mask;
            mask |= 1u64 << (square(r, f) as u64);
            proof {
                lemma_add_square(before, r * 8 + f);
                assert(mask == before | single(r * 8 + f));
                assert forall|s: int| 0 <= s < 64 implies #[trigger] bit(mask, s) == (on_diagonal(
                    a as int,
                    b as int,
                    s,
                ) && 0 < diagonal_steps(a as int, b as int, s) <= k) by {
                    assert(bit(mask, s) == (bit(before, s) || s == r * 8 + f));
                    lemma_diagonal_square(a as int, b as int, k, s);
                }
            }
        }
    }
    mask
}

/// The squares of the line through `a` and `b`.
pub fn line_mask(a: i32, b: i32) -> (mask: u64)
    requires
        0 <= a < 64,
        0 <= b < 64,
    ensures
        is_line(mask, a as int, b as int),
{
    let mut mask: u64 = 0;
    proof {
        lemma_no_square();
    }
    if a == b {
        return mask;
    }
    let ra = rank(a);
    let rb = rank(b);
    let fa = file(a);
    let fb = file(b);
    if ra == rb {
        mask = 0xffu64 << ((ra * 8) as u64);
        proof {
            assert forall|s: int| 0 <= s < 64 implies #[trigger] bit(mask, s) == line_has(
                a as int,
                b as int,
                s,
            ) by {
                lemma_line_bits(ra as int, 0, s);
            }
        }
    } else if fa == fb {
        mask = 0x0101_0101_0101_0101u64 << (fa as u64);
        proof {
            assert forall|s: int| 0 <= s < 64 implies #[trigger] bit(mask, s) == line_has(
                a as int,
                b as int,
                s,
            ) by {
                lemma_line_bits(0, fa as int, s);
            }
        }
    } else if distance(fa, fb) == distance(ra, rb) {
        mask |= 1u64 << (a as u64);
        mask |= 1u64 << (b as u64);
        proof {
            lemma_add_square(0, a as int);
            lemma_add_square(0 | single(a as int), b as int);
            assert(mask == (0 | single(a as int)) | single(b as int));
            assert forall|s: int| 0 <= s < 64 implies #[trigger] bit(mask, s) == (s == a || s
                == b) by {
                assert(bit(mask, s) == (bit(0 | single(a as int), s) || s == b));
                assert(bit(0 | single(a as int), s) == (bit(0, s) || s == a));
            }
        }
        let delta_r: i32 = if ra < rb {
            1
        } else {
            -1
        };
        let delta_f: i32 = if fa < fb {
            1
        } else {
            -1
        };
        let mut r = ra;
        let mut f = fa;
        let ghost mut k: int = 0;
        loop
            invariant_except_break
                0 <= r < 8,
                0 <= f < 8,
                r == ra + toward(delta_r, k),
                f == fa + toward(delta_f, k),
            invariant
                0 <= k < 8,
                0 <= a < 64,
                0 <= b < 64,
                ra == a / 8,
                rb == b / 8,
                fa == a % 8,
                fb == b % 8,
                ra != rb,
                fa != fb,
                vstd::math::abs(fa - fb) == vstd::math::abs(ra - rb),
                delta_r == (if ra < rb {
                    1i32
                } else {
                    -1i32
                }),
                delta_f == (if fa < fb {
                    1i32
                } else {
                    -1i32
                }),
                forall|s: int|
                    0 <= s < 64 ==> #[trigger] bit(mask, s) == (s == a || s == b || (on_diagonal(
                        a as int,
                        b as int,
                        s,
                    ) && 0 < diagonal_steps(a as int, b as int, s) <= k)),
            ensures
                ({
                    let r2 = ra + toward(delta_r, k + 1);
                    let f2 = fa + toward(delta_f, k + 1);
                    r2 < 0 || f2 < 0 || r2 > 7 || f2 > 7
                }),
            decreases 8 - k,
        {
            r += delta_r;
            f += delta_f;
            if r < 0 || f < 0 || r > 7 || f > 7 {
                break ;
            }
            proof {
                k = k + 1;
            }
            let ghost before = mask;
            mask |= 1u64 << (square(r, f) as u64);
            proof {
                lemma_add_square(before, r * 8 + f);
                assert(mask == before | single(r * 8 + f));
                assert forall|s: int| 0 <= s < 64 implies #[trigger] bit(mask, s) == (s == a || s
                    == b || (on_diagonal(a as int, b as int, s) && 0 < diagonal_steps(
                    a as int,
                    b as int,
                    s,
                ) <= k)) by {
                    assert(bit(mask, s) == (bit(before, s) || s == r * 8 + f));
                    lemma_diagonal_square(a as int, b as int, k, s);
                }
            }
        }
        let ghost up = k;
        r = ra;
        f = fa;
        proof {
            k = 0;
        }
        loop
            invariant_except_break
                0 <= r < 8,
                0 <= f < 8,
                r == ra - toward(delta_r, k),
                f == fa - toward(delta_f, k),
            invariant
                0 <= k < 8,
                0 <= up < 8,
                ({
                    let r2 = ra + toward(delta_r, up + 1);
                    let f2 = fa + toward(delta_f, up + 1);
                    r2 < 0 || f2 < 0 || r2 > 7 || f2 > 7
                }),
                0 <= a < 64,
                0 <= b < 64,
                ra == a / 8,
                rb == b / 8,
                fa == a % 8,
                fb == b % 8,
                ra != rb,
                fa != fb,
                vstd::math::abs(fa - fb) == vstd::math::abs(ra - rb),
                delta_r == (if ra < rb {
                    1i32
                } else {
                    -1i32
                }),
                delta_f == (if fa < fb {
                    1i32
                } else {
                    -1i32
                }),
                forall|s: int|
                    0 <= s < 64 ==> #[trigger] bit(mask, s) == (s == a || s == b || (on_diagonal(
                        a as int,
                        b as int,
                        s,
                    ) && -k <= diagonal_steps(a as int, b as int, s) <= up && diagonal_steps(
                        a as int,
                        b as int,
                        s,
                    ) != 0)),
            ensures
                ({
                    let r2 = ra - toward(delta_r, k + 1);
                    let f2 = fa - toward(delta_f, k + 1);
                    r2 < 0 || f2 < 0 || r2 > 7 || f2 > 7
                }),
            decreases 8 - k,
        {
            r -= delta_r;
            f -= delta_f;
            if r < 0 || f < 0 || r > 7 || f > 7 {
                break ;
            }
            proof {
                k = k + 1;
            }
            let ghost before = mask;
            mask |= 1u64 << (square(r, f) as u64);
            proof {
                lemma_add_square(before, r * 8 + f);
                assert(mask == before | single(r * 8 + f));
                assert forall|s: int| 0 <= s < 64 implies #[trigger] bit(mask, s) == (s == a || s
                    == b || (on_diagonal(a as int, b as int, s) && -k <= diagonal_steps(
                    a as int,
                    b as int,
                    s,
                ) <= up && diagonal_steps(a as int, b as int, s) != 0)) by {
                    assert(bit(mask, s) == (bit(before, s) || s == r * 8 + f));
                    lemma_diagonal_square(a as int, b as int, -k, s);
                }
            }
        }
        proof {
            assert forall|s: int| 0 <= s < 64 implies #[trigger] bit(mask, s) == line_has(
                a as int,
                b as int,
                s,
            ) by {
                lemma_diagonal_square(a as int, b as int, 0, s);
                lemma_diagonal_square(a as int, b as int, vstd::math::abs(ra - rb) as int, s);
            }
        }
    }
    mask
}

/// For every pair of squares, the squares strictly between them.
pub fn between() -> (table: Vec<[u64; 64]>)
    ensures
        table.len() == 64,
        forall|a: int, b: int|
            0 <= a < 64 && 0 <= b < 64 ==> is_between(#[trigger] table[a][b], a, b),
{
    let mut table: Vec<[u64; 64]> = Vec::new();
    let mut a: i32 = 0;
    while a < 64
        invariant
            0 <= a <= 64,
            table.len() == a,
            forall|x: int, b: int|
                0 <= x < a && 0 <= b < 64 ==> is_between(#[trigger] table[x][b], x, b),
        decreases 64 - a,
    {
        let mut row = [0u64; 64];
        let mut b: i32 = 0;
        while b < 64
            invariant
                0 <= a < 64,
                0 <= b <= 64,
                forall|y: int| 0 <= y < b ==> is_between(#[trigger] row[y], a as int, y),
            decreases 64 - b,
        {
            row[b as usize] = between_mask(a, b);
            b += 1;
        }
        table.push(row);
        a += 1;
    }
    table
}

/// For every pair of squares, the squares of the line through them.
pub fn line() -> (table: Vec<[u64; 64]>)
    ensures
        table.len() == 64,
        forall|a: int, b: int| 0 <= a < 64 && 0 <= b < 64 ==> is_line(#[trigger] table[a][b], a, b),
{
    let mut table: Vec<[u64; 64]> = Vec::new();
    let mut a: i32 = 0;
    while a < 64
        invariant
            0 <= a <= 64,
            table.len() == a,
            forall|x: int, b: int|
                0 <= x < a && 0 <= b < 64 ==> is_line(#[trigger] table[x][b], x, b),
        decreases 64 - a,
    {
        let mut row = [0u64; 64];
        let mut b: i32 = 0;
        while b < 64
            invariant
                0 <= a < 64,
                0 <= b <= 64,
                forall|y: int| 0 <= y < b ==> is_line(#[trigger] row[y], a as int, y),
            decreases 64 - b,
        {
            row[b as usize] = line_mask(a, b);
            b += 1;
        }
        table.push(row);
        a += 1;
    }
    table
}

} // verus!
