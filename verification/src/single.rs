//! Whole numbers stored as single-precision numbers: which of them are kept, and what becomes
//! of the others.

use vstd::prelude::*;

verus! {

/// Two to the power 24: up to this magnitude every whole number is a single-precision number.
pub const EXACT_LIMIT: i32 = 0x100_0000;

/// The size of a number without its sign.
pub open spec fn magnitude(n: int) -> int {
    if n < 0 {
        -n
    } else {
        n
    }
}

/// The distance between neighbouring single-precision numbers at magnitude `m`, for `m` up to
/// two to the power 31: such a number keeps 24 binary digits, so the distance doubles with
/// every power of two from the 24th on.
pub open spec fn single_step(m: int) -> int {
    if m < 0x100_0000 {
        1
    } else if m < 0x200_0000 {
        2
    } else if m < 0x400_0000 {
        4
    } else if m < 0x800_0000 {
        8
    } else if m < 0x1000_0000 {
        16
    } else if m < 0x2000_0000 {
        32
    } else if m < 0x4000_0000 {
        64
    } else if m < 0x8000_0000 {
        128
    } else {
        256
    }
}

/// Whether the whole number `n`, of magnitude at most two to the power 31, is a
/// single-precision number.
pub open spec fn is_single(n: int) -> bool {
    magnitude(n) % single_step(magnitude(n)) == 0
}

/// The single-precision number nearest to the whole number `n`, of magnitude at most two to the
/// power 31. Of two that are equally near, it is the one that is an even multiple of the
/// distance between them.
pub open spec fn nearest_single(n: int) -> int {
    let m = magnitude(n);
    let step = single_step(m);
    let below = m - m % step;
    let up = 2 * (m % step) > step || (2 * (m % step) == step && (m / step) % 2 == 1);
    let nearest = if up {
        below + step
    } else {
        below
    };
    if n < 0 {
        -nearest
    } else {
        nearest
    }
}

/// The 32-bit signed number nearest to `n`.
pub open spec fn saturated(n: int) -> int {
    if n > i32::MAX {
        i32::MAX as int
    } else if n < i32::MIN {
        i32::MIN as int
    } else {
        n
    }
}

/// What is left of `n` after it was stored as a single-precision number and read back as a
/// 32-bit signed number.
pub open spec fn through_single(n: int) -> int {
    saturated(nearest_single(n))
}

/// Whole numbers of magnitude up to two to the power 24 are single-precision numbers, and are
/// kept as they are.
pub proof fn lemma_small_numbers_are_kept(n: int)
    requires
        magnitude(n) <= EXACT_LIMIT,
    ensures
        is_single(n),
        nearest_single(n) == n,
        through_single(n) == n,
{
}

/// The power of two from which the distance between single-precision numbers is the one at
/// magnitude `m`; zero below two to the power 24.
pub open spec fn binade_start(m: int) -> int {
    if m < 0x100_0000 {
        0
    } else if m < 0x200_0000 {
        0x100_0000
    } else if m < 0x400_0000 {
        0x200_0000
    } else if m < 0x800_0000 {
        0x400_0000
    } else if m < 0x1000_0000 {
        0x800_0000
    } else if m < 0x2000_0000 {
        0x1000_0000
    } else if m < 0x4000_0000 {
        0x2000_0000
    } else if m < 0x8000_0000 {
        0x4000_0000
    } else {
        0x8000_0000
    }
}

/// The multiple of the distance at `m` that lies at or below a magnitude `m` is a
/// single-precision number of the same distance, and the next multiple does not pass the next
/// power of two.
proof fn lemma_floor_is_single(m: int)
    requires
        0 <= m <= 0x8000_0000,
    ensures
        ({
            let step = single_step(m);
            let below = m - m % step;
            &&& 0 <= below <= m < below + step
            &&& below % step == 0
            &&& single_step(below) == step
            &&& below / step == m / step
            &&& binade_start(m) <= below
            &&& step == 1 || step == 256 || below + step <= 2 * binade_start(m)
        }),
{
    let step = single_step(m);
    let below = m - m % step;
    if step == 1 {
        assert(below == m);
    } else if step == 2 {
        assert(below % 2 == 0 && below / 2 == m / 2);
    } else if step == 4 {
        assert(below % 4 == 0 && below / 4 == m / 4);
    } else if step == 8 {
        assert(below % 8 == 0 && below / 8 == m / 8);
    } else if step == 16 {
        assert(below % 16 == 0 && below / 16 == m / 16);
    } else if step == 32 {
        assert(below % 32 == 0 && below / 32 == m / 32);
    } else if step == 64 {
        assert(below % 64 == 0 && below / 64 == m / 64);
    } else if step == 128 {
        assert(below % 128 == 0 && below / 128 == m / 128);
    } else {
        assert(m == 0x8000_0000);
        assert(below == m);
    }
}

/// The multiple of the distance at `m` next above a magnitude `m` that is no such multiple is
/// a single-precision number, and is one multiple further on than the one below.
proof fn lemma_ceiling_is_single(m: int)
    requires
        0 <= m <= 0x8000_0000,
        m % single_step(m) != 0,
    ensures
        ({
            let step = single_step(m);
            let above = m - m % step + step;
            &&& above % single_step(above) == 0
            &&& above / step == m / step + 1
        }),
{
    lemma_floor_is_single(m);
    let step = single_step(m);
    let above = m - m % step + step;
    if step == 2 {
        assert(above % 2 == 0 && above / 2 == m / 2 + 1);
        assert(above == 0x200_0000 ==> above % 4 == 0);
    } else if step == 4 {
        assert(above % 4 == 0 && above / 4 == m / 4 + 1);
        assert(above == 0x400_0000 ==> above % 8 == 0);
    } else if step == 8 {
        assert(above % 8 == 0 && above / 8 == m / 8 + 1);
        assert(above == 0x800_0000 ==> above % 16 == 0);
    } else if step == 16 {
        assert(above % 16 == 0 && above / 16 == m / 16 + 1);
        assert(above == 0x1000_0000 ==> above % 32 == 0);
    } else if step == 32 {
        assert(above % 32 == 0 && above / 32 == m / 32 + 1);
        assert(above == 0x2000_0000 ==> above % 64 == 0);
    } else if step == 64 {
        assert(above % 64 == 0 && above / 64 == m / 64 + 1);
        assert(above == 0x4000_0000 ==> above % 128 == 0);
    } else if step == 128 {
        assert(above % 128 == 0 && above / 128 == m / 128 + 1);
        assert(above == 0x8000_0000 ==> above % 256 == 0);
    }
}

/// A multiple of `step` above another one is at least `step` above it.
proof fn lemma_multiples_are_apart(low: int, high: int, step: int)
    by (nonlinear_arith)
    requires
        step > 0,
        low % step == 0,
        high % step == 0,
        low < high,
    ensures
        low + step <= high,
{
}

/// No single-precision number lies strictly between the two multiples of the distance at `m`
/// that enclose a magnitude `m`.
proof fn lemma_neighbours(m: int, other: int)
    requires
        0 <= m <= 0x8000_0000,
        0 <= other <= 0x8000_0000,
        other % single_step(other) == 0,
    ensures
        ({
            let step = single_step(m);
            let below = m - m % step;
            other <= below || other >= below + step
        }),
{
    lemma_floor_is_single(m);
    let step = single_step(m);
    let below = m - m % step;
    if below < other < below + step {
        assert(single_step(other) == step);
        lemma_multiples_are_apart(below, other, step);
    }
}

/// The nearest single-precision number is a single-precision number, and is again of magnitude
/// at most two to the power 31.
pub proof fn lemma_nearest_single_is_single(n: int)
    requires
        magnitude(n) <= 0x8000_0000,
    ensures
        is_single(nearest_single(n)),
        magnitude(nearest_single(n)) <= 0x8000_0000,
{
    lemma_floor_is_single(magnitude(n));
    if magnitude(n) % single_step(magnitude(n)) != 0 {
        lemma_ceiling_is_single(magnitude(n));
    }
}

/// No single-precision number is nearer to `n` than `nearest_single(n)`.
pub proof fn lemma_nearest_single_is_nearest(n: int, other: int)
    requires
        magnitude(n) <= 0x8000_0000,
        magnitude(other) <= 0x8000_0000,
        is_single(other),
    ensures
        magnitude(nearest_single(n) - n) <= magnitude(other - n),
{
    lemma_neighbours(magnitude(n), magnitude(other));
}

/// Where another single-precision number is as near to `n` as `nearest_single(n)`, the latter
/// is an even multiple of the distance between single-precision numbers around `n`.
pub proof fn lemma_ties_go_to_even(n: int, other: int)
    requires
        magnitude(n) <= 0x8000_0000,
        magnitude(other) <= 0x8000_0000,
        is_single(other),
        other != nearest_single(n),
        magnitude(other - n) == magnitude(nearest_single(n) - n),
    ensures
        (magnitude(nearest_single(n)) / single_step(magnitude(n))) % 2 == 0,
{
    lemma_floor_is_single(magnitude(n));
    lemma_neighbours(magnitude(n), magnitude(other));
    if magnitude(n) % single_step(magnitude(n)) != 0 {
        lemma_ceiling_is_single(magnitude(n));
    }
}

/// A single-precision number is kept as it is.
pub proof fn lemma_singles_are_kept(n: int)
    requires
        magnitude(n) <= 0x8000_0000,
        is_single(n),
    ensures
        nearest_single(n) == n,
{
}

/// The distance between neighbouring single-precision numbers at magnitude `m`.
fn step_at(m: u32) -> (step: u32)
    requires
        m <= 0x8000_0000,
    ensures
        step == single_step(m as int),
{
    if m < 0x100_0000 {
        1
    } else if m < 0x200_0000 {
        2
    } else if m < 0x400_0000 {
        4
    } else if m < 0x800_0000 {
        8
    } else if m < 0x1000_0000 {
        16
    } else if m < 0x2000_0000 {
        32
    } else if m < 0x4000_0000 {
        64
    } else if m < 0x8000_0000 {
        128
    } else {
        256
    }
}

/// Stores `n` as a single-precision number and reads it back: the nearest such number, and the
/// largest 32-bit signed number where that one is too large.
pub fn round_trip(n: i32) -> (r: i32)
    ensures
        r == through_single(n as int),
{
    let m: u32 = if n < 0 {
        (-(n as i64)) as u32
    } else {
        n as u32
    };
    let step: u32 = step_at(m);
    let rest: u32 = m % step;
    let below: u32 = m - rest;
    let twice: u32 = 2 * rest;
    let up: bool = twice > step || (twice == step && (m / step) % 2 == 1);
    let nearest: i64 = if up {
        below as i64 + step as i64
    } else {
        below as i64
    };
    if n < 0 {
        (-nearest) as i32
    } else if nearest > i32::MAX as i64 {
        i32::MAX
    } else {
        nearest as i32
    }
}

} // verus!
