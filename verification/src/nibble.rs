//! Facts about 4-bit fields ("nibbles") packed in a `u64`.
use vstd::prelude::*;

verus! {

/// Nibble `i` of `x`, i.e. bits `[4i, 4i + 4)`.
pub open spec fn nib(x: u64, i: int) -> int {
    ((x >> ((4 * i) as u64)) & 0xfu64) as int
}

pub proof fn lemma_nib_bound(x: u64, i: int)
    ensures
        0 <= nib(x, i) < 16,
{
    let s = (4 * i) as u64;
    assert((x >> s) & 0xfu64 < 16) by (bit_vector);
}

pub proof fn lemma_nib_zero(i: int)
    requires
        0 <= i < 16,
    ensures
        nib(0, i) == 0,
{
    let s = (4 * i) as u64;
    assert((0u64 >> s) & 0xfu64 == 0) by (bit_vector);
}

/// OR-ing `d << 4i` into `x` ORs `d` into nibble `i` and leaves the others alone.
pub proof fn lemma_nib_or(x: u64, d: u64, i: int, j: int)
    requires
        0 <= i < 16,
        0 <= j < 16,
        d < 16,
    ensures
        nib(x | (d << ((4 * i) as u64)), j) == if i == j {
            (((x >> ((4 * j) as u64)) & 0xfu64) | d) as int
        } else {
            nib(x, j)
        },
{
    let si = (4 * i) as u64;
    let sj = (4 * j) as u64;
    if i == j {
        assert(((x | (d << si)) >> si) & 0xfu64 == ((x >> si) & 0xfu64) | d) by (bit_vector)
            requires
                si <= 60,
                d < 16,
        ;
    } else {
        assert(((x | (d << si)) >> sj) & 0xfu64 == (x >> sj) & 0xfu64) by (bit_vector)
            requires
                si < 64,
                sj < 64,
                si % 4 == 0,
                sj % 4 == 0,
                si != sj,
                d < 16,
        ;
    }
}

/// Overwriting nibble `i` (clearing it with a mask, then OR-ing `d`) sets nibble `i` to
/// `d` and leaves the others alone.
pub proof fn lemma_nib_set(x: u64, d: u64, i: int, j: int)
    requires
        0 <= i < 16,
        0 <= j < 16,
        d < 16,
    ensures
        nib((x & ((u64::MAX - (0xfu64 << ((4 * i) as u64))) as u64)) | (d << ((4 * i) as u64)), j) == if i
            == j {
            d as int
        } else {
            nib(x, j)
        },
{
    let si = (4 * i) as u64;
    let sj = (4 * j) as u64;
    if i == j {
        assert((((x & ((u64::MAX - (0xfu64 << si)) as u64)) | (d << si)) >> si) & 0xfu64 == d)
            by (bit_vector)
            requires
                si <= 60,
                d < 16,
        ;
    } else {
        assert((((x & ((u64::MAX - (0xfu64 << si)) as u64)) | (d << si)) >> sj) & 0xfu64 == (x >> sj)
            & 0xfu64) by (bit_vector)
            requires
                si <= 60,
                sj <= 60,
                si % 4 == 0,
                sj % 4 == 0,
                si != sj,
                d < 16,
        ;
    }
}

/// Two words with the same sixteen nibbles are equal.
pub proof fn lemma_nib_ext(x: u64, y: u64)
    requires
        forall|j: int| 0 <= j < 16 ==> nib(x, j) == nib(y, j),
    ensures
        x == y,
{
    assert(nib(x, 0) == nib(y, 0));
    assert(nib(x, 1) == nib(y, 1));
    assert(nib(x, 2) == nib(y, 2));
    assert(nib(x, 3) == nib(y, 3));
    assert(nib(x, 4) == nib(y, 4));
    assert(nib(x, 5) == nib(y, 5));
    assert(nib(x, 6) == nib(y, 6));
    assert(nib(x, 7) == nib(y, 7));
    assert(nib(x, 8) == nib(y, 8));
    assert(nib(x, 9) == nib(y, 9));
    assert(nib(x, 10) == nib(y, 10));
    assert(nib(x, 11) == nib(y, 11));
    assert(nib(x, 12) == nib(y, 12));
    assert(nib(x, 13) == nib(y, 13));
    assert(nib(x, 14) == nib(y, 14));
    assert(nib(x, 15) == nib(y, 15));
    assert(x == y) by (bit_vector)
        requires
            (x >> 0u64) & 0xf == (y >> 0u64) & 0xf,
            (x >> 4u64) & 0xf == (y >> 4u64) & 0xf,
            (x >> 8u64) & 0xf == (y >> 8u64) & 0xf,
            (x >> 12u64) & 0xf == (y >> 12u64) & 0xf,
            (x >> 16u64) & 0xf == (y >> 16u64) & 0xf,
            (x >> 20u64) & 0xf == (y >> 20u64) & 0xf,
            (x >> 24u64) & 0xf == (y >> 24u64) & 0xf,
            (x >> 28u64) & 0xf == (y >> 28u64) & 0xf,
            (x >> 32u64) & 0xf == (y >> 32u64) & 0xf,
            (x >> 36u64) & 0xf == (y >> 36u64) & 0xf,
            (x >> 40u64) & 0xf == (y >> 40u64) & 0xf,
            (x >> 44u64) & 0xf == (y >> 44u64) & 0xf,
            (x >> 48u64) & 0xf == (y >> 48u64) & 0xf,
            (x >> 52u64) & 0xf == (y >> 52u64) & 0xf,
            (x >> 56u64) & 0xf == (y >> 56u64) & 0xf,
            (x >> 60u64) & 0xf == (y >> 60u64) & 0xf,
    ;
}

/// The word whose nibble `i` holds `i` for `i < n`, and 0 above.
pub open spec fn identity_bits(n: nat) -> u64 {
    if n >= 16 {
        0xfedcba9876543210u64
    } else {
        0xfedcba9876543210u64 & (((1u64 << ((4 * n) as u64)) - 1) as u64)
    }
}

pub proof fn lemma_identity_bits(n: nat, j: int)
    requires
        n <= 16,
        0 <= j < 16,
    ensures
        nib(identity_bits(n), j) == if j < n {
            j
        } else {
            0
        },
{
    if n == 16 {
        let sj = (4 * j) as u64;
        let jj = j as u64;
        assert((0xfedcba9876543210u64 >> sj) & 0xfu64 == jj) by (bit_vector)
            requires
                sj == 4 * jj,
                jj < 16,
        ;
        return;
    }
    let sn = (4 * n) as u64;
    let sj = (4 * j) as u64;
    let jj = j as u64;
    assert(sn < 64);
    assert((1u64 << sn) >= 1) by (bit_vector)
        requires
            sn < 64,
    ;
    let m = ((1u64 << sn) - 1) as u64;
    if j < n {
        assert(((0xfedcba9876543210u64 & m) >> sj) & 0xfu64 == jj) by (bit_vector)
            requires
                m + 1 == 1u64 << sn,
                sn < 64,
                sj < sn,
                sn % 4 == 0,
                sj == 4 * jj,
                jj < 16,
        ;
    } else {
        assert(((0xfedcba9876543210u64 & m) >> sj) & 0xfu64 == 0) by (bit_vector)
            requires
                m + 1 == 1u64 << sn,
                sn < 64,
                sj >= sn,
                sj < 64,
                sj % 4 == 0,
                sn % 4 == 0,
        ;
    }
}

} // verus!
