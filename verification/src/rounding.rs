//! Rounding of requested sizes to the sizes that the pool hands out.

use vstd::prelude::*;

verus! {

/// Requests of up to this many bytes (1 MB) count as small.
pub const SMALL_ALLOCATION: usize = 1 * 1024 * 1024;

/// Small requests are rounded up to a multiple of 512 bytes.
pub const SMALL_ROUND: usize = 512;

/// Larger requests are rounded up to a multiple of 2 MB, a GPU huge page.
pub const LARGE_ROUND: usize = 2 * 1024 * 1024;

/// The unit of which the rounded size of `bytes` is a multiple.
pub open spec fn round_unit(bytes: nat) -> nat {
    if bytes <= SMALL_ALLOCATION {
        SMALL_ROUND as nat
    } else {
        LARGE_ROUND as nat
    }
}

/// `bytes` rounded up to a multiple of its unit.
pub open spec fn rounded(bytes: nat) -> nat {
    if bytes <= SMALL_ALLOCATION {
        (bytes + SMALL_ROUND - 1) as nat / SMALL_ROUND as nat * SMALL_ROUND as nat
    } else {
        (bytes + LARGE_ROUND - 1) as nat / LARGE_ROUND as nat * LARGE_ROUND as nat
    }
}

/// Whether `n` is a multiple of `unit`.
pub open spec fn is_multiple(n: nat, unit: nat) -> bool {
    n % unit == 0
}

/// The two cases of `rounded`, with the constants written out.
proof fn lemma_rounded_cases(bytes: nat)
    ensures
        SMALL_ALLOCATION == 1048576 && LARGE_ROUND == 2097152,
        bytes <= SMALL_ALLOCATION ==> rounded(bytes) == (bytes + 511) / 512 * 512,
        bytes > SMALL_ALLOCATION ==> rounded(bytes) == (bytes + 2097151) / 2097152 * 2097152,
{
}

/// Rounds an allocation size up to reduce fragmentation.
///
/// The sum `bytes + LARGE_ROUND` must be representable.
pub fn round_size(bytes: usize) -> (size: usize)
    requires
        bytes + LARGE_ROUND <= usize::MAX,
    ensures
        size == rounded(bytes as nat),
        bytes <= size,
        size < bytes + round_unit(bytes as nat),
        is_multiple(size as nat, round_unit(bytes as nat)),
        bytes <= 1048576 ==> size % 512 == 0 && size < bytes + 512,
        bytes > 1048576 ==> size % 2097152 == 0 && size < bytes + 2097152,
{
    proof {
        law_rounded_is_least_multiple(bytes as nat, rounded(bytes as nat));
    }
    if bytes <= SMALL_ALLOCATION {
        ((bytes + SMALL_ROUND - 1) / SMALL_ROUND) * SMALL_ROUND
    } else {
        ((bytes + LARGE_ROUND - 1) / LARGE_ROUND) * LARGE_ROUND
    }
}

/// The rounded size is the least multiple of the unit that is not below the request: it is a
/// multiple, it holds the request, and no other multiple that holds the request is smaller.
/// Less than one unit is added.
pub proof fn law_rounded_is_least_multiple(bytes: nat, other: nat)
    ensures
        is_multiple(rounded(bytes), round_unit(bytes)),
        bytes <= rounded(bytes) < bytes + round_unit(bytes),
        bytes <= other && is_multiple(other, round_unit(bytes)) ==> rounded(bytes) <= other,
{
    if bytes <= SMALL_ALLOCATION {
        assert(round_unit(bytes) == 512);
        assert(rounded(bytes) % 512 == 0);
        assert(is_multiple(other, 512) == (other % 512 == 0));
    } else {
        assert(round_unit(bytes) == 2097152);
        assert(rounded(bytes) % 2097152 == 0);
        assert(is_multiple(other, 2097152) == (other % 2097152 == 0));
    }
}

/// A size that was rounded once is not changed by rounding it again.
pub proof fn law_rounding_is_idempotent(bytes: nat)
    ensures
        rounded(rounded(bytes)) == rounded(bytes),
{
    lemma_rounded_cases(bytes);
    lemma_rounded_cases(rounded(bytes));
}

/// A larger request is never rounded to a smaller size.
pub proof fn law_rounding_is_monotone(a: nat, b: nat)
    requires
        a <= b,
    ensures
        rounded(a) <= rounded(b),
{
    lemma_rounded_cases(a);
    lemma_rounded_cases(b);
}

} // verus!
