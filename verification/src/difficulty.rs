//! 256-bit difficulty values, as four 64-bit limbs (least significant first),
//! and the `ckb_types` / `numext` operations on them.

use vstd::prelude::*;
use crate::text::pow256;

verus! {

/// 2 to the 64th.
pub open spec fn limb_base() -> nat {
    0x1_0000_0000_0000_0000
}

/// 2 to the 256th.
pub open spec fn u256_bound() -> nat {
    limb_base() * limb_base() * limb_base() * limb_base()
}

/// The number that four limbs stand for.
pub open spec fn u256_value(l: [u64; 4]) -> nat {
    l[0] as nat + limb_base() * (l[1] as nat + limb_base() * (l[2] as nat + limb_base() * l[3] as nat))
}

/// The target that a compact encoding stands for: the low 24 bits are the
/// mantissa, the high 8 bits the exponent of base 256, and the target is
/// `mantissa * 256^(exponent - 3)` (rounded down for exponents below 3).
pub open spec fn compact_target(compact: u32) -> nat {
    let e = compact as nat / 0x100_0000;
    let m = compact as nat % 0x100_0000;
    if e <= 3 {
        m / pow256((3 - e) as nat)
    } else {
        m * pow256((e - 3) as nat)
    }
}

/// The difficulty of a compact target: 0 for a zero target or an exponent
/// past 32 bytes, `2^256 - 1` for a target of 1, `2^256 / target` (rounded
/// down) otherwise.
pub open spec fn compact_difficulty(compact: u32) -> nat {
    let e = compact as nat / 0x100_0000;
    let t = compact_target(compact);
    if e > 32 || t == 0 {
        0
    } else if t == 1 {
        (u256_bound() - 1) as nat
    } else {
        u256_bound() / t
    }
}

/// `ckb_types::utilities::compact_to_difficulty`: decodes a compact target
/// into its difficulty, as `compact_difficulty` states.
#[verifier::external_body]
pub(crate) fn compact_to_difficulty(compact: u32) -> (r: [u64; 4])
    ensures
        u256_value(r) == compact_difficulty(compact),
{
    ckb_types::utilities::compact_to_difficulty(compact).0
}

/// `U256::checked_mul` of `numext` with a 64-bit factor: the product, or
/// `None` when it does not fit in 256 bits.
#[verifier::external_body]
pub(crate) fn u256_checked_mul(a: [u64; 4], b: u64) -> (r: Option<[u64; 4]>)
    ensures
        match r {
            Some(p) => u256_value(p) == u256_value(a) * b,
            None => u256_value(a) * b >= u256_bound(),
        },
{
    ckb_types::U256(a).checked_mul(&ckb_types::U256::from(b)).map(|p| p.0)
}

/// `U256::checked_add` of `numext`: the sum, or `None` when it does not fit
/// in 256 bits.
#[verifier::external_body]
pub(crate) fn u256_checked_add(a: [u64; 4], b: [u64; 4]) -> (r: Option<[u64; 4]>)
    ensures
        match r {
            Some(s) => u256_value(s) == u256_value(a) + u256_value(b),
            None => u256_value(a) + u256_value(b) >= u256_bound(),
        },
{
    ckb_types::U256(a).checked_add(&ckb_types::U256(b)).map(|s| s.0)
}

} // verus!
