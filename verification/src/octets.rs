//! Arithmetic on runs of octets in one buffer.

use crate::octet::{gf_mul, mul_bytes, Octet};
use vstd::prelude::*;

verus! {

/// Whether the runs of `width` octets at `dest` and at `src` are the same run or share
/// no octet.
pub open spec fn runs_apart(dest: int, src: int, width: int) -> bool {
    dest == src || dest + width <= src || src + width <= dest
}

/// Adds the `width` octets at `src` to those at `dest`.
pub fn add_assign(octets: &mut Vec<u8>, dest: usize, src: usize, width: usize)
    requires
        dest + width <= old(octets).len(),
        src + width <= old(octets).len(),
        runs_apart(dest as int, src as int, width as int),
    ensures
        final(octets)@ == Seq::new(
            old(octets)@.len(),
            |j: int|
                if dest <= j < dest + width {
                    old(octets)@[j] ^ old(octets)@[src + (j - dest)]
                } else {
                    old(octets)@[j]
                },
        ),
{
    let ghost before = octets@;
    for k in 0..width
        invariant
            before == old(octets)@,
            octets.len() == before.len(),
            dest + width <= before.len(),
            src + width <= before.len(),
            runs_apart(dest as int, src as int, width as int),
            forall|j: int|
                0 <= j < before.len() ==> #[trigger] octets@[j] == (if dest <= j < dest + k {
                    before[j] ^ before[src + (j - dest)]
                } else {
                    before[j]
                }),
    {
        let sum: u8 = octets[dest + k] ^ octets[src + k];
        octets[dest + k] = sum;
    }
}

/// Multiplies the `width` octets at `dest` by `scalar`.
pub fn mulassign_scalar(octets: &mut Vec<u8>, dest: usize, width: usize, scalar: &Octet)
    requires
        dest + width <= old(octets).len(),
    ensures
        final(octets)@ == Seq::new(
            old(octets)@.len(),
            |j: int|
                if dest <= j < dest + width {
                    gf_mul(old(octets)@[j], scalar@)
                } else {
                    old(octets)@[j]
                },
        ),
{
    let ghost before = octets@;
    let factor: u8 = scalar.byte();
    for k in 0..width
        invariant
            before == old(octets)@,
            factor == scalar@,
            octets.len() == before.len(),
            dest + width <= before.len(),
            forall|j: int|
                0 <= j < before.len() ==> #[trigger] octets@[j] == (if dest <= j < dest + k {
                    gf_mul(before[j], factor)
                } else {
                    before[j]
                }),
    {
        let product: u8 = mul_bytes(octets[dest + k], factor);
        octets[dest + k] = product;
    }
}

/// Adds `scalar` times the `width` octets at `src` to those at `dest`.
pub fn fused_addassign_mul_scalar(
    octets: &mut Vec<u8>,
    dest: usize,
    src: usize,
    width: usize,
    scalar: &Octet,
)
    requires
        dest + width <= old(octets).len(),
        src + width <= old(octets).len(),
        runs_apart(dest as int, src as int, width as int),
    ensures
        final(octets)@ == Seq::new(
            old(octets)@.len(),
            |j: int|
                if dest <= j < dest + width {
                    old(octets)@[j] ^ gf_mul(old(octets)@[src + (j - dest)], scalar@)
                } else {
                    old(octets)@[j]
                },
        ),
{
    let ghost before = octets@;
    let factor: u8 = scalar.byte();
    for k in 0..width
        invariant
            before == old(octets)@,
            factor == scalar@,
            octets.len() == before.len(),
            dest + width <= before.len(),
            src + width <= before.len(),
            runs_apart(dest as int, src as int, width as int),
            forall|j: int|
                0 <= j < before.len() ==> #[trigger] octets@[j] == (if dest <= j < dest + k {
                    before[j] ^ gf_mul(before[src + (j - dest)], factor)
                } else {
                    before[j]
                }),
    {
        let sum: u8 = octets[dest + k] ^ mul_bytes(octets[src + k], factor);
        octets[dest + k] = sum;
    }
}

} // verus!
