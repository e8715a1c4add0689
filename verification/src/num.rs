//! Arithmetic that stops at the type's bound.

use vstd::prelude::*;

verus! {

/// `n`, or the largest `usize` where `n` is beyond it.
pub open spec fn clamp(n: int) -> int {
    if n > usize::MAX {
        usize::MAX as int
    } else {
        n
    }
}

/// `n`, or the largest `u64` where `n` is beyond it.
pub open spec fn clamp_u64(n: int) -> int {
    if n > u64::MAX {
        u64::MAX as int
    } else {
        n
    }
}

/// `n`, or the largest `u32` where `n` is beyond it.
pub open spec fn clamp_u32(n: int) -> int {
    if n > u32::MAX {
        u32::MAX as int
    } else {
        n
    }
}

/// The sum of two numbers modulo 2^64.
pub open spec fn wrap_add(a: u64, b: int) -> u64 {
    ((a + b) % 0x1_0000_0000_0000_0000) as u64
}

/// The sum modulo 2^64.
pub fn add_wrapping(a: u64, b: u64) -> (n: u64)
    ensures
        n == wrap_add(a, b as int),
{
    a.wrapping_add(b)
}

/// The product, or `usize::MAX` past it.
pub fn mul_to_max(a: usize, b: usize) -> (n: usize)
    ensures
        n == clamp(a * b),
{
    match a.checked_mul(b) {
        Some(n) => n,
        None => usize::MAX,
    }
}

/// The product, or `u64::MAX` past it.
pub fn mul_to_max_u64(a: u64, b: u64) -> (n: u64)
    ensures
        n == clamp_u64(a * b),
{
    match a.checked_mul(b) {
        Some(n) => n,
        None => u64::MAX,
    }
}

/// The sum, or `usize::MAX` past it.
pub fn add_to_max(a: usize, b: usize) -> (n: usize)
    ensures
        n == clamp(a + b),
{
    match a.checked_add(b) {
        Some(n) => n,
        None => usize::MAX,
    }
}

/// The sum, or `u64::MAX` past it.
pub fn add_to_max_u64(a: u64, b: u64) -> (n: u64)
    ensures
        n == clamp_u64(a + b),
{
    match a.checked_add(b) {
        Some(n) => n,
        None => u64::MAX,
    }
}

} // verus!
