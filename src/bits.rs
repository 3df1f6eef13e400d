//! Bit-level helpers: reading and setting one bit of a channel value.
use vstd::prelude::*;

verus! {

/// Bit `i` of `b` (bit 0 is the least significant).
pub open spec fn bit_of(b: u8, i: u8) -> bool {
    (b >> i) & 1u8 == 1u8
}

/// `v` with its least-significant bit replaced by `b`; the other seven bits kept.
pub open spec fn with_lsb(v: u8, b: bool) -> u8 {
    if b {
        v | 1u8
    } else {
        v & 254u8
    }
}

/// Whether bit `bit` of `num` is set.
pub fn has(num: u8, bit: u8) -> (r: bool)
    requires
        bit < 8,
    ensures
        r == bit_of(num, bit),
{
    let r = (num & (1u8 << bit)) > 0;
    assert(((num & (1u8 << bit)) > 0) == ((num >> bit) & 1u8 == 1u8)) by (bit_vector)
        requires
            bit < 8,
    ;
    r
}

/// One bit as a number: 1 for `true`, 0 for `false`.
pub fn bit_to_num(v: bool) -> (r: u8)
    ensures
        r == (if v { 1u8 } else { 0u8 }),
{
    if v {
        1
    } else {
        0
    }
}

/// `num` with bit `bit` set to `val` and every other bit unchanged.
pub fn setbit(num: u8, bit: u8, val: bool) -> (r: u8)
    requires
        bit < 8,
    ensures
        forall|j: u8| j < 8 ==> #[trigger] bit_of(r, j) == (if j == bit { val } else { bit_of(num, j) }),
        bit == 0 ==> r == with_lsb(num, val),
{
    let pow: u8 = 1u8 << bit;
    let r = if val {
        num | pow
    } else {
        if has(num, bit) {
            assert(num >= pow) by (bit_vector)
                requires
                    bit < 8,
                    pow == 1u8 << bit,
                    (num >> bit) & 1u8 == 1u8,
            ;
            num - pow
        } else {
            num
        }
    };
    assert(forall|j: u8|
        j < 8 ==> (#[trigger] (r >> j) & 1u8 == 1u8) == (if j == bit { val } else { (num >> j) & 1u8 == 1u8 }))
        by (bit_vector)
        requires
            bit < 8,
            pow == 1u8 << bit,
            r == (if val { num | pow } else { if (num >> bit) & 1u8 == 1u8 { (num - pow) as u8 } else { num } }),
    ;
    assert(bit == 0 ==> r == (if val { num | 1u8 } else { num & 254u8 })) by (bit_vector)
        requires
            bit < 8,
            pow == 1u8 << bit,
            r == (if val { num | pow } else { if (num >> bit) & 1u8 == 1u8 { (num - pow) as u8 } else { num } }),
    ;
    r
}

} // verus!
