//! Depths as totally ordered keys.
//!
//! A depth arrives as the bit pattern of a 32-bit IEEE float. It is turned into
//! an unsigned key whose integer order is the float order: NaN is refused, and
//! the two zeros share one key, as they compare equal.
use vstd::prelude::*;

verus! {

/// Bit of the sign in a 32-bit float.
pub const SIGN_BIT: u32 = 0x8000_0000;

/// Pattern of positive infinity: every exponent bit set, mantissa clear.
pub const INFINITY_BITS: u32 = 0x7F80_0000;

/// The absolute part of a float's bit pattern (the pattern with the sign cleared).
pub open spec fn magnitude(bits: u32) -> int {
    bits as int % 0x8000_0000
}

/// A pattern whose sign bit is set.
pub open spec fn sign_set(bits: u32) -> bool {
    bits >= 0x8000_0000
}

/// NaN: every exponent bit set and a mantissa other than zero.
pub open spec fn is_nan_bits(bits: u32) -> bool {
    magnitude(bits) > 0x7F80_0000
}

/// A value below zero: the sign is set and the magnitude is not zero.
pub open spec fn is_negative_bits(bits: u32) -> bool {
    sign_set(bits) && magnitude(bits) != 0
}

/// IEEE `<` on two patterns that are not NaN: magnitudes grow away from zero
/// on either side of it, and both zeros are the same value.
pub open spec fn float_lt(a: u32, b: u32) -> bool {
    if is_negative_bits(a) && is_negative_bits(b) {
        magnitude(a) > magnitude(b)
    } else if is_negative_bits(a) {
        true
    } else if is_negative_bits(b) {
        false
    } else {
        magnitude(a) < magnitude(b)
    }
}

/// IEEE `==` on two patterns that are not NaN.
pub open spec fn float_eq(a: u32, b: u32) -> bool {
    !float_lt(a, b) && !float_lt(b, a)
}

/// The order key of a pattern that is not NaN.
pub open spec fn order_key(bits: u32) -> u32 {
    if is_negative_bits(bits) {
        (0x7FFF_FFFF - magnitude(bits)) as u32
    } else {
        (0x8000_0000 + magnitude(bits)) as u32
    }
}

/// The key order is the float order: for two patterns that are not NaN,
/// `a < b` as floats exactly when `order_key(a) < order_key(b)`, and they
/// compare equal exactly when their keys are equal.
pub proof fn lemma_key_order(a: u32, b: u32)
    requires
        !is_nan_bits(a),
        !is_nan_bits(b),
    ensures
        float_lt(a, b) <==> order_key(a) < order_key(b),
        float_eq(a, b) <==> order_key(a) == order_key(b),
{
}

/// A depth: a key whose integer order is the paint order.
#[derive(Clone, Copy, Debug, PartialEq, Eq, Structural)]
pub struct Depth {
    pub key: u32,
}

impl Depth {
    /// The depth of a float given by its bit pattern; `None` for NaN, which
    /// has no place in the order.
    pub fn from_bits(bits: u32) -> (r: Option<Depth>)
        ensures
            r is None <==> is_nan_bits(bits),
            r matches Some(d) ==> d.key == order_key(bits),
    {
        let magnitude = bits % SIGN_BIT;
        if magnitude > INFINITY_BITS {
            None
        } else if bits >= SIGN_BIT && magnitude != 0 {
            Some(Depth { key: 0x7FFF_FFFF - magnitude })
        } else {
            Some(Depth { key: SIGN_BIT + magnitude })
        }
    }

    /// The depth with the given order key.
    pub fn from_key(key: u32) -> (r: Depth)
        ensures
            r.key == key,
    {
        Depth { key }
    }

    /// The order key.
    pub fn key(&self) -> (r: u32)
        ensures
            r == self.key,
    {
        self.key
    }
}

} // verus!
