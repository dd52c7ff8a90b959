use crate::errors::ToolError;
use vstd::arithmetic::div_mod::{lemma_div_denominator, lemma_mod_breakdown};
use vstd::arithmetic::power2::*;
use vstd::prelude::*;

verus! {

/// The largest number that a vint can carry: eight octets hold 56 data bits.
pub const MAX_VINT: u64 = 0x00ff_ffff_ffff_ffff;

/// The `width` low-order base-256 digits of `value`, most significant digit first.
pub open spec fn be_bytes(value: nat, width: nat) -> Seq<u8>
    decreases width,
{
    if width == 0 {
        Seq::empty()
    } else {
        be_bytes(value / 256, (width - 1) as nat).push((value % 256) as u8)
    }
}

/// The number that `octets` spell in base 256, most significant digit first.
pub open spec fn be_value(octets: Seq<u8>) -> nat
    decreases octets.len(),
{
    if octets.len() == 0 {
        0
    } else {
        be_value(octets.drop_last()) * 256 + octets.last() as nat
    }
}

/// The number of octets of the shortest vint whose data bits hold `value`:
/// a vint of `n` octets has `7 * n` data bits.
pub open spec fn vint_width(value: nat) -> nat
    decreases value,
{
    if value < 128 {
        1
    } else {
        1 + vint_width(value / 128)
    }
}

/// The vint of `value`: the value written big-endian in `vint_width(value)`
/// octets, with the marker bit set just above its `7 * vint_width(value)` data
/// bits.  The position of that bit in the first octet announces the width.
pub open spec fn vint_bytes(value: nat) -> Seq<u8> {
    let width = vint_width(value);
    be_bytes(value + pow2(7 * width), width)
}

/// `width` digits are `width` octets.
pub proof fn lemma_be_bytes_len(value: nat, width: nat)
    ensures
        be_bytes(value, width).len() == width,
    decreases width,
{
    if width > 0 {
        lemma_be_bytes_len(value / 256, (width - 1) as nat);
    }
}

/// One more octet multiplies the range by 256.
pub proof fn lemma_pow2_octet_more(n: nat)
    ensures
        pow2(8 * (n + 1)) == 256 * pow2(8 * n),
        pow2(8 * n) > 0,
{
    lemma2_to64();
    lemma_pow2_adds(8 * n, 8);
    lemma_pow2_pos(8 * n);
    assert(8 * (n + 1) == 8 * n + 8);
}

/// `width` digits spell `value` up to a multiple of `256^width`.
pub proof fn lemma_be_value_of_be_bytes(value: nat, width: nat)
    ensures
        be_value(be_bytes(value, width)) == value % pow2(8 * width),
    decreases width,
{
    lemma2_to64();
    if width > 0 {
        let narrower = (width - 1) as nat;
        let range = pow2(8 * narrower);
        lemma_be_value_of_be_bytes(value / 256, narrower);
        lemma_pow2_octet_more(narrower);
        assert(be_bytes(value, width).drop_last() =~= be_bytes(value / 256, narrower));
        lemma_mod_breakdown(value as int, 256, range as int);
    }
}

/// The first of `width` digits is the digit of weight `256^(width - 1)`.
pub proof fn lemma_be_bytes_first(value: nat, width: nat)
    requires
        width >= 1,
    ensures
        be_bytes(value, width).len() == width,
        be_bytes(value, width)[0] == (value / pow2(8 * (width - 1) as nat)) % 256,
    decreases width,
{
    lemma2_to64();
    lemma_be_bytes_len(value, width);
    if width == 1 {
        assert(be_bytes(value / 256, 0).len() == 0);
        assert(pow2(8 * (width - 1) as nat) == 1);
    } else {
        let narrower = (width - 1) as nat;
        let below = (narrower - 1) as nat;
        lemma_be_bytes_first(value / 256, narrower);
        lemma_pow2_octet_more(below);
        assert(pow2(8 * narrower) == 256 * pow2(8 * below)) by {
            assert(8 * (below + 1) == 8 * narrower);
        }
        lemma_div_denominator(value as int, 256, pow2(8 * below) as int);
        assert(be_bytes(value, width)[0] == be_bytes(value / 256, narrower)[0]);
    }
}

/// Seven more data bits multiply the range by 128.
pub proof fn lemma_pow2_seven_more(n: nat)
    ensures
        pow2(7 * (n + 1)) == 128 * pow2(7 * n),
{
    lemma2_to64();
    lemma_pow2_adds(7 * n, 7);
    assert(7 * (n + 1) == 7 * n + 7);
}

/// `vint_width(value)` is the one width whose data bits hold `value` while
/// those of the next narrower width do not.
pub proof fn lemma_vint_width_is(value: nat, width: nat)
    requires
        width >= 1,
        value < pow2(7 * width),
        width > 1 ==> value >= pow2(7 * (width - 1) as nat),
    ensures
        vint_width(value) == width,
    decreases width,
{
    lemma2_to64();
    if width == 1 {
    } else {
        let narrower = (width - 1) as nat;
        lemma_pow2_seven_more(narrower);
        if narrower > 1 {
            lemma_pow2_seven_more((narrower - 1) as nat);
        }
        lemma_pow2_pos(7 * narrower);
        lemma_vint_width_is(value / 128, narrower);
    }
}

/// Every number up to `MAX_VINT` has a vint of at most eight octets.
pub proof fn lemma_vint_width_bounds(value: nat)
    ensures
        1 <= vint_width(value),
        value <= MAX_VINT ==> vint_width(value) <= 8,
        value < pow2(7 * vint_width(value)),
    decreases value,
{
    lemma2_to64();
    lemma2_to64_rest();
    if value >= 128 {
        lemma_vint_width_bounds(value / 128);
        lemma_pow2_seven_more(vint_width(value / 128));
        if value <= MAX_VINT {
            lemma_vint_width_fits(value / 128, 7);
        }
    }
}

/// A number below `2^(7 * width)` needs at most `width` octets.
pub proof fn lemma_vint_width_fits(value: nat, width: nat)
    requires
        width >= 1,
        value < pow2(7 * width),
    ensures
        vint_width(value) <= width,
    decreases width,
{
    lemma2_to64();
    if value >= 128 {
        if width == 1 {
        } else {
            lemma_pow2_seven_more((width - 1) as nat);
            lemma_vint_width_fits(value / 128, (width - 1) as nat);
        }
    }
}

/// Appends the `width` low-order base-256 digits of `value` to `buf`, most
/// significant digit first.
pub fn push_be_bytes(buf: &mut Vec<u8>, value: u64, width: usize)
    ensures
        final(buf)@ == old(buf)@ + be_bytes(value as nat, width as nat),
    decreases width,
{
    if width > 0 {
        push_be_bytes(buf, value / 256, width - 1);
        buf.push((value % 256) as u8);
    }
}

/// Numbers that can be written as a vint.
pub trait Vint {
    /// The number that `self` stands for.
    spec fn vint_value(&self) -> nat;

    /// Encodes `self` as the shortest vint that holds it.
    ///
    /// Fails exactly when the number exceeds `MAX_VINT`; the error then carries
    /// the number.
    fn as_vint(&self) -> (result: Result<Vec<u8>, ToolError>)
        ensures
            match result {
                Ok(bytes) => self.vint_value() <= MAX_VINT && bytes@ == vint_bytes(
                    self.vint_value(),
                ),
                Err(e) => self.vint_value() > MAX_VINT && e == ToolError::WriteVintOverflow(
                    self.vint_value() as u64,
                ),
            },
    ;
}

impl Vint for u64 {
    open spec fn vint_value(&self) -> nat {
        *self as nat
    }

    fn as_vint(&self) -> (result: Result<Vec<u8>, ToolError>) {
        let value = *self;
        if value > MAX_VINT {
            return Err(ToolError::WriteVintOverflow(value));
        }
        let mut width: usize = 1;
        let mut marker: u64 = 128;
        proof {
            lemma2_to64();
            lemma2_to64_rest();
        }
        while value >= marker
            invariant
                1 <= width <= 8,
                marker == pow2(7 * width as nat),
                value <= MAX_VINT,
                width > 1 ==> value >= pow2(7 * (width - 1) as nat),
                pow2(56) == 0x0100_0000_0000_0000,
            decreases 8 - width,
        {
            proof {
                lemma_pow2_seven_more(width as nat);
            }
            width += 1;
            marker = marker * 128;
        }
        proof {
            lemma_vint_width_is(value as nat, width as nat);
        }
        let mut bytes = Vec::new();
        push_be_bytes(&mut bytes, value + marker, width);
        Ok(bytes)
    }
}

} // verus!
