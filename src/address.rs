//! Splitting a 64-bit address into tag, set index and block offset.

use vstd::arithmetic::div_mod::{lemma_div_denominator, lemma_fundamental_div_mod};
use vstd::arithmetic::mul::{lemma_mul_is_associative, lemma_mul_is_distributive_add_other_way};
use vstd::arithmetic::power2::{lemma2_to64, lemma_pow2_adds, lemma_pow2_pos, pow2};
use vstd::bits::{lemma_u64_pow2_no_overflow, lemma_u64_shl_is_mul, lemma_u64_shr_is_div};
use vstd::prelude::*;

verus! {

/// The three fields of an address under a given geometry.
#[derive(PartialEq, Eq, Structural, Debug, Clone, Copy)]
pub struct AddressPartition {
    pub tag: u64,
    pub set: u64,
    pub block: u64,
}

/// The high-order bits, above the set index and block offset.
pub open spec fn tag_of(address: u64, set_bits: nat, block_bits: nat) -> nat {
    address as nat / pow2(set_bits + block_bits)
}

/// The `set_bits` bits just below the tag.
pub open spec fn set_of(address: u64, set_bits: nat, block_bits: nat) -> nat {
    (address as nat / pow2(block_bits)) % pow2(set_bits)
}

/// The low `block_bits` bits.
pub open spec fn block_of(address: u64, block_bits: nat) -> nat {
    address as nat % pow2(block_bits)
}

/// The address that a tag, set index and block offset stand for.
pub open spec fn reassemble(tag: nat, set: nat, block: nat, set_bits: nat, block_bits: nat) -> int {
    (tag * pow2(set_bits + block_bits) + set * pow2(block_bits) + block) as int
}

/// A geometry whose fields fit in the 64 bits of an address.
pub open spec fn valid_split(set_bits: nat, block_bits: nat) -> bool {
    set_bits + block_bits <= 64
}

/// `address / 2^shift`, also for a shift of 64.
pub(crate) fn shift_down(address: u64, shift: u32) -> (r: u64)
    requires
        shift <= 64,
    ensures
        r as nat == address as nat / pow2(shift as nat),
{
    if shift >= 64 {
        proof {
            lemma2_to64();
            assert(address as nat / pow2(64) == 0) by (nonlinear_arith)
                requires
                    pow2(64) == 0x1_0000_0000_0000_0000,
                    (address as nat) < 0x1_0000_0000_0000_0000,
            ;
        }
        0
    } else {
        proof {
            lemma_u64_shr_is_div(address, shift as u64);
        }
        address >> (shift as u64)
    }
}

/// `value % 2^bits`, also for 64 bits.
pub(crate) fn low_bits(value: u64, bits: u32) -> (r: u64)
    requires
        bits <= 64,
    ensures
        r as nat == value as nat % pow2(bits as nat),
{
    if bits >= 64 {
        proof {
            lemma2_to64();
            assert(value as nat % pow2(64) == value as nat) by (nonlinear_arith)
                requires
                    pow2(64) == 0x1_0000_0000_0000_0000,
                    (value as nat) < 0x1_0000_0000_0000_0000,
            ;
        }
        value
    } else {
        proof {
            lemma_u64_pow2_no_overflow(bits as nat);
            lemma_u64_shl_is_mul(1, bits as u64);
        }
        let m: u64 = 1u64 << (bits as u64);
        value % m
    }
}

/// Reassembling an address from its tag, set index and block offset gives the
/// address back, for every address and every geometry that fits in 64 bits.
pub proof fn lemma_split_round_trip(address: u64, set_bits: nat, block_bits: nat)
    requires
        valid_split(set_bits, block_bits),
    ensures
        reassemble(
            tag_of(address, set_bits, block_bits),
            set_of(address, set_bits, block_bits),
            block_of(address, block_bits),
            set_bits,
            block_bits,
        ) == address as int,
{
    let a = address as int;
    let ps = pow2(set_bits) as int;
    let pb = pow2(block_bits) as int;
    lemma_pow2_pos(set_bits);
    lemma_pow2_pos(block_bits);
    lemma_pow2_adds(set_bits, block_bits);
    let rest = a / pb;
    lemma_fundamental_div_mod(a, pb);
    lemma_fundamental_div_mod(rest, ps);
    lemma_div_denominator(a, pb, ps);
    assert(pow2(set_bits + block_bits) == pb * ps) by (nonlinear_arith)
        requires
            pow2(set_bits + block_bits) == pow2(set_bits) * pow2(block_bits),
            ps == pow2(set_bits),
            pb == pow2(block_bits),
    ;
    let t = rest / ps;
    let st = rest % ps;
    assert(a == t * (pb * ps) + st * pb + a % pb) by (nonlinear_arith)
        requires
            a == pb * rest + a % pb,
            rest == ps * t + st,
    ;
}

} // verus!
