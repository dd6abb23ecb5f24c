//! Unsigned variable-length integers: seven bits per byte, least significant
//! group first, the high bit set on every byte but the last.

use vstd::arithmetic::power2::{pow2, lemma_pow2_adds, lemma_pow2_pos};
use vstd::prelude::*;

use crate::error::{Error, ErrorKind, Result};

verus! {

/// The bytes that encode `v`.
pub open spec fn varuint_bytes(v: nat) -> Seq<u8>
    decreases v,
{
    if v < 128 {
        seq![v as u8]
    } else {
        seq![(v % 128 + 128) as u8] + varuint_bytes(v / 128)
    }
}

/// The outcome of reading a variable-length integer.
pub ghost enum VarScan {
    /// The value and the number of bytes read.
    Value(int, nat),
    /// The input ended inside the integer.
    End,
    /// The integer does not fit in 64 bits.
    Overflow,
}

/// Reads a variable-length integer from `s`, given the value `acc` of the
/// groups already read and the bit position `shift` of the next one.
pub open spec fn varuint_scan(s: Seq<u8>, acc: int, shift: nat) -> VarScan
    decreases s.len(),
{
    if s.len() == 0 {
        VarScan::End
    } else {
        let b = s[0];
        let acc2 = acc + (b % 128) * pow2(shift);
        if b < 128 {
            VarScan::Value(acc2, 1)
        } else if shift >= 64 {
            VarScan::Overflow
        } else {
            match varuint_scan(s.drop_first(), acc2, shift + 7) {
                VarScan::Value(v, n) => VarScan::Value(v, n + 1),
                other => other,
            }
        }
    }
}

/// Reads a variable-length integer of at most 64 bits from the front of `s`.
pub open spec fn varuint_parse(s: Seq<u8>) -> VarScan {
    match varuint_scan(s, 0, 0) {
        VarScan::Value(v, n) => if v <= u64::MAX {
            VarScan::Value(v, n)
        } else {
            VarScan::Overflow
        },
        other => other,
    }
}

proof fn lemma_byte_bits(b: u8)
    ensures
        b & 0x7f == b % 128,
        (b & 0x80 == 0) == (b < 128),
        (b % 128) | 0x80 == b % 128 + 128,
{
    assert(b & 0x7f == b % 128 && ((b & 0x80 == 0) == (b < 128)) && (b % 128) | 0x80 == b % 128
        + 128) by (bit_vector);
}

proof fn lemma_group_bits(v: u64)
    ensures
        v & 0x7f == v % 128,
        v >> 7 == v / 128,
{
    assert(v & 0x7f == v % 128 && v >> 7 == v / 128) by (bit_vector);
}

/// The encoding of `v` is no longer than ten bytes, one byte per seven bits.
pub proof fn lemma_varuint_bytes_len(v: nat)
    ensures
        varuint_bytes(v).len() >= 1,
        v < pow2(7) ==> varuint_bytes(v).len() == 1,
        v >= pow2(7) ==> varuint_bytes(v).len() == 1 + varuint_bytes(v / 128).len(),
    decreases v,
{
    vstd::arithmetic::power2::lemma2_to64();
    if v >= 128 {
        lemma_varuint_bytes_len(v / 128);
    }
}

/// Appends the encoding of `value`.
pub fn pack_varuint(bytes: &mut Vec<u8>, value: u64)
    ensures
        final(bytes)@ == old(bytes)@ + varuint_bytes(value as nat),
{
    if value == 0 {
        bytes.push(0);
        proof {
            assert(final(bytes)@ =~= old(bytes)@ + varuint_bytes(0));
        }
        return;
    }
    let mut rest = value;
    while rest > 0
        invariant
            rest > 0,
            bytes@ + varuint_bytes(rest as nat) == old(bytes)@ + varuint_bytes(value as nat),
        decreases rest,
    {
        proof {
            lemma_group_bits(rest);
        }
        let mut byte = (rest & 0x7F) as u8;
        if rest > 0x7F {
            proof {
                lemma_byte_bits(byte);
            }
            byte |= 0x80;
        }
        let ghost prev = bytes@;
        let ghost w = rest as nat;
        bytes.push(byte);
        rest >>= 7;
        proof {
            if w >= 128 {
                assert(varuint_bytes(w) == seq![byte] + varuint_bytes(w / 128));
                assert(bytes@ + varuint_bytes(rest as nat) =~= prev + varuint_bytes(w));
            } else {
                assert(rest == 0);
                assert(varuint_bytes(w) == seq![byte]);
                assert(bytes@ =~= prev + varuint_bytes(w));
            }
        }
        if rest == 0 {
            proof {
                assert(bytes@ =~= old(bytes)@ + varuint_bytes(value as nat));
            }
            return;
        }
    }
}

/// The number of bytes that encode `value`.
pub fn varuint_len(value: u64) -> (n: usize)
    ensures
        n == varuint_bytes(value as nat).len(),
{
    let bits = 64 - value.leading_zeros() as usize;
    let bits = if bits < 1 {
        1
    } else {
        bits
    };
    proof {
        lemma_varuint_len_bits(value);
    }
    (bits + 6) / 7
}

proof fn lemma_varuint_scan_len(s: Seq<u8>, acc: int, shift: nat)
    ensures
        varuint_scan(s, acc, shift) matches VarScan::Value(_, n) ==> 1 <= n <= s.len(),
    decreases s.len(),
{
    if s.len() > 0 {
        let b = s[0];
        lemma_varuint_scan_len(s.drop_first(), acc + (b % 128) * pow2(shift), shift + 7);
    }
}

/// A variable-length integer read takes at least one byte and no more than
/// there are.
pub proof fn lemma_varuint_parse_len(s: Seq<u8>)
    ensures
        varuint_parse(s) matches VarScan::Value(_, n) ==> 1 <= n <= s.len(),
{
    lemma_varuint_scan_len(s, 0, 0);
}

/// A reading outcome with `k` more bytes counted.
pub open spec fn count_more(r: VarScan, k: nat) -> VarScan {
    match r {
        VarScan::Value(v, n) => VarScan::Value(v, n + k),
        other => other,
    }
}

/// Reads the variable-length integer at `pos`, returning it and the position
/// after it. A truncated input and an integer beyond 64 bits are
/// `InvalidData` errors.
pub fn read_varuint(b: &[u8], pos: usize) -> (r: Result<(u64, usize)>)
    requires
        pos <= b@.len(),
    ensures
        match varuint_parse(b@.skip(pos as int)) {
            VarScan::Value(v, n) => r matches Ok((x, end)) && x == v && end == pos + n,
            _ => r matches Err(e) && e.spec_kind() == ErrorKind::InvalidData,
        },
{
    let mut acc: u128 = 0;
    let mut mult: u128 = 1;
    let mut shift: u64 = 0;
    let mut i: usize = pos;
    let len = b.len();
    proof {
        vstd::arithmetic::power2::lemma2_to64();
        assert(b@.skip(pos as int) == b@.skip(i as int));
    }
    loop
        invariant
            len == b@.len(),
            pos <= i <= len,
            shift <= 70,
            shift % 7 == 0,
            mult == pow2(shift as nat),
            acc < mult,
            varuint_scan(b@.skip(pos as int), 0, 0) == count_more(
                varuint_scan(b@.skip(i as int), acc as int, shift as nat),
                (i - pos) as nat,
            ),
        decreases len - i,
    {
        if i >= len {
            return Err(Error::new(ErrorKind::InvalidData, "unexpected end of varuint"));
        }
        let byte = b[i];
        proof {
            vstd::arithmetic::power2::lemma2_to64();
            lemma_pow2_pos(shift as nat);
            lemma_pow2_adds(64, 6);
            if shift < 70 {
                vstd::arithmetic::power2::lemma_pow2_strictly_increases(shift as nat, 70);
            }
            assert(mult <= 0x40_0000_0000_0000_0000);
            assert((byte % 128) as u128 * mult <= 127 * mult) by (nonlinear_arith)
                requires
                    byte % 128 <= 127,
            ;
            assert(b@.skip(i as int).drop_first() =~= b@.skip(i + 1));
            assert(b@.skip(i as int)[0] == byte);
        }
        let next = acc + (byte % 128) as u128 * mult;
        i = i + 1;
        if byte < 128 {
            proof {
                assert(varuint_scan(b@.skip(pos as int), 0, 0) == VarScan::Value(
                    next as int,
                    (i - pos) as nat,
                ));
            }
            if next > 0xFFFF_FFFF_FFFF_FFFF {
                return Err(Error::new(ErrorKind::InvalidData, "varuint overflow"));
            }
            return Ok((next as u64, i));
        }
        if shift >= 64 {
            return Err(Error::new(ErrorKind::InvalidData, "varuint overflow"));
        }
        proof {
            vstd::arithmetic::power2::lemma2_to64();
            lemma_pow2_adds(shift as nat, 7);
            assert(next < mult * 128) by (nonlinear_arith)
                requires
                    next == acc + (byte % 128) as u128 * mult,
                    acc < mult,
                    byte % 128 <= 127,
            ;
        }
        acc = next;
        mult = mult * 128;
        shift = shift + 7;
    }
}

/// The bit length of `v`.
pub open spec fn bit_len(v: nat) -> nat
    decreases v,
{
    if v == 0 {
        0
    } else {
        1 + bit_len(v / 2)
    }
}

proof fn lemma_leading_zeros(v: u64)
    ensures
        vstd::std_specs::bits::u64_leading_zeros(v) == 64 - bit_len(v as nat),
    decreases v,
{
    reveal(vstd::std_specs::bits::u64_leading_zeros);
    if v != 0 {
        lemma_leading_zeros(v / 2);
    }
}

proof fn lemma_bit_len_pow2(v: nat, k: nat)
    ensures
        bit_len(v) <= k <==> v < pow2(k),
    decreases v,
{
    lemma_pow2_pos(k);
    if v > 0 {
        if k > 0 {
            lemma_bit_len_pow2(v / 2, (k - 1) as nat);
            lemma_pow2_adds(1, (k - 1) as nat);
            vstd::arithmetic::power2::lemma2_to64();
        } else {
            vstd::arithmetic::power2::lemma2_to64();
        }
    }
}

proof fn lemma_bit_len_shift(v: nat, j: nat)
    requires
        v >= pow2(j),
    ensures
        bit_len(v) == j + bit_len(v / pow2(j)),
    decreases j,
{
    vstd::arithmetic::power2::lemma2_to64();
    if j > 0 {
        lemma_pow2_adds(1, (j - 1) as nat);
        lemma_pow2_pos((j - 1) as nat);
        assert(v / 2 >= pow2((j - 1) as nat)) by {
            vstd::arithmetic::div_mod::lemma_div_is_ordered(
                (2 * pow2((j - 1) as nat)) as int,
                v as int,
                2,
            );
            vstd::arithmetic::div_mod::lemma_div_multiples_vanish(pow2((j - 1) as nat) as int, 2);
        }
        lemma_bit_len_shift(v / 2, (j - 1) as nat);
        vstd::arithmetic::div_mod::lemma_div_denominator(v as int, 2, pow2((j - 1) as nat) as int);
        assert(pow2(j) == 2 * pow2((j - 1) as nat));
        assert(v / 2 / pow2((j - 1) as nat) == v / pow2(j));
        assert(v > 0);
        assert(bit_len(v) == 1 + bit_len(v / 2));
    } else {
        assert(v / pow2(0) == v);
    }
}

proof fn lemma_bit_len_div128(v: nat)
    ensures
        bit_len(v) <= 7 <==> v < 128,
        v >= 128 ==> bit_len(v) == 7 + bit_len(v / 128),
{
    vstd::arithmetic::power2::lemma2_to64();
    lemma_bit_len_pow2(v, 7);
    if v >= 128 {
        lemma_bit_len_shift(v, 7);
    }
}

proof fn lemma_varuint_len_bits(v: u64)
    ensures
        ({
            let bits = 64 - vstd::std_specs::bits::u64_leading_zeros(v);
            let bits = if bits < 1 {
                1
            } else {
                bits
            };
            (bits + 6) / 7 == varuint_bytes(v as nat).len()
        }),
{
    lemma_leading_zeros(v);
    lemma_varuint_bits_nat(v as nat);
}

proof fn lemma_varuint_bits_nat(v: nat)
    ensures
        ({
            let bits = if bit_len(v) < 1 {
                1
            } else {
                bit_len(v)
            };
            (bits + 6) / 7 == varuint_bytes(v).len()
        }),
    decreases v,
{
    lemma_bit_len_div128(v);
    if v >= 128 {
        lemma_varuint_bits_nat(v / 128);
        lemma_bit_len_div128(v / 128);
    } else {
        if v == 0 {
            assert(bit_len(0) == 0);
        }
    }
}

/// Reading the encoding of `w` at bit position `shift` adds `w` shifted by
/// `shift` to the value read so far.
proof fn lemma_scan_bytes(w: nat, rest: Seq<u8>, acc: int, shift: nat)
    requires
        shift < 64,
        w * pow2(shift) < pow2(64),
    ensures
        varuint_scan(varuint_bytes(w) + rest, acc, shift) == VarScan::Value(
            acc + w * pow2(shift),
            varuint_bytes(w).len(),
        ),
    decreases w,
{
    let s = varuint_bytes(w) + rest;
    lemma_pow2_pos(shift);
    if w < 128 {
        assert(s[0] == w as u8);
    } else {
        let b = (w % 128 + 128) as u8;
        assert(s[0] == b);
        assert(s.drop_first() =~= varuint_bytes(w / 128) + rest);
        lemma_pow2_adds(shift, 7);
        vstd::arithmetic::power2::lemma2_to64();
        assert(pow2(shift + 7) == pow2(shift) * 128);
        let p = pow2(shift);
        assert(w == (w / 128) * 128 + w % 128) by (nonlinear_arith);
        assert(w * p == (w / 128) * (p * 128) + (w % 128) * p) by (nonlinear_arith)
            requires
                w == (w / 128) * 128 + w % 128,
        ;
        assert(128 * p <= w * p) by (nonlinear_arith)
            requires
                w >= 128,
        ;
        if shift + 7 >= 64 {
            vstd::arithmetic::power2::lemma_pow2_strictly_increases(64, shift + 7);
            if shift + 7 > 64 {
            }
            assert(pow2(64) <= pow2(shift + 7)) by {
                if shift + 7 > 64 {
                    vstd::arithmetic::power2::lemma_pow2_strictly_increases(64, shift + 7);
                }
            }
            assert(false);
        }
        assert((w / 128) * pow2(shift + 7) < pow2(64));
        lemma_scan_bytes(w / 128, rest, acc + (w % 128) * p, shift + 7);
    }
}

/// Reading the encoding of a 64-bit `v` gives `v` back and consumes
/// exactly its bytes, whatever follows.
pub proof fn lemma_varuint_roundtrip(v: u64, rest: Seq<u8>)
    ensures
        varuint_parse(varuint_bytes(v as nat) + rest) == VarScan::Value(
            v as int,
            varuint_bytes(v as nat).len(),
        ),
{
    vstd::arithmetic::power2::lemma2_to64();
    vstd::arithmetic::power2::lemma2_to64_rest();
    lemma_scan_bytes(v as nat, rest, 0, 0);
}

} // verus!
