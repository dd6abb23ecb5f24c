//! Value headers: a tag in the high four bits of a byte and, in the low four,
//! either a small number or the width of the little-endian number after it.
//! Also the rules that choose between a pool reference and a literal.

use vstd::prelude::*;

use super::consts::{BITS_16, BITS_32, BITS_64, BITS_8, INLINE};
use super::varuint::{varuint_bytes, varuint_len};
use crate::le::{
    lemma_le_bytes_len, lemma_le_roundtrip, lemma_le_value_bound, lemma_pow256_values, le_bytes,
    le_value, pow256, push_le, read_le,
};

verus! {

/// The number of bytes after the header that carry `n`: none when `n` is at
/// most `inline`, else the smallest of 1, 2, 4 and 8 that holds it.
pub open spec fn width_for(n: nat, inline: nat) -> nat {
    if n <= inline {
        0
    } else if n <= 0xff {
        1
    } else if n <= 0xffff {
        2
    } else if n <= 0xffff_ffff {
        4
    } else {
        8
    }
}

/// Bytes following the tag for an integer or a collection length.
pub fn payload_width(value: u64, inline: u8) -> (w: usize)
    ensures
        w == width_for(value as nat, inline as nat),
{
    if value <= inline as u64 {
        0
    } else if value <= 0xff {
        1
    } else if value <= 0xffff {
        2
    } else if value <= 0xffff_ffff {
        4
    } else {
        8
    }
}

/// The header payload announcing `w` following bytes.
pub open spec fn width_code(w: nat) -> u8 {
    if w == 1 {
        BITS_8
    } else if w == 2 {
        BITS_16
    } else if w == 4 {
        BITS_32
    } else {
        BITS_64
    }
}

/// The number of bytes a header payload announces.
pub open spec fn code_width(p: nat) -> nat {
    if p == BITS_8 {
        1
    } else if p == BITS_16 {
        2
    } else if p == BITS_32 {
        4
    } else {
        8
    }
}

/// The header of a value with tag `tag` carrying `n`.
pub open spec fn head_bytes(tag: u8, n: nat) -> Seq<u8> {
    let w = width_for(n, INLINE as nat);
    if w == 0 {
        seq![(tag * 16 + n) as u8]
    } else {
        seq![(tag * 16 + width_code(w)) as u8] + le_bytes(n, w)
    }
}

/// Reads a header from the front of `s`: the number it carries and its
/// length, or nothing when `s` ends inside it.
pub open spec fn head_parse(s: Seq<u8>) -> Option<(nat, nat)> {
    if s.len() == 0 {
        None
    } else {
        let p = (s[0] % 16) as nat;
        if p <= INLINE {
            Some((p, 1))
        } else {
            let w = code_width(p);
            if s.len() < 1 + w {
                None
            } else {
                Some((le_value(s.subrange(1, 1 + w as int)), 1 + w))
            }
        }
    }
}

/// A header is read back as written, whatever follows it.
pub proof fn lemma_head_roundtrip(tag: u8, n: nat, rest: Seq<u8>)
    requires
        tag < 16,
        n < 0x1_0000_0000_0000_0000,
    ensures
        head_parse(head_bytes(tag, n) + rest) == Some((n, head_bytes(tag, n).len())),
        (head_bytes(tag, n) + rest)[0] / 16 == tag,
        1 <= head_bytes(tag, n).len() <= 9,
{
    let w = width_for(n, INLINE as nat);
    let s = head_bytes(tag, n) + rest;
    lemma_pow256_values();
    if w == 0 {
        assert(s[0] == (tag * 16 + n) as u8);
    } else {
        lemma_le_roundtrip(n, w);
        assert(s[0] == (tag * 16 + width_code(w)) as u8);
        assert(code_width(width_code(w) as nat) == w);
        assert(s.subrange(1, 1 + w as int) =~= le_bytes(n, w));
    }
}

/// The length of a header carrying `n`.
pub proof fn lemma_head_len(tag: u8, n: nat)
    ensures
        head_bytes(tag, n).len() == 1 + width_for(n, INLINE as nat),
{
    let w = width_for(n, INLINE as nat);
    if w > 0 {
        lemma_le_bytes_len(n, w);
    }
}

/// Appends the header of a value with tag `tag` carrying `n`.
pub fn pack_head(out: &mut Vec<u8>, tag: u8, n: u64)
    requires
        tag < 16,
    ensures
        final(out)@ == old(out)@ + head_bytes(tag, n as nat),
{
    let w = payload_width(n, INLINE);
    if w == 0 {
        out.push(tag * 16 + n as u8);
    } else {
        let code = if w == 1 {
            BITS_8
        } else if w == 2 {
            BITS_16
        } else if w == 4 {
            BITS_32
        } else {
            BITS_64
        };
        out.push(tag * 16 + code);
        push_le(out, n, w);
        proof {
            assert(final(out)@ =~= old(out)@ + head_bytes(tag, n as nat));
        }
    }
}

/// Reads the header at `pos`: the number it carries and the position after
/// it, or nothing when the input ends inside it.
pub fn read_head(b: &[u8], pos: usize) -> (r: Option<(u64, usize)>)
    requires
        pos <= b@.len(),
    ensures
        match head_parse(b@.skip(pos as int)) {
            Some((n, c)) => r matches Some((x, end)) && x == n && end == pos + c,
            None => r is None,
        },
{
    if pos >= b.len() {
        return None;
    }
    let p = b[pos] % 16;
    if p <= INLINE {
        return Some((p as u64, pos + 1));
    }
    let w: usize = if p == BITS_8 {
        1
    } else if p == BITS_16 {
        2
    } else if p == BITS_32 {
        4
    } else {
        8
    };
    if b.len() - pos - 1 < w {
        return None;
    }
    let n = read_le(b, pos + 1, w);
    proof {
        assert(b@.skip(pos as int).subrange(1, 1 + w as int) =~= b@.subrange(
            pos + 1,
            pos + 1 + w,
        ));
    }
    Some((n, pos + 1 + w))
}

/// Use a pool reference only when it is strictly shorter than the literal.
pub open spec fn ref_shorter(value_len: nat, key: nat) -> bool {
    1 + width_for(key, INLINE as nat) < 1 + width_for(value_len, INLINE as nat) + value_len
}

/// The key to reference a text string of `value_len` bytes by, when one is
/// known and its reference is strictly shorter than the literal.
pub fn tstr_ref_key(value_len: usize, key: Option<u32>) -> (r: Option<u32>)
    ensures
        r == (match key {
            Some(k) => if ref_shorter(value_len as nat, k as nat) {
                Some(k)
            } else {
                None
            },
            None => None,
        }),
{
    match key {
        Some(k) => {
            let literal_len = 1 + payload_width(value_len as u64, INLINE) as u128
                + value_len as u128;
            if 1 + (payload_width(k as u64, INLINE) as u128) < literal_len {
                Some(k)
            } else {
                None
            }
        },
        None => None,
    }
}

/// The encoded length of a text string of `value_len` bytes, referenced by
/// `key` where [`tstr_ref_key`] chooses so.
pub fn tstr_encoded_len(value_len: usize, key: Option<u32>) -> (n: u128)
    ensures
        n as int == match key {
            Some(k) => if ref_shorter(value_len as nat, k as nat) {
                1 + width_for(k as nat, INLINE as nat) as int
            } else {
                1 + width_for(value_len as nat, INLINE as nat) + value_len as int
            },
            None => 1 + width_for(value_len as nat, INLINE as nat) + value_len as int,
        },
{
    match tstr_ref_key(value_len, key) {
        Some(k) => 1 + payload_width(k as u64, INLINE) as u128,
        None => 1 + payload_width(value_len as u64, INLINE) as u128 + value_len as u128,
    }
}

/// A path key referenced by `key` is strictly shorter than its literal.
pub open spec fn path_ref_shorter(value_len: nat, key: nat) -> bool {
    varuint_bytes(key * 4 + 2).len() < varuint_bytes(value_len * 4).len() + value_len
}

/// The key to reference a path key of `value_len` bytes by, when one is known
/// and its reference is strictly shorter than the literal.
pub fn path_key_ref_key(value_len: usize, key: Option<u32>) -> (r: Option<u32>)
    requires
        value_len < 0x4000_0000_0000_0000,
    ensures
        r == (match key {
            Some(k) => if path_ref_shorter(value_len as nat, k as nat) {
                Some(k)
            } else {
                None
            },
            None => None,
        }),
{
    match key {
        Some(k) => {
            let literal_len = varuint_len((value_len as u64) * 4) as u128 + value_len as u128;
            if (varuint_len((k as u64) * 4 + 2) as u128) < literal_len {
                Some(k)
            } else {
                None
            }
        },
        None => None,
    }
}

} // verus!
