//! Little-endian fixed-width integers: writing and reading `w` bytes.

use vstd::prelude::*;

verus! {

/// `256` to the power `w`.
pub open spec fn pow256(w: nat) -> nat
    decreases w,
{
    if w == 0 {
        1
    } else {
        256 * pow256((w - 1) as nat)
    }
}

/// The `w` low bytes of `n`, least significant first.
pub open spec fn le_bytes(n: nat, w: nat) -> Seq<u8>
    decreases w,
{
    if w == 0 {
        Seq::empty()
    } else {
        seq![(n % 256) as u8] + le_bytes(n / 256, (w - 1) as nat)
    }
}

/// The number that little-endian bytes `b` stand for.
pub open spec fn le_value(b: Seq<u8>) -> nat
    decreases b.len(),
{
    if b.len() == 0 {
        0
    } else {
        b[0] as nat + 256 * le_value(b.drop_first())
    }
}

pub proof fn lemma_le_bytes_len(n: nat, w: nat)
    ensures
        le_bytes(n, w).len() == w,
    decreases w,
{
    if w > 0 {
        lemma_le_bytes_len(n / 256, (w - 1) as nat);
    }
}

/// Reading back `w` bytes written for `n` gives `n`, when `n` fits.
pub proof fn lemma_le_roundtrip(n: nat, w: nat)
    requires
        n < pow256(w),
    ensures
        le_value(le_bytes(n, w)) == n,
        le_bytes(n, w).len() == w,
    decreases w,
{
    lemma_le_bytes_len(n, w);
    if w > 0 {
        let w1 = (w - 1) as nat;
        assert(n / 256 < pow256(w1)) by (nonlinear_arith)
            requires
                n < 256 * pow256(w1),
        ;
        lemma_le_roundtrip(n / 256, w1);
        let b = le_bytes(n, w);
        assert(b.drop_first() =~= le_bytes(n / 256, w1));
        assert(n == n % 256 + 256 * (n / 256)) by (nonlinear_arith);
    }
}

/// The value of `w` little-endian bytes is below `256^w`.
pub proof fn lemma_le_value_bound(b: Seq<u8>)
    ensures
        le_value(b) < pow256(b.len()),
    decreases b.len(),
{
    if b.len() > 0 {
        lemma_le_value_bound(b.drop_first());
        let r = le_value(b.drop_first());
        let p = pow256((b.len() - 1) as nat);
        assert(b[0] as nat + 256 * r < 256 * p) by (nonlinear_arith)
            requires
                r < p,
                b[0] < 256,
        ;
    }
}

pub proof fn lemma_pow256_values()
    ensures
        pow256(1) == 0x100,
        pow256(2) == 0x10000,
        pow256(4) == 0x1_0000_0000,
        pow256(8) == 0x1_0000_0000_0000_0000,
{
    reveal_with_fuel(pow256, 9);
}

/// Appends the `w` low bytes of `n`, least significant first.
pub fn push_le(out: &mut Vec<u8>, n: u64, w: usize)
    requires
        w <= 8,
    ensures
        final(out)@ == old(out)@ + le_bytes(n as nat, w as nat),
{
    let ghost start = out@;
    let mut v: u64 = n;
    let mut i: usize = 0;
    while i < w
        invariant
            i <= w,
            out@ == start + le_bytes(n as nat, i as nat) + Seq::<u8>::empty(),
            le_bytes(n as nat, w as nat) == le_bytes(n as nat, i as nat) + le_bytes(
                v as nat,
                (w - i) as nat,
            ),
        decreases w - i,
    {
        let byte = (v & 0xff) as u8;
        proof {
            assert((v & 0xff) as u8 == (v % 256) as u8) by (bit_vector);
            assert(v >> 8 == v / 256) by (bit_vector);
            lemma_le_split(n as nat, i as nat, v as nat, (w - i) as nat);
        }
        out.push(byte);
        v = v >> 8;
        i = i + 1;
    }
    proof {
        assert(le_bytes(v as nat, 0) =~= Seq::<u8>::empty());
    }
}

proof fn lemma_le_split(n: nat, i: nat, v: nat, r: nat)
    requires
        r > 0,
        le_bytes(n, i + r) == le_bytes(n, i) + le_bytes(v, r),
    ensures
        le_bytes(n, i + 1) == le_bytes(n, i) + seq![(v % 256) as u8],
        le_bytes(n, i + r) == le_bytes(n, i + 1) + le_bytes(v / 256, (r - 1) as nat),
{
    lemma_le_prefix(n, i, r);
    lemma_le_bytes_len(n, i);
    lemma_le_bytes_len(v, r);
    let whole = le_bytes(n, i + r);
    lemma_le_prefix(n, i + 1, (r - 1) as nat);
    assert(i + 1 + (r - 1) as nat == i + r);
    assert(le_bytes(v, r) == seq![(v % 256) as u8] + le_bytes(v / 256, (r - 1) as nat));
    assert(le_bytes(n, i + 1) == whole.take((i + 1) as int));
    assert(whole.take((i + 1) as int) =~= le_bytes(n, i) + seq![(v % 256) as u8]);
    assert(whole =~= (le_bytes(n, i) + seq![(v % 256) as u8]) + le_bytes(v / 256, (r - 1) as nat));
}

/// The first `i` bytes of a wider encoding are the narrower encoding.
proof fn lemma_le_prefix(n: nat, i: nat, r: nat)
    ensures
        le_bytes(n, i + r).take(i as int) == le_bytes(n, i),
    decreases i,
{
    lemma_le_bytes_len(n, i + r);
    lemma_le_bytes_len(n, i);
    if i > 0 {
        lemma_le_prefix(n / 256, (i - 1) as nat, r);
        assert((i - 1) as nat + r == (i + r - 1) as nat);
        assert(le_bytes(n, i + r).take(i as int) =~= le_bytes(n, i));
    } else {
        assert(le_bytes(n, i + r).take(0) =~= le_bytes(n, 0));
    }
}

/// Reads the little-endian number in `b[pos..pos + w]`.
pub fn read_le(b: &[u8], pos: usize, w: usize) -> (n: u64)
    requires
        w <= 8,
        pos + w <= b@.len(),
    ensures
        n as nat == le_value(b@.subrange(pos as int, pos + w)),
{
    let mut v: u64 = 0;
    let mut i: usize = w;
    let len = b.len();
    proof {
        assert(b@.subrange(pos + w, pos + w) =~= Seq::<u8>::empty());
    }
    while i > 0
        invariant
            i <= w,
            w <= 8,
            pos + w <= b@.len(),
            len == b@.len(),
            v as nat == le_value(b@.subrange(pos + i, pos + w)),
            v < pow256((w - i) as nat),
        decreases i,
    {
        i = i - 1;
        let ghost s = b@.subrange(pos + i, pos + w);
        proof {
            assert(s.drop_first() =~= b@.subrange(pos + i + 1, pos + w));
            lemma_pow256_values();
            lemma_pow256_mono((w - i - 1) as nat, 7);
            assert(v < 0x100_0000_0000_0000);
            assert(v * 256 + (b[pos + i] as nat) < 256 * pow256((w - i - 1) as nat)) by (nonlinear_arith)
                requires
                    v < pow256((w - i - 1) as nat),
                    b[pos + i] < 256,
            ;
        }
        v = v * 256 + b[pos + i] as u64;
    }
    proof {
        assert(b@.subrange(pos as int, pos + w) == b@.subrange(pos + i, pos + w));
    }
    v
}

proof fn lemma_pow256_mono(a: nat, b: nat)
    requires
        a <= b,
    ensures
        pow256(a) <= pow256(b),
    decreases b,
{
    if a < b {
        lemma_pow256_mono(a, (b - 1) as nat);
    }
}

/// Appends the bytes of `src`.
pub fn append_bytes(out: &mut Vec<u8>, src: &[u8])
    ensures
        final(out)@ == old(out)@ + src@,
{
    let ghost start = out@;
    let mut i: usize = 0;
    while i < src.len()
        invariant
            i <= src@.len(),
            out@ == start + src@.take(i as int),
        decreases src@.len() - i,
    {
        out.push(src[i]);
        i = i + 1;
        proof {
            assert(src@.take(i as int) =~= src@.take(i - 1) + seq![src@[i - 1]]);
        }
    }
    proof {
        assert(src@.take(i as int) =~= src@);
    }
}

} // verus!
