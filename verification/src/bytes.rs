//! Bounds-checked big-endian integer reads and writes over byte buffers.
//!
//! Every ISO-BMFF field is a fixed-width big-endian integer; the spec
//! functions here are the single definition of what those fields mean,
//! and every codec contract in the crate is stated over them.

use vstd::prelude::*;

verus! {

/// The 16-bit big-endian integer stored at byte offset `i` of `s`.
pub open spec fn be16(s: Seq<u8>, i: int) -> int {
    s[i] * 0x100 + s[i + 1]
}

/// The 24-bit big-endian integer stored at byte offset `i` of `s`
/// (FullBox flags are stored this way).
pub open spec fn be24(s: Seq<u8>, i: int) -> int {
    s[i] * 0x10000 + s[i + 1] * 0x100 + s[i + 2]
}

/// The 32-bit big-endian integer stored at byte offset `i` of `s`.
pub open spec fn be32(s: Seq<u8>, i: int) -> int {
    s[i] * 0x1000000 + s[i + 1] * 0x10000 + s[i + 2] * 0x100 + s[i + 3]
}

/// The 64-bit big-endian integer stored at byte offset `i` of `s`.
pub open spec fn be64(s: Seq<u8>, i: int) -> int {
    be32(s, i) * 0x100000000 + be32(s, i + 4)
}

/// The four bytes that encode `v` as a 32-bit big-endian integer.
pub open spec fn be32_bytes(v: int) -> Seq<u8> {
    seq![
        ((v / 0x1000000) % 0x100) as u8,
        ((v / 0x10000) % 0x100) as u8,
        ((v / 0x100) % 0x100) as u8,
        (v % 0x100) as u8,
    ]
}

/// The eight bytes that encode `v` as a 64-bit big-endian integer.
pub open spec fn be64_bytes(v: int) -> Seq<u8> {
    be32_bytes(v / 0x100000000) + be32_bytes(v % 0x100000000)
}

/// Reads the 32-bit big-endian integer at offset `off`.
pub fn read_be_u32(data: &[u8], off: usize) -> (r: u32)
    requires
        off + 4 <= data@.len(),
    ensures
        r == be32(data@, off as int),
{
    let b0 = data[off] as u32;
    let b1 = data[off + 1] as u32;
    let b2 = data[off + 2] as u32;
    let b3 = data[off + 3] as u32;
    b0 * 0x1000000 + b1 * 0x10000 + b2 * 0x100 + b3
}

/// Reads the 64-bit big-endian integer at offset `off`.
pub fn read_be_u64(data: &[u8], off: usize) -> (r: u64)
    requires
        off + 8 <= data@.len(),
    ensures
        r == be64(data@, off as int),
{
    let n = data.len();
    assert(off + 8 <= n);
    let hi = read_be_u32(data, off) as u64;
    let lo = read_be_u32(data, off + 4) as u64;
    hi * 0x100000000 + lo
}

/// Appends the 32-bit big-endian encoding of `v` to `out`.
pub fn push_be_u32(out: &mut Vec<u8>, v: u32)
    ensures
        final(out)@ == old(out)@ + be32_bytes(v as int),
{
    out.push((v / 0x1000000) as u8);
    out.push(((v / 0x10000) % 0x100) as u8);
    out.push(((v / 0x100) % 0x100) as u8);
    out.push((v % 0x100) as u8);
    proof {
        assert(out@ =~= old(out)@ + be32_bytes(v as int));
    }
}

/// Appends the 64-bit big-endian encoding of `v` to `out`.
pub fn push_be_u64(out: &mut Vec<u8>, v: u64)
    ensures
        final(out)@ == old(out)@ + be64_bytes(v as int),
{
    push_be_u32(out, (v / 0x100000000) as u32);
    push_be_u32(out, (v % 0x100000000) as u32);
    proof {
        assert(out@ =~= old(out)@ + be64_bytes(v as int));
    }
}

/// Appends every byte of `src` to `out`.
pub fn push_bytes(out: &mut Vec<u8>, src: &[u8])
    ensures
        final(out)@ == old(out)@ + src@,
{
    let mut i: usize = 0;
    while i < src.len()
        invariant
            i <= src@.len(),
            out@ == old(out)@ + src@.subrange(0, i as int),
        decreases src@.len() - i,
    {
        out.push(src[i]);
        i = i + 1;
        proof {
            assert(out@ =~= old(out)@ + src@.subrange(0, i as int));
        }
    }
    proof {
        assert(src@.subrange(0, src@.len() as int) =~= src@);
    }
}

/// Overwrites `out[off .. off + 4]` with the big-endian encoding of `v`.
pub fn store_be_u32(out: &mut Vec<u8>, off: usize, v: u32)
    requires
        off + 4 <= old(out)@.len(),
    ensures
        final(out)@.len() == old(out)@.len(),
        final(out)@ == old(out)@.update(off as int, be32_bytes(v as int)[0])
            .update(off + 1, be32_bytes(v as int)[1])
            .update(off + 2, be32_bytes(v as int)[2])
            .update(off + 3, be32_bytes(v as int)[3]),
{
    let n = out.len();
    assert(off + 4 <= n);
    out.set(off, (v / 0x1000000) as u8);
    out.set(off + 1, ((v / 0x10000) % 0x100) as u8);
    out.set(off + 2, ((v / 0x100) % 0x100) as u8);
    out.set(off + 3, (v % 0x100) as u8);
}

/// Appends the low 64 bits of `v` in big-endian order. Taking the
/// count as `u128` lets a caller form `16 + len` without overflow even
/// when `len` is the largest `usize`.
pub fn push_be_u64_wide(out: &mut Vec<u8>, v: u128)
    requires
        v <= 0x10000000000000000 + 16,
    ensures
        final(out)@ == old(out)@ + be64_bytes(v as int),
{
    let q: u128 = v / 0x100000000;
    let hi: u32 = (q % 0x100000000) as u32;
    let lo: u32 = (v % 0x100000000) as u32;
    proof {
        if q < 0x100000000 {
            assert(be32_bytes(hi as int) == be32_bytes(q as int));
        } else {
            assert(q == 0x100000000);
            assert(hi == 0);
            assert(be32_bytes(hi as int) =~= be32_bytes(q as int));
        }
    }
    push_be_u32(out, hi);
    push_be_u32(out, lo);
    proof {
        assert(out@ =~= old(out)@ + be64_bytes(v as int));
    }
}

/// Overwrites `out[off .. off + 8]` with the big-endian encoding of `v`.
pub fn store_be_u64(out: &mut Vec<u8>, off: usize, v: u64)
    requires
        off + 8 <= old(out)@.len(),
    ensures
        final(out)@.len() == old(out)@.len(),
        forall|k: int| 0 <= k < old(out)@.len() && !(off <= k < off + 8)
            ==> final(out)@[k] == old(out)@[k],
        forall|k: int| off <= k < off + 8 ==> final(out)@[k] == be64_bytes(v as int)[k - off],
{
    let n = out.len();
    assert(off + 8 <= n);
    store_be_u32(out, off, (v / 0x100000000) as u32);
    store_be_u32(out, off + 4, (v % 0x100000000) as u32);
    proof {
        assert forall|k: int| off <= k < off + 8 implies final(out)@[k] == be64_bytes(
            v as int,
        )[k - off] by {
            if k - off < 4 {
                assert(be64_bytes(v as int)[k - off] == be32_bytes(v as int / 0x100000000)[k
                    - off]);
            } else {
                assert(be64_bytes(v as int)[k - off] == be32_bytes(v as int % 0x100000000)[k - off
                    - 4]);
            }
        }
    }
}

/// A 32-bit big-endian encoding decodes to the value it was built from.
pub proof fn lemma_be32_roundtrip(v: int)
    requires
        0 <= v < 0x100000000,
    ensures
        be32(be32_bytes(v), 0) == v,
{
}

/// A 64-bit big-endian encoding decodes to the value it was built from.
pub proof fn lemma_be64_roundtrip(v: int)
    requires
        0 <= v < 0x10000000000000000,
    ensures
        be64(be64_bytes(v), 0) == v,
{
    assert(be32_bytes(v / 0x100000000).len() == 4);
    assert(be64_bytes(v)[4] == be32_bytes(v % 0x100000000)[0]);
    assert(be64_bytes(v)[5] == be32_bytes(v % 0x100000000)[1]);
    assert(be64_bytes(v)[6] == be32_bytes(v % 0x100000000)[2]);
    assert(be64_bytes(v)[7] == be32_bytes(v % 0x100000000)[3]);
    lemma_be32_roundtrip(v / 0x100000000);
    lemma_be32_roundtrip(v % 0x100000000);
    assert(be32(be64_bytes(v), 0) == v / 0x100000000);
    assert(be32(be64_bytes(v), 4) == v % 0x100000000);
}

/// Appends `n` zero bytes to `out`.
pub fn push_zeros(out: &mut Vec<u8>, n: usize)
    ensures
        final(out)@ == old(out)@ + Seq::new(n as nat, |_i: int| 0u8),
{
    let mut i: usize = 0;
    while i < n
        invariant
            i <= n,
            out@ == old(out)@ + Seq::new(i as nat, |_i: int| 0u8),
        decreases n - i,
    {
        out.push(0);
        i = i + 1;
        proof {
            assert(out@ =~= old(out)@ + Seq::new(i as nat, |_i: int| 0u8));
        }
    }
}

/// The 32-bit big-endian encoding only sees the low 32 bits.
pub proof fn lemma_be32_bytes_mod(v: int)
    requires
        v >= 0,
    ensures
        be32_bytes(v % 0x100000000) == be32_bytes(v),
{
    let r = v % 0x100000000;
    let q = v / 0x100000000;
    vstd::arithmetic::div_mod::lemma_fundamental_div_mod(v, 0x100000000);
    assert(v == q * 0x100000000 + r);
    assert(0 <= r < 0x100000000);
    assert(v / 0x1000000 == q * 0x100 + r / 0x1000000) by (nonlinear_arith)
        requires v == q * 0x100000000 + r, 0 <= r < 0x100000000;
    assert((q * 0x100 + r / 0x1000000) % 0x100 == (r / 0x1000000) % 0x100) by (nonlinear_arith)
        requires r >= 0;
    assert(v / 0x10000 == q * 0x10000 + r / 0x10000) by (nonlinear_arith)
        requires v == q * 0x100000000 + r, 0 <= r < 0x100000000;
    assert((q * 0x10000 + r / 0x10000) % 0x100 == (r / 0x10000) % 0x100) by (nonlinear_arith)
        requires r >= 0;
    assert(v / 0x100 == q * 0x1000000 + r / 0x100) by (nonlinear_arith)
        requires v == q * 0x100000000 + r, 0 <= r < 0x100000000;
    assert((q * 0x1000000 + r / 0x100) % 0x100 == (r / 0x100) % 0x100) by (nonlinear_arith)
        requires r >= 0;
    assert(v % 0x100 == r % 0x100) by (nonlinear_arith)
        requires v == q * 0x100000000 + r, 0 <= r < 0x100000000;
    assert(be32_bytes(r) =~= be32_bytes(v));
}

/// Encoding the value read from four bytes gives those bytes back.
pub proof fn lemma_be32_bytes_of_be32(s: Seq<u8>)
    requires
        s.len() == 4,
    ensures
        be32_bytes(be32(s, 0)) == s,
{
    assert(be32_bytes(be32(s, 0)) =~= s);
}

/// Two four-byte windows with the same 32-bit value are the same bytes.
pub proof fn lemma_be32_bytes_unique(s: Seq<u8>, t: Seq<u8>)
    requires
        s.len() == 4,
        t.len() == 4,
        be32(s, 0) == be32(t, 0),
    ensures
        s == t,
{
    lemma_be32_bytes_of_be32(s);
    lemma_be32_bytes_of_be32(t);
}

/// Reading four bytes sees only those four bytes: equal windows give
/// equal values.
pub proof fn lemma_be32_depends_on_window(s: Seq<u8>, i: int, t: Seq<u8>, j: int)
    requires
        0 <= i, i + 4 <= s.len(),
        0 <= j, j + 4 <= t.len(),
        s.subrange(i, i + 4) == t.subrange(j, j + 4),
    ensures
        be32(s, i) == be32(t, j),
{
    assert(s[i] == s.subrange(i, i + 4)[0]);
    assert(s[i + 1] == s.subrange(i, i + 4)[1]);
    assert(s[i + 2] == s.subrange(i, i + 4)[2]);
    assert(s[i + 3] == s.subrange(i, i + 4)[3]);
    assert(t[j] == t.subrange(j, j + 4)[0]);
    assert(t[j + 1] == t.subrange(j, j + 4)[1]);
    assert(t[j + 2] == t.subrange(j, j + 4)[2]);
    assert(t[j + 3] == t.subrange(j, j + 4)[3]);
}

} // verus!
