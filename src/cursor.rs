use vstd::prelude::*;
use crate::error::{RtsError, gc_error};

verus! {

/// The little-endian `u64` stored at `a..a+8`.
pub open spec fn u64_at(s: Seq<u8>, a: int) -> u64 {
    (s[a] as u64) | ((s[a + 1] as u64) << 8u64) | ((s[a + 2] as u64) << 16u64) | ((s[a + 3] as u64)
        << 24u64) | ((s[a + 4] as u64) << 32u64) | ((s[a + 5] as u64) << 40u64) | ((s[a + 6] as u64)
        << 48u64) | ((s[a + 7] as u64) << 56u64)
}

/// The little-endian `u32` stored at `a..a+4`.
pub open spec fn u32_at(s: Seq<u8>, a: int) -> u32 {
    (s[a] as u32) | ((s[a + 1] as u32) << 8u32) | ((s[a + 2] as u32) << 16u32) | ((s[a + 3] as u32)
        << 24u32)
}

/// The eight little-endian bytes of `v`.
pub open spec fn u64_bytes(v: u64) -> Seq<u8> {
    seq![
        v as u8,
        (v >> 8u64) as u8,
        (v >> 16u64) as u8,
        (v >> 24u64) as u8,
        (v >> 32u64) as u8,
        (v >> 40u64) as u8,
        (v >> 48u64) as u8,
        (v >> 56u64) as u8,
    ]
}

/// `s` with the bytes from `a` on replaced by `b`.
pub open spec fn overwrite(s: Seq<u8>, a: int, b: Seq<u8>) -> Seq<u8> {
    Seq::new(s.len(), |i: int| if a <= i < a + b.len() { b[i - a] } else { s[i] })
}

/// `s` with `n` bytes from `a` on set to `v`.
pub open spec fn fill(s: Seq<u8>, a: int, n: int, v: u8) -> Seq<u8> {
    Seq::new(s.len(), |i: int| if a <= i < a + n { v } else { s[i] })
}

/// `a..a+n` lies inside memory of length `len`.
pub open spec fn in_range(len: int, a: int, n: int) -> bool {
    0 <= a && 0 <= n && a + n <= len
}

/// Reading back the bytes of a written `u64` gives the value.
pub proof fn lemma_u64_round_trip(s: Seq<u8>, a: int, v: u64)
    requires
        in_range(s.len() as int, a, 8),
    ensures
        u64_at(overwrite(s, a, u64_bytes(v)), a) == v,
{
    let t = overwrite(s, a, u64_bytes(v));
    assert(t[a] == v as u8);
    assert(t[a + 1] == (v >> 8u64) as u8);
    assert(t[a + 2] == (v >> 16u64) as u8);
    assert(t[a + 3] == (v >> 24u64) as u8);
    assert(t[a + 4] == (v >> 32u64) as u8);
    assert(t[a + 5] == (v >> 40u64) as u8);
    assert(t[a + 6] == (v >> 48u64) as u8);
    assert(t[a + 7] == (v >> 56u64) as u8);
    assert(((v as u8) as u64) | ((((v >> 8u64) as u8) as u64) << 8u64) | ((((v >> 16u64) as u8)
        as u64) << 16u64) | ((((v >> 24u64) as u8) as u64) << 24u64) | ((((v >> 32u64) as u8)
        as u64) << 32u64) | ((((v >> 40u64) as u8) as u64) << 40u64) | ((((v >> 48u64) as u8)
        as u64) << 48u64) | ((((v >> 56u64) as u8) as u64) << 56u64) == v) by (bit_vector);
}

pub fn out_of_range() -> (r: RtsError)
    ensures
        r is Gc,
{
    gc_error("memory access out of range")
}

/// Reads the byte at `a`.
pub fn read_u8(m: &Vec<u8>, a: u64) -> (r: Result<u8, RtsError>)
    ensures
        in_range(m@.len() as int, a as int, 1) ==> r == Ok::<u8, RtsError>(m@[a as int]),
        !in_range(m@.len() as int, a as int, 1) ==> r is Err && r->Err_0 is Gc,
{
    if a < m.len() as u64 {
        Ok(m[a as usize])
    } else {
        Err(out_of_range())
    }
}

/// Reads the little-endian `u64` at `a`, without alignment assumptions.
pub fn read_u64(m: &Vec<u8>, a: u64) -> (r: Result<u64, RtsError>)
    ensures
        in_range(m@.len() as int, a as int, 8) ==> r == Ok::<u64, RtsError>(u64_at(m@, a as int)),
        !in_range(m@.len() as int, a as int, 8) ==> r is Err && r->Err_0 is Gc,
{
    if a > m.len() as u64 || m.len() as u64 - a < 8 {
        return Err(out_of_range());
    }
    let i = a as usize;
    let v = (m[i] as u64) | ((m[i + 1] as u64) << 8u64) | ((m[i + 2] as u64) << 16u64) | ((m[i
        + 3] as u64) << 24u64) | ((m[i + 4] as u64) << 32u64) | ((m[i + 5] as u64) << 40u64) | ((m[i
        + 6] as u64) << 48u64) | ((m[i + 7] as u64) << 56u64);
    Ok(v)
}

/// Reads the little-endian `u32` at `a`.
pub fn read_u32(m: &Vec<u8>, a: u64) -> (r: Result<u32, RtsError>)
    ensures
        in_range(m@.len() as int, a as int, 4) ==> r == Ok::<u32, RtsError>(u32_at(m@, a as int)),
        !in_range(m@.len() as int, a as int, 4) ==> r is Err && r->Err_0 is Gc,
{
    if a > m.len() as u64 || m.len() as u64 - a < 4 {
        return Err(out_of_range());
    }
    let i = a as usize;
    let v = (m[i] as u32) | ((m[i + 1] as u32) << 8u32) | ((m[i + 2] as u32) << 16u32) | ((m[i
        + 3] as u32) << 24u32);
    Ok(v)
}

/// Writes the byte `v` at `a`; memory is unchanged when `a` is out of range.
pub fn write_u8(m: &mut Vec<u8>, a: u64, v: u8) -> (r: Result<(), RtsError>)
    ensures
        in_range(old(m)@.len() as int, a as int, 1) ==> r is Ok && final(m)@ == old(m)@.update(
            a as int,
            v,
        ),
        !in_range(old(m)@.len() as int, a as int, 1) ==> r is Err && r->Err_0 is Gc && final(m)@
            == old(m)@,
{
    if a < m.len() as u64 {
        m.set(a as usize, v);
        Ok(())
    } else {
        Err(out_of_range())
    }
}

/// Writes `v` little-endian at `a..a+8`, without alignment assumptions.
pub fn write_u64(m: &mut Vec<u8>, a: u64, v: u64) -> (r: Result<(), RtsError>)
    ensures
        in_range(old(m)@.len() as int, a as int, 8) ==> r is Ok && final(m)@ == overwrite(
            old(m)@,
            a as int,
            u64_bytes(v),
        ),
        !in_range(old(m)@.len() as int, a as int, 8) ==> r is Err && r->Err_0 is Gc && final(m)@
            == old(m)@,
{
    if a > m.len() as u64 || m.len() as u64 - a < 8 {
        return Err(out_of_range());
    }
    let i = a as usize;
    m.set(i, v as u8);
    m.set(i + 1, (v >> 8u64) as u8);
    m.set(i + 2, (v >> 16u64) as u8);
    m.set(i + 3, (v >> 24u64) as u8);
    m.set(i + 4, (v >> 32u64) as u8);
    m.set(i + 5, (v >> 40u64) as u8);
    m.set(i + 6, (v >> 48u64) as u8);
    m.set(i + 7, (v >> 56u64) as u8);
    assert(m@ =~= overwrite(old(m)@, a as int, u64_bytes(v)));
    Ok(())
}

/// Copies the `n` bytes at `src` to `dst`, as they stood before the copy.
pub fn copy_bytes(m: &mut Vec<u8>, src: u64, dst: u64, n: u64) -> (r: Result<(), RtsError>)
    ensures
        in_range(old(m)@.len() as int, src as int, n as int) && in_range(
            old(m)@.len() as int,
            dst as int,
            n as int,
        ) ==> r is Ok && final(m)@ == overwrite(
            old(m)@,
            dst as int,
            old(m)@.subrange(src as int, src + n),
        ),
        !(in_range(old(m)@.len() as int, src as int, n as int) && in_range(
            old(m)@.len() as int,
            dst as int,
            n as int,
        )) ==> r is Err && r->Err_0 is Gc && final(m)@ == old(m)@,
{
    let len = m.len();
    if src > len as u64 || len as u64 - src < n || dst > len as u64 || len as u64 - dst < n {
        return Err(out_of_range());
    }
    let s = src as usize;
    let d = dst as usize;
    let k = n as usize;
    let ghost s0 = m@;
    let mut buf: Vec<u8> = Vec::new();
    let mut i: usize = 0;
    while i < k
        invariant
            i <= k,
            m@ == s0,
            len == s0.len(),
            s + k <= len,
            buf@ == s0.subrange(s as int, s + i),
        decreases k - i,
    {
        buf.push(m[s + i]);
        i = i + 1;
        assert(buf@ =~= s0.subrange(s as int, s + i));
    }
    let mut j: usize = 0;
    while j < k
        invariant
            j <= k,
            m@.len() == s0.len(),
            len == s0.len(),
            d + k <= len,
            buf@.len() == k,
            buf@ == s0.subrange(s as int, s + k),
            m@ == overwrite(s0, d as int, buf@.subrange(0, j as int)),
        decreases k - j,
    {
        m.set(d + j, buf[j]);
        j = j + 1;
        assert(m@ =~= overwrite(s0, d as int, buf@.subrange(0, j as int)));
    }
    assert(buf@.subrange(0, k as int) =~= buf@);
    Ok(())
}

/// Sets the `n` bytes from `a` on to `v`.
pub fn fill_bytes(m: &mut Vec<u8>, a: u64, n: u64, v: u8) -> (r: Result<(), RtsError>)
    ensures
        in_range(old(m)@.len() as int, a as int, n as int) ==> r is Ok && final(m)@ == fill(
            old(m)@,
            a as int,
            n as int,
            v,
        ),
        !in_range(old(m)@.len() as int, a as int, n as int) ==> r is Err && r->Err_0 is Gc
            && final(m)@ == old(m)@,
{
    let len = m.len();
    if a > len as u64 || len as u64 - a < n {
        return Err(out_of_range());
    }
    let b = a as usize;
    let k = n as usize;
    let ghost s0 = m@;
    let mut j: usize = 0;
    while j < k
        invariant
            j <= k,
            b + k <= len,
            len == s0.len(),
            m@ == fill(s0, b as int, j as int, v),
        decreases k - j,
    {
        m.set(b + j, v);
        j = j + 1;
        assert(m@ =~= fill(s0, b as int, j as int, v));
    }
    Ok(())
}

} // verus!
