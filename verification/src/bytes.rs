//! Little-endian fields and LEB128 varints, the two spellings of a number in
//! every binary format here.
//!
//! Fields are read one at a time rather than by casting a slice, so a mapping at
//! any address is safe to read. Varints are bounds-checked: they come out of
//! files that a request steered us into, so a truncated one is `None`.

use vstd::prelude::*;

verus! {

/// The 32-bit little-endian number at `at`.
pub open spec fn le_u32(b: Seq<u8>, at: int) -> int {
    b[at] + 0x100 * b[at + 1] + 0x1_0000 * b[at + 2] + 0x100_0000 * b[at + 3]
}

/// The 64-bit little-endian number at `at`.
pub open spec fn le_u64(b: Seq<u8>, at: int) -> int {
    le_u32(b, at) + 0x1_0000_0000 * le_u32(b, at + 4)
}

/// The 32-bit little-endian two's complement number at `at`.
pub open spec fn le_i32(b: Seq<u8>, at: int) -> int {
    if le_u32(b, at) < 0x8000_0000 {
        le_u32(b, at)
    } else {
        le_u32(b, at) - 0x1_0000_0000
    }
}

/// A 32-bit number as its four bytes, least significant first.
pub open spec fn u32_bytes(v: u32) -> Seq<u8> {
    seq![
        (v % 0x100) as u8,
        (v / 0x100 % 0x100) as u8,
        (v / 0x1_0000 % 0x100) as u8,
        (v / 0x100_0000) as u8,
    ]
}

/// A 64-bit number as its eight bytes, least significant first.
pub open spec fn u64_bytes(v: u64) -> Seq<u8> {
    u32_bytes((v % 0x1_0000_0000) as u32) + u32_bytes((v / 0x1_0000_0000) as u32)
}

/// Writing a 32-bit field and reading it back gives the number, wherever in a
/// file the field stands.
pub proof fn law_u32_survives(b: Seq<u8>, at: int, v: u32)
    requires
        0 <= at <= b.len() - 4,
        b.subrange(at, at + 4) == u32_bytes(v),
    ensures
        le_u32(b, at) == v,
{
    let s = b.subrange(at, at + 4);
    assert(s[0] == b[at] && s[1] == b[at + 1] && s[2] == b[at + 2] && s[3] == b[at + 3]);
}

/// Writing a 64-bit field and reading it back gives the number, wherever in a
/// file the field stands.
pub proof fn law_u64_survives(b: Seq<u8>, at: int, v: u64)
    requires
        0 <= at <= b.len() - 8,
        b.subrange(at, at + 8) == u64_bytes(v),
    ensures
        le_u64(b, at) == v,
{
    let s = b.subrange(at, at + 8);
    let low = (v % 0x1_0000_0000) as u32;
    let high = (v / 0x1_0000_0000) as u32;
    assert(b.subrange(at, at + 4) =~= u32_bytes(low)) by {
        assert(u64_bytes(v).subrange(0, 4) =~= u32_bytes(low));
        assert(s.subrange(0, 4) =~= b.subrange(at, at + 4));
    }
    assert(b.subrange(at + 4, at + 8) =~= u32_bytes(high)) by {
        assert(u64_bytes(v).subrange(4, 8) =~= u32_bytes(high));
        assert(s.subrange(4, 8) =~= b.subrange(at + 4, at + 8));
    }
    law_u32_survives(b, at, low);
    law_u32_survives(b, at + 4, high);
}

/// Reads the 32-bit field at `at`.
pub fn u32_at(b: &[u8], at: usize) -> (v: u32)
    requires
        at + 4 <= b.len(),
    ensures
        v == le_u32(b@, at as int),
{
    b[at] as u32 + 0x100 * (b[at + 1] as u32) + 0x1_0000 * (b[at + 2] as u32) + 0x100_0000 * (b[at
        + 3] as u32)
}

/// Reads the 64-bit field at `at`.
pub fn u64_at(b: &[u8], at: usize) -> (v: u64)
    requires
        at + 8 <= b.len(),
    ensures
        v == le_u64(b@, at as int),
{
    u32_at(b, at) as u64 + 0x1_0000_0000 * (u32_at(b, at + 4) as u64)
}

/// Reads the signed 32-bit field at `at`.
pub fn i32_at(b: &[u8], at: usize) -> (v: i32)
    requires
        at + 4 <= b.len(),
    ensures
        v == le_i32(b@, at as int),
{
    let raw: u32 = u32_at(b, at);
    if raw < 0x8000_0000 {
        raw as i32
    } else {
        (raw as i64 - 0x1_0000_0000) as i32
    }
}

/// Appends a 32-bit field.
pub fn put_u32(out: &mut Vec<u8>, v: u32)
    ensures
        final(out)@ == old(out)@ + u32_bytes(v),
{
    out.push((v % 0x100) as u8);
    out.push((v / 0x100 % 0x100) as u8);
    out.push((v / 0x1_0000 % 0x100) as u8);
    out.push((v / 0x100_0000) as u8);
    assert(out@ =~= old(out)@ + u32_bytes(v));
}

/// Appends a 64-bit field.
pub fn put_u64(out: &mut Vec<u8>, v: u64)
    ensures
        final(out)@ == old(out)@ + u64_bytes(v),
{
    put_u32(out, (v % 0x1_0000_0000) as u32);
    put_u32(out, (v / 0x1_0000_0000) as u32);
    assert(out@ =~= old(out)@ + u64_bytes(v));
}

/// A number as a varint: seven bits a byte, least significant first, with the
/// top bit set on all but the last.
pub open spec fn varint_bytes(v: nat) -> Seq<u8>
    decreases v,
{
    if v < 128 {
        seq![v as u8]
    } else {
        seq![(v % 128 + 128) as u8] + varint_bytes(v / 128)
    }
}

/// The varint at `at`, of which `seen` bytes have been read already, and where
/// the next field starts. A byte that is not there, or an eleventh byte, is
/// `None`; of a tenth byte only the bit that still fits counts.
pub open spec fn varint_at(b: Seq<u8>, at: int, seen: nat) -> Option<(int, int)>
    decreases 10 - seen,
{
    if !(0 <= at < b.len()) || seen >= 10 {
        None
    } else {
        let digit = if seen == 9 {
            b[at] as int % 2
        } else {
            b[at] as int % 128
        };
        if b[at] < 128 {
            Some((digit, at + 1))
        } else {
            match varint_at(b, at + 1, seen + 1) {
                None => None,
                Some((v, next)) => Some((digit + 128 * v, next)),
            }
        }
    }
}

/// `128` to the power of `n`.
pub open spec fn radix(n: nat) -> int
    decreases n,
{
    if n == 0 {
        1
    } else {
        128 * radix((n - 1) as nat)
    }
}

proof fn lemma_radix()
    ensures
        radix(1) == 128,
        radix(9) == 0x8000_0000_0000_0000,
{
    reveal_with_fuel(radix, 10);
}

proof fn lemma_radix_grows(m: nat, n: nat)
    requires
        m <= n,
    ensures
        1 <= radix(m) <= radix(n),
    decreases n,
{
    if m < n {
        lemma_radix_grows(m, (n - 1) as nat);
    } else if n > 0 {
        lemma_radix_grows((m - 1) as nat, (n - 1) as nat);
    }
}

/// A number fits in the bits that are left, and reading it moves on by at most
/// ten bytes.
pub(crate) proof fn lemma_varint_bounds(b: Seq<u8>, at: int, seen: nat)
    requires
        seen <= 9,
    ensures
        varint_at(b, at, seen) matches Some((v, next)) ==> {
            &&& at < next <= b.len()
            &&& next <= at + 10 - seen
            &&& 0 <= v < 2 * radix((9 - seen) as nat)
        },
    decreases 10 - seen,
{
    lemma_radix_grows(0, (9 - seen) as nat);
    if seen < 9 {
        lemma_varint_bounds(b, at + 1, seen + 1);
        assert(radix((9 - seen) as nat) == 128 * radix((8 - seen) as nat));
        lemma_radix_grows(0, (8 - seen) as nat);
    }
}

/// A varint reads the same in a prefix that holds all of it, and not at all in a shorter
/// one.
pub(crate) proof fn lemma_varint_prefix(b: Seq<u8>, m: int, at: int, seen: nat)
    requires
        0 <= m <= b.len(),
        varint_at(b, at, seen) is Some,
    ensures
        varint_at(b, at, seen).unwrap().1 <= m ==> varint_at(b.take(m), at, seen) == varint_at(b, at, seen),
        varint_at(b, at, seen).unwrap().1 > m ==> varint_at(b.take(m), at, seen) is None,
    decreases 10 - seen,
{
    lemma_varint_bounds(b, at, seen);
    if b[at] >= 128 {
        lemma_varint_prefix(b, m, at + 1, seen + 1);
        lemma_varint_bounds(b, at + 1, seen + 1);
    }
}

/// Reads the varint at `at` and moves past it.
pub fn varint(bytes: &[u8], at: &mut usize) -> (r: Option<u64>)
    ensures
        match varint_at(bytes@, *old(at) as int, 0) {
            Some((v, next)) => r is Some && r.unwrap() == v && *final(at) == next,
            None => r is None,
        },
{
    let mut value: u64 = 0;
    let mut scale: u64 = 1;
    let mut seen: u32 = 0;
    let ghost start = *at as int;
    let ghost goal = varint_at(bytes@, start, 0);
    proof {
        lemma_varint_bounds(bytes@, start, 0);
        lemma_radix();
        assert(radix(0) == 1);
    }
    loop
        invariant
            0 <= seen <= 9,
            scale == radix(seen as nat),
            start == *old(at),
            *at == start + seen,
            goal == varint_at(bytes@, start, 0),
            goal matches Some((v, next)) ==> 0 <= v <= u64::MAX && next <= bytes@.len(),
            match varint_at(bytes@, *at as int, seen as nat) {
                None => goal is None,
                Some((v, next)) => goal == Some((value + scale * v, next)),
            },
            value < scale,
        decreases 10 - seen,
    {
        let ghost here = *at as int;
        if *at >= bytes.len() {
            return None;
        }
        let byte: u8 = bytes[*at];
        *at = *at + 1;
        let digit: u64 = if seen == 9 { (byte % 2) as u64 } else { (byte % 128) as u64 };
        proof {
            lemma_radix();
            lemma_radix_grows(seen as nat, 9);
            if seen < 9 {
                lemma_radix_grows((seen + 1) as nat, 9);
                assert(radix((seen + 1) as nat) == 128 * scale);
            }
            assert(digit * scale <= u64::MAX && digit * scale + value <= u64::MAX && (seen < 9
                ==> digit * scale + value < 128 * scale)) by (nonlinear_arith)
                requires
                    0 <= digit < 128,
                    seen < 9 ==> 128 * scale <= 0x8000_0000_0000_0000,
                    seen == 9 ==> digit <= 1 && scale <= 0x8000_0000_0000_0000,
                    seen <= 9,
                    scale >= 1,
                    0 <= value < scale,
            ;
            assert(scale * digit == digit * scale) by (nonlinear_arith);
            if let Some((v, next)) = varint_at(bytes@, here + 1, (seen + 1) as nat) {
                assert(value + scale * (digit + 128 * v) == (value + digit * scale) + (128 * scale)
                    * v) by (nonlinear_arith);
            }
        }
        value = value + digit * scale;
        if byte < 128 {
            return Some(value);
        }
        if seen == 9 {
            return None;
        }
        seen = seen + 1;
        scale = scale * 128;
    }
}

/// Appends a varint.
pub fn put_varint(out: &mut Vec<u8>, v: u64)
    ensures
        final(out)@ == old(out)@ + varint_bytes(v as nat),
{
    let mut left: u64 = v;
    while left >= 128
        invariant
            out@ + varint_bytes(left as nat) == old(out)@ + varint_bytes(v as nat),
        decreases left,
    {
        let ghost before = out@;
        let ghost rest = varint_bytes((left / 128) as nat);
        out.push((left % 128 + 128) as u8);
        assert(out@ + rest =~= before + (seq![(left % 128 + 128) as u8] + rest));
        left = left / 128;
    }
    let ghost before = out@;
    out.push(left as u8);
    assert(out@ =~= before + seq![left as u8]);
}

proof fn lemma_varint_reads(b: Seq<u8>, at: int, v: nat, seen: nat)
    requires
        seen <= 9,
        0 <= at,
        at + varint_bytes(v).len() <= b.len(),
        b.subrange(at, at + varint_bytes(v).len()) == varint_bytes(v),
        v * radix(seen) <= u64::MAX,
    ensures
        varint_at(b, at, seen) == Some((v as int, at + varint_bytes(v).len())),
    decreases v,
{
    let s = b.subrange(at, at + varint_bytes(v).len());
    lemma_radix();
    lemma_radix_grows(seen, 9);
    assert(b[at] == s[0]);
    if v < 128 {
        if seen == 9 {
            assert(v <= 1) by (nonlinear_arith)
                requires
                    v * radix(seen) <= u64::MAX,
                    radix(seen) == 0x8000_0000_0000_0000,
            ;
        }
    } else {
        let rest = varint_bytes(v / 128);
        if seen == 9 {
            assert(false) by (nonlinear_arith)
                requires
                    v * radix(seen) <= u64::MAX,
                    radix(seen) == 0x8000_0000_0000_0000,
                    v >= 128,
            ;
        }
        assert(varint_bytes(v) =~= seq![(v % 128 + 128) as u8] + rest);
        assert(varint_bytes(v).subrange(1, varint_bytes(v).len() as int) =~= rest);
        assert(b.subrange(at + 1, at + 1 + rest.len()) =~= s.subrange(1, s.len() as int));
        assert(radix(seen + 1) == 128 * radix(seen));
        assert((v / 128) * (128 * radix(seen)) <= v * radix(seen)) by (nonlinear_arith)
            requires
                128 * (v / 128) <= v,
                radix(seen) >= 1,
        ;
        lemma_varint_reads(b, at + 1, v / 128, seen + 1);
    }
}

/// Writing a varint and reading it back gives the number and ends where the
/// varint ends, wherever in a file it stands and whatever follows it.
pub proof fn law_varint_survives(b: Seq<u8>, at: int, v: u64)
    requires
        0 <= at,
        at + varint_bytes(v as nat).len() <= b.len(),
        b.subrange(at, at + varint_bytes(v as nat).len()) == varint_bytes(v as nat),
    ensures
        varint_at(b, at, 0) == Some((v as int, at + varint_bytes(v as nat).len())),
{
    assert(radix(0) == 1);
    lemma_varint_reads(b, at, v as nat, 0);
}

} // verus!
