//! Fixed-width integers as byte sequences, in either byte order, with the
//! two's-complement correspondence between signed values and their unsigned
//! wire images.

use vstd::prelude::*;
use vstd::arithmetic::div_mod::lemma_fundamental_div_mod;

verus! {

/// 256 raised to `n`: the number of values a `n`-byte field can carry.
pub open spec fn pow256(n: nat) -> nat
    decreases n,
{
    if n == 0 {
        1
    } else {
        256 * pow256((n - 1) as nat)
    }
}

/// The `n` bytes of `v` with the most significant byte first.
pub open spec fn be_bytes(v: nat, n: nat) -> Seq<u8>
    decreases n,
{
    if n == 0 {
        Seq::empty()
    } else {
        be_bytes(v / 256, (n - 1) as nat) + seq![(v % 256) as u8]
    }
}

/// The `n` bytes of `v` with the least significant byte first.
pub open spec fn le_bytes(v: nat, n: nat) -> Seq<u8>
    decreases n,
{
    if n == 0 {
        Seq::empty()
    } else {
        seq![(v % 256) as u8] + le_bytes(v / 256, (n - 1) as nat)
    }
}

/// The bytes of `v` in the chosen order, most significant byte first unless
/// `le` is set.
pub open spec fn num_bytes(v: nat, n: nat, le: bool) -> Seq<u8> {
    if le {
        le_bytes(v, n)
    } else {
        be_bytes(v, n)
    }
}

/// The value of a byte sequence read with the most significant byte first.
pub open spec fn be_val(s: Seq<u8>) -> nat
    decreases s.len(),
{
    if s.len() == 0 {
        0
    } else {
        256 * be_val(s.drop_last()) + s.last() as nat
    }
}

/// The value of a byte sequence read with the least significant byte first.
pub open spec fn le_val(s: Seq<u8>) -> nat
    decreases s.len(),
{
    if s.len() == 0 {
        0
    } else {
        s[0] as nat + 256 * le_val(s.skip(1))
    }
}

/// The value of a byte sequence in the chosen order.
pub open spec fn num_val(s: Seq<u8>, le: bool) -> nat {
    if le {
        le_val(s)
    } else {
        be_val(s)
    }
}

pub proof fn lemma_pow256_monotonic(m: nat, n: nat)
    requires
        m <= n,
    ensures
        pow256(m) <= pow256(n),
    decreases n,
{
    if m < n {
        lemma_pow256_monotonic(m, (n - 1) as nat);
    }
}

pub proof fn lemma_be_bytes_len(v: nat, n: nat)
    ensures
        be_bytes(v, n).len() == n,
    decreases n,
{
    if n > 0 {
        lemma_be_bytes_len(v / 256, (n - 1) as nat);
    }
}

pub proof fn lemma_le_bytes_len(v: nat, n: nat)
    ensures
        le_bytes(v, n).len() == n,
    decreases n,
{
    if n > 0 {
        lemma_le_bytes_len(v / 256, (n - 1) as nat);
    }
}

/// A value's byte image in either order is `n` bytes long.
pub proof fn lemma_num_bytes_len(v: nat, n: nat, le: bool)
    ensures
        num_bytes(v, n, le).len() == n,
{
    if le {
        lemma_le_bytes_len(v, n);
    } else {
        lemma_be_bytes_len(v, n);
    }
}

/// Every byte sequence of length `n` has a value below `pow256(n)`.
pub proof fn lemma_be_val_bound(s: Seq<u8>)
    ensures
        be_val(s) < pow256(s.len()),
    decreases s.len(),
{
    if s.len() > 0 {
        lemma_be_val_bound(s.drop_last());
    }
}

pub proof fn lemma_le_val_bound(s: Seq<u8>)
    ensures
        le_val(s) < pow256(s.len()),
    decreases s.len(),
{
    if s.len() > 0 {
        lemma_le_val_bound(s.skip(1));
    }
}

/// Reading back the big-endian bytes of a value below `pow256(n)` yields the
/// value itself.
pub proof fn lemma_be_round_trip(v: nat, n: nat)
    requires
        v < pow256(n),
    ensures
        be_val(be_bytes(v, n)) == v,
    decreases n,
{
    if n == 0 {
    } else {
        let hi = v / 256;
        let lo = v % 256;
        assert(hi < pow256((n - 1) as nat)) by {
            lemma_fundamental_div_mod(v as int, 256);
        }
        lemma_be_round_trip(hi, (n - 1) as nat);
        lemma_be_bytes_len(hi, (n - 1) as nat);
        let s = be_bytes(v, n);
        assert(s.drop_last() =~= be_bytes(hi, (n - 1) as nat));
        assert(s.last() == lo as u8);
        lemma_fundamental_div_mod(v as int, 256);
    }
}

/// Reading back the little-endian bytes of a value below `pow256(n)` yields
/// the value itself.
pub proof fn lemma_le_round_trip(v: nat, n: nat)
    requires
        v < pow256(n),
    ensures
        le_val(le_bytes(v, n)) == v,
    decreases n,
{
    if n == 0 {
    } else {
        let hi = v / 256;
        assert(hi < pow256((n - 1) as nat)) by {
            lemma_fundamental_div_mod(v as int, 256);
        }
        lemma_le_round_trip(hi, (n - 1) as nat);
        lemma_le_bytes_len(hi, (n - 1) as nat);
        let s = le_bytes(v, n);
        assert(s.skip(1) =~= le_bytes(hi, (n - 1) as nat));
        lemma_fundamental_div_mod(v as int, 256);
    }
}

/// Reading back `n` bytes in the order they were written yields the value.
pub proof fn lemma_num_round_trip(v: nat, n: nat, le: bool)
    requires
        v < pow256(n),
    ensures
        num_val(num_bytes(v, n, le), le) == v,
{
    if le {
        lemma_le_round_trip(v, n);
    } else {
        lemma_be_round_trip(v, n);
    }
}

/// The unsigned wire image of a signed value, for a field of modulus `m`.
pub open spec fn wrap_unsigned(v: int, m: nat) -> nat {
    if v >= 0 {
        v as nat
    } else {
        (v + m) as nat
    }
}

/// The signed value a field of modulus `m` carries as the unsigned `u`.
pub open spec fn unwrap_signed(u: nat, m: nat) -> int {
    if u < m / 2 {
        u as int
    } else {
        u - m
    }
}

/// Two's-complement round trip: a signed value within the range of a field of
/// modulus `m` survives wrapping and unwrapping.
pub proof fn lemma_wrap_round_trip(v: int, m: nat)
    requires
        m % 2 == 0,
        -(m / 2) <= v < m / 2,
    ensures
        wrap_unsigned(v, m) < m,
        unwrap_signed(wrap_unsigned(v, m), m) == v,
{
}

/// Appends the `width` bytes of `v`, most significant byte first.
pub fn push_be(buf: &mut Vec<u8>, v: u64, width: usize)
    requires
        (v as nat) < pow256(width as nat),
    ensures
        final(buf)@ == old(buf)@ + be_bytes(v as nat, width as nat),
    decreases width,
{
    if width == 0 {
        assert(buf@ =~= buf@ + be_bytes(v as nat, 0));
    } else {
        let ghost pre = buf@;
        proof {
            lemma_fundamental_div_mod(v as int, 256);
        }
        push_be(buf, v / 256, width - 1);
        buf.push((v % 256) as u8);
        proof {
            assert(buf@ =~= pre + be_bytes(v as nat, width as nat));
        }
    }
}

/// Appends the `width` bytes of `v`, least significant byte first.
pub fn push_le(buf: &mut Vec<u8>, v: u64, width: usize)
    requires
        (v as nat) < pow256(width as nat),
    ensures
        final(buf)@ == old(buf)@ + le_bytes(v as nat, width as nat),
    decreases width,
{
    if width == 0 {
        assert(buf@ =~= buf@ + le_bytes(v as nat, 0));
    } else {
        let ghost pre = buf@;
        buf.push((v % 256) as u8);
        proof {
            lemma_fundamental_div_mod(v as int, 256);
        }
        push_le(buf, v / 256, width - 1);
        proof {
            assert(buf@ =~= pre + le_bytes(v as nat, width as nat));
        }
    }
}

/// Appends the `width` bytes of `v` in the chosen order.
pub fn push_num(buf: &mut Vec<u8>, v: u64, width: usize, le: bool)
    requires
        (v as nat) < pow256(width as nat),
    ensures
        final(buf)@ == old(buf)@ + num_bytes(v as nat, width as nat, le),
{
    if le {
        push_le(buf, v, width);
    } else {
        push_be(buf, v, width);
    }
}

/// Reads `width` bytes at `pos`, most significant byte first.
pub fn read_be(data: &[u8], pos: usize, width: usize) -> (r: u64)
    requires
        pos + width <= data@.len(),
        width <= 8,
    ensures
        r as nat == be_val(data@.subrange(pos as int, pos + width)),
    decreases width,
{
    if width == 0 {
        assert(data@.subrange(pos as int, pos as int) =~= Seq::<u8>::empty());
        0
    } else {
        let dlen: usize = data.len();
        let hi = read_be(data, pos, width - 1);
        let ghost s = data@.subrange(pos as int, pos + width);
        proof {
            lemma_be_val_bound(data@.subrange(pos as int, pos + width - 1));
            lemma_pow256_monotonic((width - 1) as nat, 7);
            assert(pow256(7) == 0x100000000000000) by {
                reveal_with_fuel(pow256, 8);
            }
            assert(s.drop_last() =~= data@.subrange(pos as int, pos + width - 1));
        }
        let b = data[pos + width - 1];
        256 * hi + (b as u64)
    }
}

/// Reads `width` bytes at `pos`, least significant byte first.
pub fn read_le(data: &[u8], pos: usize, width: usize) -> (r: u64)
    requires
        pos + width <= data@.len(),
        width <= 8,
    ensures
        r as nat == le_val(data@.subrange(pos as int, pos + width)),
    decreases width,
{
    if width == 0 {
        assert(data@.subrange(pos as int, pos as int) =~= Seq::<u8>::empty());
        0
    } else {
        let dlen: usize = data.len();
        let b = data[pos];
        let rest = read_le(data, pos + 1, width - 1);
        let ghost s = data@.subrange(pos as int, pos + width);
        proof {
            lemma_le_val_bound(data@.subrange(pos + 1, pos + width));
            lemma_pow256_monotonic((width - 1) as nat, 7);
            assert(pow256(7) == 0x100000000000000) by {
                reveal_with_fuel(pow256, 8);
            }
            assert(s.skip(1) =~= data@.subrange(pos + 1, pos + width));
        }
        (b as u64) + 256 * rest
    }
}

/// Reads `width` bytes at `pos` in the chosen order.
pub fn read_num(data: &[u8], pos: usize, width: usize, le: bool) -> (r: u64)
    requires
        pos + width <= data@.len(),
        width <= 8,
    ensures
        r as nat == num_val(data@.subrange(pos as int, pos + width), le),
{
    if le {
        read_le(data, pos, width)
    } else {
        read_be(data, pos, width)
    }
}

/// The value kept when a 64-bit signed value is truncated to 32 bits: the
/// low 32 bits of its two's-complement image, read back as signed.
pub open spec fn trunc_i32(v: int) -> int
    recommends
        -0x8000000000000000 <= v < 0x8000000000000000,
{
    unwrap_signed(wrap_unsigned(v, 0x10000000000000000) % 0x100000000, 0x100000000)
}

/// Truncates a signed 64-bit value to its low 32 bits.
pub fn i32_of_i64(v: i64) -> (r: i32)
    ensures
        r as int == trunc_i32(v as int),
{
    let u: u64 = u64_of_i64(v);
    let low: u64 = u % 0x100000000;
    if low < 0x80000000 {
        low as i32
    } else {
        let neg: u64 = 0x100000000 - low;
        -((neg - 1) as i32) - 1
    }
}

/// The unsigned 64-bit wire image of a signed 64-bit value.
pub fn u64_of_i64(v: i64) -> (r: u64)
    ensures
        r as nat == wrap_unsigned(v as int, 0x10000000000000000),
{
    if v >= 0 {
        v as u64
    } else {
        let off: u64 = (-(v + 1)) as u64;
        0xffffffffffffffff - off
    }
}

/// The signed 64-bit value whose unsigned 64-bit wire image is `u`.
pub fn i64_of_u64(u: u64) -> (r: i64)
    ensures
        r as int == unwrap_signed(u as nat, 0x10000000000000000),
{
    if u < 0x8000000000000000 {
        u as i64
    } else {
        let off: u64 = 0xffffffffffffffff - u;
        -(off as i64) - 1
    }
}

} // verus!
