//! Bit-packed field codec.
//!
//! Every record is a fixed-width span of bytes.  A field of a record is
//! addressed by a global bit offset and a bit width; it may share bytes
//! with its neighbours and may cross byte boundaries.  Bits are counted
//! little-endian: bit `i` of a byte sequence is bit `i % 8` of byte `i / 8`,
//! and a field's value is the sum of its set bits weighted by powers of two,
//! least significant bit first.

use vstd::arithmetic::power2::*;
use vstd::bits::*;
use vstd::prelude::*;

verus! {

/// Bit `i` of the byte sequence `d`, little-endian within each byte.
pub open spec fn bit_at(d: Seq<u8>, i: int) -> bool
    recommends
        0 <= i < d.len() * 8,
{
    (d[i / 8] as nat / pow2((i % 8) as nat)) % 2 == 1
}

/// Unsigned value of the `w`-bit field that starts at bit position `pos`:
/// the sum of the field's set bits weighted by powers of two, least
/// significant bit first.
pub open spec fn field_value(d: Seq<u8>, pos: int, w: nat) -> nat
    recommends
        0 <= pos,
        pos + w <= d.len() * 8,
    decreases w,
{
    if w == 0 {
        0
    } else {
        field_value(d, pos, (w - 1) as nat) + if bit_at(d, pos + w - 1) {
            pow2((w - 1) as nat)
        } else {
            0
        }
    }
}

/// Signed value of the `w`-bit field at bit position `pos`: the unsigned
/// value reinterpreted in two's complement, sign bit at bit `w - 1`.
pub open spec fn field_value_signed(d: Seq<u8>, pos: int, w: nat) -> int
    recommends
        0 <= pos,
        1 <= w,
        pos + w <= d.len() * 8,
{
    if bit_at(d, pos + w - 1) {
        field_value(d, pos, w) - pow2(w)
    } else {
        field_value(d, pos, w) as int
    }
}

/// A field's value is below two to its width.
pub proof fn lemma_field_value_bound(d: Seq<u8>, pos: int, w: nat)
    ensures
        field_value(d, pos, w) < pow2(w),
    decreases w,
{
    if w == 0 {
        lemma2_to64();
    } else {
        lemma_field_value_bound(d, pos, (w - 1) as nat);
        lemma_pow2_unfold(w);
    }
}

/// A field's value depends only on the bits of its own range.
pub proof fn lemma_field_value_same_bits(d1: Seq<u8>, d2: Seq<u8>, pos: int, w: nat)
    requires
        forall|j: int| pos <= j < pos + w ==> bit_at(d1, j) == bit_at(d2, j),
    ensures
        field_value(d1, pos, w) == field_value(d2, pos, w),
    decreases w,
{
    if w > 0 {
        lemma_field_value_same_bits(d1, d2, pos, (w - 1) as nat);
    }
}

/// Relates the executable shift-and-mask bit extraction to the arithmetic
/// form used by [`bit_at`].
proof fn lemma_u8_bit_arith(x: u8, m: u8)
    requires
        m < 8,
    ensures
        ((x >> m) & 1) as nat == (x as nat / pow2(m as nat)) % 2,
        ((x >> m) & 1) == 0 || ((x >> m) & 1) == 1,
{
    lemma_u8_shr_is_div(x, m);
    lemma_u8_low_bits_mask_is_mod(x >> m, 1);
    lemma_low_bits_mask_values();
    lemma2_to64();
    assert(((x >> m) & 1) as nat == ((x >> m) as nat) % 2);
}

/// Setting bit `k` of a byte leaves every other bit as it was.
proof fn lemma_u8_set_bit_one(x: u8, k: u8, m: u8)
    by (bit_vector)
    requires
        k < 8,
        m < 8,
    ensures
        ((x | (1u8 << k)) >> m) & 1 == (if m == k {
            1u8
        } else {
            (x >> m) & 1
        }),
{
}

/// Clearing bit `k` of a byte leaves every other bit as it was.
proof fn lemma_u8_set_bit_zero(x: u8, k: u8, m: u8)
    by (bit_vector)
    requires
        k < 8,
        m < 8,
    ensures
        ((x & !(1u8 << k)) >> m) & 1 == (if m == k {
            0u8
        } else {
            (x >> m) & 1
        }),
{
}

/// Reads one bit of a byte slice.
pub fn get_bit(data: &[u8], byte: usize, off: usize) -> (r: bool)
    requires
        off < 8,
        byte < data@.len(),
    ensures
        r == bit_at(data@, byte * 8 + off),
{
    let x = data[byte];
    let k = off as u8;
    let b = (x >> k) & 1;
    proof {
        lemma_u8_bit_arith(x, k);
        assert((byte * 8 + off) / 8 == byte && (byte * 8 + off) % 8 == off) by (nonlinear_arith)
            requires 0 <= byte, 0 <= off < 8,
        ;
    }
    b == 1
}

/// Writes one bit of a byte buffer, leaving every other bit unchanged.
pub fn set_bit(data: &mut Vec<u8>, byte: usize, off: usize, b: bool)
    requires
        off < 8,
        byte < old(data)@.len(),
    ensures
        final(data)@.len() == old(data)@.len(),
        forall|bb: int|
            0 <= bb < final(data)@.len() && bb != byte ==> final(data)@[bb] == old(data)@[bb],
        bit_at(final(data)@, byte * 8 + off as int) == b,
        forall|j: int|
            0 <= j < final(data)@.len() * 8 && j != byte * 8 + off ==> bit_at(final(data)@, j)
                == bit_at(old(data)@, j),
{
    let x = data[byte];
    let k = off as u8;
    let y = if b {
        x | (1u8 << k)
    } else {
        x & !(1u8 << k)
    };
    data[byte] = y;
    proof {
        let i = byte * 8 + off as int;
        assert forall|j: int| 0 <= j < data@.len() * 8 implies bit_at(data@, j) == (if j == i {
            b
        } else {
            bit_at(old(data)@, j)
        }) by {
            let jb = j / 8;
            let jm = (j % 8) as u8;
            assert(0 <= jb < data@.len() && jm < 8) by (nonlinear_arith)
                requires 0 <= j < data@.len() * 8, jb == j / 8, jm == (j % 8) as u8,
            ;
            assert(i / 8 == byte && i % 8 == off) by (nonlinear_arith)
                requires 0 <= byte, 0 <= off < 8, i == byte * 8 + off,
            ;
            if jb == byte {
                if b {
                    lemma_u8_set_bit_one(x, k, jm);
                } else {
                    lemma_u8_set_bit_zero(x, k, jm);
                }
                lemma_u8_bit_arith(x, jm);
                lemma_u8_bit_arith(y, jm);
                assert(jb * 8 + jm == j) by (nonlinear_arith)
                    requires jb == j / 8, jm == j % 8,
                ;
            }
        }
    }
}

/// Reads the `w`-bit unsigned field that starts `off` bits past byte
/// `base` of the slice.
pub fn read_bits(data: &[u8], base: usize, off: usize, w: usize) -> (r: u64)
    requires
        w <= 64,
        data@.len() * 8 <= usize::MAX,
        base * 8 + off + w <= data@.len() * 8,
    ensures
        r as nat == field_value(data@, base * 8 + off, w as nat),
{
    let ghost pos = base * 8 + off;
    let mut r: u64 = 0;
    let mut j: usize = 0;
    proof {
        lemma2_to64();
    }
    while j < w
        invariant
            j <= w <= 64,
            data@.len() * 8 <= usize::MAX,
            base * 8 + off + w <= data@.len() * 8,
            pos == base * 8 + off,
            r as nat == field_value(data@, pos, j as nat),
            r < pow2(j as nat),
        decreases w - j,
    {
        let i = base * 8 + off + j;
        proof {
            assert(i / 8 < data@.len() && i % 8 < 8) by (nonlinear_arith)
                requires 0 <= i, i < data@.len() * 8,
            ;
            assert((i / 8) * 8 + i % 8 == i) by (nonlinear_arith);
        }
        let bit = get_bit(data, i / 8, i % 8);
        if bit {
            proof {
                lemma_u64_pow2_no_overflow(j as nat);
                lemma_u64_shl_is_mul(1u64, j as u64);
                lemma_pow2_unfold((j + 1) as nat);
                if j + 1 < 64 {
                    lemma_pow2_strictly_increases((j + 1) as nat, 64);
                }
                lemma2_to64_rest();
            }
            r = r + (1u64 << (j as u64));
        }
        proof {
            lemma_pow2_unfold((j + 1) as nat);
            if !bit {
                lemma_pow2_strictly_increases(j as nat, (j + 1) as nat);
            }
        }
        j = j + 1;
    }
    r
}

/// Truncates a value to its low `w` bits.
pub fn mask_to_width(value: u64, w: usize) -> (r: u64)
    requires
        w <= 64,
    ensures
        r as nat == value as nat % pow2(w as nat),
{
    if w == 64 {
        proof {
            lemma2_to64_rest();
        }
        value
    } else if w == 0 {
        proof {
            lemma2_to64();
            assert(value as nat % 1 == 0) by (nonlinear_arith);
        }
        0
    } else {
        proof {
            lemma_u64_pow2_no_overflow(w as nat);
            lemma_u64_shl_is_mul(1u64, w as u64);
            lemma_pow2_pos(w as nat);
            lemma_u64_low_bits_mask_is_mod(value, w as nat);
            lemma_low_bits_mask_unfold(w as nat);
            assert(low_bits_mask(w as nat) == pow2(w as nat) - 1) by {
                vstd::arithmetic::power2::lemma_pow2_unfold(w as nat);
            }
        }
        value & ((1u64 << (w as u64)) - 1)
    }
}

/// Whether bit `j` of `value` is set, in the arithmetic form of [`bit_at`].
pub open spec fn nat_bit(value: nat, j: nat) -> bool {
    value / pow2(j) % 2 == 1
}

proof fn lemma_u64_nat_bit(value: u64, j: u64)
    requires
        j < 64,
    ensures
        ((value >> j) & 1 == 1) == nat_bit(value as nat, j as nat),
        (value >> j) & 1 == 0 || (value >> j) & 1 == 1,
{
    lemma_u64_shr_is_div(value, j);
    lemma_u64_low_bits_mask_is_mod(value >> j, 1);
    lemma_low_bits_mask_values();
    lemma2_to64();
    assert(((value >> j) & 1) as nat == ((value >> j) as nat) % 2);
}

/// A field whose bits agree with the low bits of `value` holds `value`
/// modulo two to the field's width.
proof fn lemma_field_value_from_bits(d: Seq<u8>, pos: int, w: nat, value: nat)
    requires
        forall|j: nat| j < w ==> #[trigger] bit_at(d, pos + j) == nat_bit(value, j),
    ensures
        field_value(d, pos, w) == value % pow2(w),
    decreases w,
{
    if w == 0 {
        lemma2_to64();
        assert(value % 1 == 0) by (nonlinear_arith);
    } else {
        let wm = (w - 1) as nat;
        lemma_field_value_from_bits(d, pos, wm, value);
        assert(bit_at(d, pos + wm) == nat_bit(value, wm));
        lemma_pow2_unfold(w);
        lemma_pow2_pos(wm);
        // value % 2^w == value % 2^(w-1) + (bit w-1 of value) * 2^(w-1)
        vstd::arithmetic::div_mod::lemma_mod_breakdown(value as int, pow2(wm) as int, 2);
        assert(pow2(wm) as int * 2 == pow2(w) as int);
        assert(value as int % (pow2(wm) as int * 2) == pow2(wm) as int * ((value as int / pow2(
            wm,
        ) as int) % 2) + value as int % pow2(wm) as int);
        assert(value as int / pow2(wm) as int == (value / pow2(wm)) as int)
            by (nonlinear_arith)
            requires pow2(wm) > 0,
        ;
        if nat_bit(value, wm) {
            assert((value as int / pow2(wm) as int) % 2 == 1);
        } else {
            assert((value as int / pow2(wm) as int) % 2 == 0);
        }
    }
}

/// Writes `value`, truncated to `w` bits, into the `w`-bit field that
/// starts `off` bits past byte `base` of the buffer.  Every bit outside
/// the field, and every byte outside the field's covering span, keeps its
/// previous value.
pub fn write_bits(data: &mut Vec<u8>, base: usize, off: usize, w: usize, value: u64)
    requires
        w <= 64,
        old(data)@.len() * 8 <= usize::MAX,
        base * 8 + off + w <= old(data)@.len() * 8,
    ensures
        final(data)@.len() == old(data)@.len(),
        field_value(final(data)@, base * 8 + off, w as nat) == value as nat % pow2(w as nat),
        forall|j: int|
            0 <= j < final(data)@.len() * 8 && !(base * 8 + off <= j < base * 8 + off + w)
                ==> bit_at(final(data)@, j) == bit_at(old(data)@, j),
        forall|bb: int|
            0 <= bb < final(data)@.len() && !(base <= bb < base + (off + w + 7) / 8)
                ==> final(data)@[bb] == old(data)@[bb],
{
    let ghost pos = base * 8 + off;
    let ghost orig = data@;
    let mut j: usize = 0;
    while j < w
        invariant
            j <= w <= 64,
            orig.len() * 8 <= usize::MAX,
            base * 8 + off + w <= orig.len() * 8,
            pos == base * 8 + off,
            data@.len() == orig.len(),
            forall|jj: nat| jj < j ==> #[trigger] bit_at(data@, pos + jj) == nat_bit(value as nat, jj),
            forall|i: int|
                0 <= i < data@.len() * 8 && !(pos <= i < pos + j) ==> bit_at(data@, i) == bit_at(
                    orig,
                    i,
                ),
            forall|bb: int|
                0 <= bb < data@.len() && !(base <= bb < base + (off + w + 7) / 8) ==> data@[bb]
                    == orig[bb],
        decreases w - j,
    {
        let i = base * 8 + off + j;
        proof {
            assert(i / 8 < data@.len() && i % 8 < 8) by (nonlinear_arith)
                requires 0 <= i, i < data@.len() * 8,
            ;
            assert((i / 8) * 8 + i % 8 == i) by (nonlinear_arith);
            assert(base <= i / 8 < base + (off + w + 7) / 8) by (nonlinear_arith)
                requires i == base * 8 + off + j, 0 <= j < w, 0 <= off, 0 <= base,
            ;
            lemma_u64_nat_bit(value, j as u64);
        }
        let bit = (value >> (j as u64)) & 1 == 1;
        set_bit(data, i / 8, i % 8, bit);
        j = j + 1;
    }
    proof {
        lemma_field_value_from_bits(data@, pos, w as nat, value as nat);
    }
}

/// Reads the `w`-bit field as a signed value: two's complement, sign bit
/// at bit `w - 1`.
pub fn read_bits_signed(data: &[u8], base: usize, off: usize, w: usize) -> (r: i64)
    requires
        1 <= w <= 64,
        data@.len() * 8 <= usize::MAX,
        base * 8 + off + w <= data@.len() * 8,
    ensures
        r as int == field_value_signed(data@, base * 8 + off, w as nat),
{
    let ghost pos = base * 8 + off;
    let u = read_bits(data, base, off, w);
    // the sign bit is set exactly when the unsigned value reaches 2^(w-1)
    proof {
        lemma_field_value_bound(data@, pos, (w - 1) as nat);
        lemma_u64_pow2_no_overflow((w - 1) as nat);
        lemma_u64_shl_is_mul(1u64, (w - 1) as u64);
        lemma_pow2_unfold(w as nat);
        lemma2_to64();
        lemma2_to64_rest();
        if w < 64 {
            lemma_pow2_strictly_increases(w as nat, 64);
        }
        if w - 1 < 63 {
            lemma_pow2_strictly_increases((w - 1) as nat, 63);
        }
    }
    let half = 1u64 << ((w - 1) as u64);
    if u >= half {
        // two's complement: u - 2^w, which lies in [-2^(w-1), 0)
        let wide: i128 = if w == 64 {
            (u as i128) - 0x1_0000_0000_0000_0000i128
        } else {
            proof {
                lemma_u64_pow2_no_overflow(w as nat);
                lemma_u64_shl_is_mul(1u64, w as u64);
            }
            (u as i128) - ((1u64 << (w as u64)) as i128)
        };
        wide as i64
    } else {
        u as i64
    }
}

} // verus!
