//! Bit-level view of the compressed pixel stream: bytes are read most
//! significant bit first, and a run of bits is read as a big-endian number.
use vstd::prelude::*;

verus! {

/// `2` raised to `n`.
pub open spec fn two_pow(n: nat) -> nat
    decreases n,
{
    if n == 0 {
        1
    } else {
        2 * two_pow((n - 1) as nat)
    }
}

/// The eight bits of a byte, most significant first.
pub open spec fn byte_bits(b: u8) -> Seq<bool> {
    Seq::new(8, |i: int| (b >> ((7 - i) as u8)) & 1u8 == 1u8)
}

/// The bits of a byte string, each byte most significant bit first.
pub open spec fn bytes_bits(s: Seq<u8>) -> Seq<bool>
    decreases s.len(),
{
    if s.len() == 0 {
        Seq::empty()
    } else {
        bytes_bits(s.drop_last()) + byte_bits(s.last())
    }
}

/// The number that a run of bits spells, first bit most significant.
pub open spec fn code_value(bits: Seq<bool>) -> nat
    decreases bits.len(),
{
    if bits.len() == 0 {
        0
    } else {
        2 * code_value(bits.drop_last()) + (if bits.last() {
            1nat
        } else {
            0nat
        })
    }
}

pub proof fn lemma_two_pow_pos(n: nat)
    ensures
        two_pow(n) >= 1,
    decreases n,
{
    if n > 0 {
        lemma_two_pow_pos((n - 1) as nat);
    }
}

pub proof fn lemma_two_pow_adds(a: nat, b: nat)
    ensures
        two_pow(a + b) == two_pow(a) * two_pow(b),
    decreases b,
{
    if b > 0 {
        let b1 = (b - 1) as nat;
        lemma_two_pow_adds(a, b1);
        let x = two_pow(a);
        let y = two_pow(b1);
        assert(a + b == (a + b1) + 1);
        assert(two_pow(a + b) == 2 * two_pow(a + b1));
        assert(two_pow(b) == 2 * y);
        assert(x * (2 * y) == 2 * (x * y)) by (nonlinear_arith);
        assert(two_pow(a) * two_pow(b) == 2 * (x * y));
    } else {
        assert(two_pow(0) == 1);
        assert(a + b == a);
    }
}

pub proof fn lemma_two_pow_monotone(a: nat, b: nat)
    requires
        a <= b,
    ensures
        two_pow(a) <= two_pow(b),
    decreases b,
{
    if a < b {
        lemma_two_pow_monotone(a, (b - 1) as nat);
        lemma_two_pow_pos((b - 1) as nat);
    }
}

pub proof fn lemma_two_pow_64()
    ensures
        two_pow(8) == 0x100,
        two_pow(16) == 0x1_0000,
        two_pow(63) == 0x8000_0000_0000_0000,
        two_pow(64) == 0x1_0000_0000_0000_0000,
{
    reveal_with_fuel(two_pow, 9);
    assert(two_pow(8) == 0x100);
    lemma_two_pow_adds(8, 8);
    assert(two_pow(16) == 0x1_0000);
    lemma_two_pow_adds(16, 16);
    assert(two_pow(32) == 0x1_0000_0000);
    lemma_two_pow_adds(32, 32);
    assert(two_pow(64) == 0x1_0000_0000_0000_0000);
    assert(two_pow(64) == 2 * two_pow(63));
}

/// A run of `n` bits spells a number below `2^n`.
pub proof fn lemma_code_value_bound(bits: Seq<bool>)
    ensures
        code_value(bits) < two_pow(bits.len()),
    decreases bits.len(),
{
    if bits.len() > 0 {
        lemma_code_value_bound(bits.drop_last());
    }
}

/// Appending one bit doubles the value and adds the bit.
pub proof fn lemma_code_value_push(bits: Seq<bool>, b: bool)
    ensures
        code_value(bits.push(b)) == 2 * code_value(bits) + (if b {
            1nat
        } else {
            0nat
        }),
{
    assert(bits.push(b).drop_last() =~= bits);
}

/// A run of bits is worth at least its first `m` bits shifted up by the rest.
pub proof fn lemma_code_value_prefix(bits: Seq<bool>, m: nat)
    requires
        m <= bits.len(),
    ensures
        code_value(bits) >= code_value(bits.take(m as int)) * two_pow((bits.len() - m) as nat),
    decreases bits.len() - m,
{
    if m < bits.len() {
        let d = bits.drop_last();
        lemma_code_value_prefix(d, m);
        assert(d.take(m as int) =~= bits.take(m as int));
        let v = code_value(bits.take(m as int));
        let k = (d.len() - m) as nat;
        assert((bits.len() - m) as nat == k + 1);
        assert(two_pow(k + 1) == 2 * two_pow(k));
        assert(code_value(d) >= v * two_pow(k));
        assert(code_value(bits) >= 2 * code_value(d));
        assert(2 * (v * two_pow(k)) == v * (2 * two_pow(k))) by (nonlinear_arith);
        assert(code_value(bits) >= v * two_pow(k + 1));
        assert(code_value(bits) >= code_value(bits.take(m as int)) * two_pow((bits.len() - m) as nat));
    } else {
        assert(bits.take(m as int) =~= bits);
        assert(two_pow(0) == 1);
        assert((bits.len() - m) as nat == 0);
        assert(code_value(bits) >= code_value(bits.take(m as int)) * two_pow((bits.len() - m) as nat));
    }
}

/// The bits of a byte string grow by the bits of each appended byte.
pub proof fn lemma_bytes_bits_push(s: Seq<u8>, b: u8)
    ensures
        bytes_bits(s.push(b)) == bytes_bits(s) + byte_bits(b),
{
    assert(s.push(b).drop_last() =~= s);
}

/// A byte string has eight bits per byte.
pub proof fn lemma_bytes_bits_len(s: Seq<u8>)
    ensures
        bytes_bits(s).len() == 8 * s.len(),
    decreases s.len(),
{
    if s.len() > 0 {
        lemma_bytes_bits_len(s.drop_last());
    }
}

/// The bits of a concatenation are the concatenation of the bits.
pub proof fn lemma_bytes_bits_append(s: Seq<u8>, t: Seq<u8>)
    ensures
        bytes_bits(s + t) == bytes_bits(s) + bytes_bits(t),
    decreases t.len(),
{
    if t.len() == 0 {
        assert(s + t =~= s);
        assert(bytes_bits(s) + bytes_bits(t) =~= bytes_bits(s));
    } else {
        lemma_bytes_bits_append(s, t.drop_last());
        assert((s + t).drop_last() =~= s + t.drop_last());
        assert((s + t).last() == t.last());
        assert(bytes_bits(s + t) == bytes_bits(s + t.drop_last()) + byte_bits(t.last()));
        assert(bytes_bits(t) == bytes_bits(t.drop_last()) + byte_bits(t.last()));
        assert(bytes_bits(s) + bytes_bits(t.drop_last()) + byte_bits(t.last()) =~= bytes_bits(s)
            + (bytes_bits(t.drop_last()) + byte_bits(t.last())));
    }
}

/// The first `j` bits of a byte spell the byte shifted right by `8 - j`.
proof fn lemma_byte_bits_prefix(x: u8, j: u8)
    requires
        j <= 8,
    ensures
        code_value(byte_bits(x).take(j as int)) == (x >> ((8 - j) as u8)) as nat,
    decreases j,
{
    if j == 0 {
        assert(byte_bits(x).take(0) =~= Seq::<bool>::empty());
        assert(x >> 8u8 == 0u8) by (bit_vector);
    } else {
        let j1 = (j - 1) as u8;
        lemma_byte_bits_prefix(x, j1);
        let t = byte_bits(x).take(j as int);
        assert(t.drop_last() =~= byte_bits(x).take(j1 as int));
        assert(t.last() == ((x >> ((7 - j1) as u8)) & 1u8 == 1u8));
        let s: u8 = (7 - j1) as u8;
        let s1: u8 = (8 - j1) as u8;
        assert(x >> s == 2 * (x >> s1) + ((x >> s) & 1u8)) by (bit_vector)
            requires
                s1 == s + 1,
                s <= 7,
        ;
        assert(((x >> s) & 1u8) <= 1) by (bit_vector);
        assert((8 - j) as u8 == s);
    }
}

/// The bits of a byte spell the byte.
pub proof fn lemma_byte_bits_value(x: u8)
    ensures
        code_value(byte_bits(x)) == x,
{
    lemma_byte_bits_prefix(x, 8);
    assert(byte_bits(x).take(8) =~= byte_bits(x));
    assert(x >> 0u8 == x) by (bit_vector);
}

/// Bits followed by more bits spell the first number shifted up by the
/// length of the second, plus the second.
pub proof fn lemma_code_value_append(a: Seq<bool>, b: Seq<bool>)
    ensures
        code_value(a + b) == code_value(a) * two_pow(b.len()) + code_value(b),
    decreases b.len(),
{
    if b.len() == 0 {
        assert(a + b =~= a);
        assert(two_pow(0) == 1);
        assert(code_value(b) == 0);
    } else {
        lemma_code_value_append(a, b.drop_last());
        assert((a + b).drop_last() =~= a + b.drop_last());
        assert((a + b).last() == b.last());
        let va = code_value(a);
        let p = two_pow(b.drop_last().len());
        assert(two_pow(b.len()) == 2 * p);
        assert(2 * (va * p) == va * (2 * p)) by (nonlinear_arith);
        let bit: nat = if b.last() {
            1
        } else {
            0
        };
        assert(code_value(a + b) == 2 * code_value(a + b.drop_last()) + bit);
        assert(code_value(b) == 2 * code_value(b.drop_last()) + bit);
    }
}

/// Reads bit `i` (counting from the most significant) of a byte as `0` or `1`.
pub fn byte_bit(b: u8, i: u8) -> (r: u8)
    requires
        i < 8,
    ensures
        r <= 1,
        (r == 1) == byte_bits(b)[i as int],
{
    let s: u8 = 7 - i;
    let r = (b >> s) & 1u8;
    assert(r <= 1) by (bit_vector)
        requires
            r == (b >> s) & 1u8,
    ;
    r
}

} // verus!
