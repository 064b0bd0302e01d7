//! Bit stream adapter: the mathematical model of bytes as bit sequences
//! (most-significant bit first) and of fixed-width bit-groups, with the
//! executable helpers that read and write those bits.

use vstd::prelude::*;
use vstd::arithmetic::power2::{
    lemma2_to64,
    lemma_pow2_pos,
    lemma_pow2_strictly_increases,
    lemma_pow2_unfold,
    pow2,
};
use vstd::arithmetic::div_mod::{
    lemma_div_denominator,
    lemma_fundamental_div_mod,
    lemma_fundamental_div_mod_converse,
    lemma_multiply_divide_lt,
};
use vstd::arithmetic::mul::lemma_mul_inequality;

verus! {

/// Bit `k` of the value `v`, counting from the least significant bit.
pub open spec fn nth_bit(v: nat, k: nat) -> bool {
    v / pow2(k) % 2 == 1
}

/// The low `width` bits of `v` as a sequence, most significant first.
pub open spec fn bits_of(v: nat, width: nat) -> Seq<bool> {
    Seq::new(width, |j: int| nth_bit(v, (width - 1 - j) as nat))
}

/// The value of a bit sequence read most-significant-bit first.
pub open spec fn bits_value(s: Seq<bool>) -> nat
    decreases s.len(),
{
    if s.len() == 0 {
        0
    } else {
        2 * bits_value(s.drop_last()) + (if s.last() {
            1nat
        } else {
            0nat
        })
    }
}

/// A byte sequence as one flat bit sequence, most significant bit of each
/// byte first: the encode direction of the adapter.
pub open spec fn payload_bits(s: Seq<u8>) -> Seq<bool> {
    Seq::new(8 * s.len(), |t: int| nth_bit(s[t / 8] as nat, (7 - t % 8) as nat))
}

/// How many `b`-bit groups a payload of `len_bytes` bytes fills, the final
/// group zero-padded on the low end when `8 * len_bytes` is not a multiple
/// of `b`.
pub open spec fn num_groups(len_bytes: nat, b: nat) -> nat {
    if b == 0 {
        0
    } else {
        ((8 * len_bytes + b - 1) as int / (b as int)) as nat
    }
}

/// The payload bits extended with zero bits up to a whole number of
/// `b`-bit groups.
pub open spec fn padded_bits(s: Seq<u8>, b: nat) -> Seq<bool> {
    Seq::new(num_groups(s.len(), b) * b, |t: int| t < 8 * s.len() && payload_bits(s)[t])
}

/// The value of the `i`-th `b`-bit group of a payload.
pub open spec fn group_value(s: Seq<u8>, b: nat, i: nat) -> nat {
    bits_value(padded_bits(s, b).subrange((i * b) as int, (i * b + b) as int))
}

/// A flat bit sequence reassembled into bytes, eight bits per byte, most
/// significant first; leftover bits beyond the last whole byte are dropped:
/// the decode direction of the adapter.
pub open spec fn bits_to_bytes(bits: Seq<bool>) -> Seq<u8> {
    Seq::new(bits.len() / 8, |i: int| bits_value(bits.subrange(8 * i, 8 * i + 8)) as u8)
}

/// Appending a bit doubles the value and adds the bit.
pub proof fn lemma_bits_value_push(s: Seq<bool>, x: bool)
    ensures
        bits_value(s.push(x)) == 2 * bits_value(s) + (if x {
            1nat
        } else {
            0nat
        }),
{
    assert(s.push(x).drop_last() =~= s);
    assert(s.push(x).last() == x);
}

/// A sequence of `n` bits has a value below `2^n`.
pub proof fn lemma_bits_value_bound(s: Seq<bool>)
    ensures
        bits_value(s) < pow2(s.len()),
    decreases s.len(),
{
    if s.len() == 0 {
        lemma2_to64();
    } else {
        lemma_bits_value_bound(s.drop_last());
        lemma_pow2_unfold(s.len());
    }
}

/// Dividing by `2^k` is dividing by two `k` times.
pub proof fn lemma_div_pow2_step(v: nat, k: nat)
    requires
        k >= 1,
    ensures
        v / pow2(k) == (v / 2) / pow2((k - 1) as nat),
{
    lemma_pow2_pos((k - 1) as nat);
    lemma_pow2_unfold(k);
    lemma_div_denominator(v as int, 2, pow2((k - 1) as nat) as int);
}

/// Shortening the window by its last bit halves the value it reads.
pub proof fn lemma_bits_of_drop_last(v: nat, width: nat)
    requires
        width >= 1,
    ensures
        bits_of(v, width).drop_last() =~= bits_of(v / 2, (width - 1) as nat),
        bits_of(v, width).last() == (v % 2 == 1),
    decreases width,
{
    lemma2_to64();
    assert forall|j: int| 0 <= j < width - 1 implies bits_of(v, width).drop_last()[j] == bits_of(
        v / 2,
        (width - 1) as nat,
    )[j] by {
        lemma_div_pow2_step(v, (width - 1 - j) as nat);
    }
}

/// Reading the low `width` bits of a value below `2^width` gives the value
/// back.
pub proof fn lemma_bits_value_of_bits_of(v: nat, width: nat)
    requires
        v < pow2(width),
    ensures
        bits_value(bits_of(v, width)) == v,
    decreases width,
{
    if width == 0 {
        lemma2_to64();
    } else {
        lemma_bits_of_drop_last(v, width);
        lemma_pow2_unfold(width);
        lemma_fundamental_div_mod(v as int, 2);
        lemma_bits_value_of_bits_of(v / 2, (width - 1) as nat);
    }
}

/// Spelling out the value of a bit sequence bit by bit gives the sequence
/// back.
pub proof fn lemma_bits_of_bits_value(s: Seq<bool>)
    ensures
        bits_of(bits_value(s), s.len()) =~= s,
    decreases s.len(),
{
    if s.len() > 0 {
        let v = bits_value(s);
        let a = bits_value(s.drop_last());
        lemma2_to64();
        assert(v == 2 * a + (if s.last() {
            1nat
        } else {
            0nat
        }));
        assert(v / 2 == a && v % 2 == (if s.last() {
            1int
        } else {
            0int
        })) by {
            lemma_fundamental_div_mod_converse(
                v as int,
                2,
                a as int,
                if s.last() {
                    1int
                } else {
                    0int
                },
            );
        }
        lemma_bits_of_bits_value(s.drop_last());
        lemma_bits_of_drop_last(v, s.len());
        assert(bits_of(v, s.len()).drop_last() =~= s.drop_last());
        assert(bits_of(v, s.len()).last() == s.last());
        assert(bits_of(v, s.len()) =~= bits_of(v, s.len()).drop_last().push(
            bits_of(v, s.len()).last(),
        ));
        assert(s =~= s.drop_last().push(s.last()));
    }
}

/// `2^e` for the widths a channel byte can hold.
pub fn pow2_u16(e: usize) -> (r: u16)
    requires
        e <= 8,
    ensures
        r as nat == pow2(e as nat),
{
    proof {
        lemma2_to64();
    }
    match e {
        0 => 1,
        1 => 2,
        2 => 4,
        3 => 8,
        4 => 16,
        5 => 32,
        6 => 64,
        7 => 128,
        _ => 256,
    }
}

/// Reads bit `k` of a byte (0 = least significant); 1 when set, 0 when clear.
pub fn extract_bit(byte: u8, k: usize) -> (bit: u8)
    requires
        k < 8,
    ensures
        bit as nat == (byte as nat) / pow2(k as nat) % 2,
        bit == 0 || bit == 1,
        (bit == 1) == nth_bit(byte as nat, k as nat),
{
    let p = pow2_u16(k);
    proof {
        lemma_pow2_pos(k as nat);
        lemma2_to64();
        lemma_pow2_strictly_increases(k as nat, 8);
    }
    let q: u16 = (byte as u16) / p;
    (q % 2) as u8
}

/// The value held in the low `b` bits of a byte.
pub fn low_bits(byte: u8, b: usize) -> (r: u8)
    requires
        1 <= b <= 8,
    ensures
        r as nat == (byte as nat) % pow2(b as nat),
        (r as nat) < pow2(b as nat),
{
    let p = pow2_u16(b);
    proof {
        lemma_pow2_pos(b as nat);
    }
    let r16: u16 = (byte as u16) % p;
    proof {
        vstd::arithmetic::div_mod::lemma_mod_division_less_than_divisor(byte as int, p as int);
        assert(p <= 256) by {
            lemma2_to64();
            if b < 8 {
                lemma_pow2_strictly_increases(b as nat, 8);
            }
        }
    }
    r16 as u8
}

/// Overwrites the low `b` bits of a byte with `v`, keeping the high
/// `8 - b` bits unchanged.
pub fn write_low_bits(byte: u8, b: usize, v: u8) -> (r: u8)
    requires
        1 <= b <= 8,
        (v as nat) < pow2(b as nat),
    ensures
        (r as nat) % pow2(b as nat) == v as nat,
        (r as nat) / pow2(b as nat) == (byte as nat) / pow2(b as nat),
{
    let p = pow2_u16(b);
    let q: u16 = (byte as u16) / p;
    proof {
        lemma_pow2_pos(b as nat);
        let bi = byte as int;
        let pi = p as int;
        let qi = bi / pi;
        let c = pow2((8 - b) as nat) as int;
        assert(c * pi == 256) by {
            vstd::arithmetic::power2::lemma_pow2_adds((8 - b) as nat, b as nat);
            lemma2_to64();
        }
        assert(qi * pi + bi % pi == bi) by {
            lemma_fundamental_div_mod(bi, pi);
        }
        assert(qi < c) by {
            vstd::arithmetic::mul::lemma_mul_is_commutative(c, pi);
            lemma_multiply_divide_lt(bi, pi, c);
        }
        assert((qi + 1) * pi <= c * pi) by {
            lemma_mul_inequality(qi + 1, c, pi);
        }
        assert(qi * pi + pi == (qi + 1) * pi) by {
            vstd::arithmetic::mul::lemma_mul_is_distributive_add_other_way(pi, qi, 1);
        }
    }
    let r16: u16 = q * p + (v as u16);
    proof {
        let pi = p as int;
        let qi = (byte as int) / pi;
        lemma_fundamental_div_mod_converse(r16 as int, pi, qi, v as int);
    }
    r16 as u8
}

/// Reads the value of the `i`-th `b`-bit group of a payload: payload bits
/// taken most-significant first, the final group zero-padded on the low end.
pub fn payload_group(payload: &Vec<u8>, b: usize, i: usize) -> (g: u8)
    requires
        1 <= b <= 8,
        (i as nat) < num_groups(payload@.len(), b as nat),
    ensures
        g as nat == group_value(payload@, b as nat, i as nat),
        (g as nat) < pow2(b as nat),
{
    let ghost s = payload@;
    let ghost bn = b as nat;
    let ghost gstart: int = i as int * b as int;
    proof {
        let gn = num_groups(s.len(), bn);
        assert((i + 1) * b <= gn * b) by {
            lemma_mul_inequality(i + 1, gn as int, b as int);
        }
        assert((i + 1) * b == i as int * b + b) by {
            vstd::arithmetic::mul::lemma_mul_is_distributive_add_other_way(b as int, i as int, 1);
        }
        vstd::arithmetic::mul::lemma_mul_upper_bound(i as int, usize::MAX as int, b as int, 8);
        lemma2_to64();
    }
    let len = payload.len();
    let total_bits: u128 = (len as u128) * 8;
    let mut g: u8 = 0;
    let mut j: usize = 0;
    while j < b
        invariant
            1 <= b <= 8,
            j <= b,
            s == payload@,
            len == s.len(),
            bn == b,
            gstart == i as int * b as int,
            gstart <= (usize::MAX as int) * 8,
            total_bits == s.len() * 8,
            gstart + b <= padded_bits(s, bn).len(),
            g as nat == bits_value(padded_bits(s, bn).subrange(gstart, gstart + j)),
            (g as nat) < pow2(j as nat),
        decreases b - j,
    {
        let t: u128 = (i as u128) * (b as u128) + (j as u128);
        proof {
            assert(t == gstart + j);
        }
        let bit: u8 = if t < total_bits {
            let byte_idx: usize = (t / 8) as usize;
            let k: usize = (t % 8) as usize;
            proof {
                lemma_multiply_divide_lt(t as int, 8, s.len() as int);
            }
            extract_bit(payload[byte_idx], 7 - k)
        } else {
            0
        };
        proof {
            let tt = gstart + j;
            let window = padded_bits(s, bn);
            assert(window.subrange(gstart, tt + 1) =~= window.subrange(gstart, tt).push(
                window[tt],
            ));
            lemma_bits_value_push(window.subrange(gstart, tt), window[tt]);
            assert((bit == 1) == window[tt]);
            assert(pow2(j as nat) <= 128) by {
                lemma2_to64();
                if j < 7 {
                    lemma_pow2_strictly_increases(j as nat, 7);
                }
            }
            lemma_pow2_unfold((j + 1) as nat);
        }
        g = 2 * g + bit;
        j = j + 1;
    }
    g
}

} // verus!
