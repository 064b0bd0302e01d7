//! Encoder and decoder: drive the pixel cursor and the bit stream adapter to
//! overwrite or read the low-order bits of channel bytes.

use vstd::prelude::*;
use vstd::arithmetic::power2::pow2;
use vstd::arithmetic::div_mod::{
    lemma_basic_div,
    lemma_div_is_ordered,
    lemma_div_multiples_vanish,
    lemma_div_plus_one,
    lemma_multiply_divide_lt,
};
use vstd::arithmetic::mul::{
    lemma_mul_is_commutative,
    lemma_mul_is_distributive_add_other_way,
};
use crate::bits::{
    bits_of,
    bits_to_bytes,
    bits_value,
    group_value,
    padded_bits,
    payload_bits,
    num_groups,
    payload_group,
    write_low_bits,
};
use crate::config::Configuration;
use crate::cursor::{
    channels_per_pixel,
    data_index,
    lemma_position_in_grid,
    lemma_positions_distinct,
    position_seq,
    positions,
    Position,
};
use crate::error::CodecError;
use crate::grid::PixelGrid;

verus! {

/// The flat bit stream a traversal of `data` reads: for each cursor position
/// in order, the low `bits_per_channel` bits of the addressed channel byte,
/// most significant of those bits first.
pub open spec fn decoded_bits(data: Seq<u8>, config: Configuration, pixel_count: nat) -> Seq<bool> {
    let p = position_seq(config, pixel_count);
    let b = config.bits_per_channel as nat;
    Seq::new(
        p.len() * b,
        |t: int|
            bits_of((data[data_index(p[t / (b as int)])] as nat) % pow2(b), b)[t % (b as int)],
    )
}

/// Every whole byte the traversal of `data` yields, in order.
pub open spec fn decoded_bytes(data: Seq<u8>, config: Configuration, pixel_count: nat) -> Seq<u8> {
    bits_to_bytes(decoded_bits(data, config, pixel_count))
}

/// Whether one of the first `w` cursor positions addresses byte `j` of the
/// grid buffer.
pub open spec fn position_written(p: Seq<Position>, w: nat, j: int) -> bool {
    exists|i: int| 0 <= i < w && data_index(#[trigger] p[i]) == j
}

/// What encoding leaves in the grid after writing the first `w` payload
/// bit-groups: each of the first `w` positions holds its group in the low
/// bits with the high bits preserved, and every other byte is untouched.
pub open spec fn encoded_upto(
    d_old: Seq<u8>,
    d_new: Seq<u8>,
    config: Configuration,
    pixel_count: nat,
    payload: Seq<u8>,
    w: nat,
) -> bool {
    let p = position_seq(config, pixel_count);
    let b = config.bits_per_channel as nat;
    &&& d_new.len() == d_old.len()
    &&& forall|i: int|
        0 <= i < w ==> (d_new[data_index(#[trigger] p[i])] as nat) % pow2(b) == group_value(
            payload,
            b,
            i as nat,
        )
    &&& forall|i: int|
        0 <= i < w ==> (d_new[data_index(#[trigger] p[i])] as nat) / pow2(b) == (
        d_old[data_index(p[i])] as nat) / pow2(b)
    &&& forall|j: int|
        0 <= j < d_old.len() && !position_written(p, w, j) ==> d_new[j] == #[trigger] d_old[j]
}

/// How many distinct pixels the first `w` cursor positions touch.
pub open spec fn pixels_touched(config: Configuration, w: nat) -> nat {
    let cpp = channels_per_pixel(config.channel);
    ((w + cpp - 1) as int / (cpp as int)) as nat
}

/// Single-use encoder: overwrites the low bits of the grid's channel bytes
/// along the cursor's path with the payload's bit-groups.
pub struct Encoder {
    /// The carrier grid; mutated in place by `encode`.
    pub grid: PixelGrid,
    /// The traversal rules, fixed at construction.
    pub config: Configuration,
    /// How many distinct pixels the last `encode` call wrote at least one
    /// bit-group into, whether or not any bit value actually changed.
    pub pixels_changed: usize,
}

impl Encoder {
    /// Builds an encoder over a carrier grid and traversal rules.
    pub fn new(grid: PixelGrid, config: Configuration) -> (e: Encoder)
        ensures
            e.grid == grid,
            e.config == config,
            e.pixels_changed == 0,
    {
        Encoder { grid, config, pixels_changed: 0 }
    }

    /// Embeds `payload` into the grid.
    ///
    /// Succeeds exactly when the payload's bit-groups fit the cursor's
    /// capacity, returning how many pixels were written. On
    /// `CapacityExceeded` every available position has been written (the
    /// count of bits written rides in the error) and the grid is left in
    /// that partially-mutated state.
    ///
    /// A pixel counts as changed when at least one of its channel bytes was
    /// written, even if the written bits happen to equal the old ones.
    pub fn encode(&mut self, payload: &Vec<u8>) -> (r: Result<usize, CodecError>)
        requires
            old(self).grid.wf(),
            old(self).config.valid(),
        ensures
            final(self).grid.width == old(self).grid.width,
            final(self).grid.height == old(self).grid.height,
            final(self).grid.wf(),
            final(self).config == old(self).config,
            ({
                let d_old = old(self).grid.data@;
                let d_new = final(self).grid.data@;
                let cfg = old(self).config;
                let n_pix = old(self).grid.spec_pixel_count();
                let b = cfg.bits_per_channel as nat;
                let cap = position_seq(cfg, n_pix).len();
                let g = num_groups(payload@.len(), b);
                &&& (r is Ok <==> g <= cap)
                &&& (r matches Ok(n) ==> encoded_upto(d_old, d_new, cfg, n_pix, payload@, g)
                    && n == pixels_touched(cfg, g) && final(self).pixels_changed == n)
                &&& (r matches Err(e) ==> e == (CodecError::CapacityExceeded {
                    bits_written: (cap * b) as u128,
                }) && encoded_upto(d_old, d_new, cfg, n_pix, payload@, cap)
                    && final(self).pixels_changed == pixels_touched(cfg, cap))
            }),
    {
        let ghost cfg = self.config;
        let ghost d_old = self.grid.data@;
        let b: usize = self.config.bits_per_channel as usize;
        let _len = self.grid.data.len();
        let width = self.grid.width;
        let height = self.grid.height;
        let ghost n_pix = self.grid.spec_pixel_count();
        let pos = positions(width, height, &self.config);
        let cap = pos.len();
        let payload_len = payload.len();
        let need_bits: u128 = (payload_len as u128) * 8;
        proof {
            vstd::arithmetic::mul::lemma_mul_nonnegative(width as int, height as int);
            vstd::arithmetic::mul::lemma_mul_upper_bound(
                cap as int,
                usize::MAX as int,
                b as int,
                8,
            );
        }
        let cap_bits: u128 = (cap as u128) * (b as u128);
        let ghost gn = num_groups(payload@.len(), b as nat);
        let fits: bool = need_bits <= cap_bits;
        proof {
            let li = payload@.len() as int;
            let bi = b as int;
            let ci = cap as int;
            assert(cap * b <= position_seq(cfg, n_pix).len() * b);
            if 8 * li <= ci * bi {
                assert(8 * li + bi - 1 < bi * (ci + 1)) by {
                    lemma_mul_is_distributive_add_other_way(bi, ci, 1);
                    lemma_mul_is_commutative(bi, ci);
                }
                lemma_multiply_divide_lt(8 * li + bi - 1, bi, ci + 1);
                assert(gn <= cap);
            } else {
                assert((ci + 1) * bi <= 8 * li + bi - 1) by {
                    lemma_mul_is_distributive_add_other_way(bi, ci, 1);
                    lemma_mul_is_commutative(bi, ci);
                }
                assert(ci + 1 <= (8 * li + bi - 1) / bi) by {
                    lemma_div_is_ordered((ci + 1) * bi, 8 * li + bi - 1, bi);
                    lemma_div_multiples_vanish(ci + 1, bi);
                    lemma_mul_is_commutative(ci + 1, bi);
                }
                assert(gn > cap);
            }
        }
        let w_count: usize = if fits {
            if payload_len == 0 {
                0
            } else {
                (((need_bits + (b as u128)) - 1) / (b as u128)) as usize
            }
        } else {
            cap
        };
        proof {
            if fits && payload@.len() == 0 {
                lemma_basic_div((b - 1) as int, b as int);
            }
            assert(w_count == if gn <= position_seq(cfg, n_pix).len() {
                gn
            } else {
                position_seq(cfg, n_pix).len()
            });
        }
        let mut i: usize = 0;
        while i < w_count
            invariant
                i <= w_count,
                w_count <= cap,
                (w_count as nat) <= gn,
                gn == num_groups(payload@.len(), b as nat),
                1 <= b <= 8,
                b == cfg.bits_per_channel,
                cfg == self.config,
                cfg.valid(),
                pos@ == position_seq(cfg, n_pix),
                cap == pos@.len(),
                self.grid.width == width,
                self.grid.height == height,
                n_pix == (width * height) as nat,
                n_pix * 3 <= usize::MAX,
                d_old.len() == n_pix * 3,
                self.grid.data@.len() == d_old.len(),
                encoded_upto(d_old, self.grid.data@, cfg, n_pix, payload@, i as nat),
            decreases w_count - i,
        {
            let p = pos[i];
            proof {
                lemma_position_in_grid(cfg, n_pix, i as int);
                assert(3 * (p.pixel as int) + p.channel < 3 * (n_pix as int));
            }
            let idx: usize = p.pixel * 3 + p.channel;
            let g = payload_group(payload, b, i);
            let old_byte = self.grid.data[idx];
            let new_byte = write_low_bits(old_byte, b, g);
            let ghost d_prev = self.grid.data@;
            self.grid.data[idx] = new_byte;
            proof {
                let pseq = position_seq(cfg, n_pix);
                let d_cur = self.grid.data@;
                assert(d_cur == d_prev.update(idx as int, new_byte));
                let bn = b as nat;
                assert forall|i2: int| 0 <= i2 < i implies data_index(#[trigger] pseq[i2])
                    != idx as int by {
                    lemma_positions_distinct(cfg, n_pix, i2, i as int);
                }
                assert(!position_written(pseq, i as nat, idx as int));
                assert(d_prev[idx as int] == d_old[idx as int]);
                assert forall|i2: int|
                    0 <= i2 < i + 1 implies (d_cur[data_index(#[trigger] pseq[i2])] as nat)
                    % pow2(bn) == group_value(payload@, bn, i2 as nat) by {
                    if i2 < i {
                        lemma_position_in_grid(cfg, n_pix, i2);
                        assert(data_index(pseq[i2]) != idx as int);
                        assert(d_cur[data_index(pseq[i2])] == d_prev[data_index(pseq[i2])]);
                    }
                }
                assert forall|i2: int|
                    0 <= i2 < i + 1 implies (d_cur[data_index(#[trigger] pseq[i2])] as nat)
                    / pow2(bn) == (d_old[data_index(pseq[i2])] as nat) / pow2(bn) by {
                    if i2 < i {
                        lemma_position_in_grid(cfg, n_pix, i2);
                        assert(data_index(pseq[i2]) != idx as int);
                        assert(d_cur[data_index(pseq[i2])] == d_prev[data_index(pseq[i2])]);
                    }
                }
                assert forall|j: int|
                    0 <= j < d_old.len() && !position_written(pseq, (i + 1) as nat, j) implies
                    d_cur[j] == d_old[j] by {
                    assert(data_index(pseq[i as int]) == idx as int);
                    assert(j != idx as int);
                    assert(!position_written(pseq, i as nat, j));
                }
                assert(encoded_upto(d_old, d_cur, cfg, n_pix, payload@, (i + 1) as nat));
            }
            i = i + 1;
        }
        let cpp: usize = match self.config.channel {
            crate::config::Channel::All => 3,
            _ => 1,
        };
        let changed: usize = if w_count == 0 {
            proof {
                lemma_basic_div((cpp - 1) as int, cpp as int);
            }
            0
        } else {
            proof {
                lemma_div_plus_one((w_count - 1) as int, cpp as int);
            }
            (w_count - 1) / cpp + 1
        };
        proof {
            assert(changed == pixels_touched(cfg, w_count as nat));
        }
        self.pixels_changed = changed;
        if fits {
            Ok(changed)
        } else {
            Err(CodecError::CapacityExceeded { bits_written: cap_bits })
        }
    }
}

/// Round trip: when a payload's bit-groups fit the cursor's capacity,
/// decoding an encoded grid under the same configuration yields the payload
/// back, as the leading bytes of the decoded content. (The decoder reads the
/// whole traversal, so bytes past the payload's length are carrier noise;
/// the zero bits padding a partial final group never land inside those first
/// `payload.len()` bytes.)
pub proof fn lemma_round_trip(
    d_old: Seq<u8>,
    d_new: Seq<u8>,
    config: Configuration,
    pixel_count: nat,
    payload: Seq<u8>,
)
    requires
        config.valid(),
        pixel_count <= usize::MAX,
        d_old.len() == pixel_count * 3,
        num_groups(payload.len(), config.bits_per_channel as nat) <= position_seq(
            config,
            pixel_count,
        ).len(),
        encoded_upto(
            d_old,
            d_new,
            config,
            pixel_count,
            payload,
            num_groups(payload.len(), config.bits_per_channel as nat),
        ),
    ensures
        payload.len() <= decoded_bytes(d_new, config, pixel_count).len(),
        decoded_bytes(d_new, config, pixel_count).take(payload.len() as int) == payload,
{
    let b = config.bits_per_channel as nat;
    let bi = b as int;
    let li = payload.len() as int;
    let g = num_groups(payload.len(), b);
    let p = position_seq(config, pixel_count);
    let cap = p.len() as int;
    let dbits = decoded_bits(d_new, config, pixel_count);
    let padded = padded_bits(payload, b);
    let pbits = payload_bits(payload);
    vstd::arithmetic::power2::lemma2_to64();
    // The padded payload bits cover at least the payload's own bits.
    assert(8 * li <= g * bi) by {
        vstd::arithmetic::div_mod::lemma_fundamental_div_mod(8 * li + bi - 1, bi);
        vstd::arithmetic::div_mod::lemma_mod_division_less_than_divisor(8 * li + bi - 1, bi);
        lemma_mul_is_commutative(g as int, bi);
    }
    assert(g * bi <= cap * bi) by {
        vstd::arithmetic::mul::lemma_mul_inequality(g as int, cap, bi);
    }
    // Every decoded bit below `g * b` is the corresponding padded payload bit.
    assert forall|t: int| 0 <= t < g * bi implies dbits[t] == padded[t] by {
        let i = t / bi;
        let j = t % bi;
        vstd::arithmetic::div_mod::lemma_mod_division_less_than_divisor(t, bi);
        vstd::arithmetic::div_mod::lemma_div_pos_is_pos(t, bi);
        vstd::arithmetic::div_mod::lemma_fundamental_div_mod(t, bi);
        assert(i < g) by {
            lemma_mul_is_commutative(g as int, bi);
            lemma_multiply_divide_lt(t, bi, g as int);
        }
        lemma_position_in_grid(config, pixel_count, i);
        let chunk = padded.subrange(i * bi, i * bi + bi);
        assert((d_new[data_index(p[i])] as nat) % pow2(b) == group_value(payload, b, i as nat));
        crate::bits::lemma_bits_value_bound(chunk);
        crate::bits::lemma_bits_of_bits_value(chunk);
        assert(bits_of(bits_value(chunk), b)[j] == chunk[j]);
        assert(chunk[j] == padded[i * bi + j]);
        assert(t == bi * i + j);
        assert(t < dbits.len()) by {
            vstd::arithmetic::mul::lemma_mul_inequality(g as int, cap, bi);
        }
        assert(dbits[t] == bits_of((d_new[data_index(p[t / bi])] as nat) % pow2(b), b)[t % bi]);
    }
    // Decoded content is long enough to hold the payload.
    assert(li <= dbits.len() / 8) by {
        vstd::arithmetic::div_mod::lemma_div_multiples_vanish(li, 8);
        lemma_div_is_ordered(8 * li, dbits.len() as int, 8);
    }
    let decoded = decoded_bytes(d_new, config, pixel_count);
    // Byte by byte, the leading decoded bytes are the payload.
    assert forall|k: int| 0 <= k < li implies decoded[k] == payload[k] by {
        let byte_bits = dbits.subrange(8 * k, 8 * k + 8);
        assert forall|q: int| 0 <= q < 8 implies byte_bits[q] == bits_of(
            payload[k] as nat,
            8,
        )[q] by {
            let t = 8 * k + q;
            vstd::arithmetic::div_mod::lemma_fundamental_div_mod_converse(t, 8, k, q);
            assert(t < 8 * li);
            assert(t < g * bi);
            assert(dbits[t] == padded[t]);
            assert(padded[t] == pbits[t]);
            assert(pbits[t] == crate::bits::nth_bit(payload[t / 8] as nat, (7 - t % 8) as nat));
        }
        assert(byte_bits =~= bits_of(payload[k] as nat, 8));
        crate::bits::lemma_bits_value_of_bits_of(payload[k] as nat, 8);
        assert(decoded[k] as nat == bits_value(byte_bits));
    }
    assert(decoded.take(li) =~= payload);
}

/// Whether the first `e` decoded bytes end in the marker.
pub open spec fn marker_match(bytes: Seq<u8>, marker: Seq<u8>, e: int) -> bool {
    1 <= e <= bytes.len() && marker.len() <= e && bytes.subrange(e - marker.len(), e) == marker
}

/// The first prefix length `e >= s` at which the decoded bytes end in the
/// marker; the decoder checks after each completed byte, so prefixes of
/// length zero are never candidates.
pub open spec fn first_match_end(bytes: Seq<u8>, marker: Seq<u8>, e: int) -> Option<int>
    decreases bytes.len() + 1 - e,
{
    if e < 0 || e > bytes.len() {
        None
    } else if marker_match(bytes, marker, e) {
        Some(e)
    } else {
        first_match_end(bytes, marker, e + 1)
    }
}

/// What marker-terminated decoding returns: everything up to (and not
/// including) the earliest marker occurrence that ends a decoded prefix, or
/// the full decoded content when the marker never appears.
pub open spec fn until_bytes(bytes: Seq<u8>, marker: Seq<u8>) -> Seq<u8> {
    match first_match_end(bytes, marker, 1) {
        Some(e) => bytes.take(e - marker.len()),
        None => bytes,
    }
}

/// Scanning from `s` finds `e` when `e` matches and nothing before it does.
proof fn lemma_first_match_found(bytes: Seq<u8>, marker: Seq<u8>, s: int, e: int)
    requires
        0 <= s <= e,
        marker_match(bytes, marker, e),
        forall|e2: int| s <= e2 < e ==> !marker_match(bytes, marker, e2),
    ensures
        first_match_end(bytes, marker, s) == Some(e),
    decreases e - s,
{
    if s < e {
        lemma_first_match_found(bytes, marker, s + 1, e);
    }
}

/// Scanning from `s` finds nothing when no prefix from `s` on matches.
proof fn lemma_first_match_none(bytes: Seq<u8>, marker: Seq<u8>, s: int)
    requires
        0 <= s,
        forall|e2: int| s <= e2 <= bytes.len() ==> !marker_match(bytes, marker, e2),
    ensures
        first_match_end(bytes, marker, s) is None,
    decreases bytes.len() + 1 - s,
{
    if s <= bytes.len() {
        lemma_first_match_none(bytes, marker, s + 1);
    }
}

/// Whether the first `e` bytes of `all` end in `marker`, byte for byte.
fn is_suffix_at(all: &Vec<u8>, e: usize, marker: &Vec<u8>) -> (r: bool)
    requires
        marker@.len() <= e <= all@.len(),
    ensures
        r == (all@.subrange(e - marker@.len(), e as int) == marker@),
{
    let m = marker.len();
    let start = e - m;
    let mut q: usize = 0;
    while q < m
        invariant
            q <= m,
            m == marker@.len(),
            start == e - m,
            m <= e <= all@.len(),
            forall|q2: int| 0 <= q2 < q ==> all@[start + q2] == marker@[q2],
        decreases m - q,
    {
        if all[start + q] != marker[q] {
            proof {
                assert(all@.subrange(start as int, e as int)[q as int] != marker@[q as int]);
            }
            return false;
        }
        q = q + 1;
    }
    proof {
        assert(all@.subrange(start as int, e as int) =~= marker@);
    }
    true
}

/// Finds the earliest decoded-prefix length that ends in the marker.
fn find_marker_end(all: &Vec<u8>, marker: &Vec<u8>) -> (r: Option<usize>)
    ensures
        r matches Some(e) ==> marker@.len() <= e <= all@.len() && first_match_end(
            all@,
            marker@,
            1,
        ) == Some(e as int),
        r is None ==> first_match_end(all@, marker@, 1) is None,
{
    let m = marker.len();
    let total = all.len();
    let mut e0: usize = 0;
    while e0 < total
        invariant
            e0 <= total,
            m == marker@.len(),
            total == all@.len(),
            forall|e2: int| 1 <= e2 <= e0 ==> !marker_match(all@, marker@, e2),
        decreases total - e0,
    {
        let e = e0 + 1;
        if e >= m {
            if is_suffix_at(all, e, marker) {
                proof {
                    lemma_first_match_found(all@, marker@, 1, e as int);
                }
                return Some(e);
            }
        }
        e0 = e;
    }
    proof {
        lemma_first_match_none(all@, marker@, 1);
    }
    None
}

/// Reads the bytes a traversal of `grid` under `config` yields, every whole
/// byte of them.
fn decode_payload(grid: &PixelGrid, config: &Configuration) -> (out: Vec<u8>)
    requires
        grid.wf(),
        config.valid(),
    ensures
        out@ == decoded_bytes(grid.data@, *config, grid.spec_pixel_count()),
{
    let ghost cfg = *config;
    let ghost d = grid.data@;
    let ghost n_pix = grid.spec_pixel_count();
    let b: usize = config.bits_per_channel as usize;
    let _len = grid.data.len();
    let width = grid.width;
    let height = grid.height;
    proof {
        vstd::arithmetic::mul::lemma_mul_nonnegative(width as int, height as int);
    }
    let pos = positions(width, height, config);
    let cap = pos.len();
    let ghost dbits = decoded_bits(d, cfg, n_pix);
    proof {
        assert(dbits.len() == pos@.len() * b);
    }
    let mut out: Vec<u8> = Vec::new();
    let mut cur: u8 = 0;
    let mut cnt: usize = 0;
    let mut i: usize = 0;
    proof {
        vstd::arithmetic::power2::lemma2_to64();
        assert(dbits.subrange(0, 0) =~= Seq::<bool>::empty());
    }
    while i < cap
        invariant
            i <= cap,
            1 <= b <= 8,
            b == cfg.bits_per_channel,
            cfg.valid(),
            cfg == *config,
            d == grid.data@,
            grid.wf(),
            n_pix == grid.spec_pixel_count(),
            n_pix * 3 <= usize::MAX,
            d.len() == n_pix * 3,
            pos@ == position_seq(cfg, n_pix),
            cap == pos@.len(),
            dbits == decoded_bits(d, cfg, n_pix),
            dbits.len() == cap * b,
            cnt < 8,
            i * b == 8 * out@.len() + cnt,
            (cur as nat) < pow2(cnt as nat),
            cur as nat == bits_value(dbits.subrange(8 * out@.len() as int, 8 * out@.len() as int + cnt)),
            forall|k: int|
                0 <= k < out@.len() ==> #[trigger] out@[k] as nat == bits_value(
                    dbits.subrange(8 * k, 8 * k + 8),
                ),
        decreases cap - i,
    {
        let p = pos[i];
        proof {
            lemma_position_in_grid(cfg, n_pix, i as int);
            assert(3 * (p.pixel as int) + p.channel < 3 * (n_pix as int));
        }
        let idx: usize = p.pixel * 3 + p.channel;
        let byte = grid.data[idx];
        let g = crate::bits::low_bits(byte, b);
        let mut j: usize = 0;
        while j < b
            invariant
                j <= b,
                1 <= b <= 8,
                b == cfg.bits_per_channel,
                i < cap,
                d == grid.data@,
                idx == data_index(pos@[i as int]),
                idx < d.len(),
                g as nat == (d[idx as int] as nat) % pow2(b as nat),
                pos@ == position_seq(cfg, n_pix),
                cap == pos@.len(),
                dbits == decoded_bits(d, cfg, n_pix),
                dbits.len() == cap * b,
                cnt < 8,
                i * b + j == 8 * out@.len() + cnt,
                (cur as nat) < pow2(cnt as nat),
                cur as nat == bits_value(dbits.subrange(8 * out@.len() as int, 8 * out@.len() as int + cnt)),
                forall|k: int|
                    0 <= k < out@.len() ==> #[trigger] out@[k] as nat == bits_value(
                        dbits.subrange(8 * k, 8 * k + 8),
                    ),
            decreases b - j,
        {
            let ghost t = i as int * b + j;
            proof {
                assert((i + 1) * b <= cap * b) by {
                    vstd::arithmetic::mul::lemma_mul_inequality(i + 1, cap as int, b as int);
                }
                assert((i + 1) * b == i as int * b + b) by {
                    lemma_mul_is_distributive_add_other_way(b as int, i as int, 1);
                }
                assert(t < dbits.len());
                vstd::arithmetic::div_mod::lemma_fundamental_div_mod_converse(
                    t,
                    b as int,
                    i as int,
                    j as int,
                );
                assert(dbits[t] == bits_of(g as nat, b as nat)[j as int]);
            }
            let bit = crate::bits::extract_bit(g, (b - 1) - j);
            proof {
                let s0 = 8 * out@.len() as int;
                assert(dbits.subrange(s0, t + 1) =~= dbits.subrange(s0, t).push(dbits[t]));
                crate::bits::lemma_bits_value_push(dbits.subrange(s0, t), dbits[t]);
                assert((bit == 1) == dbits[t]);
                assert(pow2(cnt as nat) <= 128) by {
                    vstd::arithmetic::power2::lemma2_to64();
                    if cnt < 7 {
                        vstd::arithmetic::power2::lemma_pow2_strictly_increases(cnt as nat, 7);
                    }
                }
                vstd::arithmetic::power2::lemma_pow2_unfold((cnt + 1) as nat);
            }
            cur = 2 * cur + bit;
            cnt = cnt + 1;
            j = j + 1;
            if cnt == 8 {
                proof {
                    let s0 = 8 * out@.len() as int;
                    assert(cur as nat == bits_value(dbits.subrange(s0, s0 + 8)));
                }
                out.push(cur);
                cur = 0;
                cnt = 0;
                proof {
                    vstd::arithmetic::power2::lemma2_to64();
                    assert(dbits.subrange(8 * out@.len() as int, 8 * out@.len() as int)
                        =~= Seq::<bool>::empty());
                }
            }
        }
        proof {
            assert((i + 1) * b == i as int * b + b) by {
                lemma_mul_is_distributive_add_other_way(b as int, i as int, 1);
            }
        }
        i = i + 1;
    }
    proof {
        assert(out@.len() == dbits.len() / 8) by {
            vstd::arithmetic::div_mod::lemma_fundamental_div_mod_converse(
                dbits.len() as int,
                8,
                out@.len() as int,
                cnt as int,
            );
        }
        assert(out@ =~= decoded_bytes(d, cfg, n_pix));
    }
    out
}

/// Single-use decoder: reads the low bits of the grid's channel bytes along
/// the cursor's path and reassembles them into bytes. Never mutates the
/// grid.
pub struct Decoder {
    /// The carrier grid; only ever read.
    pub grid: PixelGrid,
    /// The traversal rules, fixed at construction.
    pub config: Configuration,
}

impl Decoder {
    /// Builds a decoder over a carrier grid and traversal rules.
    pub fn new(grid: PixelGrid, config: Configuration) -> (d: Decoder)
        ensures
            d.grid == grid,
            d.config == config,
    {
        Decoder { grid, config }
    }

    /// Recovers every byte the traversal yields, until the grid is
    /// exhausted. Always succeeds; without a marker there is no way to tell
    /// where a shorter embedded message ends, so trailing bytes of carrier
    /// noise are returned too.
    pub fn decode(&self) -> (r: Result<Vec<u8>, CodecError>)
        requires
            self.grid.wf(),
            self.config.valid(),
        ensures
            r matches Ok(v) && v@ == decoded_bytes(
                self.grid.data@,
                self.config,
                self.grid.spec_pixel_count(),
            ),
    {
        Ok(decode_payload(&self.grid, &self.config))
    }

    /// Recovers bytes until the accumulated output ends in `marker`, then
    /// returns the output with that marker suffix stripped. When the marker
    /// never appears the full decoded content is returned; a missing marker
    /// is not an error.
    pub fn decode_until(&self, marker: &Vec<u8>) -> (r: Result<Vec<u8>, CodecError>)
        requires
            self.grid.wf(),
            self.config.valid(),
        ensures
            r matches Ok(v) && v@ == until_bytes(
                decoded_bytes(self.grid.data@, self.config, self.grid.spec_pixel_count()),
                marker@,
            ),
    {
        let mut all = decode_payload(&self.grid, &self.config);
        match find_marker_end(&all, marker) {
            Some(e) => {
                all.truncate(e - marker.len());
                proof {
                    assert(all@ =~= until_bytes(
                        decoded_bytes(self.grid.data@, self.config, self.grid.spec_pixel_count()),
                        marker@,
                    ));
                }
                Ok(all)
            },
            None => Ok(all),
        }
    }
}

} // verus!
