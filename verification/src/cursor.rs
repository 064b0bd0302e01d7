//! The pixel cursor: the ordered sequence of (pixel, channel) positions a
//! traversal visits for a given grid size and configuration.

use vstd::prelude::*;
use vstd::arithmetic::div_mod::{lemma_fundamental_div_mod, lemma_multiply_divide_lt};
use vstd::arithmetic::mul::{lemma_mul_inequality, lemma_mul_is_commutative};
use crate::config::{Channel, Configuration};

verus! {

/// One traversal position: a pixel index (row-major) and a channel index
/// (0 = red, 1 = green, 2 = blue).
#[derive(Clone, Copy, PartialEq, Eq, Structural, Debug)]
pub struct Position {
    /// Row-major pixel index.
    pub pixel: usize,
    /// Channel index within the pixel: 0 = red, 1 = green, 2 = blue.
    pub channel: usize,
}

/// How many positions each visited pixel yields: one per selected channel.
pub open spec fn channels_per_pixel(ch: Channel) -> nat {
    match ch {
        Channel::All => 3,
        _ => 1,
    }
}

/// The channel index of the `r`-th position within a visited pixel.
pub open spec fn channel_index(ch: Channel, r: nat) -> nat {
    match ch {
        Channel::Red => 0,
        Channel::Green => 1,
        Channel::Blue => 2,
        Channel::All => r,
    }
}

/// How many pixels a traversal visits: the first `offset` pixels are skipped,
/// then every `(step + 1)`-th pixel is visited until the grid runs out.
pub open spec fn visited_pixels(config: Configuration, pixel_count: nat) -> nat {
    if config.offset >= pixel_count {
        0
    } else {
        (pixel_count - config.offset - 1) as nat / (config.step + 1) as nat + 1
    }
}

/// The pixel index of the `k`-th visited pixel.
pub open spec fn visited_pixel_index(config: Configuration, k: nat) -> nat {
    (config.offset + k * (config.step + 1)) as nat
}

/// The full ordered sequence of traversal positions for a grid of
/// `pixel_count` pixels under `config`.
pub open spec fn position_seq(config: Configuration, pixel_count: nat) -> Seq<Position> {
    let cpp = channels_per_pixel(config.channel);
    Seq::new(
        visited_pixels(config, pixel_count) * cpp,
        |i: int|
            Position {
                pixel: visited_pixel_index(config, (i as nat) / cpp) as usize,
                channel: channel_index(config.channel, (i as nat) % cpp) as usize,
            },
    )
}

/// The byte index, within a grid's channel-byte buffer, that a position
/// addresses.
pub open spec fn data_index(p: Position) -> int {
    p.pixel * 3 + p.channel
}

/// Every visited pixel lies inside the grid, and any pixel visited after the
/// first forces `step + 1` to fit under the pixel count.
pub proof fn lemma_visited_pixel_bound(config: Configuration, pixel_count: nat, k: nat)
    requires
        k < visited_pixels(config, pixel_count),
    ensures
        visited_pixel_index(config, k) < pixel_count,
        k >= 1 ==> config.step + 1 <= visited_pixel_index(config, k),
{
    let off = config.offset as int;
    let s1 = config.step + 1 as int;
    let span = pixel_count - off - 1;
    assert(k <= span / s1);
    assert(k * s1 <= (span / s1) * s1) by {
        lemma_mul_inequality(k as int, span / s1, s1);
    }
    assert((span / s1) * s1 <= span) by {
        lemma_fundamental_div_mod(span, s1);
        lemma_mul_is_commutative(span / s1, s1);
    }
    if k >= 1 {
        assert(s1 <= k * s1) by {
            lemma_mul_inequality(1, k as int, s1);
        }
    }
}

/// Positions are listed pixel by pixel; each position's pixel and channel
/// fit inside a well-formed grid's buffer.
pub proof fn lemma_position_in_grid(config: Configuration, pixel_count: nat, i: int)
    requires
        pixel_count <= usize::MAX,
        0 <= i < position_seq(config, pixel_count).len(),
    ensures
        position_seq(config, pixel_count)[i].pixel == visited_pixel_index(
            config,
            ((i as nat) / channels_per_pixel(config.channel)) as nat,
        ),
        position_seq(config, pixel_count)[i].pixel < pixel_count,
        position_seq(config, pixel_count)[i].channel < 3,
        0 <= data_index(position_seq(config, pixel_count)[i]) < pixel_count * 3,
{
    let cpp = channels_per_pixel(config.channel) as int;
    let visited = visited_pixels(config, pixel_count) as int;
    let k = i / cpp;
    assert(0 <= i % cpp < cpp) by {
        vstd::arithmetic::div_mod::lemma_mod_division_less_than_divisor(i, cpp);
    }
    assert(k < visited) by {
        lemma_mul_is_commutative(visited, cpp);
        lemma_multiply_divide_lt(i, cpp, visited);
    }
    assert(0 <= k) by {
        vstd::arithmetic::div_mod::lemma_div_pos_is_pos(i, cpp);
    }
    lemma_visited_pixel_bound(config, pixel_count, k as nat);
    let p = position_seq(config, pixel_count)[i];
    assert(p.pixel < pixel_count);
    assert(3 * (p.pixel as int) + 3 <= 3 * (pixel_count as int));
}

/// Distinct cursor positions address distinct bytes of the grid buffer.
pub proof fn lemma_positions_distinct(config: Configuration, pixel_count: nat, i: int, j: int)
    requires
        pixel_count <= usize::MAX,
        0 <= i < position_seq(config, pixel_count).len(),
        0 <= j < position_seq(config, pixel_count).len(),
        i != j,
    ensures
        data_index(position_seq(config, pixel_count)[i]) != data_index(
            position_seq(config, pixel_count)[j],
        ),
{
    let cpp = channels_per_pixel(config.channel) as int;
    let s1 = config.step + 1 as int;
    let p = position_seq(config, pixel_count);
    let ki = i / cpp;
    let kj = j / cpp;
    let ri = i % cpp;
    let rj = j % cpp;
    assert(0 <= ri < cpp && 0 <= rj < cpp) by {
        vstd::arithmetic::div_mod::lemma_mod_division_less_than_divisor(i, cpp);
        vstd::arithmetic::div_mod::lemma_mod_division_less_than_divisor(j, cpp);
    }
    assert(0 <= ki && 0 <= kj) by {
        vstd::arithmetic::div_mod::lemma_div_pos_is_pos(i, cpp);
        vstd::arithmetic::div_mod::lemma_div_pos_is_pos(j, cpp);
    }
    assert(i == ki * cpp + ri && j == kj * cpp + rj) by {
        lemma_fundamental_div_mod(i, cpp);
        lemma_fundamental_div_mod(j, cpp);
        lemma_mul_is_commutative(ki, cpp);
        lemma_mul_is_commutative(kj, cpp);
    }
    lemma_position_in_grid(config, pixel_count, i);
    lemma_position_in_grid(config, pixel_count, j);
    if ki == kj {
        assert(ri != rj);
        assert(p[i].channel != p[j].channel);
        assert(p[i].pixel == p[j].pixel);
    } else {
        assert(ki * s1 != kj * s1) by {
            if ki < kj {
                vstd::arithmetic::mul::lemma_mul_strict_inequality(ki, kj, s1);
            } else {
                vstd::arithmetic::mul::lemma_mul_strict_inequality(kj, ki, s1);
            }
            lemma_mul_is_commutative(ki, s1);
            lemma_mul_is_commutative(kj, s1);
        }
        assert(p[i].pixel != p[j].pixel);
        let a = p[i].pixel as int;
        let c = p[j].pixel as int;
        if a < c {
            assert(3 * a + p[i].channel < 3 * c + p[j].channel);
        } else {
            assert(3 * c + p[j].channel < 3 * a + p[i].channel);
        }
    }
}

/// Channel cycling: with `Channel::All` every visited pixel yields three
/// consecutive positions — red, then green, then blue — before the cursor
/// moves on, so the traversal holds three times as many positions as the
/// same traversal restricted to a single channel.
pub proof fn lemma_channel_cycling(config: Configuration, single: Configuration, pixel_count: nat)
    requires
        pixel_count <= usize::MAX,
        config.channel == Channel::All,
        single.channel != Channel::All,
        single.offset == config.offset,
        single.step == config.step,
    ensures
        position_seq(config, pixel_count).len() == 3 * position_seq(single, pixel_count).len(),
        forall|k: int| #![trigger position_seq(config, pixel_count)[3 * k]]
            0 <= k < visited_pixels(config, pixel_count) ==> {
                let p = position_seq(config, pixel_count);
                &&& p[3 * k].pixel == visited_pixel_index(config, k as nat)
                &&& p[3 * k + 1].pixel == p[3 * k].pixel
                &&& p[3 * k + 2].pixel == p[3 * k].pixel
                &&& p[3 * k].channel == 0
                &&& p[3 * k + 1].channel == 1
                &&& p[3 * k + 2].channel == 2
            },
{
    let visited = visited_pixels(config, pixel_count) as int;
    assert(visited_pixels(single, pixel_count) == visited_pixels(config, pixel_count));
    assert(visited * 1 == visited && visited * 3 == 3 * visited) by {
        vstd::arithmetic::mul::lemma_mul_basics(visited);
        lemma_mul_is_commutative(visited, 3);
    }
    assert forall|k: int| #![trigger position_seq(config, pixel_count)[3 * k]]
        0 <= k < visited_pixels(config, pixel_count) implies {
        let p = position_seq(config, pixel_count);
        &&& p[3 * k].pixel == visited_pixel_index(config, k as nat)
        &&& p[3 * k + 1].pixel == p[3 * k].pixel
        &&& p[3 * k + 2].pixel == p[3 * k].pixel
        &&& p[3 * k].channel == 0
        &&& p[3 * k + 1].channel == 1
        &&& p[3 * k + 2].channel == 2
    } by {
        lemma_visited_pixel_bound(config, pixel_count, k as nat);
        vstd::arithmetic::div_mod::lemma_fundamental_div_mod_converse(3 * k, 3, k, 0);
        vstd::arithmetic::div_mod::lemma_fundamental_div_mod_converse(3 * k + 1, 3, k, 1);
        vstd::arithmetic::div_mod::lemma_fundamental_div_mod_converse(3 * k + 2, 3, k, 2);
    }
}

/// Materialises the cursor: the full, ordered sequence of positions a
/// traversal of a `width` by `height` grid visits under `config`.
///
/// The result is a function of the grid dimensions and the configuration
/// alone, so any two runs over equal inputs yield the identical sequence.
pub fn positions(width: usize, height: usize, config: &Configuration) -> (r: Vec<Position>)
    requires
        width * height * 3 <= usize::MAX,
    ensures
        r@ == position_seq(*config, (width * height) as nat),
{
    proof {
        vstd::arithmetic::mul::lemma_mul_nonnegative(width as int, height as int);
    }
    let n: usize = width * height;
    let ghost n_pix = n as nat;
    let visited: usize = if config.offset >= n {
        0
    } else {
        let span = n - config.offset - 1;
        if config.step >= span {
            proof {
                vstd::arithmetic::div_mod::lemma_basic_div(span as int, config.step + 1 as int);
            }
            1
        } else {
            proof {
                vstd::arithmetic::div_mod::lemma_div_nonincreasing(
                    span as int,
                    config.step + 1 as int,
                );
                vstd::arithmetic::div_mod::lemma_div_pos_is_pos(span as int, config.step + 1 as int);
            }
            span / (config.step + 1) + 1
        }
    };
    assert(visited == visited_pixels(*config, n_pix));
    assert(visited <= n);
    let cpp: usize = match config.channel {
        Channel::All => 3,
        _ => 1,
    };
    proof {
        vstd::arithmetic::mul::lemma_mul_upper_bound(visited as int, n as int, cpp as int, 3);
    }
    let total: usize = visited * cpp;
    let mut out: Vec<Position> = Vec::new();
    let mut i: usize = 0;
    while i < total
        invariant
            i <= total,
            n == width * height,
            n * 3 <= usize::MAX,
            n_pix == n as nat,
            visited == visited_pixels(*config, n_pix),
            cpp == channels_per_pixel(config.channel),
            total == visited * cpp,
            total == position_seq(*config, n_pix).len(),
            out@ == position_seq(*config, n_pix).take(i as int),
        decreases total - i,
    {
        let k: usize = i / cpp;
        let rch: usize = i % cpp;
        proof {
            lemma_mul_is_commutative(visited as int, cpp as int);
            lemma_multiply_divide_lt(i as int, cpp as int, visited as int);
            lemma_visited_pixel_bound(*config, n_pix, k as nat);
        }
        let pixel: usize = if k == 0 {
            proof {
                vstd::arithmetic::mul::lemma_mul_basics(config.step + 1 as int);
            }
            config.offset
        } else {
            config.offset + k * (config.step + 1)
        };
        let channel: usize = match config.channel {
            Channel::Red => 0,
            Channel::Green => 1,
            Channel::Blue => 2,
            Channel::All => rch,
        };
        proof {
            let pseq = position_seq(*config, n_pix);
            assert(pseq[i as int].pixel == pixel);
            assert(pseq[i as int].channel == channel);
        }
        out.push(Position { pixel, channel });
        proof {
            assert(out@ =~= position_seq(*config, n_pix).take(i + 1));
        }
        i = i + 1;
    }
    proof {
        assert(out@ =~= position_seq(*config, n_pix));
    }
    out
}

} // verus!
