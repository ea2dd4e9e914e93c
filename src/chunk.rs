use vstd::prelude::*;

use crate::pixel::Pixel;
use crate::pixel_index::{cache_insert, cache_lookup};

verus! {

/// What a pixel decoder carries from one pixel to the next.
pub struct ChunkState {
    /// The pixel produced last.
    pub previous: Pixel,
    /// The 64 cache slots.
    pub cache: Seq<Pixel>,
    /// Repeats of `previous` still to be produced before the next chunk is read.
    pub run: nat,
}

/// The state every pixel stream starts in: opaque black, an all-zero cache, no run.
pub open spec fn initial_state() -> ChunkState {
    ChunkState {
        previous: Pixel::spec_black(),
        cache: Seq::new(64, |_i: int| Pixel::spec_zero()),
        run: 0,
    }
}

/// `x + d`, wrapped into 0..=255.
pub open spec fn wrap(x: u8, d: int) -> u8 {
    ((x + d) % 256) as u8
}

/// The state once `p` has been produced and written into the cache.
pub open spec fn produce_cached(st: ChunkState, p: Pixel) -> ChunkState {
    ChunkState { previous: p, cache: cache_insert(st.cache, p), run: 0 }
}

/// The pixel a small-difference chunk `b0` makes of `prev`: bits 5..4, 3..2
/// and 1..0 of `b0`, each less 2, are added to red, green and blue.
pub open spec fn diff_of(prev: Pixel, b0: u8) -> Pixel {
    Pixel {
        r: wrap(prev.r, (b0 / 16) % 4 - 2),
        g: wrap(prev.g, (b0 / 4) % 4 - 2),
        b: wrap(prev.b, b0 % 4 - 2),
        a: prev.a,
    }
}

/// The pixel a luma chunk `b0, b1` makes of `prev`: green moves by the low six
/// bits of `b0` less 32; red and blue move by that, less 8, plus the high and
/// the low nibble of `b1`.
pub open spec fn luma_of(prev: Pixel, b0: u8, b1: u8) -> Pixel {
    let dg = b0 % 64 - 32;
    Pixel {
        r: wrap(prev.r, dg - 8 + b1 / 16),
        g: wrap(prev.g, dg),
        b: wrap(prev.b, dg - 8 + b1 % 16),
        a: prev.a,
    }
}

/// One decoding step from `st`, where `bs` are the bytes still to come.
/// Yields the next state, whose `previous` is the pixel produced, and how many
/// bytes the step consumed; `None` where `bs` ends inside the chunk.
#[verifier::opaque]
pub open spec fn step(st: ChunkState, bs: Seq<u8>) -> Option<(ChunkState, nat)> {
    if st.run > 0 {
        Some((ChunkState { run: (st.run - 1) as nat, ..st }, 0))
    } else if bs.len() == 0 {
        None
    } else {
        let b0 = bs[0];
        let prev = st.previous;
        if b0 == 0xfe {
            if bs.len() < 4 {
                None
            } else {
                Some((produce_cached(st, Pixel { r: bs[1], g: bs[2], b: bs[3], a: prev.a }), 4))
            }
        } else if b0 == 0xff {
            if bs.len() < 5 {
                None
            } else {
                Some((produce_cached(st, Pixel { r: bs[1], g: bs[2], b: bs[3], a: bs[4] }), 5))
            }
        } else if b0 < 0x40 {
            Some((ChunkState { previous: cache_lookup(st.cache, b0), ..st }, 1))
        } else if b0 < 0x80 {
            Some((produce_cached(st, diff_of(prev, b0)), 1))
        } else if b0 < 0xc0 {
            if bs.len() < 2 {
                None
            } else {
                Some((produce_cached(st, luma_of(prev, b0, bs[1])), 2))
            }
        } else {
            Some((ChunkState { run: (b0 % 64) as nat, ..st }, 1))
        }
    }
}

/// The first `n` pixels decoded from `bs` starting in `st`, the state after
/// them, and the number of bytes they consumed; `None` where `bs` ends first.
pub open spec fn decode_run(st: ChunkState, bs: Seq<u8>, n: nat) -> Option<
    (Seq<Pixel>, ChunkState, nat),
>
    decreases n,
{
    if n == 0 {
        Some((Seq::empty(), st, 0))
    } else {
        match decode_run(st, bs, (n - 1) as nat) {
            None => None,
            Some((ps, s, k)) => match step(s, bs.skip(k as int)) {
                None => None,
                Some((s2, k2)) => Some((ps.push(s2.previous), s2, k + k2)),
            },
        }
    }
}

/// A step reads only the bytes it consumes: more bytes after them change nothing.
pub proof fn lemma_step_extend(st: ChunkState, bs: Seq<u8>, ext: Seq<u8>)
    requires
        step(st, bs) is Some,
    ensures
        (step(st, bs)->0).1 <= bs.len(),
        step(st, bs + ext) == step(st, bs),
{
    reveal(step);
    let ys = bs + ext;
    if st.run == 0 {
        assert(ys[0] == bs[0]);
        if bs.len() >= 2 {
            assert(ys[1] == bs[1]);
        }
        if bs.len() >= 4 {
            assert(ys[2] == bs[2]);
            assert(ys[3] == bs[3]);
        }
        if bs.len() >= 5 {
            assert(ys[4] == bs[4]);
        }
    }
}

/// A run of steps reads only the bytes it consumes.
pub proof fn lemma_run_extend(st: ChunkState, bs: Seq<u8>, ext: Seq<u8>, n: nat)
    requires
        decode_run(st, bs, n) is Some,
    ensures
        (decode_run(st, bs, n)->0).2 <= bs.len(),
        decode_run(st, bs + ext, n) == decode_run(st, bs, n),
    decreases n,
{
    if n > 0 {
        let m = (n - 1) as nat;
        lemma_run_extend(st, bs, ext, m);
        let (ps, s, k) = decode_run(st, bs, m)->0;
        let rest = bs.skip(k as int);
        assert((bs + ext).skip(k as int) =~= rest + ext);
        lemma_step_extend(s, rest, ext);
    }
}

/// A run that cannot complete `m` steps cannot complete more.
pub proof fn lemma_run_none_longer(st: ChunkState, bs: Seq<u8>, m: nat, n: nat)
    requires
        decode_run(st, bs, m) is None,
        m <= n,
    ensures
        decode_run(st, bs, n) is None,
{
    if decode_run(st, bs, n) is Some {
        lemma_run_shorter(st, bs, n, m);
    }
}

/// A successful run of `n` steps yields `n` pixels.
pub proof fn lemma_run_len(st: ChunkState, bs: Seq<u8>, n: nat)
    requires
        decode_run(st, bs, n) is Some,
    ensures
        (decode_run(st, bs, n)->0).0.len() == n,
    decreases n,
{
    if n > 0 {
        lemma_run_len(st, bs, (n - 1) as nat);
    }
}

/// Fewer steps of a successful run succeed too, as a prefix of it.
pub proof fn lemma_run_shorter(st: ChunkState, bs: Seq<u8>, n: nat, m: nat)
    requires
        decode_run(st, bs, n) is Some,
        m <= n,
    ensures
        decode_run(st, bs, m) is Some,
        (decode_run(st, bs, m)->0).2 <= (decode_run(st, bs, n)->0).2,
    decreases n,
{
    if m < n {
        lemma_run_shorter(st, bs, (n - 1) as nat, m);
    }
}

/// `u8::wrapping_add` is `wrap` by the addend.
pub proof fn lemma_wrapping_add(x: u8, y: u8)
    ensures
        vstd::wrapping::u8_specs::wrapping_add(x, y) == wrap(x, y as int),
{
}

/// `u8::wrapping_sub` is `wrap` by the negated subtrahend.
pub proof fn lemma_wrapping_sub(x: u8, y: u8)
    ensures
        vstd::wrapping::u8_specs::wrapping_sub(x, y) == wrap(x, -(y as int)),
{
}

/// Two wrapped additions are one.
pub proof fn lemma_wrap_wrap(x: u8, a: int, b: int)
    ensures
        wrap(wrap(x, a), b) == wrap(x, a + b),
{
    let m = (x + a) % 256;
    assert(0 <= m < 256);
    vstd::arithmetic::div_mod::lemma_add_mod_noop(x + a, b, 256);
    vstd::arithmetic::div_mod::lemma_mod_twice(x + a, 256);
    vstd::arithmetic::div_mod::lemma_mod_twice(b, 256);
    vstd::arithmetic::div_mod::lemma_add_mod_noop(m, b, 256);
}

/// Addends that differ by a multiple of 256 wrap alike.
pub proof fn lemma_wrap_shift(x: u8, a: int, b: int)
    requires
        (a - b) % 256 == 0,
    ensures
        wrap(x, a) == wrap(x, b),
{
    vstd::arithmetic::div_mod::lemma_fundamental_div_mod(a - b, 256);
    let q = (a - b) / 256;
    vstd::arithmetic::div_mod::lemma_mod_multiples_vanish(q, x + b, 256);
    assert(x + a == 256 * q + (x + b));
}

/// The state a chunk that reads no bytes past its tag `b0` leads to: an index,
/// small-difference or run chunk.
pub open spec fn local_next(st: ChunkState, b0: u8) -> ChunkState {
    if b0 < 0x40 {
        ChunkState { previous: cache_lookup(st.cache, b0), ..st }
    } else if b0 < 0x80 {
        produce_cached(st, diff_of(st.previous, b0))
    } else {
        ChunkState { run: (b0 % 64) as nat, ..st }
    }
}

/// A full-RGB chunk takes three bytes after its tag and keeps alpha.
pub proof fn lemma_step_rgb(st: ChunkState, rest: Seq<u8>)
    requires
        st.run == 0,
    ensures
        rest.len() >= 3 ==> step(st, seq![0xfeu8] + rest) == Some(
            (
                produce_cached(
                    st,
                    Pixel { r: rest[0], g: rest[1], b: rest[2], a: st.previous.a },
                ),
                4nat,
            ),
        ),
        rest.len() < 3 ==> step(st, seq![0xfeu8] + rest) is None,
{
    reveal(step);
    let bs = seq![0xfeu8] + rest;
    assert(bs[0] == 0xfe);
    if rest.len() >= 3 {
        assert(bs[1] == rest[0] && bs[2] == rest[1] && bs[3] == rest[2]);
    }
}

/// A full-RGBA chunk takes four bytes after its tag.
pub proof fn lemma_step_rgba(st: ChunkState, rest: Seq<u8>)
    requires
        st.run == 0,
    ensures
        rest.len() >= 4 ==> step(st, seq![0xffu8] + rest) == Some(
            (
                produce_cached(st, Pixel { r: rest[0], g: rest[1], b: rest[2], a: rest[3] }),
                5nat,
            ),
        ),
        rest.len() < 4 ==> step(st, seq![0xffu8] + rest) is None,
{
    reveal(step);
    let bs = seq![0xffu8] + rest;
    assert(bs[0] == 0xff);
    if rest.len() >= 4 {
        assert(bs[1] == rest[0] && bs[2] == rest[1] && bs[3] == rest[2] && bs[4] == rest[3]);
    }
}

/// A luma chunk takes one byte after its tag.
pub proof fn lemma_step_luma(st: ChunkState, b0: u8, rest: Seq<u8>)
    requires
        st.run == 0,
        0x80 <= b0 < 0xc0,
    ensures
        rest.len() >= 1 ==> step(st, seq![b0] + rest) == Some(
            (produce_cached(st, luma_of(st.previous, b0, rest[0])), 2nat),
        ),
        rest.len() < 1 ==> step(st, seq![b0] + rest) is None,
{
    reveal(step);
    let bs = seq![b0] + rest;
    assert(bs[0] == b0);
    if rest.len() >= 1 {
        assert(bs[1] == rest[0]);
    }
}

/// Index, small-difference and run chunks are their tag byte alone.
pub proof fn lemma_step_local(st: ChunkState, b0: u8, rest: Seq<u8>)
    requires
        st.run == 0,
        b0 < 0x80 || 0xc0 <= b0 < 0xfe,
    ensures
        step(st, seq![b0] + rest) == Some((local_next(st, b0), 1nat)),
{
    reveal(step);
    let bs = seq![b0] + rest;
    assert(bs[0] == b0);
}

/// Applies a small-difference chunk to `prev`.
pub fn diff_pixel(prev: Pixel, b0: u8) -> (p: Pixel)
    requires
        0x40 <= b0 < 0x80,
    ensures
        p == diff_of(prev, b0),
{
    let dr = (b0 >> 4) & 0x03;
    let dg = (b0 >> 2) & 0x03;
    let db = b0 & 0x03;
    assert((b0 >> 4) & 0x03 == (b0 / 16) % 4) by (bit_vector);
    assert((b0 >> 2) & 0x03 == (b0 / 4) % 4) by (bit_vector);
    assert(b0 & 0x03 == b0 % 4) by (bit_vector);
    proof {
        lemma_wrapping_sub(prev.r, 2);
        lemma_wrapping_add(wrap(prev.r, -2), dr);
        lemma_wrap_wrap(prev.r, -2, dr as int);
        lemma_wrapping_sub(prev.g, 2);
        lemma_wrapping_add(wrap(prev.g, -2), dg);
        lemma_wrap_wrap(prev.g, -2, dg as int);
        lemma_wrapping_sub(prev.b, 2);
        lemma_wrapping_add(wrap(prev.b, -2), db);
        lemma_wrap_wrap(prev.b, -2, db as int);
    }
    Pixel {
        r: prev.r.wrapping_sub(2).wrapping_add(dr),
        g: prev.g.wrapping_sub(2).wrapping_add(dg),
        b: prev.b.wrapping_sub(2).wrapping_add(db),
        a: prev.a,
    }
}

/// Applies a luma chunk `b0, b1` to `prev`.
pub fn luma_pixel(prev: Pixel, b0: u8, b1: u8) -> (p: Pixel)
    requires
        0x80 <= b0 < 0xc0,
    ensures
        p == luma_of(prev, b0, b1),
{
    let dg = (b0 & 0x3f).wrapping_sub(32);
    let hi = (b1 >> 4) & 0x0f;
    let lo = b1 & 0x0f;
    assert(b0 & 0x3f == b0 % 64) by (bit_vector);
    assert((b1 >> 4) & 0x0f == b1 / 16) by (bit_vector);
    assert(b1 & 0x0f == b1 % 16) by (bit_vector);
    proof {
        let dgi = b0 % 64 - 32;
        lemma_wrapping_sub((b0 % 64) as u8, 32);
        lemma_wrapping_add(prev.r, dg);
        lemma_wrapping_sub(wrap(prev.r, dg as int), 8);
        lemma_wrap_wrap(prev.r, dg as int, -8);
        lemma_wrapping_add(wrap(prev.r, dg - 8), hi);
        lemma_wrap_wrap(prev.r, dg - 8, hi as int);
        lemma_wrap_shift(prev.r, dg - 8 + hi, dgi - 8 + hi);
        lemma_wrapping_add(prev.g, dg);
        lemma_wrap_shift(prev.g, dg as int, dgi);
        lemma_wrapping_add(prev.b, dg);
        lemma_wrapping_sub(wrap(prev.b, dg as int), 8);
        lemma_wrap_wrap(prev.b, dg as int, -8);
        lemma_wrapping_add(wrap(prev.b, dg - 8), lo);
        lemma_wrap_wrap(prev.b, dg - 8, lo as int);
        lemma_wrap_shift(prev.b, dg - 8 + lo, dgi - 8 + lo);
    }
    Pixel {
        r: prev.r.wrapping_add(dg).wrapping_sub(8).wrapping_add(hi),
        g: prev.g.wrapping_add(dg),
        b: prev.b.wrapping_add(dg).wrapping_sub(8).wrapping_add(lo),
        a: prev.a,
    }
}

} // verus!
