use vstd::prelude::*;

use crate::byte_stream::{ByteStream, StreamError};
use crate::chunk::{
    decode_run, diff_pixel, lemma_run_extend, lemma_run_len, lemma_run_none_longer,
    lemma_run_shorter, lemma_step_extend,
    lemma_step_local, lemma_step_luma, lemma_step_rgb, lemma_step_rgba, luma_pixel, step,
    ChunkState,
};
use crate::pixel::{Pixel, PIXEL_BYTES};
use crate::pixel_index::PixelIndex;
use vstd::arithmetic::div_mod::{lemma_fundamental_div_mod, lemma_mod_pos_bound};

verus! {

/// The pixels that follow the header, decoded on demand.
pub struct PixelDecoder<S> {
    stream: S,
    previous: Pixel,
    index: PixelIndex,
    remaining: u64,
    run: u8,
    failed: bool,
}

/// How many pixels a fill writes: all that are left, or as many as fit.
pub open spec fn fill_count(left: nat, capacity: nat) -> nat {
    if left <= capacity {
        left
    } else {
        capacity
    }
}

/// `out` is, in order, what decoding `chunk` from `st` produces, reading all
/// of `chunk` and ending in `end`.
pub open spec fn decodes_to(st: ChunkState, chunk: Seq<u8>, out: Seq<Pixel>, end: ChunkState) -> bool {
    decode_run(st, chunk, out.len()) == Some((out, end, chunk.len()))
}

/// `out` is what decoding all of `chunk` from `st` produces.
pub open spec fn decodes(st: ChunkState, chunk: Seq<u8>, out: Seq<Pixel>) -> bool {
    &&& decode_run(st, chunk, out.len()) is Some
    &&& (decode_run(st, chunk, out.len())->0).0 == out
    &&& (decode_run(st, chunk, out.len())->0).2 == chunk.len()
}

/// Why decoding a whole image into one allocation failed.
#[derive(Debug)]
pub enum DecodeAllError<E> {
    /// The source ended before the last pixel.
    UnexpectedEof,
    /// The image is too large to hold in memory.
    TooLarge,
    /// The transport failed.
    Io(E),
}

impl<E> From<StreamError<E>> for DecodeAllError<E> {
    fn from(err: StreamError<E>) -> (r: Self) {
        match err {
            StreamError::UnexpectedEof => DecodeAllError::UnexpectedEof,
            StreamError::Io(e) => DecodeAllError::Io(e),
        }
    }
}

impl<E> vstd::std_specs::convert::FromSpecImpl<StreamError<E>> for DecodeAllError<E> {
    open spec fn obeys_from_spec() -> bool {
        true
    }

    open spec fn from_spec(err: StreamError<E>) -> Self {
        match err {
            StreamError::UnexpectedEof => DecodeAllError::UnexpectedEof,
            StreamError::Io(e) => DecodeAllError::Io(e),
        }
    }
}

/// Relies on `Vec::try_reserve_exact`: the contents stay as they are; it
/// fails where the capacity would overflow or the allocator refuses, and does
/// nothing where the capacity already suffices, as it does for no more room.
#[verifier::external_body]
fn try_reserve_exact<T>(v: &mut Vec<T>, additional: usize) -> (ok: bool)
    ensures
        final(v)@ == old(v)@,
        additional == 0 ==> ok,
{
    v.try_reserve_exact(additional).is_ok()
}

/// `transform` may lay out `p` as exactly `bytes`.
pub open spec fn emits<F: Fn(Pixel) -> [u8; N], const N: usize>(
    transform: F,
    p: Pixel,
    bytes: Seq<u8>,
) -> bool {
    exists|out: [u8; N]| call_ensures(transform, (p,), out) && out@ == bytes
}

/// `bytes` is `ps` laid out by `transform`, `N` bytes per pixel in order.
pub open spec fn lays_out<F: Fn(Pixel) -> [u8; N], const N: usize>(
    transform: F,
    ps: Seq<Pixel>,
    bytes: Seq<u8>,
) -> bool {
    &&& bytes.len() == ps.len() * N
    &&& forall|i: int|
        0 <= i < ps.len() ==> emits(transform, #[trigger] ps[i], bytes.subrange(i * N, i * N + N))
}

/// The bytes `after` holds past `before`.
pub open spec fn consumed(before: Seq<u8>, after: Seq<u8>) -> Seq<u8> {
    after.skip(before.len() as int)
}

/// `after` is `before` followed by more bytes.
pub open spec fn extends(before: Seq<u8>, after: Seq<u8>) -> bool {
    before.len() <= after.len() && after.take(before.len() as int) == before
}

fn same_pixel(p: Pixel) -> (q: Pixel)
    ensures
        q == p,
{
    p
}

impl<S: ByteStream> PixelDecoder<S> {
    /// The decoding state: last pixel, cache and pending run.
    pub closed spec fn state(&self) -> ChunkState {
        ChunkState { previous: self.previous, cache: self.index@, run: self.run as nat }
    }

    /// How many pixels are still to be produced.
    pub closed spec fn pixels_left(&self) -> nat {
        self.remaining as nat
    }

    /// The byte source.
    pub closed spec fn source(&self) -> S {
        self.stream
    }

    /// Whether the pull interface has reported a failure and stopped.
    pub closed spec fn failed(&self) -> bool {
        self.failed
    }

    /// A pending run never exceeds 63 repeats, and the cache has 64 slots.
    pub open spec fn wf(&self) -> bool {
        &&& self.state().run < 64
        &&& self.state().cache.len() == 64
    }

    pub(crate) fn new(stream: S, num_pixels: u64) -> (d: Self)
        ensures
            d.state() == crate::chunk::initial_state(),
            d.pixels_left() == num_pixels,
            d.source() == stream,
            !d.failed(),
            d.wf(),
    {
        PixelDecoder {
            stream,
            previous: Pixel::black(),
            index: PixelIndex::new(),
            remaining: num_pixels,
            run: 0,
            failed: false,
        }
    }

    /// The number of pixels still to be produced: an upper bound on what the
    /// decoder can still output.
    pub fn remaining_pixels(&self) -> (n: u64)
        ensures
            n == self.pixels_left(),
    {
        self.remaining
    }

    /// Decodes pixels into `buf` until it is full or the image ends, whichever
    /// comes first. Yields how many pixels were written, and whether the image
    /// is now fully decoded.
    pub fn decode_pixels_into(&mut self, buf: &mut [Pixel]) -> (r: Result<
        (usize, bool),
        StreamError<S::IoError>,
    >)
        requires
            old(self).wf(),
        ensures
            final(self).wf(),
            final(self).failed() == old(self).failed(),
            final(buf)@.len() == old(buf)@.len(),
            r is Err ==> final(self).pixels_left() == old(self).pixels_left(),
            r matches Err(e) ==> final(self).source().last_error() == Some(e),
            r is Err ==> {
                let before = old(self).source().taken();
                let after = final(self).source().taken();
                &&& extends(before, after)
                &&& decode_run(
                    old(self).state(),
                    consumed(before, after),
                    fill_count(old(self).pixels_left(), old(buf)@.len()),
                ) is None
            },
            r is Ok ==> {
                let (n, exhausted) = r->Ok_0;
                let before = old(self).source().taken();
                let after = final(self).source().taken();
                &&& n == fill_count(old(self).pixels_left(), old(buf)@.len())
                &&& final(self).pixels_left() == old(self).pixels_left() - n
                &&& exhausted == (old(self).pixels_left() <= old(buf)@.len())
                &&& exhausted == (final(self).pixels_left() == 0)
                &&& extends(before, after)
                &&& decodes_to(
                    old(self).state(),
                    consumed(before, after),
                    final(buf)@.take(n as int),
                    final(self).state(),
                )
                &&& final(buf)@.skip(n as int) == old(buf)@.skip(n as int)
            },
            old(self).source().holds_all() ==> {
                &&& r is Ok <==> decode_run(
                    old(self).state(),
                    old(self).source().held(),
                    fill_count(old(self).pixels_left(), old(buf)@.len()),
                ) is Some
                &&& r is Err ==> r matches Err(StreamError::UnexpectedEof)
            },
            decode_run(
                old(self).state(),
                old(self).source().held(),
                fill_count(old(self).pixels_left(), old(buf)@.len()),
            ) is Some ==> {
                let held = old(self).source().held();
                let k = consumed(old(self).source().taken(), final(self).source().taken()).len();
                &&& r is Ok
                &&& k <= held.len()
                &&& consumed(old(self).source().taken(), final(self).source().taken())
                    == held.take(k as int)
                &&& final(self).source().held() == held.skip(k as int)
            },
    {
        let ghost buf0 = buf@;
        let r = self.decode_into_pixel_buf(buf, same_pixel);
        proof {
            if r is Ok {
                let (n, _) = r->Ok_0;
                let chunk = consumed(old(self).source().taken(), self.source().taken());
                let ps = (decode_run(old(self).state(), chunk, n as nat)->0).0;
                lemma_run_len(old(self).state(), chunk, n as nat);
                assert forall|i: int| 0 <= i < n implies buf@[i] == ps[i] by {
                    assert(call_ensures(same_pixel, (ps[i],), buf@[i]));
                }
                assert(buf@.take(n as int) =~= ps);
                assert(buf@.skip(n as int) =~= buf0.skip(n as int));
            }
        }
        r
    }

    /// Decodes pixels into `buf`, `N` bytes each as `transform` lays them out,
    /// until `buf` has no room for another pixel or the image ends. Yields how
    /// many bytes were written, and whether the image is now fully decoded.
    pub fn decode_bytes_into<F, const N: usize>(&mut self, buf: &mut [u8], transform: F) -> (r:
        Result<(usize, bool), StreamError<S::IoError>>) where F: Fn(Pixel) -> [u8; N]
        requires
            old(self).wf(),
            N > 0,
            forall|p: Pixel| call_requires(transform, (p,)),
        ensures
            final(self).wf(),
            final(self).failed() == old(self).failed(),
            final(buf)@.len() == old(buf)@.len(),
            r is Err ==> final(self).pixels_left() == old(self).pixels_left(),
            r matches Err(e) ==> final(self).source().last_error() == Some(e),
            r is Err ==> {
                let before = old(self).source().taken();
                let after = final(self).source().taken();
                &&& extends(before, after)
                &&& decode_run(
                    old(self).state(),
                    consumed(before, after),
                    fill_count(old(self).pixels_left(), old(buf)@.len() / N as nat),
                ) is None
            },
            r is Ok ==> {
                let (m, exhausted) = r->Ok_0;
                let n = fill_count(old(self).pixels_left(), old(buf)@.len() / N as nat);
                let before = old(self).source().taken();
                let after = final(self).source().taken();
                let chunk = consumed(before, after);
                let run = decode_run(old(self).state(), chunk, n);
                &&& m == n * N
                &&& final(self).pixels_left() == old(self).pixels_left() - n
                &&& exhausted == (old(self).pixels_left() <= old(buf)@.len() / N as nat)
                &&& exhausted == (final(self).pixels_left() == 0)
                &&& extends(before, after)
                &&& run is Some
                &&& (run->0).1 == final(self).state()
                &&& (run->0).2 == chunk.len()
                &&& forall|i: int|
                    0 <= i < n ==> emits(
                        transform,
                        #[trigger] (run->0).0[i],
                        final(buf)@.subrange(i * N, i * N + N),
                    )
                &&& final(buf)@.skip(m as int) == old(buf)@.skip(m as int)
            },
            old(self).source().holds_all() ==> {
                &&& r is Ok <==> decode_run(
                    old(self).state(),
                    old(self).source().held(),
                    fill_count(old(self).pixels_left(), old(buf)@.len() / N as nat),
                ) is Some
                &&& r is Err ==> r matches Err(StreamError::UnexpectedEof)
            },
            decode_run(
                old(self).state(),
                old(self).source().held(),
                fill_count(old(self).pixels_left(), old(buf)@.len() / N as nat),
            ) is Some ==> {
                let held = old(self).source().held();
                let k = consumed(old(self).source().taken(), final(self).source().taken()).len();
                &&& r is Ok
                &&& k <= held.len()
                &&& consumed(old(self).source().taken(), final(self).source().taken())
                    == held.take(k as int)
                &&& final(self).source().held() == held.skip(k as int)
            },
    {
        let remaining = self.remaining;
        let buf_len = buf.len();
        let cap = buf_len / N;
        let (num_pixels, exhausted) = if remaining > cap as u64 {
            (cap, false)
        } else {
            (remaining as usize, true)
        };
        proof {
            lemma_fundamental_div_mod(buf@.len() as int, N as int);
            lemma_mod_pos_bound(buf@.len() as int, N as int);
            lemma_mul_le(num_pixels as int, cap as int, N as int);
        }
        let ghost st0 = self.state();
        let ghost t0 = self.stream.taken();
        let ghost h0 = self.stream.held();
        let ghost all0 = self.stream.holds_all();
        let ghost buf0 = buf@;
        let ghost mut ps: Seq<Pixel> = Seq::empty();
        proof {
            assert(t0.take(t0.len() as int) =~= t0);
            assert(consumed(t0, t0) =~= Seq::<u8>::empty());
            assert(h0.take(0) =~= Seq::<u8>::empty());
            assert(h0.skip(0) =~= h0);
        }
        let mut i: usize = 0;
        while i < num_pixels
            invariant
                i <= num_pixels,
                num_pixels == fill_count(remaining as nat, buf0.len() / N as nat),
                num_pixels * N <= buf0.len(),
                buf_len == buf0.len(),
                N > 0,
                buf0 == old(buf)@,
                st0 == old(self).state(),
                t0 == old(self).source().taken(),
                h0 == old(self).source().held(),
                all0 == old(self).source().holds_all(),
                remaining == old(self).pixels_left(),
                buf@.len() == buf0.len(),
                self.remaining == remaining,
                self.failed == old(self).failed(),
                forall|p: Pixel| call_requires(transform, (p,)),
                ps.len() == i,
                self.fill_progress(st0, t0, h0, all0, ps, num_pixels as nat),
                forall|k: int|
                    0 <= k < i ==> emits(
                        transform,
                        #[trigger] ps[k],
                        buf@.subrange(k * N, k * N + N),
                    ),
                forall|j: int| i * N <= j < buf0.len() ==> #[trigger] buf@[j] == buf0[j],
            decreases num_pixels - i,
        {
            let p = match self.fill_step(
                Ghost(st0),
                Ghost(t0),
                Ghost(h0),
                Ghost(all0),
                Ghost(ps),
                Ghost(num_pixels as nat),
            ) {
                Ok(p) => p,
                Err(e) => {
                    proof {
                        lemma_run_none_longer(
                            st0,
                            consumed(t0, self.stream.taken()),
                            (i + 1) as nat,
                            num_pixels as nat,
                        );
                    }
                    return Err(e);
                },
            };
            let out = transform(p);
            proof {
                lemma_mul_le((i + 1) as int, num_pixels as int, N as int);
                assert((i + 1) * N == i * N + N) by (nonlinear_arith);
                assert(i * N + N <= buf_len);
            }
            let base = i * N;
            let ghost before = buf@;
            let mut j: usize = 0;
            while j < N
                invariant
                    j <= N,
                    base + N <= buf.len(),
                    buf@.len() == before.len(),
                    forall|t: int| 0 <= t < j ==> #[trigger] buf@[base + t] == out@[t],
                    forall|x: int|
                        0 <= x < buf@.len() && (x < base || base + j <= x) ==> #[trigger] buf@[x]
                            == before[x],
                decreases N - j,
            {
                buf[base + j] = out[j];
                j += 1;
            }
            proof {
                assert forall|t: int| 0 <= t < N implies buf@.subrange(base as int, base + N)[t]
                    == out@[t] by {
                    assert(buf@[base + t] == out@[t]);
                }
                assert(buf@.subrange(base as int, base + N) =~= out@);
                assert(emits(transform, p, buf@.subrange(base as int, base + N)));
                assert forall|k: int| 0 <= k < i implies emits(
                    transform,
                    #[trigger] ps[k],
                    buf@.subrange(k * N, k * N + N),
                ) by {
                    lemma_mul_le(k + 1, i as int, N as int);
                    assert((k + 1) * N == k * N + N) by (nonlinear_arith);
                    assert(0 <= k * N) by (nonlinear_arith)
                        requires
                            0 <= k,
                            N > 0,
                    ;
                    assert(buf@.subrange(k * N, k * N + N) =~= before.subrange(k * N, k * N + N));
                }
                ps = ps.push(p);
                assert(ps[i as int] == p);
            }
            i += 1;
        }
        self.remaining = self.remaining - num_pixels as u64;
        proof {
            let m = num_pixels * N;
            assert(buf@.skip(m as int) =~= buf0.skip(m as int));
            let chunk = consumed(t0, self.stream.taken());
            lemma_run_len(st0, chunk, num_pixels as nat);
            if all0 {
                assert(h0 =~= chunk + h0.skip(chunk.len() as int));
                lemma_run_extend(st0, chunk, h0.skip(chunk.len() as int), num_pixels as nat);
            }
        }
        Ok((num_pixels * N, exhausted))
    }

    /// Decodes every remaining pixel into a vector allocated for exactly that
    /// many. Fails with `TooLarge`, before decoding anything, where their
    /// bytes, at least `PIXEL_BYTES` each, exceed `isize::MAX`, or where the
    /// allocation is refused.
    #[verifier::spinoff_prover]
    pub fn decode_pixels_vec(self) -> (r: Result<Vec<Pixel>, DecodeAllError<S::IoError>>)
        requires
            self.wf(),
        ensures
            self.pixels_left() > usize::MAX ==> r matches Err(DecodeAllError::TooLarge),
            self.pixels_left() * PIXEL_BYTES > isize::MAX ==> r matches Err(
                DecodeAllError::TooLarge,
            ),
            self.pixels_left() == 0 ==> (r matches Ok(v) && v@.len() == 0),
            r is Ok ==> {
                &&& r->Ok_0@.len() == self.pixels_left()
                &&& exists|chunk: Seq<u8>| decodes(self.state(), chunk, r->Ok_0@)
            },
            self.source().holds_all() && decode_run(
                self.state(),
                self.source().held(),
                self.pixels_left(),
            ) is None ==> r matches Err(DecodeAllError::UnexpectedEof) || r matches Err(
                DecodeAllError::TooLarge,
            ),
            decode_run(self.state(), self.source().held(), self.pixels_left()) is Some ==> {
                &&& r is Ok ==> r->Ok_0@ == (decode_run(
                    self.state(),
                    self.source().held(),
                    self.pixels_left(),
                )->0).0
                &&& r is Err ==> r matches Err(DecodeAllError::TooLarge)
            },
    {
        if self.remaining > usize::MAX as u64 {
            return Err(DecodeAllError::TooLarge);
        }
        let num_pixels = self.remaining as usize;
        let num_bytes = match num_pixels.checked_mul(PIXEL_BYTES) {
            Some(b) => b,
            None => {
                return Err(DecodeAllError::TooLarge);
            },
        };
        if num_bytes > isize::MAX as usize {
            return Err(DecodeAllError::TooLarge);
        }
        let mut buf: Vec<Pixel> = Vec::new();
        if !try_reserve_exact(&mut buf, num_pixels) {
            return Err(DecodeAllError::TooLarge);
        }
        let mut i: usize = 0;
        while i < num_pixels
            invariant
                i <= num_pixels,
                buf@.len() == i,
            decreases num_pixels - i,
        {
            buf.push(Pixel::zero());
            i += 1;
        }
        let ghost pre = self;
        let mut decoder = self;
        match decoder.decode_pixels_into(buf.as_mut_slice()) {
            Ok((n, exhausted)) => {
                proof {
                    let chunk = consumed(pre.source().taken(), decoder.source().taken());
                    assert(buf@.len() == num_pixels);
                    assert(n == num_pixels);
                    assert(decodes_to(pre.state(), chunk, buf@.take(n as int), decoder.state()));
                    assert(buf@.take(n as int) =~= buf@);
                    assert(decodes_to(pre.state(), chunk, buf@, decoder.state()));
                    assert(decodes(pre.state(), chunk, buf@));
                    assert(buf@.len() == pre.pixels_left());
                    if decode_run(pre.state(), pre.source().held(), pre.pixels_left()) is Some {
                        let h = pre.source().held();
                        assert(h =~= chunk + h.skip(chunk.len() as int));
                        lemma_run_extend(pre.state(), chunk, h.skip(chunk.len() as int), n as nat);
                    }
                }
                Ok(buf)
            },
            Err(e) => Err(DecodeAllError::from(e)),
        }
    }

    /// Decodes every remaining pixel into a byte vector allocated for exactly
    /// `N` bytes per pixel, laid out by `transform`. Fails with `TooLarge`,
    /// before decoding anything, where the byte count does not fit a `usize`
    /// or the allocation is refused.
    #[verifier::spinoff_prover]
    pub fn decode_bytes_vec<F, const N: usize>(self, transform: F) -> (r: Result<
        Vec<u8>,
        DecodeAllError<S::IoError>,
    >) where F: Fn(Pixel) -> [u8; N]
        requires
            self.wf(),
            N > 0,
            forall|p: Pixel| call_requires(transform, (p,)),
        ensures
            self.pixels_left() * N > isize::MAX ==> r matches Err(DecodeAllError::TooLarge),
            self.pixels_left() == 0 ==> (r matches Ok(v) && v@.len() == 0),
            r is Ok ==> exists|chunk: Seq<u8>|
                {
                    let run = #[trigger] decode_run(self.state(), chunk, self.pixels_left());
                    &&& run is Some
                    &&& (run->0).2 == chunk.len()
                    &&& lays_out(transform, (run->0).0, r->Ok_0@)
                },
            self.source().holds_all() && decode_run(
                self.state(),
                self.source().held(),
                self.pixels_left(),
            ) is None ==> r matches Err(DecodeAllError::UnexpectedEof) || r matches Err(
                DecodeAllError::TooLarge,
            ),
            decode_run(self.state(), self.source().held(), self.pixels_left()) is Some ==> {
                let ps = (decode_run(self.state(), self.source().held(), self.pixels_left())->0).0;
                &&& r is Ok ==> lays_out(transform, ps, r->Ok_0@)
                &&& r is Err ==> r matches Err(DecodeAllError::TooLarge)
            },
    {
        if self.remaining > usize::MAX as u64 {
            proof {
                lemma_mul_le(1, N as int, self.remaining as int);
            }
            return Err(DecodeAllError::TooLarge);
        }
        let num_pixels = self.remaining as usize;
        proof {
            if num_pixels == 0 {
                assert(num_pixels * N == 0) by (nonlinear_arith)
                    requires
                        num_pixels == 0,
                ;
            }
        }
        let num_bytes = match num_pixels.checked_mul(N) {
            Some(b) => b,
            None => {
                return Err(DecodeAllError::TooLarge);
            },
        };
        if num_bytes > isize::MAX as usize {
            return Err(DecodeAllError::TooLarge);
        }
        let mut buf: Vec<u8> = Vec::new();
        if !try_reserve_exact(&mut buf, num_bytes) {
            return Err(DecodeAllError::TooLarge);
        }
        let mut i: usize = 0;
        while i < num_bytes
            invariant
                i <= num_bytes,
                buf@.len() == i,
            decreases num_bytes - i,
        {
            buf.push(0u8);
            i += 1;
        }
        let ghost pre = self;
        let mut decoder = self;
        proof {
            vstd::arithmetic::div_mod::lemma_div_multiples_vanish(num_pixels as int, N as int);
            assert(num_pixels * N == N * num_pixels) by (nonlinear_arith);
            assert(buf@.len() / N as nat == num_pixels);
        }
        match decoder.decode_bytes_into(buf.as_mut_slice(), transform) {
            Ok((m, exhausted)) => {
                proof {
                    let chunk = consumed(pre.source().taken(), decoder.source().taken());
                    let run = decode_run(pre.state(), chunk, num_pixels as nat);
                    lemma_run_len(pre.state(), chunk, num_pixels as nat);
                    assert(lays_out(transform, (run->0).0, buf@));
                    if decode_run(pre.state(), pre.source().held(), pre.pixels_left()) is Some {
                        let h = pre.source().held();
                        assert(h =~= chunk + h.skip(chunk.len() as int));
                        lemma_run_extend(
                            pre.state(),
                            chunk,
                            h.skip(chunk.len() as int),
                            num_pixels as nat,
                        );
                    }
                }
                Ok(buf)
            },
            Err(e) => Err(DecodeAllError::from(e)),
        }
    }

    /// Pulls the next pixel: `None` once the image is done or a failure has
    /// been reported; after a failure the decoder stays stopped.
    pub fn next_pixel(&mut self) -> (r: Option<Result<Pixel, StreamError<S::IoError>>>)
        requires
            old(self).wf(),
        ensures
            final(self).wf(),
            old(self).failed() || old(self).pixels_left() == 0 ==> r is None && *final(self)
                == *old(self),
            !old(self).failed() && old(self).pixels_left() > 0 ==> r is Some,
            r matches Some(Ok(p)) ==> {
                let before = old(self).source().taken();
                let after = final(self).source().taken();
                &&& extends(before, after)
                &&& decodes_to(old(self).state(), consumed(before, after), seq![p], final(self).state())
                &&& final(self).pixels_left() == old(self).pixels_left() - 1
                &&& !final(self).failed()
            },
            r matches Some(Err(e)) ==> final(self).failed() && final(self).source().last_error()
                == Some(e) && final(self).pixels_left() == old(self).pixels_left(),
            r matches Some(Err(_)) ==> {
                let before = old(self).source().taken();
                let after = final(self).source().taken();
                &&& extends(before, after)
                &&& step(old(self).state(), consumed(before, after)) is None
            },
            !old(self).failed() && old(self).pixels_left() > 0 && step(
                old(self).state(),
                old(self).source().held(),
            ) is Some ==> r matches Some(Ok(_)),
            !old(self).failed() && old(self).pixels_left() > 0 && old(self).source().holds_all()
                && step(old(self).state(), old(self).source().held()) is None ==> r matches Some(
                Err(StreamError::UnexpectedEof),
            ),
    {
        if self.failed || self.remaining == 0 {
            return None;
        }
        let ghost st0 = self.state();
        let ghost t0 = self.stream.taken();
        match self.decode_next() {
            Ok(p) => {
                self.remaining = self.remaining - 1;
                proof {
                    let chunk = consumed(t0, self.stream.taken());
                    assert(chunk.skip(0) =~= chunk);
                    assert(decode_run(st0, chunk, 0) == Some((Seq::<Pixel>::empty(), st0, 0nat)));
                    assert(Seq::<Pixel>::empty().push(p) =~= seq![p]);
                    if old(self).source().holds_all() {
                        let h0 = old(self).source().held();
                        assert(h0 =~= chunk + h0.skip(chunk.len() as int));
                        lemma_step_extend(st0, chunk, h0.skip(chunk.len() as int));
                    }
                }
                Some(Ok(p))
            },
            Err(e) => {
                self.failed = true;
                Some(Err(e))
            },
        }
    }

    /// Bounds on how many more pixels the pull interface yields: none once it
    /// is done or stopped; otherwise at least one, and at most `pixels_left`
    /// where that fits a `usize`.
    pub fn size_hint(&self) -> (r: (usize, Option<usize>))
        ensures
            self.failed() || self.pixels_left() == 0 ==> r == (0usize, Some(0usize)),
            !self.failed() && self.pixels_left() > 0 ==> {
                &&& r.0 == 1
                &&& self.pixels_left() <= usize::MAX ==> r.1 == Some(self.pixels_left() as usize)
                &&& self.pixels_left() > usize::MAX ==> r.1 is None
            },
    {
        if self.failed || self.remaining == 0 {
            (0, Some(0))
        } else if self.remaining <= usize::MAX as u64 {
            (1, Some(self.remaining as usize))
        } else {
            (1, None)
        }
    }

    /// Where a fill that started in state `st0`, with the source having handed
    /// out `t0`, holding `h0`, and holding all it has where `all0`, stands once
    /// it has produced `ps` of `num` pixels.
    spec fn fill_progress(
        self,
        st0: ChunkState,
        t0: Seq<u8>,
        h0: Seq<u8>,
        all0: bool,
        ps: Seq<Pixel>,
        num: nat,
    ) -> bool {
        let chunk = consumed(t0, self.source().taken());
        &&& self.wf()
        &&& extends(t0, self.source().taken())
        &&& decode_run(st0, chunk, ps.len()) == Some((ps, self.state(), chunk.len()))
        &&& all0 ==> self.source().holds_all()
        &&& decode_run(st0, h0, num) is Some || all0 ==> {
            &&& chunk.len() <= h0.len()
            &&& chunk == h0.take(chunk.len() as int)
            &&& self.source().held() == h0.skip(chunk.len() as int)
        }
    }

    /// Produces the next pixel of a fill.
    fn fill_step(
        &mut self,
        Ghost(st0): Ghost<ChunkState>,
        Ghost(t0): Ghost<Seq<u8>>,
        Ghost(h0): Ghost<Seq<u8>>,
        Ghost(all0): Ghost<bool>,
        Ghost(ps): Ghost<Seq<Pixel>>,
        Ghost(num): Ghost<nat>,
    ) -> (r: Result<Pixel, StreamError<S::IoError>>)
        requires
            old(self).fill_progress(st0, t0, h0, all0, ps, num),
            ps.len() < num,
        ensures
            final(self).wf(),
            final(self).pixels_left() == old(self).pixels_left(),
            final(self).failed() == old(self).failed(),
            r is Ok ==> final(self).fill_progress(st0, t0, h0, all0, ps.push(r->Ok_0), num),
            decode_run(st0, h0, num) is Some ==> r is Ok,
            all0 && r is Err ==> r matches Err(StreamError::UnexpectedEof),
            r matches Err(e) ==> final(self).source().last_error() == Some(e),
            r is Err ==> {
                let after = final(self).source().taken();
                &&& extends(t0, after)
                &&& decode_run(st0, consumed(t0, after), ps.len() + 1) is None
            },
    {
        let ghost t_i = self.stream.taken();
        let ghost h_i = self.stream.held();
        let ghost chunk = consumed(t0, t_i);
        let ghost s_i = self.state();
        let ghost i = ps.len();
        proof {
            if decode_run(st0, h0, num) is Some {
                lemma_run_shorter(st0, h0, num, i + 1);
                assert(h0 =~= chunk + h0.skip(chunk.len() as int));
                lemma_run_extend(st0, chunk, h0.skip(chunk.len() as int), i);
                assert(step(s_i, h_i) is Some);
            }
        }
        let p = match self.decode_next() {
            Ok(p) => p,
            Err(e) => {
                proof {
                    let t_n = self.stream.taken();
                    let c = consumed(t_i, t_n);
                    let chunk2 = consumed(t0, t_n);
                    assert(t_n =~= t_i + c);
                    assert(t_i =~= t0 + chunk);
                    assert(chunk2 =~= chunk + c);
                    assert(t_n.take(t0.len() as int) =~= t0);
                    lemma_run_extend(st0, chunk, c, i);
                    assert(chunk2.skip(chunk.len() as int) =~= c);
                }
                return Err(e);
            },
        };
        proof {
            let t_n = self.stream.taken();
            let c = consumed(t_i, t_n);
            let chunk2 = consumed(t0, t_n);
            assert(t_n =~= t_i + c);
            assert(t_i =~= t0 + chunk);
            assert(chunk2 =~= chunk + c);
            assert(t_n.take(t0.len() as int) =~= t0);
            lemma_run_extend(st0, chunk, c, i);
            assert(chunk2.skip(chunk.len() as int) =~= c);
            if decode_run(st0, h0, num) is Some || all0 {
                assert(chunk2 =~= h0.take(chunk2.len() as int));
                assert(self.stream.held() =~= h0.skip(chunk2.len() as int));
            }
        }
        Ok(p)
    }

    /// Decodes up to `min(pixels_left, buf.len())` pixels into the front of
    /// `buf`, each passed through `transform`. Yields how many were written, and
    /// whether that used up the image.
    fn decode_into_pixel_buf<T, F: Fn(Pixel) -> T>(&mut self, buf: &mut [T], transform: F) -> (r:
        Result<(usize, bool), StreamError<S::IoError>>)
        requires
            old(self).wf(),
            forall|p: Pixel| call_requires(transform, (p,)),
        ensures
            final(self).wf(),
            final(self).failed() == old(self).failed(),
            final(buf)@.len() == old(buf)@.len(),
            r is Err ==> final(self).pixels_left() == old(self).pixels_left(),
            r matches Err(e) ==> final(self).source().last_error() == Some(e),
            r is Err ==> {
                let before = old(self).source().taken();
                let after = final(self).source().taken();
                &&& extends(before, after)
                &&& decode_run(
                    old(self).state(),
                    consumed(before, after),
                    fill_count(old(self).pixels_left(), old(buf)@.len()),
                ) is None
            },
            r is Ok ==> {
                let (n, exhausted) = r->Ok_0;
                let before = old(self).source().taken();
                let after = final(self).source().taken();
                let chunk = consumed(before, after);
                let run = decode_run(old(self).state(), chunk, n as nat);
                &&& n == fill_count(old(self).pixels_left(), old(buf)@.len())
                &&& exhausted == (old(self).pixels_left() <= old(buf)@.len())
                &&& final(self).pixels_left() == old(self).pixels_left() - n
                &&& extends(before, after)
                &&& run is Some
                &&& (run->0).1 == final(self).state()
                &&& (run->0).2 == chunk.len()
                &&& forall|i: int|
                    0 <= i < n ==> call_ensures(transform, ((run->0).0[i],), #[trigger] final(buf)@[i])
                &&& forall|i: int| n <= i < old(buf)@.len() ==> #[trigger] final(buf)@[i] == old(buf)@[i]
            },
            old(self).source().holds_all() ==> {
                &&& r is Ok <==> decode_run(
                    old(self).state(),
                    old(self).source().held(),
                    fill_count(old(self).pixels_left(), old(buf)@.len()),
                ) is Some
                &&& r is Err ==> r matches Err(StreamError::UnexpectedEof)
            },
            decode_run(
                old(self).state(),
                old(self).source().held(),
                fill_count(old(self).pixels_left(), old(buf)@.len()),
            ) is Some ==> {
                let held = old(self).source().held();
                let k = consumed(old(self).source().taken(), final(self).source().taken()).len();
                &&& r is Ok
                &&& k <= held.len()
                &&& consumed(old(self).source().taken(), final(self).source().taken())
                    == held.take(k as int)
                &&& final(self).source().held() == held.skip(k as int)
            },
    {
        let remaining = self.remaining;
        let cap = buf.len();
        let (num_pixels, exhausted) = if remaining > cap as u64 {
            (cap, false)
        } else {
            (remaining as usize, true)
        };
        let ghost st0 = self.state();
        let ghost t0 = self.stream.taken();
        let ghost h0 = self.stream.held();
        let ghost all0 = self.stream.holds_all();
        let ghost buf0 = buf@;
        let ghost mut ps: Seq<Pixel> = Seq::empty();
        proof {
            assert(t0.take(t0.len() as int) =~= t0);
            assert(consumed(t0, t0) =~= Seq::<u8>::empty());
            assert(h0.take(0) =~= Seq::<u8>::empty());
            assert(h0.skip(0) =~= h0);
        }
        let mut i: usize = 0;
        while i < num_pixels
            invariant
                i <= num_pixels,
                num_pixels == fill_count(remaining as nat, buf0.len()),
                buf0 == old(buf)@,
                st0 == old(self).state(),
                t0 == old(self).source().taken(),
                h0 == old(self).source().held(),
                all0 == old(self).source().holds_all(),
                remaining == old(self).pixels_left(),
                buf@.len() == buf0.len(),
                self.remaining == remaining,
                self.failed == old(self).failed(),
                forall|p: Pixel| call_requires(transform, (p,)),
                ps.len() == i,
                self.fill_progress(st0, t0, h0, all0, ps, num_pixels as nat),
                forall|j: int| 0 <= j < i ==> call_ensures(transform, (ps[j],), #[trigger] buf@[j]),
                forall|j: int| i <= j < buf0.len() ==> #[trigger] buf@[j] == buf0[j],
            decreases num_pixels - i,
        {
            let p = match self.fill_step(
                Ghost(st0),
                Ghost(t0),
                Ghost(h0),
                Ghost(all0),
                Ghost(ps),
                Ghost(num_pixels as nat),
            ) {
                Ok(p) => p,
                Err(e) => {
                    proof {
                        lemma_run_none_longer(
                            st0,
                            consumed(t0, self.stream.taken()),
                            (i + 1) as nat,
                            num_pixels as nat,
                        );
                    }
                    return Err(e);
                },
            };
            let out = transform(p);
            buf[i] = out;
            proof {
                ps = ps.push(p);
            }
            i += 1;
        }
        self.remaining = self.remaining - num_pixels as u64;
        proof {
            if all0 {
                let chunk = consumed(t0, self.stream.taken());
                assert(h0 =~= chunk + h0.skip(chunk.len() as int));
                lemma_run_extend(st0, chunk, h0.skip(chunk.len() as int), num_pixels as nat);
            }
        }
        Ok((num_pixels, exhausted))
    }

    /// One decoding step: drains a pending run, or reads and applies one chunk.
    fn decode_next(&mut self) -> (r: Result<Pixel, StreamError<S::IoError>>)
        requires
            old(self).wf(),
        ensures
            final(self).wf(),
            final(self).pixels_left() == old(self).pixels_left(),
            final(self).failed() == old(self).failed(),
            r matches Err(e) ==> final(self).source().last_error() == Some(e),
            r is Err ==> {
                let before = old(self).source().taken();
                let after = final(self).source().taken();
                &&& extends(before, after)
                &&& step(old(self).state(), consumed(before, after)) is None
            },
            r is Ok ==> {
                let before = old(self).source().taken();
                let after = final(self).source().taken();
                let chunk = consumed(before, after);
                &&& extends(before, after)
                &&& step(old(self).state(), chunk) == Some((final(self).state(), chunk.len()))
                &&& r->Ok_0 == final(self).state().previous
            },
            (step(old(self).state(), old(self).source().held()) is Some
                || old(self).source().holds_all()) && r is Ok ==> {
                let held = old(self).source().held();
                let k = consumed(old(self).source().taken(), final(self).source().taken()).len();
                &&& k <= held.len()
                &&& consumed(old(self).source().taken(), final(self).source().taken())
                    == held.take(k as int)
                &&& final(self).source().held() == held.skip(k as int)
            },
            step(old(self).state(), old(self).source().held()) is Some ==> r is Ok,
            old(self).source().holds_all() ==> {
                &&& r is Ok ==> final(self).source().holds_all()
                &&& r is Err ==> r matches Err(StreamError::UnexpectedEof)
            },
    {
        let ghost st0 = self.state();
        let ghost t0 = self.stream.taken();
        let ghost h0 = self.stream.held();
        if self.run > 0 {
            self.run -= 1;
            proof {
                assert(step(st0, h0) == Some((self.state(), 0nat))) by {
                    reveal(step);
                }
                assert(step(st0, Seq::<u8>::empty()) == Some((self.state(), 0nat))) by {
                    reveal(step);
                }
                assert(t0.take(t0.len() as int) =~= t0);
                assert(consumed(t0, self.stream.taken()) =~= Seq::<u8>::empty());
                assert(h0.take(0) =~= Seq::<u8>::empty());
                assert(h0.skip(0) =~= h0);
            }
            return Ok(self.previous);
        }
        assert(step(st0, h0) is Some ==> h0.len() > 0) by {
            reveal(step);
        }
        let b0 = match self.stream.read_one() {
            Ok(b) => b,
            Err(e) => {
                proof {
                    assert(t0 =~= t0.take(t0.len() as int));
                    assert(consumed(t0, t0) =~= Seq::<u8>::empty());
                    assert(step(st0, Seq::<u8>::empty()) is None) by {
                        reveal(step);
                    }
                }
                return Err(e);
            },
        };
        let ghost t1 = self.stream.taken();
        let ghost h1 = self.stream.held();
        proof {
            if step(st0, h0) is Some {
                assert(h0 =~= seq![b0] + h1);
            }
        }
        let r = self.apply_chunk(b0);
        proof {
            let after = self.stream.taken();
            let rest = consumed(t1, after);
            if r is Err {
                assert(after =~= t1 + rest);
                assert(consumed(t0, after) =~= seq![b0] + rest);
                assert(t0 =~= after.take(t0.len() as int));
            }
            if r is Ok {
                assert(after =~= t1 + rest);
                assert(consumed(t0, after) =~= seq![b0] + rest);
                assert(t0 =~= after.take(t0.len() as int));
            }
            if (step(st0, h0) is Some || old(self).source().holds_all()) && r is Ok {
                assert(h0 =~= seq![b0] + h1);
                let k: int = rest.len() as int;
                assert(after =~= t1 + rest);
                assert(consumed(t0, after) =~= seq![b0] + rest);
                assert(h0.take(k + 1int) =~= seq![b0] + h1.take(k));
                assert(h0.skip(k + 1int) =~= h1.skip(k));
            }
        }
        r
    }

    /// What applying the chunk with tag `b0` does: the bytes it reads after the
    /// tag complete one step from the old state to the new one; where the
    /// source holds those bytes, it succeeds and reads them from there.
    spec fn chunk_done(
        pre: Self,
        post: Self,
        b0: u8,
        r: Result<Pixel, StreamError<S::IoError>>,
    ) -> bool {
        let before = pre.source().taken();
        let after = post.source().taken();
        let rest = consumed(before, after);
        let held = pre.source().held();
        &&& post.wf()
        &&& post.pixels_left() == pre.pixels_left()
        &&& post.failed() == pre.failed()
        &&& r matches Err(e) ==> post.source().last_error() == Some(e)
        &&& r is Err ==> extends(before, after) && step(pre.state(), seq![b0] + rest) is None
        &&& r is Ok ==> {
            &&& extends(before, after)
            &&& step(pre.state(), seq![b0] + rest) == Some((post.state(), rest.len() + 1))
            &&& r->Ok_0 == post.state().previous
        }
        &&& (step(pre.state(), seq![b0] + held) is Some || pre.source().holds_all()) && r is Ok
            ==> {
            &&& rest.len() <= held.len()
            &&& rest == held.take(rest.len() as int)
            &&& post.source().held() == held.skip(rest.len() as int)
        }
        &&& step(pre.state(), seq![b0] + held) is Some ==> r is Ok
        &&& pre.source().holds_all() ==> {
            &&& r is Ok ==> post.source().holds_all()
            &&& r is Err ==> r matches Err(StreamError::UnexpectedEof)
        }
    }

    /// Applies the chunk whose tag byte `b0` has just been read, reading the
    /// rest of it.
    fn apply_chunk(&mut self, b0: u8) -> (r: Result<Pixel, StreamError<S::IoError>>)
        requires
            old(self).wf(),
            old(self).state().run == 0,
        ensures
            Self::chunk_done(*old(self), *final(self), b0, r),
    {
        if b0 == 0xfe {
            self.apply_rgb()
        } else if b0 == 0xff {
            self.apply_rgba()
        } else if b0 >> 6 == 2 {
            assert(b0 >> 6 == 2 ==> 0x80 <= b0 < 0xc0) by (bit_vector);
            self.apply_luma(b0)
        } else {
            assert(b0 >> 6 != 2 ==> b0 < 0x80 || 0xc0 <= b0) by (bit_vector);
            self.apply_local(b0)
        }
    }

    fn apply_rgb(&mut self) -> (r: Result<Pixel, StreamError<S::IoError>>)
        requires
            old(self).wf(),
            old(self).state().run == 0,
        ensures
            Self::chunk_done(*old(self), *final(self), 0xfe, r),
    {
        let ghost st0 = self.state();
        let ghost t0 = self.stream.taken();
        let ghost h0 = self.stream.held();
        proof {
            lemma_step_rgb(st0, h0);
        }
        let rgb = match self.stream.read_n::<3>() {
            Ok(bytes) => bytes,
            Err(e) => {
                proof {
                    let after = self.stream.taken();
                    assert(t0 =~= after.take(t0.len() as int));
                    lemma_step_rgb(st0, consumed(t0, after));
                }
                return Err(e);
            },
        };
        self.previous.r = rgb[0];
        self.previous.g = rgb[1];
        self.previous.b = rgb[2];
        self.index.insert(self.previous);
        proof {
            assert(consumed(t0, self.stream.taken()) =~= rgb@);
            assert(t0 =~= self.stream.taken().take(t0.len() as int));
            lemma_step_rgb(st0, rgb@);
        }
        Ok(self.previous)
    }

    fn apply_rgba(&mut self) -> (r: Result<Pixel, StreamError<S::IoError>>)
        requires
            old(self).wf(),
            old(self).state().run == 0,
        ensures
            Self::chunk_done(*old(self), *final(self), 0xff, r),
    {
        let ghost st0 = self.state();
        let ghost t0 = self.stream.taken();
        let ghost h0 = self.stream.held();
        proof {
            lemma_step_rgba(st0, h0);
        }
        let rgba = match self.stream.read_n::<4>() {
            Ok(bytes) => bytes,
            Err(e) => {
                proof {
                    let after = self.stream.taken();
                    assert(t0 =~= after.take(t0.len() as int));
                    lemma_step_rgba(st0, consumed(t0, after));
                }
                return Err(e);
            },
        };
        self.previous = Pixel::new(rgba[0], rgba[1], rgba[2], rgba[3]);
        self.index.insert(self.previous);
        proof {
            assert(consumed(t0, self.stream.taken()) =~= rgba@);
            assert(t0 =~= self.stream.taken().take(t0.len() as int));
            lemma_step_rgba(st0, rgba@);
        }
        Ok(self.previous)
    }

    fn apply_luma(&mut self, b0: u8) -> (r: Result<Pixel, StreamError<S::IoError>>)
        requires
            old(self).wf(),
            old(self).state().run == 0,
            0x80 <= b0 < 0xc0,
        ensures
            Self::chunk_done(*old(self), *final(self), b0, r),
    {
        let ghost st0 = self.state();
        let ghost t0 = self.stream.taken();
        let ghost h0 = self.stream.held();
        proof {
            lemma_step_luma(st0, b0, h0);
        }
        let b1 = match self.stream.read_one() {
            Ok(b) => b,
            Err(e) => {
                proof {
                    assert(t0 =~= t0.take(t0.len() as int));
                    assert(consumed(t0, t0) =~= Seq::<u8>::empty());
                    assert(seq![b0] + Seq::<u8>::empty() =~= seq![b0]);
                    lemma_step_luma(st0, b0, Seq::<u8>::empty());
                }
                return Err(e);
            },
        };
        self.previous = luma_pixel(self.previous, b0, b1);
        self.index.insert(self.previous);
        proof {
            assert(consumed(t0, self.stream.taken()) =~= seq![b1]);
            assert(t0 =~= self.stream.taken().take(t0.len() as int));
            lemma_step_luma(st0, b0, seq![b1]);
            if h0.len() >= 1 {
                assert(h0.take(1) =~= seq![b1]);
            }
        }
        Ok(self.previous)
    }

    fn apply_local(&mut self, b0: u8) -> (r: Result<Pixel, StreamError<S::IoError>>)
        requires
            old(self).wf(),
            old(self).state().run == 0,
            b0 < 0x80 || 0xc0 <= b0 < 0xfe,
        ensures
            Self::chunk_done(*old(self), *final(self), b0, r),
    {
        let ghost st0 = self.state();
        let ghost t0 = self.stream.taken();
        let ghost h0 = self.stream.held();
        if b0 < 0x40 {
            self.previous = self.index.masked_get(b0);
        } else if b0 < 0x80 {
            self.previous = diff_pixel(self.previous, b0);
            self.index.insert(self.previous);
        } else {
            self.run = b0 & 0x3f;
            assert(b0 & 0x3f == b0 % 64) by (bit_vector);
        }
        proof {
            let empty = Seq::<u8>::empty();
            assert(consumed(t0, t0) =~= empty);
            assert(t0 =~= t0.take(t0.len() as int));
            assert(seq![b0] + empty =~= seq![b0]);
            lemma_step_local(st0, b0, empty);
            assert(h0.take(0) =~= empty);
            assert(h0.skip(0) =~= h0);
        }
        Ok(self.previous)
    }
}

/// Multiplying by a positive width keeps order.
proof fn lemma_mul_le(a: int, b: int, w: int)
    requires
        0 <= a <= b,
        0 < w,
    ensures
        a * w <= b * w,
        0 <= a * w,
{
    assert(a * w <= b * w) by (nonlinear_arith)
        requires
            0 <= a <= b,
            0 < w,
    ;
    assert(0 <= a * w) by (nonlinear_arith)
        requires
            0 <= a,
            0 < w,
    ;
}

} // verus!
