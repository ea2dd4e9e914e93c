use vstd::prelude::*;

use crate::chunk::{
    decode_run, diff_of, lemma_run_extend, lemma_run_len, lemma_run_shorter, lemma_step_local,
    lemma_step_rgba, local_next, produce_cached, step, wrap, ChunkState,
};
use crate::pixel_decoder::decodes_to;
use crate::pixel::Pixel;
use crate::pixel_index::{cache_insert, cache_lookup, hash_of};

verus! {

/// A run chunk with count `k` yields `k + 1` copies of the previous pixel: one
/// for the chunk itself, then `k` more that read no further bytes. The count
/// goes up to 61, since tags 0xfe and 0xff are the literal-colour chunks.
pub proof fn lemma_run_chunk_repeats(st: ChunkState, k: u8, rest: Seq<u8>)
    requires
        st.run == 0,
        k <= 61,
    ensures
        decode_run(st, seq![(0xc0 + k) as u8] + rest, (k + 1) as nat) == Some(
            (Seq::new((k + 1) as nat, |_i: int| st.previous), st, 1nat),
        ),
{
    lemma_run_drains(st, k, rest, k as nat);
}

/// A pending run is drained before any byte is read: with `k` repeats pending,
/// the next `n <= k` pixels are all the previous pixel, read no bytes, and
/// leave `k - n` repeats pending with the cache unchanged.
pub proof fn lemma_pending_run_drains(st: ChunkState, bs: Seq<u8>, n: nat)
    requires
        n <= st.run,
    ensures
        decode_run(st, bs, n) == Some(
            (
                Seq::new(n, |_i: int| st.previous),
                ChunkState { run: (st.run - n) as nat, ..st },
                0nat,
            ),
        ),
    decreases n,
{
    if n == 0 {
        assert(Seq::<Pixel>::empty() =~= Seq::new(0, |_i: int| st.previous));
        assert(ChunkState { run: (st.run - 0) as nat, ..st } == st);
    } else {
        lemma_pending_run_drains(st, bs, (n - 1) as nat);
        let s = ChunkState { run: (st.run - (n - 1)) as nat, ..st };
        assert(step(s, bs.skip(0)) == Some((ChunkState { run: (st.run - n) as nat, ..st }, 0nat)))
            by {
            reveal(step);
        }
        assert(Seq::new((n - 1) as nat, |_i: int| st.previous).push(st.previous) =~= Seq::new(
            n,
            |_i: int| st.previous,
        ));
    }
}

/// After `j + 1` steps of a run chunk with count `k`, `k - j` repeats remain.
proof fn lemma_run_drains(st: ChunkState, k: u8, rest: Seq<u8>, j: nat)
    requires
        st.run == 0,
        k <= 61,
        j <= k,
    ensures
        decode_run(st, seq![(0xc0 + k) as u8] + rest, j + 1) == Some(
            (
                Seq::new(j + 1, |_i: int| st.previous),
                ChunkState { run: (k - j) as nat, ..st },
                1nat,
            ),
        ),
    decreases j,
{
    let b0 = (0xc0 + k) as u8;
    let bs = seq![b0] + rest;
    lemma_step_local(st, b0, rest);
    assert(b0 % 64 == k);
    if j == 0 {
        assert(decode_run(st, bs, 0) == Some((Seq::<Pixel>::empty(), st, 0nat)));
        assert(bs.skip(0) =~= bs);
        assert(Seq::<Pixel>::empty().push(st.previous) =~= Seq::new(1, |_i: int| st.previous));
    } else {
        lemma_run_drains(st, k, rest, (j - 1) as nat);
        let s = ChunkState { run: (k - (j - 1)) as nat, ..st };
        assert(step(s, bs.skip(1)) == Some((ChunkState { run: (k - j) as nat, ..st }, 0nat))) by {
            reveal(step);
        }
        assert(Seq::new(j, |_i: int| st.previous).push(st.previous) =~= Seq::new(
            j + 1,
            |_i: int| st.previous,
        ));
    }
}

/// A small-difference chunk whose three fields are all `0b10` changes nothing
/// in the previous pixel; that pixel is written into the cache again.
pub proof fn lemma_zero_diff(st: ChunkState, rest: Seq<u8>)
    requires
        st.run == 0,
    ensures
        diff_of(st.previous, 0x6a) == st.previous,
        step(st, seq![0x6au8] + rest) == Some((produce_cached(st, st.previous), 1nat)),
{
    let p = st.previous;
    assert(wrap(p.r, 0) == p.r);
    assert(wrap(p.g, 0) == p.g);
    assert(wrap(p.b, 0) == p.b);
    lemma_step_local(st, 0x6a, rest);
}

/// The cache after each pixel of `ps` is written into it, in order.
pub open spec fn cache_insert_all(cache: Seq<Pixel>, ps: Seq<Pixel>) -> Seq<Pixel>
    decreases ps.len(),
{
    if ps.len() == 0 {
        cache
    } else {
        cache_insert(cache_insert_all(cache, ps.drop_last()), ps.last())
    }
}

/// A pixel written into the cache is found again by an index chunk naming its
/// hash, as long as no later write hit the same slot.
pub proof fn lemma_cache_round_trip(cache: Seq<Pixel>, p: Pixel, later: Seq<Pixel>)
    requires
        cache.len() == 64,
        forall|i: int| 0 <= i < later.len() ==> hash_of(#[trigger] later[i]) != hash_of(p),
    ensures
        cache_lookup(cache_insert_all(cache_insert(cache, p), later), hash_of(p) as u8) == p,
    decreases later.len(),
{
    lemma_insert_all_len(cache_insert(cache, p), later);
    if later.len() > 0 {
        let front = later.drop_last();
        assert forall|i: int| 0 <= i < front.len() implies hash_of(#[trigger] front[i]) != hash_of(
            p,
        ) by {
            assert(front[i] == later[i]);
        }
        lemma_cache_round_trip(cache, p, front);
        lemma_insert_all_len(cache_insert(cache, p), front);
        assert(hash_of(later[later.len() - 1]) != hash_of(p));
    }
}

/// Writing into the cache keeps its 64 slots.
proof fn lemma_insert_all_len(cache: Seq<Pixel>, ps: Seq<Pixel>)
    requires
        cache.len() == 64,
    ensures
        cache_insert_all(cache, ps).len() == 64,
    decreases ps.len(),
{
    if ps.len() > 0 {
        lemma_insert_all_len(cache, ps.drop_last());
    }
}

/// Right after a pixel has been produced and cached, an index chunk naming
/// its hash yields it again.
pub proof fn lemma_index_after_insert(st: ChunkState, p: Pixel, rest: Seq<u8>)
    requires
        st.cache.len() == 64,
    ensures
        step(produce_cached(st, p), seq![hash_of(p) as u8] + rest) == Some(
            (produce_cached(st, p), 1nat),
        ),
{
    let b0 = hash_of(p) as u8;
    lemma_step_local(produce_cached(st, p), b0, rest);
    assert(local_next(produce_cached(st, p), b0) == produce_cached(st, p));
}

/// No step of the `m` steps decoded from `bs` starting in `st` changes cache
/// slot `h`.
pub open spec fn run_keeps_slot(st: ChunkState, bs: Seq<u8>, m: nat, h: int) -> bool {
    forall|j: nat|
        #![trigger decode_run(st, bs, j)]
        j < m ==> (decode_run(st, bs, j + 1)->0).1.cache[h] == (decode_run(st, bs, j)->0).1.cache[h]
}

/// A slot that no step changes holds, after the steps, what it held before.
proof fn lemma_slot_kept(st: ChunkState, bs: Seq<u8>, m: nat, h: int, j: nat)
    requires
        decode_run(st, bs, m) is Some,
        run_keeps_slot(st, bs, m, h),
        j <= m,
    ensures
        (decode_run(st, bs, j)->0).1.cache[h] == st.cache[h],
    decreases j,
{
    lemma_run_shorter(st, bs, m, j);
    if j > 0 {
        lemma_slot_kept(st, bs, m, h, (j - 1) as nat);
        let i = (j - 1) as nat;
        assert((decode_run(st, bs, i + 1)->0).1.cache[h] == (decode_run(st, bs, i)->0).1.cache[h]);
    }
}

/// The cache round trip across chunks: a pixel `q` given by a full-RGBA chunk
/// comes back from an index chunk naming its hash, after any whole chunks
/// `mid` that decode `m` pixels, change not its slot, and leave no run pending.
pub proof fn lemma_cache_round_trip_decoded(
    st: ChunkState,
    q: Pixel,
    mid: Seq<u8>,
    m: nat,
    rest: Seq<u8>,
)
    requires
        st.run == 0,
        st.cache.len() == 64,
        decode_run(produce_cached(st, q), mid, m) is Some,
        (decode_run(produce_cached(st, q), mid, m)->0).2 == mid.len(),
        (decode_run(produce_cached(st, q), mid, m)->0).1.run == 0,
        run_keeps_slot(produce_cached(st, q), mid, m, hash_of(q)),
    ensures
        ({
            let bs = seq![0xffu8, q.r, q.g, q.b, q.a] + mid + seq![hash_of(q) as u8] + rest;
            let run = decode_run(st, bs, m + 2);
            &&& run is Some
            &&& (run->0).0[0] == q
            &&& (run->0).0[m + 1int] == q
        }),
{
    let s1 = produce_cached(st, q);
    let h = hash_of(q);
    let c0 = seq![0xffu8, q.r, q.g, q.b, q.a];
    let (ps, s2, k) = decode_run(s1, mid, m)->0;
    // the first chunk
    lemma_step_rgba(st, seq![q.r, q.g, q.b, q.a]);
    assert(seq![0xffu8] + seq![q.r, q.g, q.b, q.a] =~= c0);
    assert(c0.skip(0) =~= c0);
    assert(decode_run(st, c0, 0) == Some((Seq::<Pixel>::empty(), st, 0nat)));
    assert(Seq::<Pixel>::empty().push(q) =~= seq![q]);
    assert(decodes_to(st, c0, seq![q], s1));
    // the chunks between
    lemma_run_len(s1, mid, m);
    assert(decodes_to(s1, mid, ps, s2));
    lemma_fill_concat(st, c0, seq![q], s1, mid, ps, s2);
    // the slot still holds q
    lemma_slot_kept(s1, mid, m, h, m);
    assert(s1.cache[h] == q);
    assert(s2.cache.len() == 64) by {
        lemma_run_cache_len(s1, mid, m);
    }
    // the index chunk
    let hb = h as u8;
    lemma_step_local(s2, hb, Seq::<u8>::empty());
    assert(seq![hb] + Seq::<u8>::empty() =~= seq![hb]);
    assert(hb % 64 == h);
    let s3 = local_next(s2, hb);
    assert(s3.previous == q);
    assert(seq![hb].skip(0) =~= seq![hb]);
    assert(decode_run(s2, seq![hb], 0) == Some((Seq::<Pixel>::empty(), s2, 0nat)));
    assert(decodes_to(s2, seq![hb], seq![q], s3));
    lemma_fill_concat(st, c0 + mid, seq![q] + ps, s2, seq![hb], seq![q], s3);
    // the rest changes nothing
    let all = c0 + mid + seq![hb];
    let outs = seq![q] + ps + seq![q];
    lemma_run_extend(st, all, rest, outs.len());
    assert(c0 + mid + seq![hb] + rest =~= all + rest);
    assert(outs.len() == m + 2);
    assert(outs[0] == q);
    assert(outs[m + 1int] == q);
}

/// Decoding keeps the cache's length.
proof fn lemma_run_cache_len(st: ChunkState, bs: Seq<u8>, n: nat)
    requires
        st.cache.len() == 64,
        decode_run(st, bs, n) is Some,
    ensures
        (decode_run(st, bs, n)->0).1.cache.len() == 64,
    decreases n,
{
    if n > 0 {
        lemma_run_shorter(st, bs, n, (n - 1) as nat);
        lemma_run_cache_len(st, bs, (n - 1) as nat);
        let (ps, s, k) = decode_run(st, bs, (n - 1) as nat)->0;
        reveal(step);
    }
}

/// Two fills in a row produce what one fill over both their bytes produces:
/// the outputs concatenate and the state carries over.
pub proof fn lemma_fill_concat(
    st: ChunkState,
    chunk1: Seq<u8>,
    out1: Seq<Pixel>,
    mid: ChunkState,
    chunk2: Seq<u8>,
    out2: Seq<Pixel>,
    end: ChunkState,
)
    requires
        decodes_to(st, chunk1, out1, mid),
        decodes_to(mid, chunk2, out2, end),
    ensures
        decodes_to(st, chunk1 + chunk2, out1 + out2, end),
{
    lemma_concat_prefix(st, chunk1, out1, mid, chunk2, out2.len(), out2.len());
    assert(out1 + (decode_run(mid, chunk2, out2.len())->0).0 =~= out1 + out2);
}

/// Two fills in a row over the front of `held` produce the first pixels that
/// decoding `held` as a whole produces, which is what a single allocation over
/// the same bytes holds.
pub proof fn lemma_fills_match_whole(
    st: ChunkState,
    chunk1: Seq<u8>,
    out1: Seq<Pixel>,
    mid: ChunkState,
    chunk2: Seq<u8>,
    out2: Seq<Pixel>,
    end: ChunkState,
    held: Seq<u8>,
)
    requires
        decodes_to(st, chunk1, out1, mid),
        decodes_to(mid, chunk2, out2, end),
        (chunk1 + chunk2).is_prefix_of(held),
    ensures
        decode_run(st, held, out1.len() + out2.len()) == Some(
            (out1 + out2, end, chunk1.len() + chunk2.len()),
        ),
{
    lemma_fill_concat(st, chunk1, out1, mid, chunk2, out2, end);
    let both = chunk1 + chunk2;
    assert(held =~= both + held.skip(both.len() as int));
    lemma_run_extend(st, both, held.skip(both.len() as int), (out1 + out2).len());
}

/// Any number of fills in a row produce what one fill over all their bytes
/// produces: fill `i` starts in `states[i]`, reads `chunks[i]`, yields
/// `outs[i]` and ends in `states[i + 1]`.
pub proof fn lemma_fills_concat_all(
    states: Seq<ChunkState>,
    chunks: Seq<Seq<u8>>,
    outs: Seq<Seq<Pixel>>,
)
    requires
        states.len() == chunks.len() + 1,
        outs.len() == chunks.len(),
        forall|i: int|
            0 <= i < chunks.len() ==> decodes_to(
                #[trigger] states[i],
                chunks[i],
                outs[i],
                states[i + 1],
            ),
    ensures
        decodes_to(states[0], chunks.flatten(), outs.flatten(), states.last()),
    decreases chunks.len(),
{
    if chunks.len() == 0 {
        assert(decode_run(states[0], Seq::<u8>::empty(), 0) == Some(
            (Seq::<Pixel>::empty(), states[0], 0nat),
        ));
    } else {
        let rest_states = states.drop_first();
        assert forall|i: int| 0 <= i < chunks.drop_first().len() implies decodes_to(
            #[trigger] rest_states[i],
            chunks.drop_first()[i],
            outs.drop_first()[i],
            rest_states[i + 1],
        ) by {
            assert(decodes_to(states[i + 1], chunks[i + 1], outs[i + 1], states[i + 2]));
        }
        lemma_fills_concat_all(rest_states, chunks.drop_first(), outs.drop_first());
        assert(decodes_to(states[0], chunks[0], outs[0], states[1]));
        lemma_fill_concat(
            states[0],
            chunks[0],
            outs[0],
            states[1],
            chunks.drop_first().flatten(),
            outs.drop_first().flatten(),
            states.last(),
        );
    }
}

/// Any number of fills in a row over the front of `held` produce the first
/// pixels that decoding `held` as a whole produces, which is what a single
/// allocation over the same bytes holds.
pub proof fn lemma_all_fills_match_whole(
    states: Seq<ChunkState>,
    chunks: Seq<Seq<u8>>,
    outs: Seq<Seq<Pixel>>,
    held: Seq<u8>,
)
    requires
        states.len() == chunks.len() + 1,
        outs.len() == chunks.len(),
        forall|i: int|
            0 <= i < chunks.len() ==> decodes_to(
                #[trigger] states[i],
                chunks[i],
                outs[i],
                states[i + 1],
            ),
        chunks.flatten().is_prefix_of(held),
    ensures
        decode_run(states[0], held, outs.flatten().len()) == Some(
            (outs.flatten(), states.last(), chunks.flatten().len()),
        ),
{
    lemma_fills_concat_all(states, chunks, outs);
    let all = chunks.flatten();
    assert(held =~= all + held.skip(all.len() as int));
    lemma_run_extend(states[0], all, held.skip(all.len() as int), outs.flatten().len());
}

/// The first `n` steps of the second fill, run after the first over the joined
/// bytes.
proof fn lemma_concat_prefix(
    st: ChunkState,
    chunk1: Seq<u8>,
    out1: Seq<Pixel>,
    mid: ChunkState,
    chunk2: Seq<u8>,
    total: nat,
    n: nat,
)
    requires
        decodes_to(st, chunk1, out1, mid),
        decode_run(mid, chunk2, total) is Some,
        n <= total,
    ensures
        decode_run(mid, chunk2, n) is Some,
        ({
            let (ps, s, k) = decode_run(mid, chunk2, n)->0;
            decode_run(st, chunk1 + chunk2, out1.len() + n) == Some(
                (out1 + ps, s, chunk1.len() + k),
            )
        }),
    decreases n,
{
    lemma_run_shorter(mid, chunk2, total, n);
    if n == 0 {
        lemma_run_extend(st, chunk1, chunk2, out1.len());
        assert(out1 + Seq::<Pixel>::empty() =~= out1);
    } else {
        lemma_concat_prefix(st, chunk1, out1, mid, chunk2, total, (n - 1) as nat);
        let (ps, s, k) = decode_run(mid, chunk2, (n - 1) as nat)->0;
        lemma_run_shorter(mid, chunk2, total, (n - 1) as nat);
        lemma_run_shorter(mid, chunk2, n, (n - 1) as nat);
        lemma_run_extend(mid, chunk2, Seq::empty(), (n - 1) as nat);
        assert((chunk1 + chunk2).skip((chunk1.len() + k) as int) =~= chunk2.skip(k as int));
        let (s2, k2) = step(s, chunk2.skip(k as int))->0;
        assert(out1 + ps.push(s2.previous) =~= (out1 + ps).push(s2.previous));
    }
}

} // verus!
