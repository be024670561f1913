//! Content-defined chunking.
//!
//! An archive byte stream is split into variable-length chunks whose
//! boundaries are chosen by a rolling window over the content itself (the
//! sum of the last `WINDOW` bytes hitting a fixed residue), not by fixed
//! offsets, so identical leading content produces identical chunks. Every
//! chunk is between 1 and `MAX_CHUNK` bytes and the chunks concatenate back
//! to the input exactly.

use vstd::prelude::*;

verus! {

/// Smallest length at which a content boundary is considered.
pub const MIN_CHUNK: usize = 4;

/// Largest chunk length; a cut is forced here.
pub const MAX_CHUNK: usize = 64;

/// A boundary after `i` bytes of `s`: the sum of the window of the four
/// bytes before position `i` has residue 7 modulo 8.
pub open spec fn is_boundary(s: Seq<u8>, i: int) -> bool {
    (s[i - 4] + s[i - 3] + s[i - 2] + s[i - 1]) % 8 == 7
}

/// First boundary position at or after `i`, capped at the end of `s` and at
/// `MAX_CHUNK`.
pub open spec fn scan(s: Seq<u8>, i: int) -> int
    decreases MAX_CHUNK as int - i,
{
    if i >= s.len() || i >= MAX_CHUNK {
        if s.len() < MAX_CHUNK {
            s.len() as int
        } else {
            MAX_CHUNK as int
        }
    } else if is_boundary(s, i) {
        i
    } else {
        scan(s, i + 1)
    }
}

/// Length of the first chunk of a stream `s`.
pub open spec fn cut_len(s: Seq<u8>) -> int {
    if s.len() <= MIN_CHUNK {
        s.len() as int
    } else {
        scan(s, MIN_CHUNK as int)
    }
}

pub proof fn lemma_scan_bounds(s: Seq<u8>, i: int)
    requires
        1 <= i <= MAX_CHUNK,
        s.len() > 0,
    ensures
        1 <= scan(s, i),
        scan(s, i) <= s.len(),
        scan(s, i) <= MAX_CHUNK,
    decreases MAX_CHUNK as int - i,
{
    if i >= s.len() || i >= MAX_CHUNK {
    } else if is_boundary(s, i) {
    } else {
        lemma_scan_bounds(s, i + 1);
    }
}

/// The first chunk of a nonempty stream has between 1 and `MAX_CHUNK` bytes.
pub proof fn lemma_cut_len(s: Seq<u8>)
    requires
        s.len() > 0,
    ensures
        1 <= cut_len(s),
        cut_len(s) <= s.len(),
        cut_len(s) <= MAX_CHUNK,
{
    if s.len() > MIN_CHUNK {
        lemma_scan_bounds(s, MIN_CHUNK as int);
    }
}

/// The chunks of an archive stream, in order.
pub open spec fn chunks_of(s: Seq<u8>) -> Seq<Seq<u8>>
    decreases s.len(),
    via chunks_of_decreases
{
    if s.len() == 0 {
        Seq::empty()
    } else {
        seq![s.take(cut_len(s))] + chunks_of(s.skip(cut_len(s)))
    }
}

#[via_fn]
proof fn chunks_of_decreases(s: Seq<u8>) {
    if s.len() > 0 {
        lemma_cut_len(s);
    }
}

/// The chunks of a stream concatenate back to the stream itself.
pub proof fn lemma_chunks_concat(s: Seq<u8>)
    ensures
        chunks_of(s).flatten() == s,
    decreases s.len(),
{
    if s.len() == 0 {
        assert(chunks_of(s).flatten() =~= s);
    } else {
        lemma_cut_len(s);
        let c = cut_len(s);
        lemma_chunks_concat(s.skip(c));
        let parts = chunks_of(s);
        assert(parts == seq![s.take(c)] + chunks_of(s.skip(c)));
        assert(parts.first() == s.take(c));
        assert(parts.drop_first() =~= chunks_of(s.skip(c)));
        assert(parts.flatten() == s.take(c) + chunks_of(s.skip(c)).flatten());
        assert(s.take(c) + s.skip(c) =~= s);
    }
}

/// Every chunk of a stream is nonempty and at most `MAX_CHUNK` bytes.
pub proof fn lemma_chunks_sizes(s: Seq<u8>)
    ensures
        forall|i: int|
            0 <= i < chunks_of(s).len() ==> 1 <= #[trigger] chunks_of(s)[i].len() <= MAX_CHUNK,
    decreases s.len(),
{
    if s.len() > 0 {
        lemma_cut_len(s);
        lemma_chunks_sizes(s.skip(cut_len(s)));
        assert forall|i: int| 0 <= i < chunks_of(s).len() implies 1 <= #[trigger] chunks_of(
            s,
        )[i].len() <= MAX_CHUNK by {
            if i > 0 {
                assert(chunks_of(s)[i] == chunks_of(s.skip(cut_len(s)))[i - 1]);
            }
        }
    }
}

/// Whether the rolling window ending `i` bytes into the stream suffix that
/// starts at `pos` hits the boundary residue.
fn window_hit(data: &Vec<u8>, pos: usize, i: usize) -> (r: bool)
    requires
        4 <= i,
        pos + i <= data.len(),
    ensures
        r == is_boundary(data@.skip(pos as int), i as int),
{
    let w = data[pos + i - 4] as u32 + data[pos + i - 3] as u32 + data[pos + i - 2] as u32
        + data[pos + i - 1] as u32;
    proof {
        let sub = data@.skip(pos as int);
        assert(sub[i - 4] == data@[pos + i - 4] && sub[i - 3] == data@[pos + i - 3] && sub[i - 2]
            == data@[pos + i - 2] && sub[i - 1] == data@[pos + i - 1]);
    }
    w % 8 == 7
}

/// The views of a vector of chunk buffers.
pub open spec fn views_of(v: Seq<Vec<u8>>) -> Seq<Seq<u8>> {
    v.map_values(|c: Vec<u8>| c@)
}

/// Split an archive stream into its content-defined chunks.
pub fn split_chunks(data: &Vec<u8>) -> (out: Vec<Vec<u8>>)
    ensures
        views_of(out@) == chunks_of(data@),
{
    let mut out: Vec<Vec<u8>> = Vec::new();
    let mut pos: usize = 0;
    proof {
        assert(data@.skip(0) =~= data@);
        assert(views_of(out@) + chunks_of(data@) =~= chunks_of(data@));
    }
    while pos < data.len()
        invariant
            pos <= data.len(),
            chunks_of(data@) == views_of(out@) + chunks_of(data@.skip(pos as int)),
        decreases data.len() - pos,
    {
        let ghost sub = data@.skip(pos as int);
        let remaining = data.len() - pos;
        let mut cut: usize;
        if remaining <= MIN_CHUNK {
            cut = remaining;
        } else {
            let bound = if remaining < MAX_CHUNK {
                remaining
            } else {
                MAX_CHUNK
            };
            let mut i: usize = MIN_CHUNK;
            while i < bound && !window_hit(data, pos, i)
                invariant
                    MIN_CHUNK <= i <= bound,
                    bound <= remaining,
                    bound <= MAX_CHUNK,
                    remaining == data.len() - pos,
                    pos + remaining <= data.len(),
                    remaining > MIN_CHUNK,
                    (bound == remaining && remaining < MAX_CHUNK) || (bound == MAX_CHUNK
                        && remaining >= MAX_CHUNK),
                    sub == data@.skip(pos as int),
                    scan(sub, MIN_CHUNK as int) == scan(sub, i as int),
                decreases bound - i,
            {
                proof {
                    assert(!is_boundary(sub, i as int));
                    assert(scan(sub, i as int) == scan(sub, i + 1));
                }
                i = i + 1;
            }
            proof {
                if i == bound {
                    assert(i >= sub.len() || i >= MAX_CHUNK);
                    assert(scan(sub, i as int) == cut_len(sub));
                } else {
                    assert(is_boundary(sub, i as int));
                    assert(scan(sub, i as int) == i);
                }
                assert(cut_len(sub) == i as int || cut_len(sub) == scan(sub, i as int));
            }
            cut = i;
        }
        proof {
            assert(cut_len(sub) == cut as int);
            lemma_cut_len(sub);
        }
        let mut chunk: Vec<u8> = Vec::new();
        let mut k: usize = 0;
        while k < cut
            invariant
                k <= cut,
                pos + cut <= data.len(),
                chunk@ == data@.subrange(pos as int, pos + k),
            decreases cut - k,
        {
            chunk.push(data[pos + k]);
            proof {
                assert(data@.subrange(pos as int, pos + k + 1) =~= data@.subrange(
                    pos as int,
                    pos + k,
                ).push(data@[pos + k]));
            }
            k = k + 1;
        }
        proof {
            assert(chunk@ =~= sub.take(cut as int));
            assert(chunks_of(sub) == seq![sub.take(cut as int)] + chunks_of(
                sub.skip(cut as int),
            ));
            assert(sub.skip(cut as int) =~= data@.skip(pos + cut));
        }
        let ghost out0 = out@;
        out.push(chunk);
        proof {
            assert(views_of(out@) =~= views_of(out0).push(sub.take(cut as int)));
            assert(views_of(out0).push(sub.take(cut as int)) + chunks_of(data@.skip(pos + cut))
                =~= views_of(out0) + chunks_of(sub));
            assert(chunks_of(data@) == views_of(out@) + chunks_of(data@.skip(pos + cut)));
        }
        pos = pos + cut;
    }
    proof {
        assert(data@.skip(pos as int) =~= Seq::<u8>::empty());
        assert(views_of(out@) + chunks_of(data@.skip(pos as int)) =~= views_of(out@));
    }
    out
}

} // verus!
