//! Chunk payload compression.
//!
//! Chunks are stored compressed with a byte-wise run-length code: each run of
//! up to 255 equal bytes becomes a `(length, byte)` pair. The code is fully
//! specified (`rle_encode`, `rle_decode`) and decoding an encoding is proved
//! to reproduce the original bytes exactly, which is what reconstruction of
//! an archive from its stored chunks relies on.

use vstd::prelude::*;

verus! {

/// Length of the run of bytes equal to `s[0]` starting at the front of `s`,
/// scanned from index `i`; capped at 255 so the length fits in one byte.
pub open spec fn run_from(s: Seq<u8>, i: int) -> int
    decreases s.len() - i,
{
    if i >= s.len() || i >= 255 || s[i] != s[0] {
        i
    } else {
        run_from(s, i + 1)
    }
}

/// Length of the leading run of equal bytes of a nonempty `s`, capped at 255.
pub open spec fn run_len(s: Seq<u8>) -> int {
    run_from(s, 1)
}

pub proof fn lemma_run_from(s: Seq<u8>, i: int)
    requires
        1 <= i <= s.len(),
        i <= 255,
        forall|j: int| 0 <= j < i ==> #[trigger] s[j] == s[0],
    ensures
        i <= run_from(s, i),
        run_from(s, i) <= s.len(),
        run_from(s, i) <= 255,
        forall|j: int| 0 <= j < run_from(s, i) ==> #[trigger] s[j] == s[0],
    decreases s.len() - i,
{
    if i >= s.len() || i >= 255 || s[i] != s[0] {
    } else {
        lemma_run_from(s, i + 1);
    }
}

/// The leading run of a nonempty sequence has length between 1 and 255 and
/// consists of copies of the first byte.
pub proof fn lemma_run_len(s: Seq<u8>)
    requires
        s.len() > 0,
    ensures
        1 <= run_len(s),
        run_len(s) <= s.len(),
        run_len(s) <= 255,
        forall|j: int| 0 <= j < run_len(s) ==> #[trigger] s[j] == s[0],
{
    lemma_run_from(s, 1);
}

/// The run-length encoding of `s`: a sequence of `(length, byte)` pairs.
pub open spec fn rle_encode(s: Seq<u8>) -> Seq<u8>
    decreases s.len(),
    via rle_encode_decreases
{
    if s.len() == 0 {
        Seq::empty()
    } else {
        seq![run_len(s) as u8, s[0]] + rle_encode(s.skip(run_len(s)))
    }
}

#[via_fn]
proof fn rle_encode_decreases(s: Seq<u8>) {
    if s.len() > 0 {
        lemma_run_len(s);
    }
}

/// The decoding of a run-length code: `None` when the input is malformed
/// (an odd length, or a run of length zero).
pub open spec fn rle_decode(s: Seq<u8>) -> Option<Seq<u8>>
    decreases s.len(),
{
    if s.len() == 0 {
        Some(Seq::empty())
    } else if s.len() == 1 || s[0] == 0 {
        None
    } else {
        match rle_decode(s.skip(2)) {
            None => None,
            Some(rest) => Some(Seq::new(s[0] as nat, |j: int| s[1]) + rest),
        }
    }
}

/// Round trip: decoding an encoding gives back exactly the original bytes.
pub proof fn lemma_rle_round_trip(s: Seq<u8>)
    ensures
        rle_decode(rle_encode(s)) == Some(s),
    decreases s.len(),
{
    if s.len() == 0 {
        assert(s =~= Seq::<u8>::empty());
    } else {
        lemma_run_len(s);
        let r = run_len(s);
        let enc = rle_encode(s);
        lemma_rle_round_trip(s.skip(r));
        assert(enc.skip(2) =~= rle_encode(s.skip(r)));
        assert(enc[0] == r as u8 && enc[1] == s[0]);
        assert(enc[0] as int == r);
        let rest = rle_decode(enc.skip(2)).unwrap();
        assert(rest == s.skip(r));
        assert(Seq::new(enc[0] as nat, |j: int| enc[1]) + rest =~= s);
    }
}

/// Compress a chunk payload with the run-length code.
pub fn compress(data: &Vec<u8>) -> (out: Vec<u8>)
    ensures
        out@ == rle_encode(data@),
{
    let mut out: Vec<u8> = Vec::new();
    let mut pos: usize = 0;
    proof {
        assert(data@.skip(0) =~= data@);
        assert(out@ + rle_encode(data@) =~= rle_encode(data@));
    }
    while pos < data.len()
        invariant
            pos <= data.len(),
            rle_encode(data@) == out@ + rle_encode(data@.skip(pos as int)),
        decreases data.len() - pos,
    {
        let ghost sub = data@.skip(pos as int);
        let b = data[pos];
        let mut i: usize = pos + 1;
        while i < data.len() && i - pos < 255 && data[i] == b
            invariant
                pos < i <= data.len() || i - pos <= 255,
                pos < i,
                i <= data.len(),
                i - pos <= 255,
                sub == data@.skip(pos as int),
                sub[0] == b,
                run_from(sub, 1) == run_from(sub, i - pos),
            decreases data.len() - i,
        {
            proof {
                let j = i - pos;
                assert(sub[j] == data@[i as int]);
                assert(run_from(sub, j) == run_from(sub, j + 1));
            }
            i = i + 1;
        }
        proof {
            let j = i - pos;
            assert(j >= sub.len() || j >= 255 || sub[j] != sub[0]);
            assert(run_from(sub, j) == j);
            assert(run_len(sub) == i - pos);
            assert(rle_encode(sub) == seq![(i - pos) as u8, sub[0]] + rle_encode(
                sub.skip((i - pos) as int),
            ));
            assert(sub.skip((i - pos) as int) =~= data@.skip(i as int));
        }
        let ghost out0 = out@;
        out.push((i - pos) as u8);
        out.push(b);
        proof {
            assert(out@ =~= out0 + seq![(i - pos) as u8, b]);
            assert((out0 + seq![(i - pos) as u8, b]) + rle_encode(data@.skip(i as int)) =~= out0
                + (seq![(i - pos) as u8, b] + rle_encode(data@.skip(i as int))));
            assert(rle_encode(data@) == out@ + rle_encode(data@.skip(i as int)));
        }
        pos = i;
    }
    proof {
        assert(data@.skip(pos as int) =~= Seq::<u8>::empty());
        assert(rle_encode(data@.skip(pos as int)) =~= Seq::<u8>::empty());
        assert(out@ + Seq::<u8>::empty() =~= out@);
    }
    out
}

/// Decompress a stored chunk payload; `None` when the bytes are malformed.
pub fn decompress(data: &Vec<u8>) -> (out: Option<Vec<u8>>)
    ensures
        (out is Some) == (rle_decode(data@) is Some),
        out matches Some(v) ==> rle_decode(data@) == Some(v@),
{
    let mut out: Vec<u8> = Vec::new();
    let mut pos: usize = 0;
    proof {
        assert(data@.skip(0) =~= data@);
        if rle_decode(data@) is Some {
            assert(out@ + rle_decode(data@).unwrap() =~= rle_decode(data@).unwrap());
        }
    }
    while pos < data.len()
        invariant
            pos <= data.len(),
            (rle_decode(data@) is Some) == (rle_decode(data@.skip(pos as int)) is Some),
            rle_decode(data@) is Some ==> rle_decode(data@) == Some(
                out@ + rle_decode(data@.skip(pos as int)).unwrap(),
            ),
        decreases data.len() - pos,
    {
        let ghost sub = data@.skip(pos as int);
        if data.len() - pos == 1 {
            proof {
                assert(sub.len() == 1);
                assert(rle_decode(sub) is None);
            }
            return None;
        }
        let cnt = data[pos];
        let b = data[pos + 1];
        proof {
            assert(sub[0] == cnt && sub[1] == b);
        }
        if cnt == 0 {
            proof {
                assert(rle_decode(sub) is None);
            }
            return None;
        }
        let ghost out0 = out@;
        let mut k: usize = 0;
        while k < cnt as usize
            invariant
                k <= cnt as usize,
                out@ == out0 + Seq::new(k as nat, |j: int| b),
            decreases cnt as usize - k,
        {
            out.push(b);
            proof {
                assert(out0 + Seq::new((k + 1) as nat, |j: int| b) =~= (out0 + Seq::new(
                    k as nat,
                    |j: int| b,
                )).push(b));
            }
            k = k + 1;
        }
        proof {
            assert(sub.skip(2) =~= data@.skip(pos + 2));
            assert(rle_decode(sub) == match rle_decode(sub.skip(2)) {
                None => None::<Seq<u8>>,
                Some(rest) => Some(Seq::new(cnt as nat, |j: int| b) + rest),
            });
            if rle_decode(sub.skip(2)) is Some {
                let rest = rle_decode(sub.skip(2)).unwrap();
                assert(out@ + rest =~= out0 + (Seq::new(cnt as nat, |j: int| b) + rest));
            }
        }
        pos = pos + 2;
    }
    proof {
        assert(data@.skip(pos as int) =~= Seq::<u8>::empty());
        if rle_decode(data@) is Some {
            assert(out@ + rle_decode(data@.skip(pos as int)).unwrap() =~= out@);
        }
    }
    Some(out)
}

} // verus!
