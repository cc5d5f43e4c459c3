use vstd::prelude::*;

use crate::vocab::Vocab;

verus! {

/// Errors of the tokenization engine.
#[derive(Clone, Copy, PartialEq, Eq, Structural, Debug)]
pub enum TokenError {
    /// The segmentation or special-token pattern did not compile.
    InvalidPattern,
    /// The pattern matcher reported a failure while scanning.
    MatchFailed,
    /// A merge unit has no vocabulary entry: the vocabulary is malformed.
    MissingVocabEntry,
    /// A line of a vocabulary table did not parse.
    BadDictLine,
    /// No known model prefix matches the requested model name.
    UnknownModel,
    /// A token count exceeded the supported range.
    Overflow,
}

/// A partition of a piece of `n` bytes into merge units, as a strictly
/// increasing sequence of byte-offset boundaries from `0` to `n`.
pub open spec fn wf_bounds(n: int, bs: Seq<int>) -> bool {
    &&& bs.len() >= 2
    &&& bs[0] == 0
    &&& bs.last() == n
    &&& forall|i: int| 0 <= i < bs.len() - 1 ==> #[trigger] bs[i] < bs[i + 1]
}

/// One unit per byte: boundaries `0, 1, ..., n`.
pub open spec fn init_bounds(n: int) -> Seq<int> {
    Seq::new((n + 1) as nat, |i: int| i)
}

/// The merge rank of the adjacent unit pair `(i, i+1)`: the vocabulary rank
/// of the concatenation of the two units' bytes, if present.
pub open spec fn pair_rank(piece: Seq<u8>, v: Map<Seq<u8>, int>, bs: Seq<int>, i: int) -> Option<
    int,
> {
    let key = piece.subrange(bs[i], bs[i + 2]);
    if v.contains_key(key) {
        Some(v[key])
    } else {
        None
    }
}

/// The leftmost pair with the numerically lowest merge rank among the first
/// `k` pairs, as `(pair index, rank)`. A tie keeps the earlier pair.
pub open spec fn best_pair_upto(
    piece: Seq<u8>,
    v: Map<Seq<u8>, int>,
    bs: Seq<int>,
    k: int,
) -> Option<(int, int)>
    decreases k,
{
    if k <= 0 {
        None
    } else {
        let prev = best_pair_upto(piece, v, bs, k - 1);
        let cur = pair_rank(piece, v, bs, k - 1);
        match (prev, cur) {
            (None, None) => None,
            (None, Some(r)) => Some((k - 1, r)),
            (Some(p), None) => Some(p),
            (Some(p), Some(r)) => if r < p.1 {
                Some((k - 1, r))
            } else {
                Some(p)
            },
        }
    }
}

/// The pair the merge loop selects next, over all `bs.len() - 2` pairs.
pub open spec fn best_pair(piece: Seq<u8>, v: Map<Seq<u8>, int>, bs: Seq<int>) -> Option<
    (int, int),
> {
    best_pair_upto(piece, v, bs, bs.len() - 2)
}

/// Repeatedly merge the selected pair until no pair has a vocabulary rank.
pub open spec fn merge_bounds(piece: Seq<u8>, v: Map<Seq<u8>, int>, bs: Seq<int>) -> Seq<int>
    decreases bs.len(),
{
    match best_pair(piece, v, bs) {
        None => bs,
        Some(p) => if 0 <= p.0 && p.0 + 2 < bs.len() {
            merge_bounds(piece, v, bs.remove(p.0 + 1))
        } else {
            bs
        },
    }
}

/// Emit the rank of every remaining unit from index `i` on; a unit with no
/// vocabulary entry is a fatal vocabulary-integrity error.
pub open spec fn emit_units(piece: Seq<u8>, v: Map<Seq<u8>, int>, bs: Seq<int>, i: int) -> Option<
    Seq<int>,
>
    decreases bs.len() - i,
{
    if i + 1 >= bs.len() {
        Some(Seq::<int>::empty())
    } else {
        let key = piece.subrange(bs[i], bs[i + 1]);
        if v.contains_key(key) {
            match emit_units(piece, v, bs, i + 1) {
                None => None,
                Some(rest) => Some(seq![v[key]] + rest),
            }
        } else {
            None
        }
    }
}

/// The token ranks the byte-pair merge engine produces for one piece, or
/// `None` on a vocabulary-integrity error.
pub open spec fn spec_bpe(piece: Seq<u8>, v: Map<Seq<u8>, int>) -> Option<Seq<int>> {
    if piece.len() == 0 {
        Some(Seq::<int>::empty())
    } else {
        emit_units(piece, v, merge_bounds(piece, v, init_bounds(piece.len() as int)), 0)
    }
}

/// The selected pair is a genuine leftmost minimum: it carries a vocabulary
/// rank, every pair left of it ranks strictly higher or not at all, and no
/// pair ranks strictly lower. This is the leftmost tie-break law of the
/// merge engine.
pub proof fn lemma_best_pair_leftmost(piece: Seq<u8>, v: Map<Seq<u8>, int>, bs: Seq<int>, k: int)
    requires
        best_pair_upto(piece, v, bs, k) matches Some(p),
    ensures
        best_pair_upto(piece, v, bs, k) matches Some(p) ==> {
            &&& 0 <= p.0 < k
            &&& pair_rank(piece, v, bs, p.0) == Some(p.1)
            &&& forall|j: int|
                0 <= j < p.0 ==> (pair_rank(piece, v, bs, j) is None || pair_rank(
                    piece,
                    v,
                    bs,
                    j,
                ).unwrap() > p.1)
            &&& forall|j: int|
                p.0 < j < k ==> (pair_rank(piece, v, bs, j) is None || pair_rank(
                    piece,
                    v,
                    bs,
                    j,
                ).unwrap() >= p.1)
        },
    decreases k,
{
    if k > 0 {
        if best_pair_upto(piece, v, bs, k - 1) is Some {
            lemma_best_pair_leftmost(piece, v, bs, k - 1);
        } else {
            lemma_best_pair_none(piece, v, bs, k - 1);
        }
    }
}

/// When no pair is selected, no pair has a vocabulary rank.
pub proof fn lemma_best_pair_none(piece: Seq<u8>, v: Map<Seq<u8>, int>, bs: Seq<int>, k: int)
    requires
        best_pair_upto(piece, v, bs, k) is None,
    ensures
        forall|j: int| 0 <= j < k ==> pair_rank(piece, v, bs, j) is None,
    decreases k,
{
    if k > 0 {
        lemma_best_pair_none(piece, v, bs, k - 1);
    }
}

/// Boundaries are strictly increasing, so non-adjacent ones are ordered too.
pub proof fn lemma_bounds_increasing(bs: Seq<int>, i: int, j: int)
    requires
        forall|t: int| 0 <= t < bs.len() - 1 ==> #[trigger] bs[t] < bs[t + 1],
        0 <= i <= j < bs.len(),
    ensures
        bs[i] <= bs[j],
        i < j ==> bs[i] < bs[j],
    decreases j - i,
{
    if i < j {
        lemma_bounds_increasing(bs, i, j - 1);
    }
}

/// Removing the shared boundary of a merged pair keeps the partition well
/// formed.
pub proof fn lemma_remove_keeps_wf(n: int, bs: Seq<int>, i: int)
    requires
        wf_bounds(n, bs),
        1 <= i < bs.len() - 1,
    ensures
        wf_bounds(n, bs.remove(i)),
{
    let r = bs.remove(i);
    assert(r.last() == bs.last());
    assert forall|t: int| 0 <= t < r.len() - 1 implies #[trigger] r[t] < r[t + 1] by {
        if t < i - 1 {
            assert(r[t] == bs[t] && r[t + 1] == bs[t + 1]);
        } else if t == i - 1 {
            assert(r[t] == bs[t] && r[t + 1] == bs[t + 2]);
            assert(bs[t] < bs[t + 1] < bs[t + 2]);
        } else {
            assert(r[t] == bs[t + 1] && r[t + 1] == bs[t + 2]);
        }
    }
}

/// One step of the merge loop: merging the selected pair is sound and keeps
/// the partition well formed.
proof fn lemma_merge_step(piece: Seq<u8>, v: Map<Seq<u8>, int>, bs: Seq<int>, n: int, idx: int)
    requires
        wf_bounds(n, bs),
        best_pair(piece, v, bs) matches Some(p) && p.0 == idx,
    ensures
        0 <= idx && idx + 2 < bs.len(),
        merge_bounds(piece, v, bs) == merge_bounds(piece, v, bs.remove(idx + 1)),
        wf_bounds(n, bs.remove(idx + 1)),
{
    lemma_best_pair_leftmost(piece, v, bs, bs.len() - 2);
    lemma_remove_keeps_wf(n, bs, idx + 1);
}

/// The merge loop keeps the partition well formed.
pub proof fn lemma_merge_keeps_wf(piece: Seq<u8>, v: Map<Seq<u8>, int>, bs: Seq<int>, n: int)
    requires
        wf_bounds(n, bs),
    ensures
        wf_bounds(n, merge_bounds(piece, v, bs)),
    decreases bs.len(),
{
    match best_pair(piece, v, bs) {
        None => {},
        Some(p) => {
            if 0 <= p.0 && p.0 + 2 < bs.len() {
                lemma_remove_keeps_wf(n, bs, p.0 + 1);
                lemma_merge_keeps_wf(piece, v, bs.remove(p.0 + 1), n);
            }
        },
    }
}

/// The bytes of the units from index `i` on, concatenated.
pub open spec fn concat_units(piece: Seq<u8>, bs: Seq<int>, i: int) -> Seq<u8>
    decreases bs.len() - i,
{
    if i + 1 >= bs.len() {
        Seq::<u8>::empty()
    } else {
        piece.subrange(bs[i], bs[i + 1]) + concat_units(piece, bs, i + 1)
    }
}

/// A subrange splits at any interior point.
proof fn lemma_subrange_split(s: Seq<u8>, a: int, b: int, c: int)
    requires
        0 <= a <= b <= c <= s.len(),
    ensures
        s.subrange(a, c) == s.subrange(a, b) + s.subrange(b, c),
{
    assert(s.subrange(a, c) =~= s.subrange(a, b) + s.subrange(b, c));
}

/// A well-formed partition's units concatenate back to the whole piece.
pub proof fn lemma_concat_units_all(piece: Seq<u8>, bs: Seq<int>, i: int)
    requires
        wf_bounds(piece.len() as int, bs),
        0 <= i < bs.len(),
    ensures
        concat_units(piece, bs, i) == piece.subrange(bs[i], piece.len() as int),
    decreases bs.len() - i,
{
    let n = piece.len() as int;
    if i + 1 >= bs.len() {
        assert(bs[i] == n);
        assert(concat_units(piece, bs, i) =~= piece.subrange(n, n));
    } else {
        lemma_concat_units_all(piece, bs, i + 1);
        lemma_bounds_increasing(bs, 0, i);
        lemma_bounds_increasing(bs, i + 1, bs.len() - 1);
        lemma_subrange_split(piece, bs[i], bs[i + 1], n);
    }
}

/// No two distinct token byte-strings share a rank.
pub open spec fn vocab_injective(v: Map<Seq<u8>, int>) -> bool {
    forall|k1: Seq<u8>, k2: Seq<u8>|
        v.contains_key(k1) && v.contains_key(k2) && v[k1] == v[k2] ==> k1 == k2
}

/// The byte-string a rank decodes to, for an injective vocabulary.
pub open spec fn rank_bytes(v: Map<Seq<u8>, int>, r: int) -> Seq<u8> {
    choose|k: Seq<u8>| v.contains_key(k) && v[k] == r
}

/// The concatenation of the byte-strings of a rank sequence.
pub open spec fn decode_ranks(v: Map<Seq<u8>, int>, ts: Seq<int>) -> Seq<u8>
    decreases ts.len(),
{
    if ts.len() == 0 {
        Seq::<u8>::empty()
    } else {
        rank_bytes(v, ts[0]) + decode_ranks(v, ts.skip(1))
    }
}

/// Emitted ranks decode back to the bytes of their units.
proof fn lemma_emit_decodes(piece: Seq<u8>, v: Map<Seq<u8>, int>, bs: Seq<int>, i: int)
    requires
        vocab_injective(v),
        0 <= i,
        emit_units(piece, v, bs, i) matches Some(ts),
    ensures
        emit_units(piece, v, bs, i) matches Some(ts) ==> decode_ranks(v, ts) == concat_units(
            piece,
            bs,
            i,
        ),
    decreases bs.len() - i,
{
    let ts = emit_units(piece, v, bs, i).unwrap();
    if i + 1 >= bs.len() {
    } else {
        let key = piece.subrange(bs[i], bs[i + 1]);
        lemma_emit_decodes(piece, v, bs, i + 1);
        let rest = emit_units(piece, v, bs, i + 1).unwrap();
        assert(ts == seq![v[key]] + rest);
        assert(ts[0] == v[key]);
        assert(ts.skip(1) =~= rest);
        assert(rank_bytes(v, v[key]) == key);
    }
}

/// Round trip of the merge engine: when a piece tokenizes, decoding every
/// emitted rank through an injective vocabulary and concatenating the
/// byte-strings reconstructs the piece exactly.
pub proof fn lemma_bpe_round_trip(piece: Seq<u8>, v: Map<Seq<u8>, int>)
    requires
        vocab_injective(v),
        spec_bpe(piece, v) matches Some(ts),
    ensures
        spec_bpe(piece, v) matches Some(ts) ==> decode_ranks(v, ts) == piece,
{
    if piece.len() == 0 {
        assert(decode_ranks(v, Seq::<int>::empty()) =~= piece);
    } else {
        let n = piece.len() as int;
        let bs0 = init_bounds(n);
        assert(wf_bounds(n, bs0));
        lemma_merge_keeps_wf(piece, v, bs0, n);
        let bs = merge_bounds(piece, v, bs0);
        lemma_emit_decodes(piece, v, bs, 0);
        lemma_concat_units_all(piece, bs, 0);
        assert(piece.subrange(0, n) =~= piece);
    }
}

/// Single-byte fallback: a piece of one byte whose single-byte entry exists
/// tokenizes to exactly that entry's rank.
pub proof fn lemma_single_byte_fallback(b: u8, v: Map<Seq<u8>, int>)
    requires
        v.contains_key(seq![b]),
    ensures
        spec_bpe(seq![b], v) == Some(seq![v[seq![b]]]),
{
    let piece = seq![b];
    let bs0 = init_bounds(1);
    assert(bs0.len() == 2);
    assert(best_pair(piece, v, bs0) is None);
    assert(merge_bounds(piece, v, bs0) == bs0);
    assert(piece.subrange(bs0[0], bs0[1]) =~= seq![b]);
    assert(emit_units(piece, v, bs0, 1) == Some(Seq::<int>::empty()));
    assert(emit_units(piece, v, bs0, 0) == Some(seq![v[seq![b]]] + Seq::<int>::empty()));
    assert(seq![v[seq![b]]] + Seq::<int>::empty() =~= seq![v[seq![b]]]);
}

/// Copy the byte range `[start, end)` of a piece.
pub fn sub_bytes(v: &Vec<u8>, start: usize, end: usize) -> (r: Vec<u8>)
    requires
        start <= end <= v@.len(),
    ensures
        r@ == v@.subrange(start as int, end as int),
{
    let mut r: Vec<u8> = Vec::new();
    let mut i: usize = start;
    while i < end
        invariant
            start <= i <= end <= v@.len(),
            r@ == v@.subrange(start as int, i as int),
        decreases end - i,
    {
        r.push(v[i]);
        proof {
            assert(r@ =~= v@.subrange(start as int, i + 1));
        }
        i = i + 1;
    }
    r
}

/// The integer reading of a boundary vector.
pub open spec fn bounds_of(parts: Seq<usize>) -> Seq<int> {
    parts.map_values(|x: usize| x as int)
}

/// Reading boundaries as integers commutes with removing one.
proof fn lemma_bounds_of_remove(s: Seq<usize>, i: int)
    requires
        0 <= i < s.len(),
    ensures
        bounds_of(s.remove(i)) == bounds_of(s).remove(i),
{
    assert(bounds_of(s.remove(i)) =~= bounds_of(s).remove(i));
}

/// Scan all adjacent pairs and return the index of the leftmost pair with
/// the lowest vocabulary rank, if any pair merges at all.
fn find_best_pair(piece: &Vec<u8>, ranks: &Vocab, parts: &Vec<usize>) -> (r: Option<usize>)
    requires
        wf_bounds(piece@.len() as int, bounds_of(parts@)),
    ensures
        match r {
            None => best_pair(piece@, ranks@, bounds_of(parts@)) is None,
            Some(i) => best_pair(piece@, ranks@, bounds_of(parts@)) matches Some(p) && p.0
                == i as int,
        },
{
    let ghost bs = bounds_of(parts@);
    proof {
        assert(bs.len() == parts@.len());
    }
    let npairs = parts.len() - 2;
    let mut best: Option<(usize, isize)> = None;
    let mut j: usize = 0;
    while j < npairs
        invariant
            npairs == parts@.len() - 2,
            npairs + 2 <= usize::MAX,
            bs == bounds_of(parts@),
            wf_bounds(piece@.len() as int, bs),
            j <= npairs,
            match best {
                None => best_pair_upto(piece@, ranks@, bs, j as int) is None,
                Some(b) => best_pair_upto(piece@, ranks@, bs, j as int) == Some(
                    (b.0 as int, b.1 as int),
                ),
            },
        decreases npairs - j,
    {
        proof {
            lemma_bounds_increasing(bs, j as int, j + 2);
            lemma_bounds_increasing(bs, j + 2, bs.len() - 1);
            lemma_bounds_increasing(bs, 0, j as int);
        }
        let key = sub_bytes(piece, parts[j], parts[j + 2]);
        let cur = ranks.lookup(&key);
        proof {
            match cur {
                Some(c) => {
                    assert(pair_rank(piece@, ranks@, bs, j as int) == Some(c as int));
                },
                None => {
                    assert(pair_rank(piece@, ranks@, bs, j as int) is None);
                },
            }
        }
        match cur {
            Some(c) => {
                match best {
                    None => {
                        best = Some((j, c));
                    },
                    Some(b) => {
                        if c < b.1 {
                            best = Some((j, c));
                        }
                    },
                }
            },
            None => {},
        }
        j = j + 1;
    }
    match best {
        Some(b) => Some(b.0),
        None => None,
    }
}

/// The byte-pair merge loop: starting from one unit per byte, merge the
/// leftmost lowest-rank adjacent pair until no pair is in the vocabulary.
/// Returns the final unit boundaries.
#[verifier::rlimit(100)]
pub fn byte_pair_merge(piece: &Vec<u8>, ranks: &Vocab) -> (r: Vec<usize>)
    requires
        piece@.len() >= 1,
    ensures
        bounds_of(r@) == merge_bounds(piece@, ranks@, init_bounds(piece@.len() as int)),
        wf_bounds(piece@.len() as int, bounds_of(r@)),
{
    let n = piece.len();
    let ghost nn = piece@.len() as int;
    let mut parts: Vec<usize> = Vec::new();
    parts.push(0);
    let mut i: usize = 0;
    while i < n
        invariant
            n == piece@.len(),
            i <= n,
            parts@.len() == i + 1,
            forall|t: int| 0 <= t <= i ==> parts@[t] == t,
        decreases n - i,
    {
        i = i + 1;
        parts.push(i);
    }
    proof {
        assert(bounds_of(parts@) =~= init_bounds(nn));
        assert(wf_bounds(nn, bounds_of(parts@)));
    }
    let ghost bs0 = init_bounds(nn);
    loop
        invariant
            n == piece@.len(),
            nn == n as int,
            bs0 == init_bounds(nn),
            wf_bounds(nn, bounds_of(parts@)),
            merge_bounds(piece@, ranks@, bs0) == merge_bounds(piece@, ranks@, bounds_of(parts@)),
        ensures
            wf_bounds(nn, bounds_of(parts@)),
            bounds_of(parts@) == merge_bounds(piece@, ranks@, bs0),
        decreases parts@.len(),
    {
        let ghost bs = bounds_of(parts@);
        match find_best_pair(piece, ranks, &parts) {
            None => {
                proof {
                    assert(merge_bounds(piece@, ranks@, bs) == bs);
                }
                break ;
            },
            Some(idx) => {
                let plen = parts.len();
                proof {
                    lemma_merge_step(piece@, ranks@, bs, nn, idx as int);
                    assert(bs.len() == plen);
                }
                let ghost pre_parts = parts@;
                parts.remove(idx + 1);
                proof {
                    lemma_bounds_of_remove(pre_parts, idx + 1);
                }
            },
        }
    }
    parts
}

/// Tokenize one ordinary piece: run the merge loop, then emit the rank of
/// each remaining unit. A unit with no vocabulary entry is a fatal
/// vocabulary-integrity error, never silently masked.
pub fn byte_pair_encode(piece: &Vec<u8>, ranks: &Vocab) -> (r: Result<Vec<isize>, TokenError>)
    ensures
        match r {
            Ok(toks) => spec_bpe(piece@, ranks@) == Some(
                toks@.map_values(|t: isize| t as int),
            ),
            Err(e) => spec_bpe(piece@, ranks@) is None && e == TokenError::MissingVocabEntry,
        },
{
    if piece.len() == 0 {
        let toks: Vec<isize> = Vec::new();
        proof {
            assert(toks@.map_values(|t: isize| t as int) =~= Seq::<int>::empty());
        }
        return Ok(toks);
    }
    let parts = byte_pair_merge(piece, ranks);
    let ghost bs = bounds_of(parts@);
    let mut toks: Vec<isize> = Vec::new();
    let mut i: usize = 0;
    let nunits = parts.len() - 1;
    while i < nunits
        invariant
            piece@.len() >= 1,
            nunits == parts@.len() - 1,
            bs == bounds_of(parts@),
            bs == merge_bounds(piece@, ranks@, init_bounds(piece@.len() as int)),
            wf_bounds(piece@.len() as int, bs),
            i <= nunits,
            emit_units(piece@, ranks@, bs, 0) == match emit_units(piece@, ranks@, bs, i as int) {
                None => None::<Seq<int>>,
                Some(rest) => Some(toks@.map_values(|t: isize| t as int) + rest),
            },
        decreases nunits - i,
    {
        proof {
            lemma_bounds_increasing(bs, i as int, i + 1);
            lemma_bounds_increasing(bs, i + 1, bs.len() - 1);
            lemma_bounds_increasing(bs, 0, i as int);
        }
        let key = sub_bytes(piece, parts[i], parts[i + 1]);
        let ghost pre = toks@;
        match ranks.lookup(&key) {
            Some(t) => {
                toks.push(t);
                proof {
                    let a = pre.map_values(|x: isize| x as int);
                    assert(toks@.map_values(|x: isize| x as int) =~= a + seq![t as int]);
                    if emit_units(piece@, ranks@, bs, i + 1) is Some {
                        let rest = emit_units(piece@, ranks@, bs, i + 1).unwrap();
                        assert(emit_units(piece@, ranks@, bs, i as int) == Some(
                            seq![t as int] + rest,
                        ));
                        assert(a + (seq![t as int] + rest) =~= (a + seq![t as int]) + rest);
                    } else {
                        assert(emit_units(piece@, ranks@, bs, i as int) is None);
                    }
                }
            },
            None => {
                proof {
                    assert(emit_units(piece@, ranks@, bs, i as int) is None);
                    assert(spec_bpe(piece@, ranks@) is None);
                }
                return Err(TokenError::MissingVocabEntry);
            },
        }
        i = i + 1;
    }
    proof {
        assert(emit_units(piece@, ranks@, bs, nunits as int) == Some(Seq::<int>::empty()));
        assert(toks@.map_values(|t: isize| t as int) + Seq::<int>::empty() =~= toks@.map_values(
            |t: isize| t as int,
        ));
    }
    Ok(toks)
}

} // verus!
