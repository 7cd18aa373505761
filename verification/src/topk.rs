//! Bounded top-k selection under the IEEE-754 total order.
//!
//! A score is carried as the bit pattern of an `f32`. Numbers are ranked by
//! [`total_key`], the integer that orders bit patterns exactly as
//! `f32::total_cmp` orders the floats they encode; a NaN score of either
//! sign ranks after every number, in the smallest-first and in the
//! largest-first order alike, so it never displaces a number from a top-k.
//! Ties keep input order.

use vstd::prelude::*;

verus! {

/// A candidate result: an external vector ID paired with the bit pattern of
/// its `f32` distance or similarity score.
#[derive(Debug, Clone, Copy, PartialEq, Eq, Structural)]
pub struct ScoredId {
    pub id: u64,
    pub score_bits: u32,
}

/// The position of an `f32` bit pattern in the total order of `f32::total_cmp`:
/// non-negative floats keep their bit value, negative ones are reflected below
/// zero (this is the integer transformation std documents for `total_cmp`).
pub open spec fn total_key(bits: u32) -> int {
    if bits < 0x8000_0000u32 {
        bits as int
    } else {
        0x7fff_ffff - bits as int
    }
}

/// The bit pattern encodes a NaN (of either sign).
pub open spec fn is_nan_bits(b: u32) -> bool {
    b % 0x8000_0000 > 0x7f80_0000
}

/// The rank of a score in the smallest-first order: its total-order key,
/// and for a NaN a key above every number's.
pub open spec fn rank_key(bits: u32) -> int {
    if is_nan_bits(bits) {
        0x8000_0000
    } else {
        total_key(bits)
    }
}

/// The rank of a score in the largest-first order: its total-order key,
/// and for a NaN a key below every number's.
pub open spec fn desc_rank_key(bits: u32) -> int {
    if is_nan_bits(bits) {
        -0x8000_0001
    } else {
        total_key(bits)
    }
}

/// The bit pattern of the negated float (the sign bit flipped).
pub open spec fn negated_bits(bits: u32) -> u32 {
    if bits < 0x8000_0000u32 {
        (bits + 0x8000_0000u32) as u32
    } else {
        (bits - 0x8000_0000u32) as u32
    }
}

/// The rank key of a candidate in the smallest-first order.
pub open spec fn key_of(s: ScoredId) -> int {
    rank_key(s.score_bits)
}

/// The rank key of a candidate in the largest-first order.
pub open spec fn desc_key_of(s: ScoredId) -> int {
    desc_rank_key(s.score_bits)
}

/// Candidate `i` comes before candidate `j`: a smaller key, or an equal key
/// and an earlier position.
pub open spec fn precedes(c: Seq<ScoredId>, i: int, j: int) -> bool {
    key_of(c[i]) < key_of(c[j]) || (key_of(c[i]) == key_of(c[j]) && i < j)
}

/// Candidate `i` comes before candidate `j` in descending order: a greater
/// key, or an equal key and an earlier position.
pub open spec fn precedes_desc(c: Seq<ScoredId>, i: int, j: int) -> bool {
    desc_key_of(c[i]) > desc_key_of(c[j]) || (desc_key_of(c[i]) == desc_key_of(c[j]) && i < j)
}

/// `r` lists, in order, the `min(k, n)` first candidates among the first `n`
/// of `c` under [`precedes`], and `p` gives their positions in `c`.
pub open spec fn is_top_k(c: Seq<ScoredId>, n: int, k: nat, r: Seq<ScoredId>, p: Seq<int>) -> bool {
    &&& p.len() == r.len()
    &&& r.len() == (if k < n { k as int } else { n })
    &&& forall|t: int| 0 <= t < p.len() ==> 0 <= #[trigger] p[t] < n && r[t] == c[p[t]]
    &&& forall|t: int, u: int|
        0 <= t < u < p.len() ==> precedes(c, #[trigger] p[t], #[trigger] p[u])
    &&& forall|j: int|
        #![trigger p.contains(j)]
        0 <= j < n && !p.contains(j) && p.len() > 0 ==> precedes(c, p.last(), j)
}

/// `r` lists, in order, the `min(k, n)` candidates of greatest score among
/// the first `n` of `c` under [`precedes_desc`], and `p` gives their positions.
pub open spec fn is_top_k_desc(c: Seq<ScoredId>, n: int, k: nat, r: Seq<ScoredId>, p: Seq<int>) -> bool {
    &&& p.len() == r.len()
    &&& r.len() == (if k < n { k as int } else { n })
    &&& forall|t: int| 0 <= t < p.len() ==> 0 <= #[trigger] p[t] < n && r[t] == c[p[t]]
    &&& forall|t: int, u: int|
        0 <= t < u < p.len() ==> precedes_desc(c, #[trigger] p[t], #[trigger] p[u])
    &&& forall|j: int|
        #![trigger p.contains(j)]
        0 <= j < n && !p.contains(j) && p.len() > 0 ==> precedes_desc(c, p.last(), j)
}

/// The key of `bits` in the order selected by `total`: `f32::total_cmp`
/// itself, or that order with every NaN last.
pub open spec fn order_key(total: bool, bits: u32) -> int {
    if total {
        total_key(bits)
    } else {
        rank_key(bits)
    }
}

/// The key of a candidate in the order selected by `total`.
pub open spec fn key_in(total: bool, s: ScoredId) -> int {
    order_key(total, s.score_bits)
}

/// Candidate `i` comes before candidate `j` in the order selected by
/// `total`: a smaller key, or an equal key and an earlier position.
pub open spec fn precedes_in(total: bool, c: Seq<ScoredId>, i: int, j: int) -> bool {
    key_in(total, c[i]) < key_in(total, c[j]) || (key_in(total, c[i]) == key_in(total, c[j]) && i < j)
}

/// [`is_top_k`] in the order selected by `total`.
pub open spec fn is_top_k_in(total: bool, c: Seq<ScoredId>, n: int, k: nat, r: Seq<ScoredId>, p: Seq<int>) -> bool {
    &&& p.len() == r.len()
    &&& r.len() == (if k < n { k as int } else { n })
    &&& forall|t: int| 0 <= t < p.len() ==> 0 <= #[trigger] p[t] < n && r[t] == c[p[t]]
    &&& forall|t: int, u: int|
        0 <= t < u < p.len() ==> precedes_in(total, c, #[trigger] p[t], #[trigger] p[u])
    &&& forall|j: int|
        #![trigger p.contains(j)]
        0 <= j < n && !p.contains(j) && p.len() > 0 ==> precedes_in(total, c, p.last(), j)
}

/// `r` lists, in order, the `min(k, n)` first candidates among the first `n`
/// of `c` under `f32::total_cmp` (ties by position), and `p` gives their
/// positions in `c`.
pub open spec fn is_top_k_total(c: Seq<ScoredId>, n: int, k: nat, r: Seq<ScoredId>, p: Seq<int>) -> bool {
    is_top_k_in(true, c, n, k, r, p)
}

/// The NaN-last order is the one [`is_top_k`] ranks by.
proof fn lemma_top_k_in_rank(c: Seq<ScoredId>, n: int, k: nat, r: Seq<ScoredId>, p: Seq<int>)
    requires
        is_top_k_in(false, c, n, k, r, p),
    ensures
        is_top_k(c, n, k, r, p),
{
    assert forall|t: int, u: int| 0 <= t < u < p.len() implies precedes(c, #[trigger] p[t], #[trigger] p[u]) by {
        assert(precedes_in(false, c, p[t], p[u]));
    }
    assert forall|j: int| 0 <= j < n && !p.contains(j) && p.len() > 0 implies #[trigger] precedes(c, p.last(), j) by {
        assert(p.contains(j) == p.contains(j));
        assert(precedes_in(false, c, p.last(), j));
    }
}

/// The key of `bits` in the order selected by `total`.
pub fn order_key_of(total: bool, bits: u32) -> (k: i64)
    ensures
        k == order_key(total, bits),
{
    if total {
        total_key_of(bits)
    } else {
        rank_key_of(bits)
    }
}

/// The candidates with their scores negated.
pub open spec fn negate_all(c: Seq<ScoredId>) -> Seq<ScoredId> {
    c.map_values(|s: ScoredId| ScoredId { id: s.id, score_bits: negated_bits(s.score_bits) })
}

/// The integer key of `bits` under the total order.
pub fn total_key_of(bits: u32) -> (k: i64)
    ensures
        k == total_key(bits),
{
    if bits < 0x8000_0000u32 {
        bits as i64
    } else {
        0x7fff_ffffi64 - bits as i64
    }
}

/// The smallest-first rank key of `bits`.
pub fn rank_key_of(bits: u32) -> (k: i64)
    ensures
        k == rank_key(bits),
{
    if bits % 0x8000_0000u32 > 0x7f80_0000u32 {
        0x8000_0000i64
    } else {
        total_key_of(bits)
    }
}

/// Flip the sign of an `f32` bit pattern.
pub fn negate_bits(bits: u32) -> (r: u32)
    ensures
        r == negated_bits(bits),
        total_key(r) == -1 - total_key(bits),
        negated_bits(r) == bits,
{
    if bits < 0x8000_0000u32 {
        bits + 0x8000_0000u32
    } else {
        bits - 0x8000_0000u32
    }
}

proof fn lemma_insert_contains(s: Seq<int>, pos: int, x: int, y: int)
    requires
        0 <= pos <= s.len(),
    ensures
        s.insert(pos, x).contains(x),
        s.contains(y) ==> s.insert(pos, x).contains(y),
        s.insert(pos, x).contains(y) && y != x ==> s.contains(y),
{
    s.insert_ensures(pos, x);
    assert(s.insert(pos, x)[pos] == x);
    if s.contains(y) {
        let t = choose|t: int| 0 <= t < s.len() && s[t] == y;
        if t < pos {
            assert(s.insert(pos, x)[t] == y);
        } else {
            assert(s.insert(pos, x)[t + 1] == y);
        }
    }
    if s.insert(pos, x).contains(y) && y != x {
        let t = choose|t: int| 0 <= t < s.len() + 1 && s.insert(pos, x)[t] == y;
        if t < pos {
            assert(s[t] == y);
        } else {
            assert(t != pos);
            assert(s[t - 1] == y);
        }
    }
}

proof fn lemma_drop_last_contains(s: Seq<int>, y: int)
    requires
        s.len() > 0,
    ensures
        s.contains(y) && y != s.last() ==> s.drop_last().contains(y),
        s.drop_last().contains(y) ==> s.contains(y),
{
    if s.contains(y) && y != s.last() {
        let t = choose|t: int| 0 <= t < s.len() && s[t] == y;
        assert(s.drop_last()[t] == y);
    }
    if s.drop_last().contains(y) {
        let t = choose|t: int| 0 <= t < s.len() - 1 && s.drop_last()[t] == y;
        assert(s[t] == y);
    }
}

/// Position at which a candidate of key `ck` goes in the sorted buffer: after
/// every entry of key at most `ck`, before every entry of greater key.
fn find_slot(buf: &Vec<ScoredId>, ck: i64, total: bool) -> (pos: usize)
    requires
        forall|t: int, u: int|
            0 <= t < u < buf@.len() ==> key_in(total, #[trigger] buf@[t]) <= key_in(total, #[trigger] buf@[u]),
    ensures
        pos <= buf@.len(),
        forall|t: int| 0 <= t < pos ==> key_in(total, #[trigger] buf@[t]) <= ck,
        forall|t: int| pos <= t < buf@.len() ==> key_in(total, #[trigger] buf@[t]) > ck,
{
    let mut pos: usize = 0;
    while pos < buf.len() && order_key_of(total, buf[pos].score_bits) <= ck
        invariant
            pos <= buf@.len(),
            forall|t: int| 0 <= t < pos ==> key_in(total, #[trigger] buf@[t]) <= ck,
        decreases buf@.len() - pos,
    {
        pos = pos + 1;
    }
    if pos < buf.len() {
        assert forall|t: int| pos <= t < buf@.len() implies key_in(total, #[trigger] buf@[t]) > ck by {
            if t > pos {
                assert(key_in(total, buf@[pos as int]) <= key_in(total, buf@[t]));
            }
        }
    }
    pos
}

/// The `k` first candidates under the order of [`order_key`] (`total`
/// selects the plain `f32::total_cmp` order), earlier candidates first
/// among equal keys.
fn select_smallest(candidates: &[ScoredId], k: usize, total: bool) -> (result: Vec<ScoredId>)
    ensures
        exists|p: Seq<int>| is_top_k_in(total, candidates@, candidates@.len() as int, k as nat, result@, p),
{
    let ghost c = candidates@;
    let mut buf: Vec<ScoredId> = Vec::new();
    let ghost mut p: Seq<int> = Seq::empty();
    if k == 0 {
        assert(is_top_k_in(total, c, c.len() as int, k as nat, buf@, p));
        return buf;
    }
    let n = candidates.len();
    let mut i: usize = 0;
    while i < n
        invariant
            0 <= i <= n,
            n == c.len(),
            c == candidates@,
            k > 0,
            is_top_k_in(total, c, i as int, k as nat, buf@, p),
            i <= k ==> forall|j: int| 0 <= j < i ==> #[trigger] p.contains(j),
        decreases n - i,
    {
        let cand = candidates[i];
        let ck = order_key_of(total, cand.score_bits);
        let ghost old_p = p;
        let ghost old_buf = buf@;
        assert forall|t: int, u: int| 0 <= t < u < buf@.len() implies key_in(total, #[trigger] buf@[t])
            <= key_in(total, #[trigger] buf@[u]) by {
            assert(precedes_in(total, c, p[t], p[u]));
        }
        if buf.len() < k {
            let pos = find_slot(&buf, ck, total);
            buf.insert(pos, cand);
            proof {
                p = old_p.insert(pos as int, i as int);
                old_p.insert_ensures(pos as int, i as int);
                assert(old_p.len() == i);
                assert forall|t: int, u: int| 0 <= t < u < p.len() implies precedes_in(total, 
                    c,
                    #[trigger] p[t],
                    #[trigger] p[u],
                ) by {
                    if u < pos {
                    } else if u == pos {
                        assert(key_in(total, old_buf[t]) <= ck);
                    } else if t < pos {
                        assert(precedes_in(total, c, old_p[t], old_p[u - 1]));
                    } else if t == pos {
                        assert(key_in(total, old_buf[u - 1]) > ck);
                    } else {
                        assert(precedes_in(total, c, old_p[t - 1], old_p[u - 1]));
                    }
                }
                assert forall|j: int| 0 <= j < i + 1 implies #[trigger] p.contains(j) by {
                    lemma_insert_contains(old_p, pos as int, i as int, j);
                }
                assert forall|t: int| 0 <= t < p.len() implies 0 <= #[trigger] p[t] < i + 1
                    && buf@[t] == c[p[t]] by {
                    if t > pos {
                        assert(p[t] == old_p[t - 1]);
                    }
                }
            }
        } else {
            let last_key = order_key_of(total, buf[buf.len() - 1].score_bits);
            if ck < last_key {
                buf.pop();
                proof {
                    p = old_p.drop_last();
                }
                let ghost mid_p = p;
                let ghost mid_buf = buf@;
                let pos = find_slot(&buf, ck, total);
                buf.insert(pos, cand);
                proof {
                    let e = old_p.last();
                    p = mid_p.insert(pos as int, i as int);
                    mid_p.insert_ensures(pos as int, i as int);
                    assert forall|t: int, u: int| 0 <= t < u < p.len() implies precedes_in(total, 
                        c,
                        #[trigger] p[t],
                        #[trigger] p[u],
                    ) by {
                        if u < pos {
                            assert(precedes_in(total, c, old_p[t], old_p[u]));
                        } else if u == pos {
                            assert(key_in(total, mid_buf[t]) <= ck);
                        } else if t < pos {
                            assert(precedes_in(total, c, old_p[t], old_p[u - 1]));
                        } else if t == pos {
                            assert(key_in(total, mid_buf[u - 1]) > ck);
                        } else {
                            assert(precedes_in(total, c, old_p[t - 1], old_p[u - 1]));
                        }
                    }
                    assert forall|t: int| 0 <= t < p.len() implies 0 <= #[trigger] p[t] < i + 1
                        && buf@[t] == c[p[t]] by {
                        if t > pos {
                            assert(p[t] == mid_p[t - 1]);
                        }
                    }
                    assert(precedes_in(total, c, p.last(), e)) by {
                        if pos as int == p.len() - 1 {
                            assert(p.last() == i);
                        } else {
                            assert(p.last() == mid_p.last());
                            assert(precedes_in(total, c, old_p[old_p.len() - 2], old_p[old_p.len() - 1]));
                        }
                    }
                    assert forall|j: int|
                        0 <= j < i + 1 && !p.contains(j) && p.len() > 0 implies precedes_in(total, 
                        c,
                        p.last(),
                        j,
                    ) by {
                        lemma_insert_contains(mid_p, pos as int, i as int, j);
                        lemma_drop_last_contains(old_p, j);
                        if j != e {
                            assert(!old_p.contains(j));
                            assert(precedes_in(total, c, e, j));
                        }
                    }
                }
            } else {
                proof {
                    assert(precedes_in(total, c, p.last(), i as int));
                    assert forall|j: int|
                        0 <= j < i + 1 && !p.contains(j) && p.len() > 0 implies precedes_in(total, 
                        c,
                        p.last(),
                        j,
                    ) by {
                        if j < i {
                        }
                    }
                }
            }
        }
        i = i + 1;
    }
    buf
}

/// Return the `k` candidates with the **smallest** scores, sorted ascending
/// under the total order of `f32` with every NaN last; among equal scores the
/// earlier candidate comes first and is kept.
///
/// `k == 0` or no candidates give an empty result; `k >= candidates.len()`
/// gives every candidate, sorted.
pub fn top_k_smallest(candidates: &[ScoredId], k: usize) -> (result: Vec<ScoredId>)
    ensures
        exists|p: Seq<int>| is_top_k(candidates@, candidates@.len() as int, k as nat, result@, p),
{
    let result = select_smallest(candidates, k, false);
    proof {
        let p = choose|p: Seq<int>| is_top_k_in(false, candidates@, candidates@.len() as int, k as nat, result@, p);
        lemma_top_k_in_rank(candidates@, candidates@.len() as int, k as nat, result@, p);
    }
    result
}

/// The `k` candidates of smallest score, ascending under `f32::total_cmp`
/// itself (a NaN with the sign bit set comes before every number, one
/// without it after); among equal scores the earlier candidate comes first.
pub(crate) fn top_k_total(candidates: &[ScoredId], k: usize) -> (result: Vec<ScoredId>)
    ensures
        exists|p: Seq<int>| is_top_k_total(candidates@, candidates@.len() as int, k as nat, result@, p),
{
    let result = select_smallest(candidates, k, true);
    proof {
        let p = choose|p: Seq<int>| is_top_k_in(true, candidates@, candidates@.len() as int, k as nat, result@, p);
        assert(is_top_k_total(candidates@, candidates@.len() as int, k as nat, result@, p));
    }
    result
}


fn negate_scores(c: &[ScoredId]) -> (out: Vec<ScoredId>)
    ensures
        out@ == negate_all(c@),
{
    let mut out: Vec<ScoredId> = Vec::new();
    let mut i: usize = 0;
    while i < c.len()
        invariant
            i <= c@.len(),
            out@ =~= negate_all(c@).subrange(0, i as int),
        decreases c@.len() - i,
    {
        let s = c[i];
        out.push(ScoredId { id: s.id, score_bits: negate_bits(s.score_bits) });
        i = i + 1;
    }
    assert(out@ =~= negate_all(c@));
    out
}

/// Return the `k` candidates with the **largest** scores, sorted descending
/// under the total order of `f32`; among equal scores the earlier candidate
/// comes first and is kept.
pub fn top_k_largest(candidates: &[ScoredId], k: usize) -> (result: Vec<ScoredId>)
    ensures
        exists|p: Seq<int>|
            is_top_k_desc(candidates@, candidates@.len() as int, k as nat, result@, p),
{
    let ghost c = candidates@;
    let negated = negate_scores(candidates);
    let ghost nc = negated@;
    let mut results = top_k_smallest(negated.as_slice(), k);
    let ghost r0 = results@;
    let ghost p = choose|p: Seq<int>| is_top_k(nc, nc.len() as int, k as nat, r0, p);
    let mut i: usize = 0;
    while i < results.len()
        invariant
            i <= results@.len(),
            results@.len() == r0.len(),
            forall|t: int| 0 <= t < i ==> #[trigger] results@[t] == (ScoredId {
                id: r0[t].id,
                score_bits: negated_bits(r0[t].score_bits),
            }),
            forall|t: int| i <= t < results@.len() ==> #[trigger] results@[t] == r0[t],
        decreases results@.len() - i,
    {
        let s = results[i];
        results.set(i, ScoredId { id: s.id, score_bits: negate_bits(s.score_bits) });
        i = i + 1;
    }
    proof {
        assert forall|a: int, b: int| 0 <= a < c.len() && 0 <= b < c.len() implies (
        precedes(nc, a, b) <==> precedes_desc(c, a, b)) by {
            assert(nc[a].score_bits == negated_bits(c[a].score_bits));
            assert(nc[b].score_bits == negated_bits(c[b].score_bits));
            negate_key(c[a].score_bits);
            negate_key(c[b].score_bits);
        }
        assert forall|t: int| 0 <= t < p.len() implies 0 <= #[trigger] p[t] < c.len()
            && results@[t] == c[p[t]] by {
            negate_key(c[p[t]].score_bits);
        }
        assert forall|t: int, u: int| 0 <= t < u < p.len() implies precedes_desc(
            c,
            #[trigger] p[t],
            #[trigger] p[u],
        ) by {
            assert(precedes(nc, p[t], p[u]));
        }
        assert(is_top_k_desc(c, c.len() as int, k as nat, results@, p));
    }
    results
}

proof fn negate_key(bits: u32)
    ensures
        total_key(negated_bits(bits)) == -1 - total_key(bits),
        negated_bits(negated_bits(bits)) == bits,
        is_nan_bits(negated_bits(bits)) == is_nan_bits(bits),
        rank_key(negated_bits(bits)) == -1 - desc_rank_key(bits),
{
}

/// Positions `p` are the first `p.len()` of `[0, n)` under the strict order
/// `before`: in range, in order, and before every position left out.
pub open spec fn selects_first(n: int, before: spec_fn(int, int) -> bool, p: Seq<int>) -> bool {
    &&& forall|t: int| 0 <= t < p.len() ==> 0 <= #[trigger] p[t] < n
    &&& forall|t: int, u: int| 0 <= t < u < p.len() ==> before(#[trigger] p[t], #[trigger] p[u])
    &&& forall|j: int|
        #![trigger p.contains(j)]
        0 <= j < n && !p.contains(j) && p.len() > 0 ==> before(p.last(), j)
}

/// `before` is a strict total order on `[0, n)`.
pub open spec fn strict_total_on(n: int, before: spec_fn(int, int) -> bool) -> bool {
    &&& forall|i: int, j: int| 0 <= i < n && 0 <= j < n && i != j ==> #[trigger] before(i, j) || before(j, i)
    &&& forall|i: int, j: int| #[trigger] before(i, j) ==> !before(j, i)
    &&& forall|i: int, j: int, l: int| #[trigger] before(i, j) && #[trigger] before(j, l) ==> before(i, l)
}

/// Two selections of first positions under one strict total order agree on
/// their common length.
proof fn lemma_selects_first_agree(n: int, before: spec_fn(int, int) -> bool, p: Seq<int>, q: Seq<int>)
    requires
        strict_total_on(n, before),
        selects_first(n, before, p),
        selects_first(n, before, q),
        p.len() <= q.len(),
    ensures
        p == q.take(p.len() as int),
{
    assert forall|t: int| 0 <= t < p.len() implies #[trigger] p[t] == q[t] by {
        lemma_selects_first_at(n, before, p, q, t);
    }
    assert(p =~= q.take(p.len() as int));
}

/// Induction step of `lemma_selects_first_agree`: position `t` agrees when
/// all earlier ones do.
proof fn lemma_selects_first_at(n: int, before: spec_fn(int, int) -> bool, p: Seq<int>, q: Seq<int>, t: int)
    requires
        strict_total_on(n, before),
        selects_first(n, before, p),
        selects_first(n, before, q),
        p.len() <= q.len(),
        0 <= t < p.len(),
    ensures
        p[t] == q[t],
    decreases t,
{
    if t > 0 {
        lemma_selects_first_at(n, before, p, q, t - 1);
    }
    assert forall|s: int| 0 <= s < t implies p[s] == q[s] by {
        lemma_selects_first_at(n, before, p, q, s);
    }
    let x = p[t];
    let y = q[t];
    if x != y {
        if before(x, y) {
            if q.contains(x) {
                let u = choose|u: int| 0 <= u < q.len() && q[u] == x;
                if u < t {
                    assert(p[u] == q[u]);
                    assert(before(p[u], p[t]));
                } else {
                    assert(u != t);
                    assert(before(q[t], q[u]));
                }
            } else {
                assert(before(q.last(), x));
                if q.len() - 1 != t {
                    assert(before(q[t], q[q.len() - 1]));
                }
            }
        } else {
            assert(before(y, x));
            if p.contains(y) {
                let u = choose|u: int| 0 <= u < p.len() && p[u] == y;
                if u < t {
                    assert(p[u] == q[u]);
                    assert(before(q[u], q[t]));
                } else {
                    assert(u != t);
                    assert(before(p[t], p[u]));
                }
            } else {
                assert(before(p.last(), y));
                if p.len() - 1 != t {
                    assert(before(p[t], p[p.len() - 1]));
                }
            }
        }
    }
}

/// `precedes` is a strict total order on the positions of `c`.
proof fn lemma_precedes_order(c: Seq<ScoredId>, n: int)
    ensures
        strict_total_on(n, |i: int, j: int| precedes(c, i, j)),
        strict_total_on(n, |i: int, j: int| precedes_desc(c, i, j)),
{
}

/// The top `k` candidates are the first `k` of the top `k2` for any larger
/// `k2`: raising `k` only appends.
pub proof fn lemma_top_k_prefix(c: Seq<ScoredId>, n: int, k: nat, r: Seq<ScoredId>, p: Seq<int>, k2: nat, r2: Seq<ScoredId>, p2: Seq<int>)
    requires
        is_top_k(c, n, k, r, p),
        is_top_k(c, n, k2, r2, p2),
        k <= k2,
    ensures
        r == r2.take(r.len() as int),
{
    let before = |i: int, j: int| precedes(c, i, j);
    lemma_precedes_order(c, n);
    assert(selects_first(n, before, p));
    assert(selects_first(n, before, p2));
    lemma_selects_first_agree(n, before, p, p2);
    assert forall|t: int| 0 <= t < r.len() implies r[t] == r2[t] by {
        assert(p[t] == p2.take(p.len() as int)[t]);
    }
    assert(r =~= r2.take(r.len() as int));
}

/// The same for the descending order of `top_k_largest`.
pub proof fn lemma_top_k_desc_prefix(c: Seq<ScoredId>, n: int, k: nat, r: Seq<ScoredId>, p: Seq<int>, k2: nat, r2: Seq<ScoredId>, p2: Seq<int>)
    requires
        is_top_k_desc(c, n, k, r, p),
        is_top_k_desc(c, n, k2, r2, p2),
        k <= k2,
    ensures
        r == r2.take(r.len() as int),
{
    let before = |i: int, j: int| precedes_desc(c, i, j);
    lemma_precedes_order(c, n);
    assert(selects_first(n, before, p));
    assert(selects_first(n, before, p2));
    lemma_selects_first_agree(n, before, p, p2);
    assert forall|t: int| 0 <= t < r.len() implies r[t] == r2[t] by {
        assert(p[t] == p2.take(p.len() as int)[t]);
    }
    assert(r =~= r2.take(r.len() as int));
}

} // verus!
