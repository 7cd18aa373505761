//! The greedy search of one HNSW layer, as a state machine.
//!
//! The search keeps a set of candidates to expand and the closest nodes
//! found so far (at most `ef`). Each round expands the nearest candidate:
//! its unvisited neighbors are scored by the caller (a distance is a float
//! computation) and handed back, and the search decides, from the bit
//! patterns of the distances alone, which of them to keep. The search stops
//! when no candidate is left, or when the nearest candidate is farther than
//! the worst of a full set of closest nodes.

use vstd::prelude::*;
use crate::topk::{ScoredId, is_nan_bits, is_top_k_total, key_in, total_key, total_key_of, top_k_total};

verus! {

/// The bit pattern encodes a zero of either sign.
pub open spec fn is_zero_bits(b: u32) -> bool {
    b % 0x8000_0000 == 0
}

/// IEEE-754 `a < b` for the floats that the bit patterns encode: false when
/// either is a NaN, false between two zeros, and otherwise the total order
/// (which orders all other values as the reals they denote).
pub open spec fn f32_lt(a: u32, b: u32) -> bool {
    !is_nan_bits(a) && !is_nan_bits(b) && !(is_zero_bits(a) && is_zero_bits(b)) && total_key(a) < total_key(b)
}

/// `a < b` for the floats that the bit patterns encode.
pub fn f32_less(a: u32, b: u32) -> (r: bool)
    ensures
        r == f32_lt(a, b),
{
    let am = if a >= 0x8000_0000 { a - 0x8000_0000 } else { a };
    let bm = if b >= 0x8000_0000 { b - 0x8000_0000 } else { b };
    if am > 0x7f80_0000 || bm > 0x7f80_0000 {
        return false;
    }
    if am == 0 && bm == 0 {
        return false;
    }
    total_key_of(a) < total_key_of(b)
}

/// The position of the first entry of least key among the first `n`.
pub open spec fn min_pos(s: Seq<ScoredId>, n: int) -> int
    decreases n,
{
    if n <= 1 {
        0
    } else if key_in(true, s[n - 1]) < key_in(true, s[min_pos(s, n - 1)]) {
        n - 1
    } else {
        min_pos(s, n - 1)
    }
}

/// The position of the first entry of greatest key among the first `n`.
pub open spec fn max_pos(s: Seq<ScoredId>, n: int) -> int
    decreases n,
{
    if n <= 1 {
        0
    } else if key_in(true, s[n - 1]) > key_in(true, s[max_pos(s, n - 1)]) {
        n - 1
    } else {
        max_pos(s, n - 1)
    }
}

/// `min_pos` names a position of least key.
pub proof fn lemma_min_pos(s: Seq<ScoredId>, n: int)
    requires
        1 <= n <= s.len(),
    ensures
        0 <= min_pos(s, n) < n,
        forall|j: int| 0 <= j < n ==> key_in(true, s[min_pos(s, n)]) <= key_in(true, #[trigger] s[j]),
    decreases n,
{
    if n > 1 {
        lemma_min_pos(s, n - 1);
    }
}

/// `max_pos` names a position of greatest key.
pub proof fn lemma_max_pos(s: Seq<ScoredId>, n: int)
    requires
        1 <= n <= s.len(),
    ensures
        0 <= max_pos(s, n) < n,
        forall|j: int| 0 <= j < n ==> key_in(true, #[trigger] s[j]) <= key_in(true, s[max_pos(s, n)]),
    decreases n,
{
    if n > 1 {
        lemma_max_pos(s, n - 1);
    }
}

/// The position of the first entry of least key.
fn find_min(s: &Vec<ScoredId>) -> (i: usize)
    requires
        s@.len() > 0,
    ensures
        i == min_pos(s@, s@.len() as int),
{
    let mut best: usize = 0;
    let mut best_key = total_key_of(s[0].score_bits);
    let mut j: usize = 1;
    while j < s.len()
        invariant
            1 <= j <= s@.len(),
            best == min_pos(s@, j as int),
            best < s@.len(),
            best_key == key_in(true, s@[best as int]),
        decreases s@.len() - j,
    {
        let k = total_key_of(s[j].score_bits);
        if k < best_key {
            best = j;
            best_key = k;
        }
        j = j + 1;
    }
    best
}

/// The position of the first entry of greatest key.
fn find_max(s: &Vec<ScoredId>) -> (i: usize)
    requires
        s@.len() > 0,
    ensures
        i == max_pos(s@, s@.len() as int),
{
    let mut best: usize = 0;
    let mut best_key = total_key_of(s[0].score_bits);
    let mut j: usize = 1;
    while j < s.len()
        invariant
            1 <= j <= s@.len(),
            best == max_pos(s@, j as int),
            best < s@.len(),
            best_key == key_in(true, s@[best as int]),
        decreases s@.len() - j,
    {
        let k = total_key_of(s[j].score_bits);
        if k > best_key {
            best = j;
            best_key = k;
        }
        j = j + 1;
    }
    best
}

/// The closest set after an entry joins: when it then holds more than `ef`
/// entries, the first of greatest key leaves.
pub open spec fn trimmed(b: Seq<ScoredId>, ef: nat) -> Seq<ScoredId> {
    if b.len() > ef {
        b.remove(max_pos(b, b.len() as int))
    } else {
        b
    }
}

/// An explored node joins when the closest set is not full, or when it is
/// nearer than the worst entry of the set.
pub open spec fn joins(b: Seq<ScoredId>, x: ScoredId, ef: nat) -> bool {
    b.len() < ef || (b.len() > 0 && f32_lt(x.score_bits, b[max_pos(b, b.len() as int)].score_bits))
}

/// An explored node joins the closest set exactly when the set has room or
/// the node is nearer than the farthest entry of the set (any entry that no
/// other entry lies beyond).
pub proof fn lemma_joins_beats_worst(b: Seq<ScoredId>, x: ScoredId, ef: nat, w: int)
    requires
        0 <= w < b.len(),
        forall|j: int| 0 <= j < b.len() ==> total_key(#[trigger] b[j].score_bits) <= total_key(b[w].score_bits),
    ensures
        joins(b, x, ef) <==> (b.len() < ef || f32_lt(x.score_bits, b[w].score_bits)),
{
    lemma_max_pos(b, b.len() as int);
    let m = max_pos(b, b.len() as int);
    assert(total_key(b[m].score_bits) == total_key(b[w].score_bits));
    assert(b[m].score_bits == b[w].score_bits);
}

/// When the closest set holds more than `ef` entries, trimming drops one
/// entry, and one that no kept entry lies beyond; otherwise it keeps the set.
pub proof fn lemma_trimmed_drops_worst(b: Seq<ScoredId>, ef: nat)
    ensures
        b.len() <= ef ==> trimmed(b, ef) == b,
        b.len() > ef ==> exists|r: int|
            0 <= r < b.len() && trimmed(b, ef) == b.remove(r) && forall|j: int|
                0 <= j < b.len() ==> total_key(#[trigger] b[j].score_bits) <= total_key(b[r].score_bits),
{
    if b.len() > ef {
        lemma_max_pos(b, b.len() as int);
        let r = max_pos(b, b.len() as int);
        assert forall|j: int| 0 <= j < b.len() implies total_key(#[trigger] b[j].score_bits) <= total_key(
            b[r].score_bits,
        ) by {
            assert(key_in(true, b[j]) <= key_in(true, b[r]));
        }
        assert(trimmed(b, ef) == b.remove(r));
        assert(0 <= r < b.len() && trimmed(b, ef) == b.remove(r) && forall|j: int|
            0 <= j < b.len() ==> total_key(#[trigger] b[j].score_bits) <= total_key(b[r].score_bits));
    }
}

/// Node `nodes[i]` at the distance whose bit pattern is `dists[i]`.
pub open spec fn scored_nodes(nodes: Seq<usize>, dists: Seq<u32>) -> Seq<ScoredId> {
    Seq::new(nodes.len(), |i: int| ScoredId { id: nodes[i] as u64, score_bits: dists[i] })
}

/// Candidates and closest set after seeding with the entry points `xs`:
/// each becomes a candidate and joins the closest set.
pub open spec fn seeded(c: Seq<ScoredId>, b: Seq<ScoredId>, xs: Seq<ScoredId>, ef: nat) -> (Seq<ScoredId>, Seq<ScoredId>)
    decreases xs.len(),
{
    if xs.len() == 0 {
        (c, b)
    } else {
        let p = seeded(c, b, xs.drop_last(), ef);
        (p.0.push(xs.last()), trimmed(p.1.push(xs.last()), ef))
    }
}

/// Candidates and closest set after exploring the nodes `xs`, in order: a
/// node that `joins` becomes a candidate and enters the closest set.
pub open spec fn absorbed(c: Seq<ScoredId>, b: Seq<ScoredId>, xs: Seq<ScoredId>, ef: nat) -> (Seq<ScoredId>, Seq<ScoredId>)
    decreases xs.len(),
{
    if xs.len() == 0 {
        (c, b)
    } else {
        let p = absorbed(c, b, xs.drop_last(), ef);
        let x = xs.last();
        if joins(p.1, x, ef) {
            (p.0.push(x), trimmed(p.1.push(x), ef))
        } else {
            p
        }
    }
}

/// The entry points below `n`, each at its first occurrence, among the
/// first `k`.
pub open spec fn first_in_range(eps: Seq<usize>, n: nat, k: int) -> Seq<usize>
    decreases k,
{
    if k <= 0 {
        Seq::empty()
    } else {
        let p = first_in_range(eps, n, k - 1);
        if eps[k - 1] < n && !p.contains(eps[k - 1]) {
            p.push(eps[k - 1])
        } else {
            p
        }
    }
}

/// The neighbors among the first `k` that are in range and not yet visited,
/// each at its first occurrence, and the visited marks after marking them.
pub open spec fn fresh(nbrs: Seq<u32>, visited: Seq<bool>, k: int) -> (Seq<usize>, Seq<bool>)
    decreases k,
{
    if k <= 0 {
        (Seq::empty(), visited)
    } else {
        let p = fresh(nbrs, visited, k - 1);
        let n = nbrs[k - 1] as int;
        if n < p.1.len() && !p.1[n] {
            (p.0.push(n as usize), p.1.update(n, true))
        } else {
            p
        }
    }
}

/// The number of unvisited nodes.
pub open spec fn unvisited_count(v: Seq<bool>) -> nat
    decreases v.len(),
{
    if v.len() == 0 {
        0
    } else {
        unvisited_count(v.drop_last()) + (if v.last() { 0nat } else { 1nat })
    }
}

/// Marking an unvisited node lowers the count by one.
proof fn lemma_unvisited_mark(v: Seq<bool>, n: int)
    requires
        0 <= n < v.len(),
        !v[n],
    ensures
        unvisited_count(v.update(n, true)) + 1 == unvisited_count(v),
    decreases v.len(),
{
    if n < v.len() - 1 {
        lemma_unvisited_mark(v.drop_last(), n);
        assert(v.update(n, true).drop_last() =~= v.drop_last().update(n, true));
    } else {
        assert(v.update(n, true).drop_last() =~= v.drop_last());
    }
}

/// The state of a layer search.
pub struct LayerSearch {
    /// The size of the closest set.
    pub ef: usize,
    /// Scored nodes whose neighbors are yet to be explored.
    pub candidates: Vec<ScoredId>,
    /// The closest nodes found so far.
    pub best: Vec<ScoredId>,
    /// `visited[v]`: node `v` has been scored.
    pub visited: Vec<bool>,
    /// The search has stopped.
    pub done: bool,
}

impl LayerSearch {
    /// The closest set holds at most `ef` entries, every entry is a visited
    /// node, and a running search has a positive `ef`.
    pub open spec fn wf(&self) -> bool {
        &&& self.best@.len() <= self.ef
        &&& !self.done ==> self.ef > 0
        &&& forall|i: int|
            0 <= i < self.candidates@.len() ==> (#[trigger] self.candidates@[i]).id < self.visited@.len()
                && self.visited@[self.candidates@[i].id as int]
        &&& forall|i: int|
            0 <= i < self.best@.len() ==> (#[trigger] self.best@[i]).id < self.visited@.len()
                && self.visited@[self.best@[i].id as int]
    }

    /// Work left: candidates to expand and nodes never scored.
    pub open spec fn pending(&self) -> nat {
        self.candidates@.len() + unvisited_count(self.visited@)
    }

    /// Start a search of a graph of `num_nodes` nodes from `entry_points`
    /// keeping `ef` closest nodes; returns the entry points to score (those
    /// in range, each once). A search with `ef` zero, an empty graph or no
    /// entry point has nothing to do.
    pub fn begin(num_nodes: usize, entry_points: &[usize], ef: usize) -> (res: (LayerSearch, Vec<usize>))
        ensures
            res.0.wf(),
            res.0.ef == ef,
            res.0.visited@.len() == num_nodes,
            res.0.candidates@.len() == 0,
            res.0.best@.len() == 0,
            res.0.done == (ef == 0 || num_nodes == 0 || entry_points@.len() == 0),
            res.0.done ==> res.1@.len() == 0,
            !res.0.done ==> res.1@ == first_in_range(entry_points@, num_nodes as nat, entry_points@.len() as int),
            forall|v: int| 0 <= v < num_nodes ==> (res.0.visited@[v] <==> res.1@.contains(v as usize)),
    {
        let mut visited: Vec<bool> = Vec::new();
        let mut n: usize = 0;
        while n < num_nodes
            invariant
                n <= num_nodes,
                visited@.len() == n,
                forall|v: int| 0 <= v < n ==> !visited@[v],
            decreases num_nodes - n,
        {
            visited.push(false);
            n = n + 1;
        }
        let mut out: Vec<usize> = Vec::new();
        let done = ef == 0 || num_nodes == 0 || entry_points.len() == 0;
        if !done {
            let mut i: usize = 0;
            while i < entry_points.len()
                invariant
                    i <= entry_points@.len(),
                    visited@.len() == num_nodes,
                    out@ == first_in_range(entry_points@, num_nodes as nat, i as int),
                    forall|v: int| 0 <= v < num_nodes ==> (visited@[v] <==> out@.contains(v as usize)),
                    forall|t: int| 0 <= t < out@.len() ==> (#[trigger] out@[t]) < num_nodes,
                decreases entry_points@.len() - i,
            {
                let e = entry_points[i];
                if e < num_nodes && !visited[e] {
                    proof {
                        assert(!out@.contains(e));
                    }
                    visited.set(e, true);
                    proof {
                        assert forall|v: int| 0 <= v < num_nodes implies (visited@[v] <==> out@.push(e).contains(
                            v as usize,
                        )) by {
                            if v == e as int {
                                assert(out@.push(e)[out@.len() as int] == e);
                            } else if out@.contains(v as usize) {
                                let t = choose|t: int| 0 <= t < out@.len() && out@[t] == v as usize;
                                assert(out@.push(e)[t] == v as usize);
                            } else if out@.push(e).contains(v as usize) {
                                let t = choose|t: int| 0 <= t < out@.len() + 1 && out@.push(e)[t] == v as usize;
                                assert(t < out@.len());
                                assert(out@[t] == v as usize);
                            }
                        }
                    }
                    out.push(e);
                } else {
                    proof {
                        if e < num_nodes {
                            assert(out@.contains(e));
                        }
                    }
                }
                i = i + 1;
            }
        }
        let search = LayerSearch { ef, candidates: Vec::new(), best: Vec::new(), visited, done };
        (search, out)
    }

    /// Add `x` to the closest set, dropping the worst entry when it then
    /// holds more than `ef`.
    fn keep(&mut self, x: ScoredId)
        requires
            old(self).best@.len() <= old(self).ef,
        ensures
            final(self).best@ == trimmed(old(self).best@.push(x), old(self).ef as nat),
            final(self).best@.len() <= final(self).ef,
            forall|i: int|
                0 <= i < final(self).best@.len() ==> #[trigger] final(self).best@[i] == x || old(self).best@.contains(
                    final(self).best@[i],
                ),
            final(self).ef == old(self).ef,
            final(self).candidates@ == old(self).candidates@,
            final(self).visited@ == old(self).visited@,
            final(self).done == old(self).done,
    {
        let ghost b0 = self.best@;
        self.best.push(x);
        if self.best.len() > self.ef {
            let w = find_max(&self.best);
            proof {
                lemma_max_pos(self.best@, self.best@.len() as int);
            }
            let ghost b1 = self.best@;
            self.best.remove(w);
            proof {
                assert forall|i: int| 0 <= i < self.best@.len() implies #[trigger] self.best@[i] == x
                    || b0.contains(self.best@[i]) by {
                    let j = if i < w { i } else { i + 1 };
                    assert(self.best@[i] == b1[j]);
                    if j < b0.len() {
                        assert(b0[j] == b1[j]);
                    }
                }
            }
        } else {
            proof {
                assert forall|i: int| 0 <= i < self.best@.len() implies #[trigger] self.best@[i] == x
                    || b0.contains(self.best@[i]) by {
                    if i < b0.len() {
                        assert(b0[i] == self.best@[i]);
                    }
                }
            }
        }
    }
    /// Seed the search with the scored entry points: each becomes a
    /// candidate and joins the closest set.
    pub fn seed(&mut self, nodes: &[usize], dists: &[u32])
        requires
            old(self).wf(),
            nodes@.len() == dists@.len(),
            forall|i: int|
                0 <= i < nodes@.len() ==> (#[trigger] nodes@[i]) < old(self).visited@.len()
                    && old(self).visited@[nodes@[i] as int],
        ensures
            final(self).wf(),
            final(self).ef == old(self).ef,
            final(self).visited@ == old(self).visited@,
            final(self).done == old(self).done,
            (final(self).candidates@, final(self).best@) == seeded(
                old(self).candidates@,
                old(self).best@,
                scored_nodes(nodes@, dists@),
                old(self).ef as nat,
            ),
    {
        let ghost xs = scored_nodes(nodes@, dists@);
        let ghost c0 = self.candidates@;
        let ghost b0 = self.best@;
        let mut i: usize = 0;
        while i < nodes.len()
            invariant
                self.wf(),
                i <= nodes@.len(),
                nodes@.len() == dists@.len(),
                xs == scored_nodes(nodes@, dists@),
                self.ef == old(self).ef,
                self.visited@ == old(self).visited@,
                self.done == old(self).done,
                forall|t: int|
                    0 <= t < nodes@.len() ==> (#[trigger] nodes@[t]) < self.visited@.len()
                        && self.visited@[nodes@[t] as int],
                (self.candidates@, self.best@) == seeded(c0, b0, xs.take(i as int), self.ef as nat),
            decreases nodes@.len() - i,
        {
            let x = ScoredId { id: nodes[i] as u64, score_bits: dists[i] };
            proof {
                assert(xs.take(i as int + 1).drop_last() =~= xs.take(i as int));
                assert(xs.take(i as int + 1).last() == x);
            }
            self.candidates.push(x);
            self.keep(x);
            i = i + 1;
        }
        proof {
            assert(xs.take(nodes@.len() as int) =~= xs);
        }
    }

    /// Explore the scored neighbors of the expanded node, in order: a node
    /// is taken when the closest set is not full or it is nearer than the
    /// worst entry; then it becomes a candidate and joins the closest set.
    pub fn absorb(&mut self, nodes: &[usize], dists: &[u32])
        requires
            old(self).wf(),
            nodes@.len() == dists@.len(),
            forall|i: int|
                0 <= i < nodes@.len() ==> (#[trigger] nodes@[i]) < old(self).visited@.len()
                    && old(self).visited@[nodes@[i] as int],
        ensures
            final(self).wf(),
            final(self).ef == old(self).ef,
            final(self).visited@ == old(self).visited@,
            final(self).done == old(self).done,
            (final(self).candidates@, final(self).best@) == absorbed(
                old(self).candidates@,
                old(self).best@,
                scored_nodes(nodes@, dists@),
                old(self).ef as nat,
            ),
            final(self).candidates@.len() <= old(self).candidates@.len() + nodes@.len(),
            final(self).pending() <= old(self).pending() + nodes@.len(),
    {
        let ghost xs = scored_nodes(nodes@, dists@);
        let ghost c0 = self.candidates@;
        let ghost b0 = self.best@;
        let mut i: usize = 0;
        while i < nodes.len()
            invariant
                self.wf(),
                i <= nodes@.len(),
                nodes@.len() == dists@.len(),
                xs == scored_nodes(nodes@, dists@),
                self.ef == old(self).ef,
                self.visited@ == old(self).visited@,
                self.done == old(self).done,
                c0 == old(self).candidates@,
                forall|t: int|
                    0 <= t < nodes@.len() ==> (#[trigger] nodes@[t]) < self.visited@.len()
                        && self.visited@[nodes@[t] as int],
                (self.candidates@, self.best@) == absorbed(c0, b0, xs.take(i as int), self.ef as nat),
                self.candidates@.len() <= c0.len() + i,
            decreases nodes@.len() - i,
        {
            let x = ScoredId { id: nodes[i] as u64, score_bits: dists[i] };
            proof {
                assert(xs.take(i as int + 1).drop_last() =~= xs.take(i as int));
                assert(xs.take(i as int + 1).last() == x);
            }
            let take = if self.best.len() < self.ef {
                true
            } else if self.best.len() == 0 {
                false
            } else {
                let w = find_max(&self.best);
                proof {
                    lemma_max_pos(self.best@, self.best@.len() as int);
                }
                f32_less(x.score_bits, self.best[w].score_bits)
            };
            if take {
                self.candidates.push(x);
                self.keep(x);
            }
            i = i + 1;
        }
        proof {
            assert(xs.take(nodes@.len() as int) =~= xs);
        }
    }

    /// Pick the next node to expand: the nearest candidate leaves the
    /// candidates; the search stops instead when no candidate is left, or
    /// when the closest set is full and the nearest candidate is farther
    /// than its worst entry.
    pub fn next_node(&mut self) -> (r: Option<usize>)
        requires
            old(self).wf(),
        ensures
            final(self).wf(),
            final(self).ef == old(self).ef,
            final(self).visited@ == old(self).visited@,
            final(self).best@ == old(self).best@,
            old(self).done || old(self).candidates@.len() == 0 ==> r is None && final(self).done
                && final(self).candidates@ == old(self).candidates@,
            !old(self).done && old(self).candidates@.len() > 0 ==> ({
                let i = min_pos(old(self).candidates@, old(self).candidates@.len() as int);
                let c = old(self).candidates@[i];
                &&& final(self).candidates@ == old(self).candidates@.remove(i)
                &&& if old(self).best@.len() >= old(self).ef && f32_lt(
                    old(self).best@[max_pos(old(self).best@, old(self).best@.len() as int)].score_bits,
                    c.score_bits,
                ) {
                    r is None && final(self).done
                } else {
                    r == Some(c.id as usize) && !final(self).done && c.id < final(self).visited@.len()
                }
            }),
            r is Some ==> final(self).pending() + 1 == old(self).pending(),
    {
        if self.done || self.candidates.len() == 0 {
            self.done = true;
            return None;
        }
        let i = find_min(&self.candidates);
        proof {
            lemma_min_pos(self.candidates@, self.candidates@.len() as int);
        }
        let c = self.candidates.remove(i);
        if self.best.len() >= self.ef {
            let w = find_max(&self.best);
            proof {
                lemma_max_pos(self.best@, self.best@.len() as int);
            }
            if f32_less(self.best[w].score_bits, c.score_bits) {
                self.done = true;
                return None;
            }
        }
        Some(c.id as usize)
    }

    /// The neighbors of the expanded node that are in range and not yet
    /// visited, each once and in order; they are marked visited and are to
    /// be scored.
    pub fn unvisited(&mut self, nbrs: &[u32]) -> (out: Vec<usize>)
        requires
            old(self).wf(),
        ensures
            final(self).wf(),
            final(self).ef == old(self).ef,
            final(self).candidates@ == old(self).candidates@,
            final(self).best@ == old(self).best@,
            final(self).done == old(self).done,
            (out@, final(self).visited@) == fresh(nbrs@, old(self).visited@, nbrs@.len() as int),
            forall|i: int|
                0 <= i < out@.len() ==> (#[trigger] out@[i]) < final(self).visited@.len()
                    && final(self).visited@[out@[i] as int],
            final(self).pending() + out@.len() == old(self).pending(),
    {
        let ghost v0 = self.visited@;
        let mut out: Vec<usize> = Vec::new();
        let mut i: usize = 0;
        while i < nbrs.len()
            invariant
                i <= nbrs@.len(),
                self.ef == old(self).ef,
                self.candidates@ == old(self).candidates@,
                self.best@ == old(self).best@,
                self.done == old(self).done,
                v0 == old(self).visited@,
                self.visited@.len() == v0.len(),
                (out@, self.visited@) == fresh(nbrs@, v0, i as int),
                forall|t: int| 0 <= t < v0.len() && v0[t] ==> self.visited@[t],
                forall|t: int|
                    0 <= t < out@.len() ==> (#[trigger] out@[t]) < self.visited@.len() && self.visited@[out@[t] as int],
                unvisited_count(self.visited@) + out@.len() == unvisited_count(v0),
            decreases nbrs@.len() - i,
        {
            let n = nbrs[i] as usize;
            if n < self.visited.len() && !self.visited[n] {
                proof {
                    lemma_unvisited_mark(self.visited@, n as int);
                }
                self.visited.set(n, true);
                out.push(n);
            }
            i = i + 1;
        }
        proof {
            assert forall|j: int| 0 <= j < self.candidates@.len() implies (#[trigger] self.candidates@[j]).id
                < self.visited@.len() && self.visited@[self.candidates@[j].id as int] by {
                assert(v0[old(self).candidates@[j].id as int]);
            }
            assert forall|j: int| 0 <= j < self.best@.len() implies (#[trigger] self.best@[j]).id
                < self.visited@.len() && self.visited@[self.best@[j].id as int] by {
                assert(v0[old(self).best@[j].id as int]);
            }
        }
        out
    }

    /// The closest nodes found, nearest first (ties in the order they
    /// joined); `id` is the node's internal index.
    pub fn finish(&self) -> (r: Vec<ScoredId>)
        ensures
            exists|p: Seq<int>| is_top_k_total(self.best@, self.best@.len() as int, self.best@.len() as nat, r@, p),
    {
        top_k_total(self.best.as_slice(), self.best.len())
    }
}

} // verus!
