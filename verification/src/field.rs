//! The relational trust field: comparative attestations are staked
//! differences between artifacts ("winner over loser by a margin"),
//! aggregated per pair, and solved for positions by weighted Jacobi
//! relaxation in integer millionths, one node pinned as the gauge frame.
//! The residual of the solve is the local holonomy: how far the record
//! is from flat.
use vstd::prelude::*;
use crate::roster::{clone_keys, contains_key, key_eq, key_le, key_order, keys_view, lex_le, sort_keys};

verus! {

/// One comparative edge as read from the record: the attester's weight
/// (its reputation in millionths) on "winner over loser by margin".
#[derive(Clone, Debug)]
pub struct RawEdge {
    pub winner: Vec<u8>,
    pub loser: Vec<u8>,
    pub margin: i64,
    pub weight: u32,
}

/// One aggregated pair (a, b), a ≤ b: the weighted mean margin
/// x_a − x_b = mean, the total weight, and the pre-mean absolute mass.
#[derive(Clone, Debug)]
pub struct FieldEdge {
    pub a: Vec<u8>,
    pub b: Vec<u8>,
    pub mean: i128,
    pub weight: i128,
    pub abs_mass: i128,
}

pub open spec fn raw_forward(e: RawEdge) -> bool {
    lex_le(e.winner@, e.loser@)
}

/// The direction-normalized pair of a raw edge.
pub open spec fn raw_key(e: RawEdge) -> (Seq<u8>, Seq<u8>) {
    if raw_forward(e) {
        (e.winner@, e.loser@)
    } else {
        (e.loser@, e.winner@)
    }
}

/// The margin as a difference x_a − x_b on the normalized pair.
pub open spec fn raw_signed(e: RawEdge) -> int {
    if raw_forward(e) {
        e.margin as int
    } else {
        -(e.margin as int)
    }
}

pub open spec fn abs(x: int) -> int {
    if x < 0 { -x } else { x }
}

/// (Σw·m, Σw, Σw·|m|) over the first `k` raw edges on the pair `key`.
pub open spec fn pair_sums(raw: Seq<RawEdge>, key: (Seq<u8>, Seq<u8>), k: nat) -> (int, int, int)
    decreases k,
{
    if k == 0 {
        (0, 0, 0)
    } else {
        let s = pair_sums(raw, key, (k - 1) as nat);
        let e = raw[k - 1];
        if raw_key(e) == key {
            (s.0 + e.weight * raw_signed(e), s.1 + e.weight, s.2 + e.weight * abs(raw_signed(e)))
        } else {
            s
        }
    }
}

/// Integer division truncating toward zero, as the machine divides.
pub open spec fn trunc_div(a: int, b: int) -> int {
    if a >= 0 {
        a / b
    } else {
        -((-a) / b)
    }
}

/// An aggregated edge as values: (a, b, mean, weight, abs mass).
pub open spec fn ev(e: FieldEdge) -> (Seq<u8>, Seq<u8>, int, int, int) {
    (e.a@, e.b@, e.mean as int, e.weight as int, e.abs_mass as int)
}

pub open spec fn evs(s: Seq<FieldEdge>) -> Seq<(Seq<u8>, Seq<u8>, int, int, int)> {
    s.map_values(|e: FieldEdge| ev(e))
}

/// The normalized pairs of the first `k` raw edges, each once, in order
/// of first appearance.
pub open spec fn pair_keys(raw: Seq<RawEdge>, k: nat) -> Seq<(Seq<u8>, Seq<u8>)>
    decreases k,
{
    if k == 0 {
        Seq::empty()
    } else {
        let p = pair_keys(raw, (k - 1) as nat);
        if p.contains(raw_key(raw[k - 1])) {
            p
        } else {
            p.push(raw_key(raw[k - 1]))
        }
    }
}

/// The aggregate of the raw edges on one pair: the weighted mean margin
/// (truncated), the total weight, the pre-mean absolute mass.
pub open spec fn aggregate_of(raw: Seq<RawEdge>, key: (Seq<u8>, Seq<u8>)) -> (Seq<u8>, Seq<u8>, int, int, int) {
    let s = pair_sums(raw, key, raw.len());
    (key.0, key.1, trunc_div(s.0, s.1), s.1, s.2)
}

/// The aggregates of the first `p` of `keys` that carry positive weight.
pub open spec fn aggregate_prefix(raw: Seq<RawEdge>, keys: Seq<(Seq<u8>, Seq<u8>)>, p: nat) -> Seq<(Seq<u8>, Seq<u8>, int, int, int)>
    decreases p,
{
    if p == 0 {
        Seq::empty()
    } else {
        let r = aggregate_prefix(raw, keys, (p - 1) as nat);
        if pair_sums(raw, keys[p - 1], raw.len()).1 > 0 {
            r.push(aggregate_of(raw, keys[p - 1]))
        } else {
            r
        }
    }
}

/// One aggregate per pair of positive total weight, pairs in order of
/// first appearance.
pub open spec fn aggregate_view(raw: Seq<RawEdge>) -> Seq<(Seq<u8>, Seq<u8>, int, int, int)> {
    let keys = pair_keys(raw, raw.len());
    aggregate_prefix(raw, keys, keys.len())
}

pub open spec fn pairs_view(keys: Seq<(Vec<u8>, Vec<u8>)>) -> Seq<(Seq<u8>, Seq<u8>)> {
    keys.map_values(|k: (Vec<u8>, Vec<u8>)| (k.0@, k.1@))
}

/// Few enough raw edges that every pair sum fits an `i128`.
pub open spec fn raw_in_range(raw: Seq<RawEdge>) -> bool {
    raw.len() <= 0x1_0000_0000
}

/// The pair sums stay within what k edges of `u32` weight and `i64` margin can carry.
pub proof fn lemma_pair_sums_bounds(raw: Seq<RawEdge>, key: (Seq<u8>, Seq<u8>), k: nat)
    requires
        k <= raw.len(),
    ensures
        0 <= pair_sums(raw, key, k).1 <= k * 0xffff_ffff,
        0 <= pair_sums(raw, key, k).2 <= k * 0x7fff_ffff_8000_0000_0000_0000,
        -(k * 0x7fff_ffff_8000_0000_0000_0000) <= pair_sums(raw, key, k).0 <= k * 0x7fff_ffff_8000_0000_0000_0000,
    decreases k,
{
    if k > 0 {
        lemma_pair_sums_bounds(raw, key, (k - 1) as nat);
        let e = raw[k - 1];
        let m = raw_signed(e);
        assert(0 <= e.weight * abs(m) <= 0x7fff_ffff_8000_0000_0000_0000) by (nonlinear_arith)
            requires
                0 <= e.weight <= 0xffff_ffff,
                0 <= abs(m) <= 0x8000_0000_0000_0000,
        ;
        assert(-(e.weight * abs(m)) <= e.weight * m <= e.weight * abs(m)) by (nonlinear_arith)
            requires
                0 <= e.weight,
                abs(m) == (if m < 0 { -m } else { m }),
        ;
        assert((k - 1) * 0x7fff_ffff_8000_0000_0000_0000 + 0x7fff_ffff_8000_0000_0000_0000
            == k * 0x7fff_ffff_8000_0000_0000_0000) by (nonlinear_arith);
        assert((k - 1) * 0xffff_ffff + 0xffff_ffff == k * 0xffff_ffff) by (nonlinear_arith);
    }
}

fn normalize(e: &RawEdge) -> (r: (Vec<u8>, Vec<u8>, i128))
    ensures
        (r.0@, r.1@) == raw_key(*e),
        r.2 == raw_signed(*e),
{
    let w = e.winner.clone();
    let l = e.loser.clone();
    proof {
        assert(w@ =~= e.winner@);
        assert(l@ =~= e.loser@);
    }
    if key_le(&e.winner, &e.loser) {
        (w, l, e.margin as i128)
    } else {
        (l, w, -(e.margin as i128))
    }
}

/// The per-pair sums of the raw edges: the pairs in order of first
/// appearance, each with (Σw·m, Σw, Σw·|m|).
pub fn pair_accumulate(raw: &[RawEdge]) -> (r: (Vec<(Vec<u8>, Vec<u8>)>, Vec<(i128, i128, i128)>))
    requires
        raw_in_range(raw@),
    ensures
        pairs_view(r.0@) == pair_keys(raw@, raw@.len() as nat),
        r.0@.len() == r.1@.len(),
        forall|t: int| 0 <= t < r.0@.len() ==> (#[trigger] r.1@[t]).0 == pair_sums(raw@, (r.0@[t].0@, r.0@[t].1@), raw@.len() as nat).0
            && r.1@[t].1 == pair_sums(raw@, (r.0@[t].0@, r.0@[t].1@), raw@.len() as nat).1
            && r.1@[t].2 == pair_sums(raw@, (r.0@[t].0@, r.0@[t].1@), raw@.len() as nat).2,
{
    // Accumulators per pair, in first-appearance order.
    let mut keys: Vec<(Vec<u8>, Vec<u8>)> = Vec::new();
    let mut sums: Vec<(i128, i128, i128)> = Vec::new();
    let mut i: usize = 0;
    while i < raw.len()
        invariant
            i <= raw@.len() <= 0x1_0000_0000,
            keys@.len() == sums@.len(),
            forall|p: int| 0 <= p < keys@.len() ==> (#[trigger] sums@[p]).0 == pair_sums(raw@, (keys@[p].0@, keys@[p].1@), i as nat).0
                && sums@[p].1 == pair_sums(raw@, (keys@[p].0@, keys@[p].1@), i as nat).1
                && sums@[p].2 == pair_sums(raw@, (keys@[p].0@, keys@[p].1@), i as nat).2,
            forall|p: int, q: int| 0 <= p < q < keys@.len() ==> (#[trigger] keys@[p].0@, keys@[p].1@) != (#[trigger] keys@[q].0@, keys@[q].1@),
            forall|q: int| 0 <= q < i ==> exists|p: int| 0 <= p < keys@.len() && (#[trigger] keys@[p].0@, keys@[p].1@) == raw_key(#[trigger] raw@[q]),
            pairs_view(keys@) == pair_keys(raw@, i as nat),
            forall|key: (Seq<u8>, Seq<u8>)| (forall|p: int| 0 <= p < keys@.len() ==> (#[trigger] keys@[p].0@, keys@[p].1@) != key)
                ==> #[trigger] pair_sums(raw@, key, i as nat) == (0int, 0int, 0int),
        decreases raw@.len() - i,
    {
        let (a, b, m) = normalize(&raw[i]);
        let w = raw[i].weight as i128;
        proof {
            assert(0 <= m + 0x8000_0000_0000_0000 <= 0x1_0000_0000_0000_0000);
        }
        let am: i128 = if m < 0 { -m } else { m };
        proof {
            assert(-(0xffff_ffff * 0x8000_0000_0000_0000) <= w * m <= 0xffff_ffff * 0x8000_0000_0000_0000) by (nonlinear_arith)
                requires
                    0 <= w <= 0xffff_ffff,
                    -0x8000_0000_0000_0000 <= m <= 0x8000_0000_0000_0000,
            ;
            assert(0 <= w * am <= 0xffff_ffff * 0x8000_0000_0000_0000) by (nonlinear_arith)
                requires
                    0 <= w <= 0xffff_ffff,
                    0 <= am <= 0x8000_0000_0000_0000,
            ;
        }
        let wm: i128 = w * m;
        let wam: i128 = w * am;
        // find the pair
        let mut p: usize = 0;
        let mut found = false;
        while !found && p < keys.len()
            invariant
                p <= keys@.len(),
                found ==> p < keys@.len() && (keys@[p as int].0@, keys@[p as int].1@) == (a@, b@),
                !found ==> forall|t: int| 0 <= t < p ==> (#[trigger] keys@[t].0@, keys@[t].1@) != (a@, b@),
            decreases keys@.len() - p + (if found { 0int } else { 1int }),
        {
            if key_eq(&keys[p].0, &a) && key_eq(&keys[p].1, &b) {
                found = true;
            } else {
                p = p + 1;
            }
        }
        proof {
            lemma_pair_sums_bounds(raw@, (a@, b@), i as nat);
            lemma_pair_sums_bounds(raw@, (a@, b@), (i + 1) as nat);
            assert((i + 1) * 0x7fff_ffff_8000_0000_0000_0000 <= 0x1_0000_0000 * 0x7fff_ffff_8000_0000_0000_0000) by (nonlinear_arith)
                requires
                    i + 1 <= 0x1_0000_0000,
            ;
            assert((i + 1) * 0xffff_ffff <= 0x1_0000_0000 * 0xffff_ffff) by (nonlinear_arith)
                requires
                    i + 1 <= 0x1_0000_0000,
            ;
        }
        let ghost old_keys = keys@;
        if found {
            let old = sums[p];
            proof {
                assert((keys@[p as int].0@, keys@[p as int].1@) == (a@, b@));
            }
            sums.set(p, (old.0 + wm, old.1 + w, old.2 + wam));
        } else {
            keys.push((a, b));
            sums.push((wm, w, wam));
        }
        proof {
            assert forall|t: int| 0 <= t < keys@.len() implies (#[trigger] sums@[t]).0 == pair_sums(raw@, (keys@[t].0@, keys@[t].1@), (i + 1) as nat).0
                && sums@[t].1 == pair_sums(raw@, (keys@[t].0@, keys@[t].1@), (i + 1) as nat).1
                && sums@[t].2 == pair_sums(raw@, (keys@[t].0@, keys@[t].1@), (i + 1) as nat).2 by {
            }
            assert forall|key: (Seq<u8>, Seq<u8>)| (forall|t: int| 0 <= t < keys@.len() ==> (#[trigger] keys@[t].0@, keys@[t].1@) != key)
                implies #[trigger] pair_sums(raw@, key, (i + 1) as nat) == (0int, 0int, 0int) by {
                assert forall|t: int| 0 <= t < old_keys.len() implies (#[trigger] old_keys[t].0@, old_keys[t].1@) != key by {
                    assert(keys@[t] == old_keys[t]);
                }
                if found {
                    assert((keys@[p as int].0@, keys@[p as int].1@) == (a@, b@));
                } else {
                    assert((keys@[keys@.len() - 1].0@, keys@[keys@.len() - 1].1@) == (a@, b@));
                }
                assert(key != (a@, b@));
                assert(raw_key(raw@[i as int]) == (a@, b@));
                assert(pair_sums(raw@, key, i as nat) == (0int, 0int, 0int));
            }
            assert forall|q: int| 0 <= q < i + 1 implies exists|t: int| 0 <= t < keys@.len() && (#[trigger] keys@[t].0@, keys@[t].1@) == raw_key(#[trigger] raw@[q]) by {
                if q < i {
                    let t2 = choose|t2: int| 0 <= t2 < old_keys.len() && (old_keys[t2].0@, old_keys[t2].1@) == raw_key(raw@[q]);
                    assert(keys@[t2] == old_keys[t2]);
                }
                if q == i {
                    if found {
                        assert((keys@[p as int].0@, keys@[p as int].1@) == raw_key(raw@[q]));
                    } else {
                        assert((keys@[keys@.len() - 1].0@, keys@[keys@.len() - 1].1@) == raw_key(raw@[q]));
                    }
                }
            }
            let pk = pair_keys(raw@, i as nat);
            assert(pairs_view(old_keys) == pk);
            assert(raw_key(raw@[i as int]) == (a@, b@));
            if found {
                assert(pk[p as int] == (a@, b@));
                assert(pk.contains((a@, b@)));
                assert(pairs_view(keys@) =~= pk);
            } else {
                assert(!pk.contains((a@, b@))) by {
                    if pk.contains((a@, b@)) {
                        let t = choose|t: int| 0 <= t < pk.len() && pk[t] == (a@, b@);
                        assert((old_keys[t].0@, old_keys[t].1@) == (a@, b@));
                    }
                }
                assert(pairs_view(keys@) =~= pk.push((a@, b@)));
            }
        }
        i = i + 1;
    }
    (keys, sums)
}

/// Collapses parallel edges: one edge per normalized pair carrying the
/// reputation-weighted mean margin (truncated), the total weight and the
/// pre-mean absolute mass; pairs of zero total weight are dropped. Pairs
/// keep the order of their first appearance.
pub fn aggregate_edges(raw: &[RawEdge]) -> (r: Vec<FieldEdge>)
    requires
        raw_in_range(raw@),
    ensures
        evs(r@) == aggregate_view(raw@),
{
    let (keys, sums) = pair_accumulate(raw);
    let i: usize = raw.len();
    let mut out: Vec<FieldEdge> = Vec::new();
    let ghost pk = pairs_view(keys@);
    let mut p: usize = 0;
    while p < keys.len()
        invariant
            i == raw@.len(),
            raw@.len() <= 0x1_0000_0000,
            p <= keys@.len() == sums@.len(),
            pk == pairs_view(keys@),
            forall|t: int| 0 <= t < keys@.len() ==> (#[trigger] sums@[t]).0 == pair_sums(raw@, (keys@[t].0@, keys@[t].1@), i as nat).0
                && sums@[t].1 == pair_sums(raw@, (keys@[t].0@, keys@[t].1@), i as nat).1
                && sums@[t].2 == pair_sums(raw@, (keys@[t].0@, keys@[t].1@), i as nat).2,
            evs(out@) == aggregate_prefix(raw@, pk, p as nat),
        decreases keys@.len() - p,
    {
        let (swm, sw, sam) = sums[p];
        proof {
            assert(pk[p as int] == (keys@[p as int].0@, keys@[p as int].1@));
        }
        if sw > 0 {
            let mean: i128 = if swm >= 0 {
                swm / sw
            } else {
                proof {
                    lemma_pair_sums_bounds(raw@, (keys@[p as int].0@, keys@[p as int].1@), i as nat);
                    assert(i * 0x7fff_ffff_8000_0000_0000_0000 <= 0x1_0000_0000 * 0x7fff_ffff_8000_0000_0000_0000) by (nonlinear_arith)
                        requires
                            i <= 0x1_0000_0000,
                    ;
                }
                -((-swm) / sw)
            };
            let a = keys[p].0.clone();
            let b = keys[p].1.clone();
            proof {
                assert(a@ =~= keys@[p as int].0@);
                assert(b@ =~= keys@[p as int].1@);
            }
            let ghost before = out@;
            out.push(FieldEdge { a, b, mean, weight: sw, abs_mass: sam });
            proof {
                assert(evs(out@) =~= evs(before).push(aggregate_of(raw@, pk[p as int])));
            }
        }
        p = p + 1;
    }
    out
}

// ─────────────────────────────────────────────
// The Jacobi relaxation
// ─────────────────────────────────────────────

/// The first index at or below `k` holding `key`, or −1.
pub open spec fn find_key(nodes: Seq<Seq<u8>>, key: Seq<u8>, k: nat) -> int
    decreases k,
{
    if k == 0 {
        -1
    } else {
        let r = find_key(nodes, key, (k - 1) as nat);
        if r >= 0 {
            r
        } else if nodes[k - 1] == key {
            k - 1
        } else {
            -1
        }
    }
}

/// Where `key` sits among the nodes (−1 when it is not a node).
pub open spec fn node_index(nodes: Seq<Seq<u8>>, key: Seq<u8>) -> int {
    find_key(nodes, key, nodes.len())
}

proof fn lemma_find_key(nodes: Seq<Seq<u8>>, key: Seq<u8>, k: nat)
    requires
        k <= nodes.len(),
    ensures
        -1 <= find_key(nodes, key, k) < k,
        find_key(nodes, key, k) >= 0 ==> nodes[find_key(nodes, key, k)] == key,
        find_key(nodes, key, k) < 0 ==> forall|j: int| 0 <= j < k ==> nodes[j] != key,
    decreases k,
{
    if k > 0 {
        lemma_find_key(nodes, key, (k - 1) as nat);
    }
}

fn find_node(nodes: &[Vec<u8>], key: &Vec<u8>) -> (r: Option<usize>)
    ensures
        match r {
            Some(j) => j as int == node_index(keys_view(nodes@), key@) && 0 <= j < nodes@.len(),
            None => node_index(keys_view(nodes@), key@) == -1,
        },
{
    let ghost kv = keys_view(nodes@);
    let mut j: usize = 0;
    while j < nodes.len()
        invariant
            j <= nodes@.len(),
            kv == keys_view(nodes@),
            find_key(kv, key@, j as nat) == -1,
        decreases nodes@.len() - j,
    {
        if key_eq(&nodes[j], key) {
            proof {
                lemma_find_key(kv, key@, nodes@.len() as nat);
                assert(find_key(kv, key@, (j + 1) as nat) == j);
                lemma_find_key_stable(kv, key@, (j + 1) as nat, nodes@.len() as nat);
            }
            return Some(j);
        }
        j = j + 1;
    }
    None
}

proof fn lemma_find_key_stable(nodes: Seq<Seq<u8>>, key: Seq<u8>, j: nat, k: nat)
    requires
        j <= k,
        find_key(nodes, key, j) >= 0,
    ensures
        find_key(nodes, key, k) == find_key(nodes, key, j),
    decreases k - j,
{
    if j < k {
        lemma_find_key_stable(nodes, key, j, (k - 1) as nat);
    }
}

/// What edge `e` contributes to the relaxation of the node `n`: the
/// neighbour's position shifted by the mean margin, weighted — when the
/// neighbour is a node of the field.
pub open spec fn edge_term(nodes: Seq<Seq<u8>>, x: Seq<int>, n: Seq<u8>, e: (Seq<u8>, Seq<u8>, int, int, int)) -> Option<(int, int)> {
    if e.0 == n {
        let j = node_index(nodes, e.1);
        if j >= 0 {
            Some((e.3 * (x[j] + e.2), e.3 as int))
        } else {
            None
        }
    } else if e.1 == n {
        let j = node_index(nodes, e.0);
        if j >= 0 {
            Some((e.3 * (x[j] - e.2), e.3 as int))
        } else {
            None
        }
    } else {
        None
    }
}

/// (Σ numerators, Σ weights) of the terms of the first `k` edges.
pub open spec fn node_sums(nodes: Seq<Seq<u8>>, x: Seq<int>, n: Seq<u8>, edges: Seq<(Seq<u8>, Seq<u8>, int, int, int)>, k: nat) -> (int, int)
    decreases k,
{
    if k == 0 {
        (0, 0)
    } else {
        let s = node_sums(nodes, x, n, edges, (k - 1) as nat);
        match edge_term(nodes, x, n, edges[k - 1]) {
            Some((a, b)) => (s.0 + a, s.1 + b),
            None => s,
        }
    }
}

/// The relaxed position of node `i`: the pinned frame node (and any node
/// equal to it) stays; every other node moves to the weighted mean its
/// edges pull it to, truncated; a node without usable edges stays.
pub open spec fn relax(nodes: Seq<Seq<u8>>, x: Seq<int>, edges: Seq<(Seq<u8>, Seq<u8>, int, int, int)>, i: int) -> int {
    if nodes[i] == nodes[0] {
        x[i]
    } else {
        let s = node_sums(nodes, x, nodes[i], edges, edges.len());
        if s.1 > 0 {
            trunc_div(s.0, s.1)
        } else {
            x[i]
        }
    }
}

pub open spec fn relax_all(nodes: Seq<Seq<u8>>, x: Seq<int>, edges: Seq<(Seq<u8>, Seq<u8>, int, int, int)>) -> Seq<int> {
    Seq::new(nodes.len(), |i: int| relax(nodes, x, edges, i))
}

/// The field after `t` relaxation sweeps from every node at `frame_val`.
pub open spec fn jacobi(nodes: Seq<Seq<u8>>, edges: Seq<(Seq<u8>, Seq<u8>, int, int, int)>, frame_val: int, t: nat) -> Seq<int>
    decreases t,
{
    if t == 0 {
        Seq::new(nodes.len(), |i: int| frame_val)
    } else {
        relax_all(nodes, jacobi(nodes, edges, frame_val, (t - 1) as nat), edges)
    }
}

pub open spec fn fits(v: int) -> bool {
    -i128::MAX <= v <= i128::MAX
}

/// Every term and partial sum one sweep computes from `x` fits an `i128`.
pub open spec fn sweep_fits(nodes: Seq<Seq<u8>>, x: Seq<int>, edges: Seq<(Seq<u8>, Seq<u8>, int, int, int)>) -> bool {
    &&& forall|i: int| 0 <= i < x.len() ==> fits(#[trigger] x[i])
    &&& forall|i: int, k: int| #![trigger node_sums(nodes, x, nodes[i], edges, (k + 1) as nat)]
        0 <= i < nodes.len() && 0 <= k < edges.len() ==> {
        let e = edges[k];
        let n = nodes[i];
        let s = node_sums(nodes, x, n, edges, (k + 1) as nat);
        &&& fits(s.0) && fits(s.1)
        &&& (e.0 == n && node_index(nodes, e.1) >= 0 ==> fits(x[node_index(nodes, e.1)] + e.2))
        &&& (e.0 != n && e.1 == n && node_index(nodes, e.0) >= 0 ==> fits(x[node_index(nodes, e.0)] - e.2))
        &&& (edge_term(nodes, x, n, e) matches Some((a, b)) ==> fits(a))
    }
}

/// Every sweep of a solve of `sweeps` sweeps stays within `i128`.
pub open spec fn solve_fits(nodes: Seq<Seq<u8>>, edges: Seq<(Seq<u8>, Seq<u8>, int, int, int)>, frame_val: int, sweeps: nat) -> bool {
    forall|t: nat| t < sweeps ==> sweep_fits(nodes, #[trigger] jacobi(nodes, edges, frame_val, t), edges)
}

/// F(8): the number of relaxation sweeps.
pub const FIELD_SWEEPS: u32 = 21;

/// `a + b`, when it lies in the symmetric `i128` range.
fn add_fit(a: i128, b: i128) -> (r: Option<i128>)
    ensures
        r == (if fits(a + b) { Some((a + b) as i128) } else { None::<i128> }),
{
    match a.checked_add(b) {
        Some(v) => if v == i128::MIN { None } else { Some(v) },
        None => None,
    }
}

/// `a − b`, when it lies in the symmetric `i128` range.
fn sub_fit(a: i128, b: i128) -> (r: Option<i128>)
    ensures
        r == (if fits(a - b) { Some((a - b) as i128) } else { None::<i128> }),
{
    match a.checked_sub(b) {
        Some(v) => if v == i128::MIN { None } else { Some(v) },
        None => None,
    }
}

/// `a · b`, when it lies in the symmetric `i128` range.
fn mul_fit(a: i128, b: i128) -> (r: Option<i128>)
    ensures
        r == (if fits(a * b) { Some((a * b) as i128) } else { None::<i128> }),
{
    match a.checked_mul(b) {
        Some(v) => if v == i128::MIN { None } else { Some(v) },
        None => None,
    }
}

/// Edge `k`'s part in relaxing the node `n` stays within `i128`: the
/// running sums after it, the shifted neighbour position and the
/// weighted term.
pub open spec fn edge_fits(nodes: Seq<Seq<u8>>, x: Seq<int>, n: Seq<u8>, edges: Seq<(Seq<u8>, Seq<u8>, int, int, int)>, k: int) -> bool {
    let e = edges[k];
    let s = node_sums(nodes, x, n, edges, (k + 1) as nat);
    &&& fits(s.0) && fits(s.1)
    &&& (e.0 == n && node_index(nodes, e.1) >= 0 ==> fits(x[node_index(nodes, e.1)] + e.2))
    &&& (e.0 != n && e.1 == n && node_index(nodes, e.0) >= 0 ==> fits(x[node_index(nodes, e.0)] - e.2))
    &&& (edge_term(nodes, x, n, e) matches Some((a, b)) ==> fits(a))
}

/// Relaxing node `i` stays within `i128` at every edge.
pub open spec fn node_fits(nodes: Seq<Seq<u8>>, x: Seq<int>, edges: Seq<(Seq<u8>, Seq<u8>, int, int, int)>, i: int) -> bool {
    forall|k: int| 0 <= k < edges.len() ==> #[trigger] edge_fits(nodes, x, nodes[i], edges, k)
}

/// The relaxed position of node `i`, or None exactly when relaxing it
/// leaves `i128` at some edge.
fn relax_node_checked(nodes: &[Vec<u8>], x: &Vec<i128>, edges: &[FieldEdge], i: usize) -> (r: Option<i128>)
    requires
        0 < nodes@.len(),
        i < nodes@.len(),
        x@.len() == nodes@.len(),
        forall|q: int| 0 <= q < x@.len() ==> fits(#[trigger] x@[q] as int),
    ensures
        (r is Some) == node_fits(keys_view(nodes@), x@.map_values(|v: i128| v as int), evs(edges@), i as int),
        r matches Some(v) ==> v == relax(keys_view(nodes@), x@.map_values(|v: i128| v as int), evs(edges@), i as int),
{
    let ghost kv = keys_view(nodes@);
    let ghost xv = x@.map_values(|v: i128| v as int);
    let ghost ev = evs(edges@);
    let mut num: i128 = 0;
    let mut den: i128 = 0;
    let mut k: usize = 0;
    while k < edges.len()
        invariant
            k <= edges@.len(),
            i < nodes@.len(),
            x@.len() == nodes@.len(),
            kv == keys_view(nodes@),
            xv == x@.map_values(|v: i128| v as int),
            ev == evs(edges@),
            forall|q: int| 0 <= q < x@.len() ==> fits(#[trigger] x@[q] as int),
            (num as int, den as int) == node_sums(kv, xv, kv[i as int], ev, k as nat),
            fits(num as int) && fits(den as int),
            forall|q: int| 0 <= q < k ==> #[trigger] edge_fits(kv, xv, kv[i as int], ev, q),
        decreases edges@.len() - k,
    {
        let e = &edges[k];
        proof {
            assert(kv[i as int] == nodes@[i as int]@);
            let _ = node_sums(kv, xv, kv[i as int], ev, (k + 1) as nat);
        }
        if key_eq(&e.a, &nodes[i]) {
            match find_node(nodes, &e.b) {
                Some(j) => {
                    proof {
                        assert(xv[j as int] == x@[j as int]);
                    }
                    let v = match add_fit(x[j], e.mean) {
                        Some(v) => v,
                        None => {
                            proof {
                                assert(!edge_fits(kv, xv, kv[i as int], ev, k as int));
                            }
                            return None;
                        },
                    };
                    let t = match mul_fit(e.weight, v) {
                        Some(t) => t,
                        None => {
                            proof {
                                assert(!edge_fits(kv, xv, kv[i as int], ev, k as int));
                            }
                            return None;
                        },
                    };
                    match (add_fit(num, t), add_fit(den, e.weight)) {
                        (Some(n2), Some(d2)) => {
                            num = n2;
                            den = d2;
                        },
                        _ => {
                            proof {
                                assert(!edge_fits(kv, xv, kv[i as int], ev, k as int));
                            }
                            return None;
                        },
                    }
                },
                None => {},
            }
        } else if key_eq(&e.b, &nodes[i]) {
            match find_node(nodes, &e.a) {
                Some(j) => {
                    proof {
                        assert(xv[j as int] == x@[j as int]);
                    }
                    let v = match sub_fit(x[j], e.mean) {
                        Some(v) => v,
                        None => {
                            proof {
                                assert(!edge_fits(kv, xv, kv[i as int], ev, k as int));
                            }
                            return None;
                        },
                    };
                    let t = match mul_fit(e.weight, v) {
                        Some(t) => t,
                        None => {
                            proof {
                                assert(!edge_fits(kv, xv, kv[i as int], ev, k as int));
                            }
                            return None;
                        },
                    };
                    match (add_fit(num, t), add_fit(den, e.weight)) {
                        (Some(n2), Some(d2)) => {
                            num = n2;
                            den = d2;
                        },
                        _ => {
                            proof {
                                assert(!edge_fits(kv, xv, kv[i as int], ev, k as int));
                            }
                            return None;
                        },
                    }
                },
                None => {},
            }
        }
        proof {
            assert(edge_fits(kv, xv, kv[i as int], ev, k as int));
        }
        k = k + 1;
    }
    proof {
        assert(node_fits(kv, xv, ev, i as int));
        if edges@.len() > 0 {
            let _ = node_sums(kv, xv, kv[i as int], ev, ((edges@.len() - 1) + 1) as nat);
        }
        assert(xv[i as int] == x@[i as int]);
    }
    if key_eq(&nodes[i], &nodes[0]) {
        return Some(x[i]);
    }
    if den > 0 {
        if num >= 0 {
            Some(num / den)
        } else {
            Some(-((-num) / den))
        }
    } else {
        Some(x[i])
    }
}

/// `sweep_fits` read node by node.
proof fn lemma_sweep_fits_by_node(nodes: Seq<Seq<u8>>, x: Seq<int>, edges: Seq<(Seq<u8>, Seq<u8>, int, int, int)>)
    requires
        x.len() == nodes.len(),
    ensures
        sweep_fits(nodes, x, edges) == ((forall|i: int| 0 <= i < x.len() ==> fits(#[trigger] x[i]))
            && (forall|i: int| 0 <= i < nodes.len() ==> #[trigger] node_fits(nodes, x, edges, i))),
{
    if sweep_fits(nodes, x, edges) {
        assert forall|i: int| 0 <= i < nodes.len() implies #[trigger] node_fits(nodes, x, edges, i) by {
            assert forall|k: int| 0 <= k < edges.len() implies #[trigger] edge_fits(nodes, x, nodes[i], edges, k) by {
                let _ = node_sums(nodes, x, nodes[i], edges, (k + 1) as nat);
            }
        }
    }
    if (forall|i: int| 0 <= i < x.len() ==> fits(#[trigger] x[i]))
        && (forall|i: int| 0 <= i < nodes.len() ==> #[trigger] node_fits(nodes, x, edges, i)) {
        assert forall|i: int, k: int| #![trigger node_sums(nodes, x, nodes[i], edges, (k + 1) as nat)]
            0 <= i < nodes.len() && 0 <= k < edges.len() implies edge_fits(nodes, x, nodes[i], edges, k) by {
            assert(node_fits(nodes, x, edges, i));
        }
    }
}

/// One relaxation sweep, or None exactly when it leaves `i128`.
fn sweep_checked(nodes: &[Vec<u8>], x: &Vec<i128>, edges: &[FieldEdge]) -> (r: Option<Vec<i128>>)
    requires
        0 < nodes@.len(),
        x@.len() == nodes@.len(),
    ensures
        (r is Some) == sweep_fits(keys_view(nodes@), x@.map_values(|v: i128| v as int), evs(edges@)),
        r matches Some(next) ==> next@.map_values(|v: i128| v as int) == relax_all(
            keys_view(nodes@),
            x@.map_values(|v: i128| v as int),
            evs(edges@),
        ),
{
    let ghost kv = keys_view(nodes@);
    let ghost xv = x@.map_values(|v: i128| v as int);
    proof {
        lemma_sweep_fits_by_node(kv, xv, evs(edges@));
    }
    let mut q: usize = 0;
    while q < x.len()
        invariant
            q <= x@.len(),
            xv == x@.map_values(|v: i128| v as int),
            forall|p: int| 0 <= p < q ==> fits(#[trigger] x@[p] as int),
        decreases x@.len() - q,
    {
        if x[q] == i128::MIN {
            proof {
                assert(!fits(xv[q as int]));
            }
            return None;
        }
        q = q + 1;
    }
    proof {
        assert forall|p: int| 0 <= p < xv.len() implies fits(#[trigger] xv[p]) by {
            assert(fits(x@[p] as int));
        }
    }
    let mut next: Vec<i128> = Vec::new();
    let mut i: usize = 0;
    while i < nodes.len()
        invariant
            i <= nodes@.len(),
            nodes@.len() > 0,
            kv == keys_view(nodes@),
            xv == x@.map_values(|v: i128| v as int),
            x@.len() == nodes@.len(),
            next@.len() == i,
            forall|p: int| 0 <= p < x@.len() ==> fits(#[trigger] x@[p] as int),
            forall|p: int| 0 <= p < i ==> #[trigger] node_fits(kv, xv, evs(edges@), p),
            forall|p: int| 0 <= p < i ==> next@[p] == relax(kv, xv, evs(edges@), p),
        decreases nodes@.len() - i,
    {
        match relax_node_checked(nodes, x, edges, i) {
            Some(v) => {
                next.push(v);
            },
            None => {
                return None;
            },
        }
        i = i + 1;
    }
    proof {
        assert(next@.map_values(|v: i128| v as int) =~= relax_all(kv, xv, evs(edges@)));
    }
    Some(next)
}

/// The Jacobi solve, or None exactly when one of its sweeps leaves `i128`.
pub fn solve_field_checked(nodes: &[Vec<u8>], frame_val: i128, edges: &[FieldEdge]) -> (r: Option<Vec<i128>>)
    requires
        nodes@.len() > 0,
    ensures
        (r is Some) == solve_fits(keys_view(nodes@), evs(edges@), frame_val as int, 21),
        r matches Some(x) ==> x@.map_values(|v: i128| v as int) == jacobi(keys_view(nodes@), evs(edges@), frame_val as int, 21),
{
    let ghost kv = keys_view(nodes@);
    let mut x: Vec<i128> = Vec::new();
    let mut i: usize = 0;
    while i < nodes.len()
        invariant
            i <= nodes@.len(),
            x@.len() == i,
            forall|q: int| 0 <= q < i ==> x@[q] == frame_val,
        decreases nodes@.len() - i,
    {
        x.push(frame_val);
        i = i + 1;
    }
    proof {
        assert(x@.map_values(|v: i128| v as int) =~= jacobi(kv, evs(edges@), frame_val as int, 0));
    }
    let mut t: u32 = 0;
    while t < FIELD_SWEEPS
        invariant
            t <= 21,
            nodes@.len() > 0,
            kv == keys_view(nodes@),
            x@.len() == nodes@.len(),
            x@.map_values(|v: i128| v as int) == jacobi(kv, evs(edges@), frame_val as int, t as nat),
            forall|u: nat| u < t ==> sweep_fits(kv, #[trigger] jacobi(kv, evs(edges@), frame_val as int, u), evs(edges@)),
        decreases 21 - t,
    {
        match sweep_checked(nodes, &x, edges) {
            Some(next) => {
                proof {
                    assert(next@.len() == nodes@.len()) by {
                        assert(next@.map_values(|v: i128| v as int).len() == nodes@.len());
                    }
                }
                x = next;
            },
            None => {
                proof {
                    assert(!sweep_fits(kv, jacobi(kv, evs(edges@), frame_val as int, t as nat), evs(edges@)));
                }
                return None;
            },
        }
        t = t + 1;
    }
    Some(x)
}

/// The Jacobi solve: every node starts at the frame's value; node 0 is
/// the pin; `FIELD_SWEEPS` sweeps, integers only.
pub fn solve_field(nodes: &[Vec<u8>], frame_val: i128, edges: &[FieldEdge]) -> (x: Vec<i128>)
    requires
        nodes@.len() > 0,
        solve_fits(keys_view(nodes@), evs(edges@), frame_val as int, 21),
    ensures
        x@.map_values(|v: i128| v as int) == jacobi(keys_view(nodes@), evs(edges@), frame_val as int, 21),
{
    match solve_field_checked(nodes, frame_val, edges) {
        Some(x) => x,
        None => Vec::new(),
    }
}


// ─────────────────────────────────────────────
// Residual: the local holonomy of a solve
// ─────────────────────────────────────────────

/// (Σ w·|x_a − x_b − m̄|, Σ w·|m|) over the first `k` edges whose both
/// ends are nodes.
pub open spec fn residual_sums(nodes: Seq<Seq<u8>>, x: Seq<int>, edges: Seq<(Seq<u8>, Seq<u8>, int, int, int)>, k: nat) -> (int, int)
    decreases k,
{
    if k == 0 {
        (0, 0)
    } else {
        let s = residual_sums(nodes, x, edges, (k - 1) as nat);
        let e = edges[k - 1];
        let ia = node_index(nodes, e.0);
        let ib = node_index(nodes, e.1);
        if ia >= 0 && ib >= 0 {
            (s.0 + abs(x[ia] - x[ib] - e.2) * e.3, s.1 + e.4)
        } else {
            s
        }
    }
}

/// Residual mass over total margin mass, in millionths, at most 10⁶;
/// zero when there is no margin mass.
pub open spec fn residual_spec(nodes: Seq<Seq<u8>>, x: Seq<int>, edges: Seq<(Seq<u8>, Seq<u8>, int, int, int)>) -> int {
    let s = residual_sums(nodes, x, edges, edges.len());
    if s.1 > 0 {
        let r = s.0 * 1_000_000 / s.1;
        if r < 1_000_000 { r } else { 1_000_000 }
    } else {
        0
    }
}

/// Edge `k` of the residual computation stays within `i128`.
pub open spec fn residual_edge_fits(nodes: Seq<Seq<u8>>, x: Seq<int>, edges: Seq<(Seq<u8>, Seq<u8>, int, int, int)>, k: int) -> bool {
    let e = edges[k];
    let ia = node_index(nodes, e.0);
    let ib = node_index(nodes, e.1);
    let s = residual_sums(nodes, x, edges, (k + 1) as nat);
    &&& (ia >= 0 && ib >= 0 ==> fits(x[ia] - x[ib]) && fits(x[ia] - x[ib] - e.2)
        && fits(abs(x[ia] - x[ib] - e.2) * e.3))
    &&& fits(s.0) && fits(s.1)
}

/// Every intermediate of the residual computation fits an `i128`.
pub open spec fn residual_fits(nodes: Seq<Seq<u8>>, x: Seq<int>, edges: Seq<(Seq<u8>, Seq<u8>, int, int, int)>) -> bool {
    &&& forall|k: int| 0 <= k < edges.len() ==> #[trigger] residual_edge_fits(nodes, x, edges, k)
    &&& fits(residual_sums(nodes, x, edges, edges.len()).0 * 1_000_000)
}

proof fn lemma_residual_sums_nonneg(nodes: Seq<Seq<u8>>, x: Seq<int>, edges: Seq<(Seq<u8>, Seq<u8>, int, int, int)>, k: nat)
    requires
        k <= edges.len(),
        forall|q: int| 0 <= q < edges.len() ==> (#[trigger] edges[q]).3 >= 0 && edges[q].4 >= 0,
    ensures
        residual_sums(nodes, x, edges, k).0 >= 0,
        residual_sums(nodes, x, edges, k).1 >= 0,
    decreases k,
{
    if k > 0 {
        lemma_residual_sums_nonneg(nodes, x, edges, (k - 1) as nat);
        let e = edges[k - 1];
        let d = abs(x[node_index(nodes, e.0)] - x[node_index(nodes, e.1)] - e.2);
        assert(d * e.3 >= 0) by (nonlinear_arith)
            requires
                d >= 0,
                e.3 >= 0,
        ;
    }
}

/// The residual of a solved field, or None exactly when its computation
/// leaves `i128`.
pub fn field_residual_checked(nodes: &[Vec<u8>], x: &Vec<i128>, edges: &[FieldEdge]) -> (r: Option<i64>)
    requires
        x@.len() == nodes@.len(),
        forall|q: int| 0 <= q < edges@.len() ==> (#[trigger] evs(edges@)[q]).3 >= 0 && evs(edges@)[q].4 >= 0,
    ensures
        (r is Some) == residual_fits(keys_view(nodes@), x@.map_values(|v: i128| v as int), evs(edges@)),
        r matches Some(v) ==> v == residual_spec(keys_view(nodes@), x@.map_values(|v: i128| v as int), evs(edges@)),
{
    let ghost kv = keys_view(nodes@);
    let ghost xv = x@.map_values(|v: i128| v as int);
    let ghost ev = evs(edges@);
    let mut res: i128 = 0;
    let mut tot: i128 = 0;
    let mut k: usize = 0;
    while k < edges.len()
        invariant
            k <= edges@.len(),
            x@.len() == nodes@.len(),
            kv == keys_view(nodes@),
            xv == x@.map_values(|v: i128| v as int),
            ev == evs(edges@),
            (res as int, tot as int) == residual_sums(kv, xv, ev, k as nat),
            fits(res as int) && fits(tot as int),
            forall|q: int| 0 <= q < k ==> #[trigger] residual_edge_fits(kv, xv, ev, q),
        decreases edges@.len() - k,
    {
        let e = &edges[k];
        proof {
            let _ = residual_sums(kv, xv, ev, (k + 1) as nat);
        }
        match find_node(nodes, &e.a) {
            Some(ia) => match find_node(nodes, &e.b) {
                Some(ib) => {
                    proof {
                        assert(xv[ia as int] == x@[ia as int] && xv[ib as int] == x@[ib as int]);
                    }
                    let step = match sub_fit(x[ia], x[ib]) {
                        Some(d1) => match sub_fit(d1, e.mean) {
                            Some(d) => {
                                let ad = if d < 0 { -d } else { d };
                                match mul_fit(ad, e.weight) {
                                    Some(t) => match (add_fit(res, t), add_fit(tot, e.abs_mass)) {
                                        (Some(r2), Some(t2)) => Some((r2, t2)),
                                        _ => None,
                                    },
                                    None => None,
                                }
                            },
                            None => None,
                        },
                        None => None,
                    };
                    match step {
                        Some((r2, t2)) => {
                            res = r2;
                            tot = t2;
                        },
                        None => {
                            proof {
                                assert(!residual_edge_fits(kv, xv, ev, k as int));
                            }
                            return None;
                        },
                    }
                },
                None => {},
            },
            None => {},
        }
        proof {
            assert(residual_edge_fits(kv, xv, ev, k as int));
        }
        k = k + 1;
    }
    proof {
        lemma_residual_sums_nonneg(kv, xv, ev, ev.len() as nat);
        assert(ev.len() == edges@.len());
        assert(residual_sums(kv, xv, ev, ev.len()).0 == res as int);
    }
    let scaled = match mul_fit(res, 1_000_000) {
        Some(v) => v,
        None => {
            return None;
        },
    };
    if tot > 0 {
        let q = scaled / tot;
        if q < 1_000_000 {
            Some(q as i64)
        } else {
            Some(1_000_000)
        }
    } else {
        Some(0)
    }
}

/// The residual of a solved field.
pub fn field_residual(nodes: &[Vec<u8>], x: &Vec<i128>, edges: &[FieldEdge]) -> (r: i64)
    requires
        x@.len() == nodes@.len(),
        forall|q: int| 0 <= q < edges@.len() ==> (#[trigger] evs(edges@)[q]).3 >= 0 && evs(edges@)[q].4 >= 0,
        residual_fits(keys_view(nodes@), x@.map_values(|v: i128| v as int), evs(edges@)),
    ensures
        r == residual_spec(keys_view(nodes@), x@.map_values(|v: i128| v as int), evs(edges@)),
{
    match field_residual_checked(nodes, x, edges) {
        Some(v) => v,
        None => 0,
    }
}


// ─────────────────────────────────────────────
// The component search
// ─────────────────────────────────────────────

/// F(9): the most manifests a solved component holds.
pub const COMPONENT_CAP: usize = 34;

/// Admits `key` to the component unless it is known or the cap is full.
pub open spec fn enroll(vis: Seq<Seq<u8>>, fr: Seq<Seq<u8>>, key: Seq<u8>) -> (Seq<Seq<u8>>, Seq<Seq<u8>>) {
    if vis.contains(key) || vis.len() >= 34 {
        (vis, fr)
    } else {
        (vis.push(key), fr.push(key))
    }
}

/// Admission of the winner then the loser of each of the first `k` edges.
pub open spec fn enroll_edges(vis: Seq<Seq<u8>>, fr: Seq<Seq<u8>>, edges: Seq<RawEdge>, k: nat) -> (Seq<Seq<u8>>, Seq<Seq<u8>>)
    decreases k,
{
    if k == 0 {
        (vis, fr)
    } else {
        let p = enroll_edges(vis, fr, edges, (k - 1) as nat);
        let q = enroll(p.0, p.1, edges[k - 1].winner@);
        enroll(q.0, q.1, edges[k - 1].loser@)
    }
}

/// The breadth-first walk over comparative edges that gathers a field's
/// component: the manifests reached (visited), those still to expand
/// (frontier, expanded last-in first-out) and every edge read so far.
/// The store is read between steps: `next_node` names the manifest whose
/// edges to read, `absorb` takes them.
#[derive(Clone, Debug)]
pub struct FieldSearch {
    pub visited: Vec<Vec<u8>>,
    pub frontier: Vec<Vec<u8>>,
    pub raw: Vec<RawEdge>,
}

impl FieldSearch {
    /// A search around one manifest.
    pub fn new(anchor: Vec<u8>) -> (r: FieldSearch)
        ensures
            keys_view(r.visited@) == seq![anchor@],
            keys_view(r.frontier@) == seq![anchor@],
            r.raw@.len() == 0,
    {
        let mut visited: Vec<Vec<u8>> = Vec::new();
        let mut frontier: Vec<Vec<u8>> = Vec::new();
        let a2 = anchor.clone();
        proof {
            assert(a2@ =~= anchor@);
        }
        visited.push(anchor);
        frontier.push(a2);
        proof {
            assert(keys_view(visited@) =~= seq![a2@]);
            assert(keys_view(frontier@) =~= seq![a2@]);
        }
        FieldSearch { visited, frontier, raw: Vec::new() }
    }

    /// Seeds the search with a further manifest (an assertion's end),
    /// regardless of the cap.
    pub fn seed(&mut self, key: Vec<u8>)
        ensures
            if keys_view(old(self).visited@).contains(key@) {
                keys_view(final(self).visited@) == keys_view(old(self).visited@)
                    && keys_view(final(self).frontier@) == keys_view(old(self).frontier@)
            } else {
                keys_view(final(self).visited@) == keys_view(old(self).visited@).push(key@)
                    && keys_view(final(self).frontier@) == keys_view(old(self).frontier@).push(key@)
            },
            final(self).raw@ == old(self).raw@,
    {
        if !contains_key(self.visited.as_slice(), &key) {
            let k2 = key.clone();
            proof {
                assert(k2@ =~= key@);
            }
            let ghost v0 = self.visited@;
            let ghost f0 = self.frontier@;
            self.visited.push(key);
            self.frontier.push(k2);
            proof {
                assert(keys_view(self.visited@) =~= keys_view(v0).push(k2@));
                assert(keys_view(self.frontier@) =~= keys_view(f0).push(k2@));
            }
        }
    }

    /// The next manifest to expand: the most recently enrolled one still
    /// pending, unless the component is full (which ends the walk).
    pub fn next_node(&mut self) -> (r: Option<Vec<u8>>)
        ensures
            final(self).visited@ == old(self).visited@,
            final(self).raw@ == old(self).raw@,
            old(self).frontier@.len() == 0 ==> r is None && final(self).frontier@ == old(self).frontier@,
            old(self).frontier@.len() > 0 ==> keys_view(final(self).frontier@) == keys_view(old(self).frontier@).drop_last(),
            match r {
                Some(k) => old(self).frontier@.len() > 0 && old(self).visited@.len() < 34
                    && k@ == old(self).frontier@.last()@,
                None => old(self).frontier@.len() == 0 || old(self).visited@.len() >= 34,
            },
    {
        let ghost f0 = self.frontier@;
        match self.frontier.pop() {
            None => None,
            Some(k) => {
                proof {
                    assert(keys_view(self.frontier@) =~= keys_view(f0).drop_last());
                }
                if self.visited.len() >= COMPONENT_CAP {
                    None
                } else {
                    Some(k)
                }
            },
        }
    }

    /// Takes the comparative edges read at the expanded manifest: keeps
    /// them, and enrolls each edge's winner then loser while the component
    /// has room.
    pub fn absorb(&mut self, edges: Vec<RawEdge>)
        ensures
            final(self).raw@ == old(self).raw@ + edges@,
            (keys_view(final(self).visited@), keys_view(final(self).frontier@))
                == enroll_edges(keys_view(old(self).visited@), keys_view(old(self).frontier@), edges@, edges@.len() as nat),
    {
        let ghost v0 = keys_view(self.visited@);
        let ghost f0 = keys_view(self.frontier@);
        let ghost r0 = self.raw@;
        let mut edges = edges;
        let ghost e0 = edges@;
        let mut k: usize = 0;
        while k < edges.len()
            invariant
                k <= edges@.len(),
                edges@ == e0,
                self.raw@ == r0,
                (keys_view(self.visited@), keys_view(self.frontier@)) == enroll_edges(v0, f0, e0, k as nat),
            decreases edges@.len() - k,
        {
            let w = edges[k].winner.clone();
            let l = edges[k].loser.clone();
            proof {
                assert(w@ =~= edges@[k as int].winner@);
                assert(l@ =~= edges@[k as int].loser@);
            }
            self.enroll_key(w);
            self.enroll_key(l);
            k = k + 1;
        }
        self.raw.append(&mut edges);
    }

    fn enroll_key(&mut self, key: Vec<u8>)
        ensures
            (keys_view(final(self).visited@), keys_view(final(self).frontier@))
                == enroll(keys_view(old(self).visited@), keys_view(old(self).frontier@), key@),
            final(self).raw@ == old(self).raw@,
    {
        if !contains_key(self.visited.as_slice(), &key) && self.visited.len() < COMPONENT_CAP {
            let k2 = key.clone();
            proof {
                assert(k2@ =~= key@);
            }
            let ghost v0 = self.visited@;
            let ghost f0 = self.frontier@;
            self.visited.push(key);
            self.frontier.push(k2);
            proof {
                assert(keys_view(self.visited@) =~= keys_view(v0).push(k2@));
                assert(keys_view(self.frontier@) =~= keys_view(f0).push(k2@));
            }
        }
    }
}


// ─────────────────────────────────────────────
// Relational score and query completion
// ─────────────────────────────────────────────

proof fn lemma_aggregate_nonneg(raw: Seq<RawEdge>, keys: Seq<(Seq<u8>, Seq<u8>)>, p: nat)
    requires
        p <= keys.len(),
    ensures
        forall|q: int| 0 <= q < aggregate_prefix(raw, keys, p).len()
            ==> (#[trigger] aggregate_prefix(raw, keys, p)[q]).3 > 0 && aggregate_prefix(raw, keys, p)[q].4 >= 0,
    decreases p,
{
    if p > 0 {
        lemma_aggregate_nonneg(raw, keys, (p - 1) as nat);
        lemma_pair_sums_bounds(raw, keys[p - 1], raw.len());
        let r = aggregate_prefix(raw, keys, (p - 1) as nat);
        let s = pair_sums(raw, keys[p - 1], raw.len());
        if s.1 > 0 {
            let a = aggregate_of(raw, keys[p - 1]);
            assert(a.3 > 0 && a.4 >= 0);
            assert forall|q: int| 0 <= q < r.push(a).len() implies (#[trigger] r.push(a)[q]).3 > 0 && r.push(a)[q].4 >= 0 by {
                if q < r.len() {
                    assert(r.push(a)[q] == r[q]);
                }
            }
        }
    }
}

/// A manifest's standing in the solved field.
#[derive(Clone, Debug)]
pub struct RelationalScore {
    pub manifest: Vec<u8>,
    /// The gauge anchor: the manifest's absolute trust score, millionths.
    pub absolute_millionths: i64,
    /// Solved field position, millionths, within [0, 10⁶].
    pub relational_millionths: i64,
    /// Local holonomy of the solved component, millionths.
    pub residual_millionths: i64,
    pub component_size: u32,
    pub edge_count: u32,
}

pub open spec fn clamp_millionths(v: int) -> int {
    if v < 0 {
        0
    } else if v > 1_000_000 {
        1_000_000
    } else {
        v
    }
}

/// The component's manifests in ascending key order; the first is the
/// gauge frame.
pub open spec fn sorted_nodes(visited: Seq<Vec<u8>>) -> Seq<Seq<u8>> {
    keys_view(visited).sort_by(key_order())
}

/// The solve and its residual stay within `i128`.
pub open spec fn field_fits(nodes: Seq<Seq<u8>>, edges: Seq<(Seq<u8>, Seq<u8>, int, int, int)>, frame_val: int) -> bool {
    &&& solve_fits(nodes, edges, frame_val, 21)
    &&& residual_fits(nodes, jacobi(nodes, edges, frame_val, 21), edges)
}

fn solve_component_checked(visited: &[Vec<u8>], frame_val: i128, raw: &[RawEdge]) -> (r: Option<(Vec<Vec<u8>>, Vec<FieldEdge>, Vec<i128>, i64)>)
    requires
        visited@.len() > 0,
        raw_in_range(raw@),
    ensures
        (r is Some) == field_fits(sorted_nodes(visited@), aggregate_view(raw@), frame_val as int),
        r matches Some(t) ==> {
            &&& keys_view(t.0@) == sorted_nodes(visited@)
            &&& t.0@.len() == visited@.len()
            &&& t.2@.len() == t.0@.len()
            &&& evs(t.1@) == aggregate_view(raw@)
            &&& t.2@.map_values(|v: i128| v as int) == jacobi(sorted_nodes(visited@), aggregate_view(raw@), frame_val as int, 21)
            &&& t.3 == residual_spec(sorted_nodes(visited@), jacobi(sorted_nodes(visited@), aggregate_view(raw@), frame_val as int, 21), aggregate_view(raw@))
        },
{
    let nodes = sort_keys(visited);
    proof {
        crate::roster::lemma_key_order_total();
        keys_view(visited@).lemma_sort_by_ensures(key_order());
        assert(keys_view(visited@).len() > 0);
        keys_view(visited@).to_multiset_ensures();
        keys_view(nodes@).to_multiset_ensures();
        assert(keys_view(nodes@).len() == keys_view(visited@).len());
        assert(nodes@.len() == keys_view(nodes@).len());
    }
    let edges = aggregate_edges(raw);
    let x = match solve_field_checked(nodes.as_slice(), frame_val, edges.as_slice()) {
        Some(x) => x,
        None => {
            return None;
        },
    };
    proof {
        let keys = pair_keys(raw@, raw@.len());
        lemma_aggregate_nonneg(raw@, keys, keys.len());
        assert(x@.len() == nodes@.len()) by {
            assert(x@.map_values(|v: i128| v as int).len() == jacobi(keys_view(nodes@), evs(edges@), frame_val as int, 21).len());
        }
    }
    match field_residual_checked(nodes.as_slice(), &x, edges.as_slice()) {
        Some(residual) => Some((nodes, edges, x, residual)),
        None => None,
    }
}

/// Every edge's weight and mass multiplied by `c`: what the aggregation
/// of a record yields when every attester's weight is multiplied by `c`
/// (the weighted mean margin is unchanged).
pub open spec fn scale_edges(edges: Seq<(Seq<u8>, Seq<u8>, int, int, int)>, c: int) -> Seq<(Seq<u8>, Seq<u8>, int, int, int)> {
    edges.map_values(|e: (Seq<u8>, Seq<u8>, int, int, int)| (e.0, e.1, e.2, c * e.3, c * e.4))
}

proof fn lemma_residual_sums_scale(nodes: Seq<Seq<u8>>, x: Seq<int>, edges: Seq<(Seq<u8>, Seq<u8>, int, int, int)>, c: int, k: nat)
    requires
        k <= edges.len(),
    ensures
        residual_sums(nodes, x, scale_edges(edges, c), k).0 == c * residual_sums(nodes, x, edges, k).0,
        residual_sums(nodes, x, scale_edges(edges, c), k).1 == c * residual_sums(nodes, x, edges, k).1,
    decreases k,
{
    if k > 0 {
        lemma_residual_sums_scale(nodes, x, edges, c, (k - 1) as nat);
        let e = edges[k - 1];
        let se = scale_edges(edges, c)[k - 1];
        assert(se == (e.0, e.1, e.2, c * e.3, c * e.4));
        let s = residual_sums(nodes, x, edges, (k - 1) as nat);
        let ia = node_index(nodes, e.0);
        let ib = node_index(nodes, e.1);
        let d = abs(x[ia] - x[ib] - e.2);
        assert(c * s.0 + d * (c * e.3) == c * (s.0 + d * e.3)) by (nonlinear_arith);
        assert(c * s.1 + c * e.4 == c * (s.1 + e.4)) by (nonlinear_arith);
        let ss = scale_edges(edges, c);
        let t = residual_sums(nodes, x, ss, (k - 1) as nat);
        assert(t.0 == c * s.0 && t.1 == c * s.1);
        if ia >= 0 && ib >= 0 {
            assert(residual_sums(nodes, x, ss, k) == (t.0 + abs(x[ia] - x[ib] - se.2) * se.3, t.1 + se.4));
            assert(residual_sums(nodes, x, edges, k) == (s.0 + d * e.3, s.1 + e.4));
        } else {
            assert(residual_sums(nodes, x, ss, k) == t);
            assert(residual_sums(nodes, x, edges, k) == s);
        }
    } else {
        assert(c * 0 == 0) by (nonlinear_arith);
    }
}

/// The residual is a ratio of weighted masses: multiplying every
/// attester's weight by the same positive factor leaves it unchanged,
/// since each edge's inconsistency |x_a − x_b − m̄| counts with its weight
/// against the edge's weighted margin mass.
pub proof fn lemma_residual_scale_invariant(nodes: Seq<Seq<u8>>, x: Seq<int>, edges: Seq<(Seq<u8>, Seq<u8>, int, int, int)>, c: int)
    requires
        c > 0,
        forall|q: int| 0 <= q < edges.len() ==> (#[trigger] edges[q]).3 >= 0 && edges[q].4 >= 0,
    ensures
        residual_spec(nodes, x, scale_edges(edges, c)) == residual_spec(nodes, x, edges),
{
    let n = edges.len();
    assert(scale_edges(edges, c).len() == n);
    lemma_residual_sums_scale(nodes, x, edges, c, n);
    lemma_residual_sums_nonneg(nodes, x, edges, n);
    let a = residual_sums(nodes, x, edges, n).0;
    let b = residual_sums(nodes, x, edges, n).1;
    if b > 0 {
        assert(c * b > 0) by (nonlinear_arith)
            requires
                c > 0,
                b > 0,
        ;
        assert(a * 1_000_000 >= 0) by (nonlinear_arith)
            requires
                a >= 0,
        ;
        vstd::arithmetic::div_mod::lemma_div_multiples_vanish_quotient(c, a * 1_000_000, b);
        assert((c * a) * 1_000_000 == c * (a * 1_000_000)) by (nonlinear_arith);
    } else {
        assert(c * b <= 0) by (nonlinear_arith)
            requires
                c > 0,
                b <= 0,
        ;
    }
}

/// Every margin (and so every mean and every edge's margin mass)
/// multiplied by `c`.
pub open spec fn scale_margins(edges: Seq<(Seq<u8>, Seq<u8>, int, int, int)>, c: int) -> Seq<(Seq<u8>, Seq<u8>, int, int, int)> {
    edges.map_values(|e: (Seq<u8>, Seq<u8>, int, int, int)| (e.0, e.1, c * e.2, e.3, c * e.4))
}

/// Every position multiplied by `c`.
pub open spec fn scale_positions(x: Seq<int>, c: int) -> Seq<int> {
    x.map_values(|v: int| c * v)
}

proof fn lemma_residual_sums_scale_margins(nodes: Seq<Seq<u8>>, x: Seq<int>, edges: Seq<(Seq<u8>, Seq<u8>, int, int, int)>, c: int, k: nat)
    requires
        k <= edges.len(),
        c > 0,
        x.len() == nodes.len(),
        forall|q: int| 0 <= q < edges.len() ==> (#[trigger] edges[q]).3 >= 0,
    ensures
        residual_sums(nodes, scale_positions(x, c), scale_margins(edges, c), k).0 == c * residual_sums(nodes, x, edges, k).0,
        residual_sums(nodes, scale_positions(x, c), scale_margins(edges, c), k).1 == c * residual_sums(nodes, x, edges, k).1,
    decreases k,
{
    let ss = scale_margins(edges, c);
    let sx = scale_positions(x, c);
    if k > 0 {
        lemma_residual_sums_scale_margins(nodes, x, edges, c, (k - 1) as nat);
        let e = edges[k - 1];
        let se = ss[k - 1];
        assert(se == (e.0, e.1, c * e.2, e.3, c * e.4));
        let s = residual_sums(nodes, x, edges, (k - 1) as nat);
        let t = residual_sums(nodes, sx, ss, (k - 1) as nat);
        let ia = node_index(nodes, e.0);
        let ib = node_index(nodes, e.1);
        if ia >= 0 && ib >= 0 {
            lemma_find_key(nodes, e.0, nodes.len());
            lemma_find_key(nodes, e.1, nodes.len());
            assert(sx[ia] == c * x[ia] && sx[ib] == c * x[ib]);
            let v = x[ia] - x[ib] - e.2;
            assert(sx[ia] - sx[ib] - se.2 == c * v) by (nonlinear_arith)
                requires
                    sx[ia] == c * x[ia],
                    sx[ib] == c * x[ib],
                    se.2 == c * e.2,
                    v == x[ia] - x[ib] - e.2,
            ;
            assert(abs(c * v) == c * abs(v)) by (nonlinear_arith)
                requires
                    c > 0,
            ;
            assert(t.0 + c * abs(v) * e.3 == c * (s.0 + abs(v) * e.3)) by (nonlinear_arith)
                requires
                    t.0 == c * s.0,
            ;
            assert(t.1 + c * e.4 == c * (s.1 + e.4)) by (nonlinear_arith)
                requires
                    t.1 == c * s.1,
            ;
            assert(residual_sums(nodes, sx, ss, k) == (t.0 + abs(sx[ia] - sx[ib] - se.2) * se.3, t.1 + se.4));
            assert(residual_sums(nodes, x, edges, k) == (s.0 + abs(v) * e.3, s.1 + e.4));
        } else {
            assert(residual_sums(nodes, sx, ss, k) == t);
            assert(residual_sums(nodes, x, edges, k) == s);
        }
    } else {
        assert(c * 0 == 0) by (nonlinear_arith);
    }
}

/// The residual is a ratio of margin masses: measuring every margin and
/// every position on a scale `c` times finer leaves it unchanged, since
/// each edge's inconsistency |x_a − x_b − m̄| is weighed against the
/// edge's pre-mean margin mass Σ w·|m|, not against its bare weight.
pub proof fn lemma_residual_unit_invariant(nodes: Seq<Seq<u8>>, x: Seq<int>, edges: Seq<(Seq<u8>, Seq<u8>, int, int, int)>, c: int)
    requires
        c > 0,
        x.len() == nodes.len(),
        forall|q: int| 0 <= q < edges.len() ==> (#[trigger] edges[q]).3 >= 0 && edges[q].4 >= 0,
    ensures
        residual_spec(nodes, scale_positions(x, c), scale_margins(edges, c)) == residual_spec(nodes, x, edges),
{
    let n = edges.len();
    assert(scale_margins(edges, c).len() == n);
    lemma_residual_sums_scale_margins(nodes, x, edges, c, n);
    lemma_residual_sums_nonneg(nodes, x, edges, n);
    let a = residual_sums(nodes, x, edges, n).0;
    let b = residual_sums(nodes, x, edges, n).1;
    if b > 0 {
        assert(c * b > 0) by (nonlinear_arith)
            requires
                c > 0,
                b > 0,
        ;
        assert(a * 1_000_000 >= 0) by (nonlinear_arith)
            requires
                a >= 0,
        ;
        vstd::arithmetic::div_mod::lemma_div_multiples_vanish_quotient(c, a * 1_000_000, b);
        assert((c * a) * 1_000_000 == c * (a * 1_000_000)) by (nonlinear_arith);
    } else {
        assert(c * b <= 0) by (nonlinear_arith)
            requires
                c > 0,
                b <= 0,
        ;
    }
}

/// The facts a relational score states: the anchor's solved position
/// (its own absolute score where it is not a node), clamped to
/// [0, 10⁶], the solve's residual and the component's size.
pub open spec fn is_relational_score(
    anchor: Seq<u8>,
    visited: Seq<Vec<u8>>,
    frame_val: int,
    anchor_val: i128,
    raw: Seq<RawEdge>,
    r: RelationalScore,
) -> bool {
    let nodes = sorted_nodes(visited);
    let edges = aggregate_view(raw);
    let x = jacobi(nodes, edges, frame_val, 21);
    let i = node_index(nodes, anchor);
    &&& r.manifest@ == anchor
    &&& r.absolute_millionths == anchor_val as i64
    &&& r.relational_millionths == clamp_millionths(if i >= 0 { x[i] } else { anchor_val as int })
    &&& r.residual_millionths == residual_spec(nodes, x, edges)
    &&& r.component_size == visited.len() as u32
    &&& r.edge_count == edges.len() as u32
}

/// The field position of `anchor` in the component `visited` (whose
/// comparative edges are `raw`): frame pinned at `frame_val` (the
/// lexicographically first manifest's absolute score), `anchor_val` the
/// anchor's own absolute score, used where the anchor is not a node; None
/// exactly when the solve or its residual would leave `i128`.
pub fn relational_score_checked(
    anchor: &Vec<u8>,
    visited: &[Vec<u8>],
    frame_val: i128,
    anchor_val: i128,
    raw: &[RawEdge],
) -> (r: Option<RelationalScore>)
    requires
        visited@.len() > 0,
        raw_in_range(raw@),
    ensures
        (r is Some) == field_fits(sorted_nodes(visited@), aggregate_view(raw@), frame_val as int),
        r matches Some(score) ==> is_relational_score(anchor@, visited@, frame_val as int, anchor_val, raw@, score),
{
    let (nodes, edges, x, residual) = match solve_component_checked(visited, frame_val, raw) {
        Some(t) => t,
        None => {
            return None;
        },
    };
    let pos: i128 = match find_node(nodes.as_slice(), anchor) {
        Some(i) => {
            proof {
                assert(x@.map_values(|v: i128| v as int)[i as int] == x@[i as int]);
            }
            x[i]
        },
        None => anchor_val,
    };
    let rel: i64 = if pos < 0 {
        0
    } else if pos > 1_000_000 {
        1_000_000
    } else {
        pos as i64
    };
    let m = anchor.clone();
    proof {
        assert(m@ =~= anchor@);
        assert(edges@.len() == evs(edges@).len());
    }
    Some(RelationalScore {
        manifest: m,
        absolute_millionths: anchor_val as i64,
        relational_millionths: rel,
        residual_millionths: residual,
        component_size: visited.len() as u32,
        edge_count: edges.len() as u32,
    })
}


/// The field position of `anchor` in the component `visited`, on inputs
/// whose solve stays within `i128` (`relational_score_checked` decides it).
pub fn relational_score(
    anchor: &Vec<u8>,
    visited: &[Vec<u8>],
    frame_val: i128,
    anchor_val: i128,
    raw: &[RawEdge],
) -> (r: RelationalScore)
    requires
        visited@.len() > 0,
        raw_in_range(raw@),
        field_fits(sorted_nodes(visited@), aggregate_view(raw@), frame_val as int),
    ensures
        is_relational_score(anchor@, visited@, frame_val as int, anchor_val, raw@, r),
{
    match relational_score_checked(anchor, visited, frame_val, anchor_val, raw) {
        Some(score) => score,
        None => RelationalScore {
            manifest: Vec::new(),
            absolute_millionths: 0,
            relational_millionths: 0,
            residual_millionths: 0,
            component_size: 0,
            edge_count: 0,
        },
    }
}

/// An asker's claim: `better` over `worse` by a margin, millionths.
#[derive(Clone, Debug)]
pub struct QueryAssertion {
    pub better: Vec<u8>,
    pub worse: Vec<u8>,
    pub margin_millionths: i64,
}

/// The record's edges followed by the asker's assertions, each staked at
/// the full weight 10⁶.
pub fn with_assertions(raw: &[RawEdge], assertions: &[QueryAssertion]) -> (r: Vec<RawEdge>)
    ensures
        r@.len() == raw@.len() + assertions@.len(),
        forall|q: int| 0 <= q < raw@.len() ==> raw_same(#[trigger] r@[q], raw@[q]),
        forall|q: int| 0 <= q < assertions@.len() ==> {
            let e = #[trigger] r@[raw@.len() + q];
            &&& e.winner@ == assertions@[q].better@
            &&& e.loser@ == assertions@[q].worse@
            &&& e.margin == assertions@[q].margin_millionths
            &&& e.weight == 1_000_000
        },
{
    let mut out: Vec<RawEdge> = Vec::new();
    let mut i: usize = 0;
    while i < raw.len()
        invariant
            i <= raw@.len(),
            out@.len() == i,
            forall|q: int| 0 <= q < i ==> raw_same(#[trigger] out@[q], raw@[q]),
        decreases raw@.len() - i,
    {
        out.push(clone_raw(&raw[i]));
        i = i + 1;
    }
    let mut j: usize = 0;
    while j < assertions.len()
        invariant
            j <= assertions@.len(),
            out@.len() == raw@.len() + j,
            forall|q: int| 0 <= q < raw@.len() ==> raw_same(#[trigger] out@[q], raw@[q]),
            forall|q: int| 0 <= q < j ==> {
                let e = #[trigger] out@[raw@.len() + q];
                &&& e.winner@ == assertions@[q].better@
                &&& e.loser@ == assertions@[q].worse@
                &&& e.margin == assertions@[q].margin_millionths
                &&& e.weight == 1_000_000
            },
        decreases assertions@.len() - j,
    {
        let a = &assertions[j];
        let w = a.better.clone();
        let l = a.worse.clone();
        proof {
            assert(w@ =~= a.better@);
            assert(l@ =~= a.worse@);
        }
        out.push(RawEdge { winner: w, loser: l, margin: a.margin_millionths, weight: 1_000_000 });
        j = j + 1;
    }
    out
}

/// Two raw edges carry the same values.
pub open spec fn raw_same(e: RawEdge, f: RawEdge) -> bool {
    e.winner@ == f.winner@ && e.loser@ == f.loser@ && e.margin == f.margin && e.weight == f.weight
}

fn clone_raw(e: &RawEdge) -> (r: RawEdge)
    ensures
        raw_same(r, *e),
{
    let w = e.winner.clone();
    let l = e.loser.clone();
    proof {
        assert(w@ =~= e.winner@);
        assert(l@ =~= e.loser@);
    }
    RawEdge { winner: w, loser: l, margin: e.margin, weight: e.weight }
}

/// The facts a field completion states: the clamped position of every
/// manifest of the component, in ascending key order, and the residual.
pub open spec fn is_field_completion(
    visited: Seq<Vec<u8>>,
    frame_val: int,
    raw: Seq<RawEdge>,
    r: (Vec<(Vec<u8>, i64)>, i64),
) -> bool {
    let nodes = sorted_nodes(visited);
    let edges = aggregate_view(raw);
    let x = jacobi(nodes, edges, frame_val, 21);
    &&& r.0@.len() == nodes.len()
    &&& forall|q: int| 0 <= q < nodes.len() ==> (#[trigger] r.0@[q]).0@ == nodes[q]
        && r.0@[q].1 == clamp_millionths(x[q])
    &&& r.1 == residual_spec(nodes, x, edges)
}

/// The solved positions of every manifest of the component (ascending
/// key order, clamped to [0, 10⁶]) and the solve's residual: the
/// completion of a query whose assertions `raw` already carries; None
/// exactly when the solve or its residual would leave `i128`.
pub fn field_completions_checked(visited: &[Vec<u8>], frame_val: i128, raw: &[RawEdge]) -> (r: Option<(Vec<(Vec<u8>, i64)>, i64)>)
    requires
        visited@.len() > 0,
        raw_in_range(raw@),
    ensures
        (r is Some) == field_fits(sorted_nodes(visited@), aggregate_view(raw@), frame_val as int),
        r matches Some(c) ==> is_field_completion(visited@, frame_val as int, raw@, c),
{
    let (nodes, edges, x, residual) = match solve_component_checked(visited, frame_val, raw) {
        Some(t) => t,
        None => {
            return None;
        },
    };
    let ghost xv = x@.map_values(|v: i128| v as int);
    let mut out: Vec<(Vec<u8>, i64)> = Vec::new();
    let mut i: usize = 0;
    while i < nodes.len()
        invariant
            i <= nodes@.len(),
            x@.len() == nodes@.len(),
            xv == x@.map_values(|v: i128| v as int),
            out@.len() == i,
            forall|q: int| 0 <= q < i ==> (#[trigger] out@[q]).0@ == nodes@[q]@ && out@[q].1 == clamp_millionths(xv[q]),
        decreases nodes@.len() - i,
    {
        let v = x[i];
        let c: i64 = if v < 0 {
            0
        } else if v > 1_000_000 {
            1_000_000
        } else {
            v as i64
        };
        let k = nodes[i].clone();
        proof {
            assert(k@ =~= nodes@[i as int]@);
        }
        out.push((k, c));
        i = i + 1;
    }
    proof {
        assert(x@.len() == nodes@.len()) by {
            assert(xv.len() == sorted_nodes(visited@).len());
            assert(keys_view(nodes@).len() == nodes@.len());
        }
    }
    Some((out, residual))
}

/// The completion of a query on inputs whose solve stays within `i128`
/// (`field_completions_checked` decides it).
pub fn field_completions(visited: &[Vec<u8>], frame_val: i128, raw: &[RawEdge]) -> (r: (Vec<(Vec<u8>, i64)>, i64))
    requires
        visited@.len() > 0,
        raw_in_range(raw@),
        field_fits(sorted_nodes(visited@), aggregate_view(raw@), frame_val as int),
    ensures
        is_field_completion(visited@, frame_val as int, raw@, r),
{
    match field_completions_checked(visited, frame_val, raw) {
        Some(c) => c,
        None => (Vec::new(), 0),
    }
}

/// How a query's completion routes.
#[derive(Clone, Copy, Debug, PartialEq, Eq, Structural)]
pub enum QueryVerdict {
    /// Record and assertions agree.
    Entailed,
    /// Without the assertions the record is flat: the asker contradicts it.
    AskerConflict,
    /// The record itself is in dispute here.
    RecordDispute,
}

/// ⌊10⁶·φ⁻⁴⌋: the negligibility band on residuals, millionths.
pub const RESIDUAL_MARGIN_MILLIONTHS: i64 = 145_898;

pub open spec fn verdict_spec(residual_with: i64, residual_without: i64) -> QueryVerdict {
    if residual_with <= 145_898 {
        QueryVerdict::Entailed
    } else if residual_without <= 145_898 {
        QueryVerdict::AskerConflict
    } else {
        QueryVerdict::RecordDispute
    }
}

/// Routes a query by its residuals with and without the asker's
/// assertions against the φ⁻⁴ band.
pub fn query_verdict(residual_with: i64, residual_without: i64) -> (r: QueryVerdict)
    ensures
        r == verdict_spec(residual_with, residual_without),
{
    if residual_with <= RESIDUAL_MARGIN_MILLIONTHS {
        QueryVerdict::Entailed
    } else if residual_without <= RESIDUAL_MARGIN_MILLIONTHS {
        QueryVerdict::AskerConflict
    } else {
        QueryVerdict::RecordDispute
    }
}

impl QueryVerdict {
    /// The verdict's wire name.
    pub fn as_str(&self) -> (r: &'static str)
        ensures
            r@ == match *self {
                QueryVerdict::Entailed => "entailed"@,
                QueryVerdict::AskerConflict => "asker_conflict"@,
                QueryVerdict::RecordDispute => "record_dispute"@,
            },
    {
        match self {
            QueryVerdict::Entailed => "entailed",
            QueryVerdict::AskerConflict => "asker_conflict",
            QueryVerdict::RecordDispute => "record_dispute",
        }
    }
}

/// The Witness Engine's answer to a query.
#[derive(Clone, Debug)]
pub struct QueryCompletion {
    pub verdict: QueryVerdict,
    pub completions: Vec<(Vec<u8>, i64)>,
    pub residual_with: i64,
    pub residual_without: i64,
    pub component_size: u32,
    pub edge_count: u32,
}

/// Assembles a query completion from the pinned manifest's plain solve
/// (`base`) and the solve with the assertions injected.
pub fn query_completion(
    base: &RelationalScore,
    completions: Vec<(Vec<u8>, i64)>,
    residual_with: i64,
    n_assertions: usize,
) -> (r: QueryCompletion)
    requires
        base.edge_count + n_assertions <= u32::MAX,
    ensures
        r.verdict == verdict_spec(residual_with, base.residual_millionths),
        r.completions == completions,
        r.residual_with == residual_with,
        r.residual_without == base.residual_millionths,
        r.component_size == base.component_size,
        r.edge_count == base.edge_count + n_assertions,
{
    QueryCompletion {
        verdict: query_verdict(residual_with, base.residual_millionths),
        completions,
        residual_with,
        residual_without: base.residual_millionths,
        component_size: base.component_size,
        edge_count: base.edge_count + n_assertions as u32,
    }
}


/// The pair sums see raw edges only through their values.
pub proof fn lemma_same_raw(a: Seq<RawEdge>, b: Seq<RawEdge>, k: nat)
    requires
        a.len() == b.len(),
        k <= a.len(),
        forall|q: int| 0 <= q < a.len() ==> raw_same(#[trigger] a[q], b[q]),
    ensures
        pair_keys(a, k) == pair_keys(b, k),
        forall|key: (Seq<u8>, Seq<u8>)| #[trigger] pair_sums(a, key, k) == pair_sums(b, key, k),
    decreases k,
{
    if k > 0 {
        lemma_same_raw(a, b, (k - 1) as nat);
        assert(raw_same(a[k - 1], b[k - 1]));
        assert(raw_key(a[k - 1]) == raw_key(b[k - 1]));
        assert(raw_signed(a[k - 1]) == raw_signed(b[k - 1]));
        assert forall|key: (Seq<u8>, Seq<u8>)| #[trigger] pair_sums(a, key, k) == pair_sums(b, key, k) by {
            assert(pair_sums(a, key, (k - 1) as nat) == pair_sums(b, key, (k - 1) as nat));
        }
    }
}


/// The gauge frame never moves: after any number of sweeps the first node
/// (the pin) still sits at the frame's value.
pub proof fn lemma_frame_pinned(nodes: Seq<Seq<u8>>, edges: Seq<(Seq<u8>, Seq<u8>, int, int, int)>, frame_val: int, t: nat)
    requires
        nodes.len() > 0,
    ensures
        jacobi(nodes, edges, frame_val, t).len() == nodes.len(),
        jacobi(nodes, edges, frame_val, t)[0] == frame_val,
    decreases t,
{
    if t > 0 {
        lemma_frame_pinned(nodes, edges, frame_val, (t - 1) as nat);
    }
}

/// A residual is a fraction in millionths: between 0 and 10⁶.
pub proof fn lemma_residual_bounded(nodes: Seq<Seq<u8>>, x: Seq<int>, edges: Seq<(Seq<u8>, Seq<u8>, int, int, int)>)
    requires
        forall|q: int| 0 <= q < edges.len() ==> (#[trigger] edges[q]).3 >= 0 && edges[q].4 >= 0,
    ensures
        0 <= residual_spec(nodes, x, edges) <= 1_000_000,
{
    lemma_residual_sums_nonneg(nodes, x, edges, edges.len());
    let s = residual_sums(nodes, x, edges, edges.len());
    if s.1 > 0 {
        assert(s.0 * 1_000_000 >= 0) by (nonlinear_arith)
            requires
                s.0 >= 0,
        ;
        assert(s.0 * 1_000_000 / s.1 >= 0) by (nonlinear_arith)
            requires
                s.0 * 1_000_000 >= 0,
                s.1 > 0,
        ;
    }
}

/// A record with no comparative edges solves to the flat field: every
/// manifest sits at the frame's value, and the residual is zero.
pub proof fn lemma_empty_record_is_flat(nodes: Seq<Seq<u8>>, frame_val: int, t: nat)
    requires
        nodes.len() > 0,
    ensures
        forall|i: int| 0 <= i < nodes.len() ==> #[trigger] jacobi(nodes, Seq::empty(), frame_val, t)[i] == frame_val,
        residual_spec(nodes, jacobi(nodes, Seq::empty(), frame_val, t), Seq::empty()) == 0,
    decreases t,
{
    if t > 0 {
        lemma_empty_record_is_flat(nodes, frame_val, (t - 1) as nat);
        let x = jacobi(nodes, Seq::empty(), frame_val, (t - 1) as nat);
        assert forall|i: int| 0 <= i < nodes.len() implies #[trigger] jacobi(nodes, Seq::empty(), frame_val, t)[i] == frame_val by {
            assert(node_sums(nodes, x, nodes[i], Seq::empty(), 0) == (0int, 0int));
        }
    }
}


/// The field does not depend on the entry point: components that hold
/// the same manifests, found in any order, solve over the same node order
/// (and so the same frame).
pub proof fn lemma_component_order_is_canonical(v1: Seq<Vec<u8>>, v2: Seq<Vec<u8>>)
    requires
        keys_view(v1).to_multiset() == keys_view(v2).to_multiset(),
    ensures
        sorted_nodes(v1) == sorted_nodes(v2),
{
    crate::roster::lemma_key_order_total();
    keys_view(v1).lemma_sort_by_ensures(key_order());
    keys_view(v2).lemma_sort_by_ensures(key_order());
    vstd::seq_lib::lemma_sorted_unique(sorted_nodes(v1), sorted_nodes(v2), key_order());
}

} // verus!
