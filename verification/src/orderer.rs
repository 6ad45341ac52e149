//! Ordering the nodes of a layer against the layer before it.
//!
//! A node is scored by the places, in the layer before, of the sources of
//! the edges that enter it: by their average or by their median. A node
//! with no such edge scores 0. The layer is then sorted by score; nodes of
//! equal score keep their order. Layers are ordered from the first on, each
//! against the final order of the one before; the first layer stays as it
//! is.

use vstd::prelude::*;
use crate::layering::{edges_resolved, lemma_source_has_edge, predecessors, repeated, sources_into};
use crate::ranking::{
    lemma_stable_sorted_idempotent, lemma_stable_sorted_is_ranked, lemma_stable_sorted_maps,
    lemma_stable_sorted_permutes, stable_sort, stable_sorted, Ranked,
};
use crate::sankey::LayerOrderingMethod;

verus! {

/// A score: the quotient of `num` by `den`, where a `den` of 0 stands for 1.
#[derive(Clone, Copy, Debug, PartialEq, Eq, Structural)]
pub struct Score {
    pub num: u128,
    pub den: u64,
}

impl Score {
    /// What `num` is divided by.
    pub open spec fn divisor(&self) -> int {
        if self.den == 0 {
            1
        } else {
            self.den as int
        }
    }

    /// The score is no higher than `other`.
    pub open spec fn le_spec(&self, other: &Score) -> bool {
        self.num * other.divisor() <= other.num * self.divisor()
    }

    /// Whether the score is no higher than `other`.
    pub fn le(&self, other: &Score) -> (r: bool)
        ensures
            r == self.le_spec(other),
    {
        let da: u128 = if self.den == 0 {
            1
        } else {
            self.den as u128
        };
        let db: u128 = if other.den == 0 {
            1
        } else {
            other.den as u128
        };
        let qa = self.num / da;
        let ra = self.num % da;
        let qb = other.num / db;
        let rb = other.num % db;
        proof {
            lemma_compare_by_parts(
                self.num as int,
                da as int,
                other.num as int,
                db as int,
                qa as int,
                ra as int,
                qb as int,
                rb as int,
            );
        }
        if qa != qb {
            qa < qb
        } else {
            assert(ra * db <= 0xffff_ffff_ffff_ffff * 0xffff_ffff_ffff_ffff && rb * da
                <= 0xffff_ffff_ffff_ffff * 0xffff_ffff_ffff_ffff) by (nonlinear_arith)
                requires
                    0 <= ra <= 0xffff_ffff_ffff_ffff,
                    0 <= db <= 0xffff_ffff_ffff_ffff,
                    0 <= rb <= 0xffff_ffff_ffff_ffff,
                    0 <= da <= 0xffff_ffff_ffff_ffff,
            ;
            ra * db <= rb * da
        }
    }
}

/// Two quotients compare as their whole parts do, and where these are
/// equal, as their remainders do.
proof fn lemma_compare_by_parts(
    a: int,
    da: int,
    b: int,
    db: int,
    qa: int,
    ra: int,
    qb: int,
    rb: int,
)
    requires
        0 <= a,
        0 <= b,
        0 < da,
        0 < db,
        qa == a / da,
        ra == a % da,
        qb == b / db,
        rb == b % db,
    ensures
        a * db <= b * da <==> (qa < qb || (qa == qb && ra * db <= rb * da)),
        0 <= ra < da,
        0 <= rb < db,
{
    vstd::arithmetic::div_mod::lemma_fundamental_div_mod(a, da);
    vstd::arithmetic::div_mod::lemma_fundamental_div_mod(b, db);
    vstd::arithmetic::div_mod::lemma_mod_bound(a, da);
    vstd::arithmetic::div_mod::lemma_mod_bound(b, db);
    assert(a * db <= b * da <==> (qa < qb || (qa == qb && ra * db <= rb * da)))
        by (nonlinear_arith)
        requires
            a == da * qa + ra,
            b == db * qb + rb,
            0 <= ra < da,
            0 <= rb < db,
            0 < da,
            0 < db,
    {
        assert(a * db == qa * (da * db) + ra * db);
        assert(b * da == qb * (da * db) + rb * da);
        assert(ra * db < da * db);
        assert(rb * da < da * db);
        if qa < qb {
            assert(qb * (da * db) >= (qa + 1) * (da * db));
        }
        if qb < qa {
            assert(qa * (da * db) >= (qb + 1) * (da * db));
        }
    }
}

/// Being no higher carries over from score to score.
proof fn lemma_score_transitive(a: Score, b: Score, c: Score)
    requires
        a.le_spec(&b),
        b.le_spec(&c),
    ensures
        a.le_spec(&c),
{
    let (x, dx) = (a.num as int, a.divisor());
    let (y, dy) = (b.num as int, b.divisor());
    let (z, dz) = (c.num as int, c.divisor());
    assert(x * dz <= z * dx) by (nonlinear_arith)
        requires
            x * dy <= y * dx,
            y * dz <= z * dy,
            0 <= x,
            0 <= y,
            0 <= z,
            0 < dx,
            0 < dy,
            0 < dz,
    {
        assert((x * dy) * dz <= (y * dx) * dz);
        assert((y * dz) * dx <= (z * dy) * dx);
        assert((x * dz) * dy <= (z * dx) * dy);
    }
}

/// A node with its score.
#[derive(Clone, Copy, Debug, PartialEq, Eq, Structural)]
pub struct ScoredNode {
    pub node: usize,
    pub score: Score,
}

impl Ranked for ScoredNode {
    /// Nodes rank by score.
    open spec fn rank_le(&self, other: &Self) -> bool {
        self.score.le_spec(&other.score)
    }

    proof fn rank_total(a: &Self, b: &Self) {
    }

    proof fn rank_transitive(a: &Self, b: &Self, c: &Self) {
        lemma_score_transitive(a.score, b.score, c.score);
    }

    fn le(&self, other: &Self) -> (r: bool) {
        self.score.le(&other.score)
    }
}

/// The first place of `node` in `layer`, if it is there.
pub open spec fn slot_of(layer: Seq<usize>, node: usize) -> Option<usize>
    decreases layer.len(),
{
    if layer.len() == 0 {
        None
    } else {
        match slot_of(layer.drop_last(), node) {
            Some(k) => Some(k),
            None => if layer.last() == node {
                Some((layer.len() - 1) as usize)
            } else {
                None
            },
        }
    }
}

/// The places in `previous` of those of `sources` that are there, in the
/// order of `sources`.
pub open spec fn slots_among(sources: Seq<usize>, previous: Seq<usize>) -> Seq<usize>
    decreases sources.len(),
{
    if sources.len() == 0 {
        Seq::empty()
    } else {
        let rest = slots_among(sources.drop_last(), previous);
        match slot_of(previous, sources.last()) {
            Some(k) => rest.push(k),
            None => rest,
        }
    }
}

/// The places in `previous` of the sources of the edges that enter `node`.
pub open spec fn neighbour_slots(
    edges: Seq<(usize, usize)>,
    previous: Seq<usize>,
    node: usize,
) -> Seq<usize> {
    slots_among(sources_into(edges, node as int), previous)
}

/// Sum of the numbers in `slots`.
pub open spec fn sum_of(slots: Seq<usize>) -> nat
    decreases slots.len(),
{
    if slots.len() == 0 {
        0
    } else {
        sum_of(slots.drop_last()) + slots.last() as nat
    }
}

/// The average of `slots`, or 0 where there are none.
pub open spec fn barycenter(slots: Seq<usize>) -> Score {
    if slots.len() == 0 {
        Score { num: 0, den: 1 }
    } else {
        Score { num: sum_of(slots) as u128, den: slots.len() as u64 }
    }
}

/// The median of `slots`: the middle one when they are put in order, or
/// the average of the two middle ones; 0 where there are none.
pub open spec fn median(slots: Seq<usize>) -> Score {
    let sorted = stable_sorted(slots);
    let mid = slots.len() as int / 2;
    if slots.len() == 0 {
        Score { num: 0, den: 1 }
    } else if slots.len() % 2 == 1 {
        Score { num: (2 * sorted[mid]) as u128, den: 2 }
    } else {
        Score { num: (sorted[mid - 1] + sorted[mid]) as u128, den: 2 }
    }
}

/// The score of `node` against the layer `previous`.
pub open spec fn score_of(
    method: LayerOrderingMethod,
    edges: Seq<(usize, usize)>,
    previous: Seq<usize>,
    node: usize,
) -> Score {
    match method {
        LayerOrderingMethod::Barycenter => barycenter(neighbour_slots(edges, previous, node)),
        LayerOrderingMethod::Median => median(neighbour_slots(edges, previous, node)),
    }
}

/// The nodes of `layer`, each with its score against `previous`.
pub open spec fn scored(
    method: LayerOrderingMethod,
    edges: Seq<(usize, usize)>,
    previous: Seq<usize>,
    layer: Seq<usize>,
) -> Seq<ScoredNode> {
    Seq::new(
        layer.len(),
        |k: int| ScoredNode { node: layer[k], score: score_of(method, edges, previous, layer[k]) },
    )
}

/// The nodes of `scored`, without their scores.
pub open spec fn nodes_of(scored: Seq<ScoredNode>) -> Seq<usize> {
    Seq::new(scored.len(), |k: int| scored[k].node)
}

/// `layer` in ascending order of score against `previous`, nodes of equal
/// score in the order they had.
pub open spec fn ordered_layer(
    method: LayerOrderingMethod,
    edges: Seq<(usize, usize)>,
    previous: Seq<usize>,
    layer: Seq<usize>,
) -> Seq<usize> {
    nodes_of(stable_sorted(scored(method, edges, previous, layer)))
}

/// The layers in their final order: the first as it is, every other
/// ordered against the final order of the one before.
pub open spec fn ordered_layers(
    method: LayerOrderingMethod,
    edges: Seq<(usize, usize)>,
    layers: Seq<Seq<usize>>,
) -> Seq<Seq<usize>>
    decreases layers.len(),
{
    if layers.len() <= 1 {
        layers
    } else {
        let before = ordered_layers(method, edges, layers.drop_last());
        before.push(ordered_layer(method, edges, before.last(), layers.last()))
    }
}

/// The contents of each vector.
pub open spec fn rows(layers: Seq<Vec<usize>>) -> Seq<Seq<usize>> {
    Seq::new(layers.len(), |i: int| layers[i]@)
}

/// Every node of every layer is below `node_count`.
pub open spec fn layers_resolved(node_count: nat, layers: Seq<Seq<usize>>) -> bool {
    forall|i: int, k: int|
        0 <= i < layers.len() && 0 <= k < layers[i].len() ==> (#[trigger] layers[i][k])
            < node_count
}

/// For every node below `node_count`, its first place in `layer`.
pub(crate) fn slot_table(node_count: usize, layer: &Vec<usize>) -> (table: Vec<Option<usize>>)
    ensures
        table.len() == node_count,
        forall|v: int| 0 <= v < node_count ==> #[trigger] table[v] == slot_of(layer@, v as usize),
{
    let mut table: Vec<Option<usize>> = repeated(node_count, None);
    let mut k: usize = 0;
    while k < layer.len()
        invariant
            k <= layer.len(),
            table.len() == node_count,
            forall|v: int|
                0 <= v < node_count ==> #[trigger] table[v] == slot_of(
                    layer@.take(k as int),
                    v as usize,
                ),
        decreases layer.len() - k,
    {
        let node = layer[k];
        proof {
            assert(layer@.take(k + 1).drop_last() =~= layer@.take(k as int));
            assert(layer@.take(k + 1).last() == node);
        }
        if node < node_count {
            if table[node].is_none() {
                table.set(node, Some(k));
            }
        }
        k = k + 1;
    }
    assert(layer@.take(layer.len() as int) =~= layer@);
    table
}

/// The places, by `table`, of those of `sources` that have one.
fn collect_slots(sources: &Vec<usize>, table: &Vec<Option<usize>>, previous: Ghost<Seq<usize>>) -> (slots:
    Vec<usize>)
    requires
        forall|k: int| 0 <= k < sources.len() ==> sources[k] < table.len(),
        forall|v: int|
            0 <= v < table.len() ==> #[trigger] table[v] == slot_of(previous@, v as usize),
    ensures
        slots@ == slots_among(sources@, previous@),
{
    let mut slots: Vec<usize> = Vec::new();
    let mut k: usize = 0;
    while k < sources.len()
        invariant
            k <= sources.len(),
            forall|m: int| 0 <= m < sources.len() ==> sources[m] < table.len(),
            forall|v: int|
                0 <= v < table.len() ==> #[trigger] table[v] == slot_of(previous@, v as usize),
            slots@ == slots_among(sources@.take(k as int), previous@),
        decreases sources.len() - k,
    {
        proof {
            assert(sources@.take(k + 1).drop_last() =~= sources@.take(k as int));
            assert(sources@.take(k + 1).last() == sources[k as int]);
        }
        match table[sources[k]] {
            Some(slot) => {
                slots.push(slot);
            },
            None => {},
        }
        k = k + 1;
    }
    assert(sources@.take(sources.len() as int) =~= sources@);
    slots
}

/// The sum of as many numbers as a vector holds fits an `u128`.
proof fn lemma_sum_bound(slots: Seq<usize>)
    requires
        slots.len() <= usize::MAX,
    ensures
        sum_of(slots) <= slots.len() * 0xffff_ffff_ffff_ffff,
        sum_of(slots) <= 0xffff_ffff_ffff_ffff * 0xffff_ffff_ffff_ffff,
    decreases slots.len(),
{
    if slots.len() > 0 {
        lemma_sum_bound(slots.drop_last());
        assert((slots.len() - 1) * 0xffff_ffff_ffff_ffff + 0xffff_ffff_ffff_ffff == slots.len()
            * 0xffff_ffff_ffff_ffff) by (nonlinear_arith);
    }
    assert(slots.len() * 0xffff_ffff_ffff_ffff <= 0xffff_ffff_ffff_ffff * 0xffff_ffff_ffff_ffff)
        by (nonlinear_arith)
        requires
            slots.len() <= 0xffff_ffff_ffff_ffff,
    ;
}

/// The average of `slots`.
fn barycenter_of(slots: &Vec<usize>) -> (score: Score)
    ensures
        score == barycenter(slots@),
{
    if slots.len() == 0 {
        return Score { num: 0, den: 1 };
    }
    let mut sum: u128 = 0;
    let mut k: usize = 0;
    while k < slots.len()
        invariant
            k <= slots.len(),
            sum == sum_of(slots@.take(k as int)),
        decreases slots.len() - k,
    {
        proof {
            assert(slots@.take(k + 1).drop_last() =~= slots@.take(k as int));
            assert(slots@.take(k + 1).last() == slots[k as int]);
            lemma_sum_bound(slots@.take(k + 1));
        }
        sum = sum + slots[k] as u128;
        k = k + 1;
    }
    assert(slots@.take(slots.len() as int) =~= slots@);
    Score { num: sum, den: slots.len() as u64 }
}

/// The median of `slots`.
fn median_of(slots: &Vec<usize>) -> (score: Score)
    ensures
        score == median(slots@),
{
    if slots.len() == 0 {
        return Score { num: 0, den: 1 };
    }
    let sorted = stable_sort(slots);
    proof {
        lemma_stable_sorted_is_ranked(slots@);
    }
    let mid = slots.len() / 2;
    if slots.len() % 2 == 1 {
        Score { num: 2 * (sorted[mid] as u128), den: 2 }
    } else {
        Score { num: sorted[mid - 1] as u128 + sorted[mid] as u128, den: 2 }
    }
}

/// Orders `layer` against `previous`.
fn order_layer(
    method: LayerOrderingMethod,
    node_count: usize,
    edges: Ghost<Seq<(usize, usize)>>,
    preds: &Vec<Vec<usize>>,
    previous: &Vec<usize>,
    layer: &Vec<usize>,
) -> (out: Vec<usize>)
    requires
        edges_resolved(node_count as nat, edges@),
        preds.len() == node_count,
        forall|v: int| 0 <= v < node_count ==> (#[trigger] preds[v])@ == sources_into(edges@, v),
        forall|k: int| 0 <= k < layer.len() ==> layer[k] < node_count,
    ensures
        out@ == ordered_layer(method, edges@, previous@, layer@),
{
    let table = slot_table(node_count, previous);
    let mut scored_nodes: Vec<ScoredNode> = Vec::new();
    let mut k: usize = 0;
    while k < layer.len()
        invariant
            k <= layer.len(),
            edges_resolved(node_count as nat, edges@),
            preds.len() == node_count,
            forall|v: int| 0 <= v < node_count ==> (#[trigger] preds[v])@ == sources_into(edges@, v),
            forall|m: int| 0 <= m < layer.len() ==> layer[m] < node_count,
            table.len() == node_count,
            forall|v: int|
                0 <= v < node_count ==> #[trigger] table[v] == slot_of(previous@, v as usize),
            scored_nodes.len() == k,
            forall|m: int|
                0 <= m < k ==> scored_nodes[m] == scored(method, edges@, previous@, layer@)[m],
        decreases layer.len() - k,
    {
        let node = layer[k];
        proof {
            assert forall|m: int| 0 <= m < preds[node as int].len() implies preds[node as int][m]
                < table.len() by {
                lemma_source_has_edge(edges@, node, m);
            }
        }
        let slots = collect_slots(&preds[node], &table, Ghost(previous@));
        let score = match method {
            LayerOrderingMethod::Barycenter => barycenter_of(&slots),
            LayerOrderingMethod::Median => median_of(&slots),
        };
        scored_nodes.push(ScoredNode { node, score });
        k = k + 1;
    }
    assert(scored_nodes@ =~= scored(method, edges@, previous@, layer@));
    let sorted = stable_sort(&scored_nodes);
    proof {
        lemma_stable_sorted_is_ranked(scored_nodes@);
    }
    let mut out: Vec<usize> = Vec::new();
    let mut m: usize = 0;
    while m < sorted.len()
        invariant
            m <= sorted.len(),
            out.len() == m,
            forall|i: int| 0 <= i < m ==> out[i] == sorted[i].node,
        decreases sorted.len() - m,
    {
        out.push(sorted[m].node);
        m = m + 1;
    }
    assert(out@ =~= nodes_of(sorted@));
    out
}

/// Orders every layer after the first against the final order of the one
/// before it.
pub fn order_layers(
    method: LayerOrderingMethod,
    node_count: usize,
    edges: &Vec<(usize, usize)>,
    layers: &Vec<Vec<usize>>,
) -> (out: Vec<Vec<usize>>)
    requires
        edges_resolved(node_count as nat, edges@),
        layers_resolved(node_count as nat, rows(layers@)),
    ensures
        rows(out@) == ordered_layers(method, edges@, rows(layers@)),
{
    let preds = predecessors(node_count, edges);
    let mut out: Vec<Vec<usize>> = Vec::new();
    let mut i: usize = 0;
    while i < layers.len()
        invariant
            i <= layers.len(),
            edges_resolved(node_count as nat, edges@),
            layers_resolved(node_count as nat, rows(layers@)),
            preds.len() == node_count,
            forall|v: int| 0 <= v < node_count ==> (#[trigger] preds[v])@ == sources_into(edges@, v),
            out.len() == i,
            rows(out@) == ordered_layers(method, edges@, rows(layers@).take(i as int)),
        decreases layers.len() - i,
    {
        let ghost upto = rows(layers@).take(i + 1);
        proof {
            assert(upto.drop_last() =~= rows(layers@).take(i as int));
            assert(upto.last() == layers[i as int]@);
            assert forall|k: int| 0 <= k < layers[i as int].len() implies layers[i as int][k]
                < node_count by {
                assert(rows(layers@)[i as int][k] < node_count);
            }
        }
        if i == 0 {
            let mut first: Vec<usize> = Vec::new();
            let mut k: usize = 0;
            while k < layers[0].len()
                invariant
                    layers.len() > 0,
                    k <= layers[0].len(),
                    first.len() == k,
                    forall|m: int| 0 <= m < k ==> first[m] == layers[0][m],
                decreases layers[0].len() - k,
            {
                first.push(layers[0][k]);
                k = k + 1;
            }
            assert(first@ =~= layers[0]@);
            out.push(first);
            assert(rows(out@) =~= upto);
        } else {
            let ghost before = rows(out@);
            let next = order_layer(method, node_count, Ghost(edges@), &preds, &out[i - 1], &layers[i]);
            out.push(next);
            assert(rows(out@) =~= before.push(next@));
        }
        i = i + 1;
    }
    assert(rows(layers@).take(layers.len() as int) =~= rows(layers@));
    out
}

/// Ordering leaves the number of layers as it is.
pub proof fn lemma_ordered_layers_len(
    method: LayerOrderingMethod,
    edges: Seq<(usize, usize)>,
    layers: Seq<Seq<usize>>,
)
    ensures
        ordered_layers(method, edges, layers).len() == layers.len(),
    decreases layers.len(),
{
    if layers.len() > 1 {
        lemma_ordered_layers_len(method, edges, layers.drop_last());
    }
}

/// Ordering a layer that is already ordered against `previous` leaves it
/// as it is.
pub proof fn lemma_ordered_layer_is_fixed(
    method: LayerOrderingMethod,
    edges: Seq<(usize, usize)>,
    previous: Seq<usize>,
    layer: Seq<usize>,
)
    ensures
        ordered_layer(method, edges, previous, ordered_layer(method, edges, previous, layer))
            == ordered_layer(method, edges, previous, layer),
{
    broadcast use vstd::seq_lib::group_to_multiset_ensures;

    let input = scored(method, edges, previous, layer);
    let sorted = stable_sorted(input);
    let once = ordered_layer(method, edges, previous, layer);
    lemma_stable_sorted_is_ranked(input);
    lemma_stable_sorted_permutes(input);
    assert forall|k: int| 0 <= k < sorted.len() implies sorted[k].score == score_of(
        method,
        edges,
        previous,
        sorted[k].node,
    ) by {
        assert(sorted.to_multiset().contains(sorted[k]));
        assert(input.contains(sorted[k]));
        let m = choose|m: int| 0 <= m < input.len() && input[m] == sorted[k];
    }
    assert(scored(method, edges, previous, once) =~= sorted);
    lemma_stable_sorted_idempotent(input);
}

/// Ordering rearranges a layer: every node is in it as often after as
/// before.
pub proof fn lemma_ordered_layer_is_arrangement(
    method: LayerOrderingMethod,
    edges: Seq<(usize, usize)>,
    previous: Seq<usize>,
    layer: Seq<usize>,
)
    ensures
        ordered_layer(method, edges, previous, layer).to_multiset() == layer.to_multiset(),
{
    let input = scored(method, edges, previous, layer);
    let node = |s: ScoredNode| s.node;
    lemma_stable_sorted_maps(input, node);
    lemma_stable_sorted_is_ranked(input);
    assert(stable_sorted(input).map_values(node) =~= nodes_of(stable_sorted(input)));
    assert(input.map_values(node) =~= layer);
}

/// Ordering keeps every node in its layer: each layer holds after what it
/// held before.
pub proof fn lemma_ordered_layers_are_arrangements(
    method: LayerOrderingMethod,
    edges: Seq<(usize, usize)>,
    layers: Seq<Seq<usize>>,
    i: int,
)
    requires
        0 <= i < layers.len(),
    ensures
        ordered_layers(method, edges, layers).len() == layers.len(),
        ordered_layers(method, edges, layers)[i].to_multiset() == layers[i].to_multiset(),
    decreases layers.len(),
{
    lemma_ordered_layers_len(method, edges, layers);
    if layers.len() > 1 {
        let before = ordered_layers(method, edges, layers.drop_last());
        lemma_ordered_layers_len(method, edges, layers.drop_last());
        if i < layers.len() - 1 {
            lemma_ordered_layers_are_arrangements(method, edges, layers.drop_last(), i);
        } else {
            lemma_ordered_layer_is_arrangement(method, edges, before.last(), layers.last());
        }
    }
}

/// Ordering layers that are already ordered leaves them as they are:
/// ordering twice gives what ordering once gives.
pub proof fn lemma_ordering_is_idempotent(
    method: LayerOrderingMethod,
    edges: Seq<(usize, usize)>,
    layers: Seq<Seq<usize>>,
)
    ensures
        ordered_layers(method, edges, ordered_layers(method, edges, layers)) == ordered_layers(
            method,
            edges,
            layers,
        ),
    decreases layers.len(),
{
    if layers.len() > 1 {
        let shorter = layers.drop_last();
        let before = ordered_layers(method, edges, shorter);
        let once = ordered_layers(method, edges, layers);
        lemma_ordering_is_idempotent(method, edges, shorter);
        lemma_ordered_layers_len(method, edges, shorter);
        assert(once.drop_last() =~= before);
        lemma_ordered_layer_is_fixed(method, edges, before.last(), layers.last());
    }
}

} // verus!
