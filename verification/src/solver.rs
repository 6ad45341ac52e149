//! Exact ordering of small layers, and the segments of a finished order.
//!
//! Where a layer is small, every arrangement of it can be tried: each is
//! scored by the crossings between the edges that come from the layer
//! before, and the first with the fewest crossings is kept.

use itertools::Itertools;
use vstd::prelude::*;
use vstd::relations::{sorted_by, total_ordering};
use crate::crossing::{score, tally, CrossingScore, IVec2, Tally};
use crate::errors::LayoutError;
use crate::graph::{endpoints_of, FlowGraph};
use crate::layering::{edges_resolved, has_cycle, is_layering, on_cycle, repeated};
use crate::orderer::{ordered_layers, rows, slot_of, slot_table};
use crate::ranking::{
    lemma_stable_sorted_is_ranked, lemma_stable_sorted_permutes, stable_sort, Ranked,
};
use crate::sankey::{layers_in_order, LayerOrderingMethod, SankeyLayers};

verus! {

/// The largest layer of which every arrangement is tried.
pub const MAX_EXACT_LAYER: usize = 8;

/// The arrangements that `itertools::Itertools::permutations` yields for
/// `items`, each as long as `items`, in the order it yields them.
pub uninterp spec fn permutations_of(items: Seq<usize>) -> Seq<Seq<usize>>;

/// Collects what `Itertools::permutations(k)` yields over the items, with
/// `k` the number of items.
///
/// The contract names the result and claims of it what the method is
/// documented to yield, all the arrangements: every sequence that holds
/// the items, each as often as they occur, is among them. The bound keeps
/// their number, which grows as the factorial, within reason.
#[verifier::external_body]
fn all_permutations(items: &Vec<usize>) -> (r: Vec<Vec<usize>>)
    requires
        items.len() <= MAX_EXACT_LAYER,
    ensures
        rows(r@) == permutations_of(items@),
        forall|a: Seq<usize>| is_arrangement(a, items@) ==> rows(r@).contains(a),
{
    items.iter().copied().permutations(items.len()).collect()
}

/// `candidate` holds the nodes of `layer`, each as often as `layer` does.
pub open spec fn is_arrangement(candidate: Seq<usize>, layer: Seq<usize>) -> bool {
    candidate.to_multiset() == layer.to_multiset()
}

/// A place within a layer as a coordinate, where it fits one.
pub open spec fn coordinate(place: Option<usize>) -> Option<i32> {
    match place {
        Some(k) => if k <= i32::MAX {
            Some(k as i32)
        } else {
            None
        },
        None => None,
    }
}

/// The segment of `edge` between the layer `previous`, drawn at 0, and
/// `layer`, drawn at 1; `None` where the edge does not run from the one to
/// the other.
pub open spec fn provisional_slot(previous: Seq<usize>, layer: Seq<usize>, edge: (usize, usize)) -> Option<
    (IVec2, IVec2),
> {
    match (coordinate(slot_of(previous, edge.0)), coordinate(slot_of(layer, edge.1))) {
        (Some(a), Some(b)) => Some((IVec2 { x: 0, y: a }, IVec2 { x: 1, y: b })),
        _ => None,
    }
}

/// The segment of each edge between `previous` and `layer`.
pub open spec fn provisional_slots(
    edges: Seq<(usize, usize)>,
    previous: Seq<usize>,
    layer: Seq<usize>,
) -> Seq<Option<(IVec2, IVec2)>> {
    Seq::new(edges.len(), |j: int| provisional_slot(previous, layer, edges[j]))
}

/// Number of pairs of edges from `previous` to `layer` that cross.
pub open spec fn crossings_between(
    edges: Seq<(usize, usize)>,
    previous: Seq<usize>,
    layer: Seq<usize>,
) -> int {
    tally(Tally::Crossings, provisional_slots(edges, previous, layer), edges.len() as int)
}

/// The arrangement kept after trying `candidates` in order: `layer` itself
/// unless some arrangement of it has fewer crossings, and then the first of
/// those with the fewest.
pub open spec fn exact_choice(
    edges: Seq<(usize, usize)>,
    previous: Seq<usize>,
    layer: Seq<usize>,
    candidates: Seq<Seq<usize>>,
) -> Seq<usize>
    decreases candidates.len(),
{
    if candidates.len() == 0 {
        layer
    } else {
        let best = exact_choice(edges, previous, layer, candidates.drop_last());
        let next = candidates.last();
        if is_arrangement(next, layer) && crossings_between(edges, previous, next)
            < crossings_between(edges, previous, best) {
            next
        } else {
            best
        }
    }
}

/// What is kept is an arrangement of the layer, and no arrangement among
/// the candidates, nor the layer as it was, has fewer crossings.
pub proof fn lemma_exact_choice(
    edges: Seq<(usize, usize)>,
    previous: Seq<usize>,
    layer: Seq<usize>,
    candidates: Seq<Seq<usize>>,
)
    ensures
        is_arrangement(exact_choice(edges, previous, layer, candidates), layer),
        crossings_between(edges, previous, exact_choice(edges, previous, layer, candidates))
            <= crossings_between(edges, previous, layer),
        forall|k: int|
            0 <= k < candidates.len() && is_arrangement(#[trigger] candidates[k], layer)
                ==> crossings_between(
                edges,
                previous,
                exact_choice(edges, previous, layer, candidates),
            ) <= crossings_between(edges, previous, candidates[k]),
    decreases candidates.len(),
{
    if candidates.len() > 0 {
        let shorter = candidates.drop_last();
        lemma_exact_choice(edges, previous, layer, shorter);
        assert forall|k: int|
            0 <= k < candidates.len() && is_arrangement(
                #[trigger] candidates[k],
                layer,
            ) implies crossings_between(
            edges,
            previous,
            exact_choice(edges, previous, layer, candidates),
        ) <= crossings_between(edges, previous, candidates[k]) by {
            if k < shorter.len() {
                assert(shorter[k] == candidates[k]);
            }
        }
    }
}

/// Whether `candidate` holds the nodes of `layer`, each as often.
pub fn is_arrangement_of(candidate: &Vec<usize>, layer: &Vec<usize>) -> (r: bool)
    ensures
        r == is_arrangement(candidate@, layer@),
{
    let a = stable_sort(candidate);
    let b = stable_sort(layer);
    proof {
        lemma_stable_sorted_permutes(candidate@);
        lemma_stable_sorted_permutes(layer@);
        lemma_stable_sorted_is_ranked(candidate@);
        lemma_stable_sorted_is_ranked(layer@);
        let leq = |x: usize, y: usize| x <= y;
        assert(total_ordering(leq));
        assert forall|i: int, j: int| 0 <= i < j < a.len() implies #[trigger] leq(a@[i], a@[j]) by {
            assert(a@[i].rank_le(&a@[j]));
        }
        assert forall|i: int, j: int| 0 <= i < j < b.len() implies #[trigger] leq(b@[i], b@[j]) by {
            assert(b@[i].rank_le(&b@[j]));
        }
        if is_arrangement(candidate@, layer@) {
            vstd::seq_lib::lemma_sorted_unique(a@, b@, leq);
        }
    }
    if a.len() != b.len() {
        return false;
    }
    let mut k: usize = 0;
    while k < a.len()
        invariant
            k <= a.len(),
            a.len() == b.len(),
            forall|m: int| 0 <= m < k ==> a[m] == b[m],
            is_arrangement(candidate@, layer@) ==> a@ == b@,
            a@ == b@ ==> is_arrangement(candidate@, layer@),
        decreases a.len() - k,
    {
        if a[k] != b[k] {
            return false;
        }
        k = k + 1;
    }
    assert(a@ =~= b@);
    true
}

/// A place as a coordinate.
fn coordinate_of(place: Option<usize>) -> (r: Option<i32>)
    ensures
        r == coordinate(place),
{
    match place {
        Some(k) => if k <= i32::MAX as usize {
            Some(k as i32)
        } else {
            None
        },
        None => None,
    }
}

/// Number of pairs of edges from `previous` to `layer` that cross.
pub fn count_crossings(
    node_count: usize,
    edges: &Vec<(usize, usize)>,
    previous: &Vec<usize>,
    layer: &Vec<usize>,
) -> (r: u128)
    requires
        edges_resolved(node_count as nat, edges@),
    ensures
        r == crossings_between(edges@, previous@, layer@),
{
    let sources = slot_table(node_count, previous);
    let targets = slot_table(node_count, layer);
    let mut slots: Vec<Option<(IVec2, IVec2)>> = Vec::new();
    let mut j: usize = 0;
    while j < edges.len()
        invariant
            j <= edges.len(),
            edges_resolved(node_count as nat, edges@),
            sources.len() == node_count,
            targets.len() == node_count,
            forall|v: int|
                0 <= v < node_count ==> #[trigger] sources[v] == slot_of(previous@, v as usize),
            forall|v: int|
                0 <= v < node_count ==> #[trigger] targets[v] == slot_of(layer@, v as usize),
            slots.len() == j,
            forall|m: int|
                0 <= m < j ==> slots[m] == provisional_slot(previous@, layer@, edges[m]),
        decreases edges.len() - j,
    {
        let (source, target) = edges[j];
        assert(edges@[j as int].0 < node_count && edges@[j as int].1 < node_count);
        let slot = match (coordinate_of(sources[source]), coordinate_of(targets[target])) {
            (Some(a), Some(b)) => Some((IVec2 { x: 0, y: a }, IVec2 { x: 1, y: b })),
            _ => None,
        };
        slots.push(slot);
        j = j + 1;
    }
    assert(slots@ =~= provisional_slots(edges@, previous@, layer@));
    score(&slots).crossings
}

/// A copy of `items`.
fn copy_of(items: &Vec<usize>) -> (out: Vec<usize>)
    ensures
        out@ == items@,
{
    let mut out: Vec<usize> = Vec::new();
    let mut k: usize = 0;
    while k < items.len()
        invariant
            k <= items.len(),
            out.len() == k,
            forall|m: int| 0 <= m < k ==> out[m] == items[m],
        decreases items.len() - k,
    {
        out.push(items[k]);
        k = k + 1;
    }
    assert(out@ =~= items@);
    out
}

/// Tries `candidates` in order and returns `layer`, or the first
/// arrangement of it that has the fewest crossings against `previous` where
/// that is fewer than `layer` has.
pub fn best_arrangement(
    node_count: usize,
    edges: &Vec<(usize, usize)>,
    previous: &Vec<usize>,
    layer: &Vec<usize>,
    candidates: &Vec<Vec<usize>>,
) -> (best: Vec<usize>)
    requires
        edges_resolved(node_count as nat, edges@),
    ensures
        best@ == exact_choice(edges@, previous@, layer@, rows(candidates@)),
{
    let mut best = copy_of(layer);
    let mut fewest = count_crossings(node_count, edges, previous, layer);
    let mut k: usize = 0;
    assert(rows(candidates@).take(0) =~= Seq::<Seq<usize>>::empty());
    while k < candidates.len()
        invariant
            k <= candidates.len(),
            edges_resolved(node_count as nat, edges@),
            best@ == exact_choice(edges@, previous@, layer@, rows(candidates@).take(k as int)),
            fewest == crossings_between(edges@, previous@, best@),
        decreases candidates.len() - k,
    {
        proof {
            assert(rows(candidates@).take(k + 1).drop_last() =~= rows(candidates@).take(k as int));
            assert(rows(candidates@).take(k + 1).last() == candidates[k as int]@);
        }
        if is_arrangement_of(&candidates[k], layer) {
            let crossings = count_crossings(node_count, edges, previous, &candidates[k]);
            if crossings < fewest {
                best = copy_of(&candidates[k]);
                fewest = crossings;
            }
        }
        k = k + 1;
    }
    assert(rows(candidates@).take(candidates.len() as int) =~= rows(candidates@));
    best
}

/// `layer` as the exact search leaves it: unchanged where it is too large
/// to try every arrangement.
pub open spec fn refined_layer(
    edges: Seq<(usize, usize)>,
    previous: Seq<usize>,
    layer: Seq<usize>,
) -> Seq<usize> {
    if layer.len() <= MAX_EXACT_LAYER {
        exact_choice(edges, previous, layer, permutations_of(layer))
    } else {
        layer
    }
}

/// The layers as the exact search leaves them: the first as it is, every
/// other refined against the final order of the one before.
pub open spec fn refined_layers(edges: Seq<(usize, usize)>, layers: Seq<Seq<usize>>) -> Seq<
    Seq<usize>,
>
    decreases layers.len(),
{
    if layers.len() <= 1 {
        layers
    } else {
        let before = refined_layers(edges, layers.drop_last());
        before.push(refined_layer(edges, before.last(), layers.last()))
    }
}

/// Refining rearranges each layer and never adds a crossing between a
/// layer and the one before it.
pub proof fn lemma_refined_layer(edges: Seq<(usize, usize)>, previous: Seq<usize>, layer: Seq<usize>)
    ensures
        is_arrangement(refined_layer(edges, previous, layer), layer),
        crossings_between(edges, previous, refined_layer(edges, previous, layer))
            <= crossings_between(edges, previous, layer),
{
    if layer.len() <= MAX_EXACT_LAYER {
        lemma_exact_choice(edges, previous, layer, permutations_of(layer));
    }
}

/// Refining keeps every node in its layer: each layer holds after what it
/// held before.
pub proof fn lemma_refined_layers_are_arrangements(
    edges: Seq<(usize, usize)>,
    layers: Seq<Seq<usize>>,
    i: int,
)
    requires
        0 <= i < layers.len(),
    ensures
        refined_layers(edges, layers).len() == layers.len(),
        is_arrangement(refined_layers(edges, layers)[i], layers[i]),
    decreases layers.len(),
{
    lemma_refined_layers_len(edges, layers);
    if layers.len() > 1 {
        let before = refined_layers(edges, layers.drop_last());
        lemma_refined_layers_len(edges, layers.drop_last());
        if i < layers.len() - 1 {
            lemma_refined_layers_are_arrangements(edges, layers.drop_last(), i);
        } else {
            lemma_refined_layer(edges, before.last(), layers.last());
        }
    }
}

/// Refining leaves the number of layers as it is.
pub proof fn lemma_refined_layers_len(edges: Seq<(usize, usize)>, layers: Seq<Seq<usize>>)
    ensures
        refined_layers(edges, layers).len() == layers.len(),
    decreases layers.len(),
{
    if layers.len() > 1 {
        lemma_refined_layers_len(edges, layers.drop_last());
    }
}

/// Refines `layer` against `previous` by trying every arrangement, where
/// the layer is small enough.
pub fn refine_layer(
    node_count: usize,
    edges: &Vec<(usize, usize)>,
    previous: &Vec<usize>,
    layer: &Vec<usize>,
) -> (out: Vec<usize>)
    requires
        edges_resolved(node_count as nat, edges@),
    ensures
        out@ == refined_layer(edges@, previous@, layer@),
        is_arrangement(out@, layer@),
        layer.len() <= MAX_EXACT_LAYER ==> forall|a: Seq<usize>|
            is_arrangement(a, layer@) ==> crossings_between(edges@, previous@, out@)
                <= crossings_between(edges@, previous@, a),
{
    proof {
        lemma_refined_layer(edges@, previous@, layer@);
    }
    if layer.len() <= MAX_EXACT_LAYER {
        let candidates = all_permutations(layer);
        proof {
            lemma_exact_choice(edges@, previous@, layer@, rows(candidates@));
            assert forall|a: Seq<usize>| is_arrangement(a, layer@) implies crossings_between(
                edges@,
                previous@,
                exact_choice(edges@, previous@, layer@, rows(candidates@)),
            ) <= crossings_between(edges@, previous@, a) by {
                assert(rows(candidates@).contains(a));
                let k = choose|k: int|
                    0 <= k < rows(candidates@).len() && rows(candidates@)[k] == a;
                assert(is_arrangement(rows(candidates@)[k], layer@));
            }
        }
        best_arrangement(node_count, edges, previous, layer, &candidates)
    } else {
        copy_of(layer)
    }
}

/// Refines every layer after the first against the final order of the one
/// before it.
pub fn refine_layers(node_count: usize, edges: &Vec<(usize, usize)>, layers: &Vec<Vec<usize>>) -> (out:
    Vec<Vec<usize>>)
    requires
        edges_resolved(node_count as nat, edges@),
    ensures
        rows(out@) == refined_layers(edges@, rows(layers@)),
{
    let mut out: Vec<Vec<usize>> = Vec::new();
    let mut i: usize = 0;
    while i < layers.len()
        invariant
            i <= layers.len(),
            edges_resolved(node_count as nat, edges@),
            out.len() == i,
            rows(out@) == refined_layers(edges@, rows(layers@).take(i as int)),
        decreases layers.len() - i,
    {
        let ghost upto = rows(layers@).take(i + 1);
        let ghost before = rows(out@);
        proof {
            assert(upto.drop_last() =~= rows(layers@).take(i as int));
            assert(upto.last() == layers[i as int]@);
        }
        let next = if i == 0 {
            copy_of(&layers[0])
        } else {
            refine_layer(node_count, edges, &out[i - 1], &layers[i])
        };
        out.push(next);
        proof {
            assert(rows(out@) =~= before.push(next@));
            if i == 0 {
                assert(rows(out@) =~= upto);
            }
        }
        i = i + 1;
    }
    assert(rows(layers@).take(layers.len() as int) =~= rows(layers@));
    out
}

/// The place of `node` within its layer, where `order` gives the layers
/// and `layer_ids` the layer of each node.
pub open spec fn place_of(order: Seq<Seq<usize>>, layer_ids: Seq<usize>, node: usize) -> Option<
    usize,
> {
    if node < layer_ids.len() && layer_ids[node as int] < order.len() {
        slot_of(order[layer_ids[node as int] as int], node)
    } else {
        None
    }
}

/// The slot of `node`: its layer and its place there, where both fit a
/// coordinate.
pub open spec fn slot_point(order: Seq<Seq<usize>>, layer_ids: Seq<usize>, node: usize) -> Option<
    IVec2,
> {
    if node < layer_ids.len() {
        match (
            coordinate(Some(layer_ids[node as int])),
            coordinate(place_of(order, layer_ids, node)),
        ) {
            (Some(x), Some(y)) => Some(IVec2 { x, y }),
            _ => None,
        }
    } else {
        None
    }
}

/// The segment of `edge`, from the slot of its source to that of its
/// target, where both have one.
pub open spec fn slot_segment(order: Seq<Seq<usize>>, layer_ids: Seq<usize>, edge: (usize, usize)) -> Option<
    (IVec2, IVec2),
> {
    match (slot_point(order, layer_ids, edge.0), slot_point(order, layer_ids, edge.1)) {
        (Some(p), Some(q)) => Some((p, q)),
        _ => None,
    }
}

/// The segment of every edge.
pub open spec fn slot_geometry(
    edges: Seq<(usize, usize)>,
    layer_ids: Seq<usize>,
    order: Seq<Seq<usize>>,
) -> Seq<Option<(IVec2, IVec2)>> {
    Seq::new(edges.len(), |j: int| slot_segment(order, layer_ids, edges[j]))
}

/// The place of every node within its layer.
fn places(layer_ids: &Vec<usize>, order: &Vec<Vec<usize>>) -> (out: Vec<Option<usize>>)
    ensures
        out.len() == layer_ids.len(),
        forall|v: int|
            0 <= v < layer_ids.len() ==> #[trigger] out[v] == place_of(
                rows(order@),
                layer_ids@,
                v as usize,
            ),
{
    let node_count = layer_ids.len();
    let mut out: Vec<Option<usize>> = repeated(node_count, None);
    let mut l: usize = 0;
    while l < order.len()
        invariant
            l <= order.len(),
            node_count == layer_ids.len(),
            out.len() == node_count,
            forall|v: int|
                0 <= v < node_count ==> #[trigger] out[v] == (if layer_ids[v] < l {
                    slot_of(order[layer_ids[v] as int]@, v as usize)
                } else {
                    None
                }),
        decreases order.len() - l,
    {
        let mut k: usize = 0;
        while k < order[l].len()
            invariant
                l < order.len(),
                k <= order[l as int].len(),
                node_count == layer_ids.len(),
                out.len() == node_count,
                forall|v: int|
                    0 <= v < node_count ==> #[trigger] out[v] == (if layer_ids[v] < l {
                        slot_of(order[layer_ids[v] as int]@, v as usize)
                    } else if layer_ids[v] == l {
                        slot_of(order[l as int]@.take(k as int), v as usize)
                    } else {
                        None
                    }),
            decreases order[l as int].len() - k,
        {
            let node = order[l][k];
            proof {
                assert(order[l as int]@.take(k + 1).drop_last() =~= order[l as int]@.take(k as int));
                assert(order[l as int]@.take(k + 1).last() == node);
            }
            if node < node_count {
                if layer_ids[node] == l && out[node].is_none() {
                    out.set(node, Some(k));
                }
            }
            k = k + 1;
        }
        assert(order[l as int]@.take(order[l as int].len() as int) =~= order[l as int]@);
        l = l + 1;
    }
    out
}

/// The slot of `node`.
fn point_of(layer_ids: &Vec<usize>, spots: &Vec<Option<usize>>, node: usize, order: Ghost<
    Seq<Seq<usize>>,
>) -> (r: Option<IVec2>)
    requires
        spots.len() == layer_ids.len(),
        forall|v: int|
            0 <= v < layer_ids.len() ==> #[trigger] spots[v] == place_of(
                order@,
                layer_ids@,
                v as usize,
            ),
    ensures
        r == slot_point(order@, layer_ids@, node),
{
    if node < layer_ids.len() {
        match (coordinate_of(Some(layer_ids[node])), coordinate_of(spots[node])) {
            (Some(x), Some(y)) => Some(IVec2 { x, y }),
            _ => None,
        }
    } else {
        None
    }
}

/// The segment of every edge.
pub fn slot_segments(
    edges: &Vec<(usize, usize)>,
    layer_ids: &Vec<usize>,
    order: &Vec<Vec<usize>>,
) -> (slots: Vec<Option<(IVec2, IVec2)>>)
    ensures
        slots@ == slot_geometry(edges@, layer_ids@, rows(order@)),
{
    let spots = places(layer_ids, order);
    let mut slots: Vec<Option<(IVec2, IVec2)>> = Vec::new();
    let mut j: usize = 0;
    while j < edges.len()
        invariant
            j <= edges.len(),
            spots.len() == layer_ids.len(),
            forall|v: int|
                0 <= v < layer_ids.len() ==> #[trigger] spots[v] == place_of(
                    rows(order@),
                    layer_ids@,
                    v as usize,
                ),
            slots.len() == j,
            forall|m: int|
                0 <= m < j ==> slots[m] == slot_segment(rows(order@), layer_ids@, edges[m]),
        decreases edges.len() - j,
    {
        let (source, target) = edges[j];
        let segment = match (
            point_of(layer_ids, &spots, source, Ghost(rows(order@))),
            point_of(layer_ids, &spots, target, Ghost(rows(order@))),
        ) {
            (Some(p), Some(q)) => Some((p, q)),
            _ => None,
        };
        slots.push(segment);
        j = j + 1;
    }
    assert(slots@ =~= slot_geometry(edges@, layer_ids@, rows(order@)));
    slots
}

/// A layered graph with an order for each layer and the segment of every
/// edge in that order.
#[derive(Debug)]
pub struct SankeySolver {
    layers: SankeyLayers,
    order: Vec<Vec<usize>>,
    slot_coordinates: Vec<Option<(IVec2, IVec2)>>,
}

impl SankeySolver {
    /// The layering that the solver works on.
    pub closed spec fn layers_spec(&self) -> SankeyLayers {
        self.layers
    }

    /// The layers in their present order.
    pub closed spec fn order_spec(&self) -> Seq<Seq<usize>> {
        rows(self.order@)
    }

    /// The segment of every edge in the present order.
    pub closed spec fn slots_spec(&self) -> Seq<Option<(IVec2, IVec2)>> {
        self.slot_coordinates@
    }

    /// The layering is well-formed and the segments are those of the
    /// present order.
    pub closed spec fn wf(&self) -> bool {
        &&& self.layers.wf()
        &&& self.slot_coordinates@ == slot_geometry(
            self.layers.edges_spec(),
            self.layers.layers_spec(),
            rows(self.order@),
        )
    }

    /// In a well-formed solver the segments follow from the order.
    pub proof fn lemma_wf(&self)
        requires
            self.wf(),
        ensures
            self.layers_spec().wf(),
            self.slots_spec() == slot_geometry(
                self.layers_spec().edges_spec(),
                self.layers_spec().layers_spec(),
                self.order_spec(),
            ),
    {
    }

    /// Orders the layers of `layers` by `method` and lays out the segments.
    pub fn from_layers(layers: SankeyLayers, method: LayerOrderingMethod) -> (solver: SankeySolver)
        requires
            layers.wf(),
        ensures
            solver.wf(),
            solver.layers_spec() == layers,
            solver.order_spec() == ordered_layers(
                method,
                layers.edges_spec(),
                layers_in_order(layers.layers_spec()),
            ),
    {
        let order = layers.order(method);
        let slot_coordinates = slot_segments(layers.edges(), layers.layer_ids(), &order);
        SankeySolver { layers, order, slot_coordinates }
    }

    /// Layers `graph`, orders the layers by `method` and lays out the
    /// segments. Fails where the layering fails.
    pub fn new<N, E>(graph: &FlowGraph<N, E>, method: LayerOrderingMethod) -> (r: Result<
        SankeySolver,
        LayoutError,
    >)
        requires
            graph.wf(),
        ensures
            r is Ok <==> !has_cycle(endpoints_of(graph@.links)),
            r matches Ok(solver) ==> {
                &&& solver.wf()
                &&& solver.layers_spec().wf()
                &&& solver.layers_spec().node_count_spec() == graph@.fixed.len()
                &&& solver.layers_spec().edges_spec() == endpoints_of(graph@.links)
                &&& solver.order_spec() == ordered_layers(
                    method,
                    endpoints_of(graph@.links),
                    layers_in_order(solver.layers_spec().layers_spec()),
                )
            },
            r matches Err(e) ==> e matches LayoutError::GraphNotAcyclic { node } && node
                < graph@.fixed.len() && on_cycle(endpoints_of(graph@.links), node),
    {
        match SankeyLayers::new(graph) {
            Ok(layers) => Ok(SankeySolver::from_layers(layers, method)),
            Err(e) => Err(e),
        }
    }

    /// The layer of every node of `graph`. Fails where the layering fails.
    pub fn layer_ids<N, E>(graph: &FlowGraph<N, E>) -> (r: Result<Vec<usize>, LayoutError>)
        requires
            graph.wf(),
        ensures
            r is Ok <==> !has_cycle(endpoints_of(graph@.links)),
            r matches Ok(ids) ==> is_layering(
                graph@.fixed.len(),
                endpoints_of(graph@.links),
                ids@,
            ),
            r matches Err(e) ==> e matches LayoutError::GraphNotAcyclic { node } && node
                < graph@.fixed.len() && on_cycle(endpoints_of(graph@.links), node),
    {
        match SankeyLayers::new(graph) {
            Ok(layers) => Ok(copy_of(layers.layer_ids())),
            Err(e) => Err(e),
        }
    }

    /// The layers in their present order.
    pub fn order(&self) -> (order: &Vec<Vec<usize>>)
        ensures
            rows(order@) == self.order_spec(),
    {
        &self.order
    }

    /// The segment of every edge in the present order.
    pub fn slot_coordinates(&self) -> (slots: &Vec<Option<(IVec2, IVec2)>>)
        ensures
            slots@ == self.slots_spec(),
    {
        &self.slot_coordinates
    }

    /// Refines every layer that is small enough by trying each of its
    /// arrangements against the layer before, and lays out the segments
    /// anew.
    pub fn permute(&mut self)
        requires
            old(self).wf(),
        ensures
            final(self).wf(),
            final(self).layers_spec() == old(self).layers_spec(),
            final(self).order_spec() == refined_layers(
                old(self).layers_spec().edges_spec(),
                old(self).order_spec(),
            ),
    {
        proof {
            self.layers.lemma_wf();
        }
        let refined = refine_layers(self.layers.node_count(), self.layers.edges(), &self.order);
        let slots = slot_segments(self.layers.edges(), self.layers.layer_ids(), &refined);
        self.order = refined;
        self.slot_coordinates = slots;
    }

    /// Scores the segments pair by pair: the cost, the crossings and the
    /// pairs passed over for want of a segment.
    pub fn score(&self) -> (r: CrossingScore)
        ensures
            r.cost == tally(Tally::Cost, self.slots_spec(), self.slots_spec().len() as int),
            r.crossings == tally(
                Tally::Crossings,
                self.slots_spec(),
                self.slots_spec().len() as int,
            ),
            r.unresolved == tally(
                Tally::Unresolved,
                self.slots_spec(),
                self.slots_spec().len() as int,
            ),
    {
        score(&self.slot_coordinates)
    }
}

} // verus!
