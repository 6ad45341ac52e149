//! Longest-path layering of a directed graph.
//!
//! A graph is given by its number of nodes and the endpoints of its edges.
//! A layering gives every node a layer: 0 where no edge enters the node, and
//! otherwise one more than the highest layer among its predecessors. A graph
//! has a layering exactly when it has no cycle, and then it has only one.

use vstd::prelude::*;
use crate::errors::LayoutError;

verus! {

/// Both endpoints of every edge are below `node_count`.
pub open spec fn edges_resolved(node_count: nat, edges: Seq<(usize, usize)>) -> bool {
    forall|j: int|
        0 <= j < edges.len() ==> (#[trigger] edges[j]).0 < node_count && edges[j].1 < node_count
}

/// An edge runs from `source` to `target`.
pub open spec fn has_edge(edges: Seq<(usize, usize)>, source: usize, target: usize) -> bool {
    exists|j: int| 0 <= j < edges.len() && #[trigger] edges[j] == (source, target)
}

/// Each node of `walk` is joined to the next by an edge.
pub open spec fn is_walk(edges: Seq<(usize, usize)>, walk: Seq<usize>) -> bool {
    forall|i: int| 0 <= i < walk.len() - 1 ==> has_edge(edges, #[trigger] walk[i], walk[i + 1])
}

/// A walk of at least one edge leads from `node` back to `node`.
pub open spec fn on_cycle(edges: Seq<(usize, usize)>, node: usize) -> bool {
    exists|walk: Seq<usize>|
        walk.len() >= 2 && #[trigger] is_walk(edges, walk) && walk[0] == node && walk.last()
            == node
}

/// Some node lies on a cycle.
pub open spec fn has_cycle(edges: Seq<(usize, usize)>) -> bool {
    exists|node: usize| on_cycle(edges, node)
}

/// `layers` is the longest-path layering: along every edge the layer rises,
/// and every node not in layer 0 has a predecessor in the layer just below.
pub open spec fn is_layering(node_count: nat, edges: Seq<(usize, usize)>, layers: Seq<usize>) -> bool {
    &&& layers.len() == node_count
    &&& forall|j: int|
        0 <= j < edges.len() ==> layers[(#[trigger] edges[j]).0 as int] < layers[edges[j].1 as int]
    &&& forall|v: int|
        0 <= v < node_count ==> #[trigger] layers[v] == 0 || exists|j: int|
            0 <= j < edges.len() && (#[trigger] edges[j]).1 == v && layers[edges[j].0 as int] + 1
                == layers[v]
}

/// `node` is among the first `upto` entries of `order`.
pub open spec fn comes_before(order: Seq<usize>, upto: int, node: usize) -> bool {
    exists|k: int| 0 <= k < upto && k < order.len() && #[trigger] order[k] == node
}

/// `order` lists distinct nodes, each after all of its predecessors.
pub open spec fn is_topological_prefix(
    node_count: nat,
    edges: Seq<(usize, usize)>,
    order: Seq<usize>,
) -> bool {
    &&& forall|i: int| 0 <= i < order.len() ==> #[trigger] order[i] < node_count
    &&& forall|i: int, k: int| 0 <= i < k < order.len() ==> #[trigger] order[i] != #[trigger] order[k]
    &&& forall|i: int, j: int|
        0 <= i < order.len() && 0 <= j < edges.len() && (#[trigger] edges[j]).1 == #[trigger] order[i]
            ==> comes_before(order, i, edges[j].0)
}

/// `order` lists every node once, each after all of its predecessors.
pub open spec fn is_topological_order(
    node_count: nat,
    edges: Seq<(usize, usize)>,
    order: Seq<usize>,
) -> bool {
    order.len() == node_count && is_topological_prefix(node_count, edges, order)
}

/// `order` lists every node whose predecessors it lists, and so every node
/// that has none.
pub open spec fn visits_all_ready(
    node_count: nat,
    edges: Seq<(usize, usize)>,
    order: Seq<usize>,
) -> bool {
    forall|v: usize|
        v < node_count && (forall|j: int|
            0 <= j < edges.len() && (#[trigger] edges[j]).1 == v ==> order.contains(edges[j].0))
            ==> #[trigger] order.contains(v)
}

/// `order` starts with a topological order of the whole graph.
pub open spec fn covers_graph(
    node_count: nat,
    edges: Seq<(usize, usize)>,
    order: Seq<usize>,
) -> bool {
    order.len() >= node_count && is_topological_order(
        node_count,
        edges,
        order.take(node_count as int),
    )
}

/// The sources of the edges that enter `node`, in the order of the edges.
pub open spec fn sources_into(edges: Seq<(usize, usize)>, node: int) -> Seq<usize>
    decreases edges.len(),
{
    if edges.len() == 0 {
        Seq::empty()
    } else if edges.last().1 == node {
        sources_into(edges.drop_last(), node).push(edges.last().0)
    } else {
        sources_into(edges.drop_last(), node)
    }
}

/// Every listed source belongs to an edge into `node`.
pub(crate) proof fn lemma_source_has_edge(edges: Seq<(usize, usize)>, node: usize, k: int)
    requires
        0 <= k < sources_into(edges, node as int).len(),
    ensures
        has_edge(edges, sources_into(edges, node as int)[k], node),
    decreases edges.len(),
{
    let rest = edges.drop_last();
    if edges.last().1 == node && k == sources_into(rest, node as int).len() {
        assert(edges[edges.len() - 1] == (edges.last().0, node));
    } else {
        lemma_source_has_edge(rest, node, k);
        let j = choose|j: int|
            0 <= j < rest.len() && #[trigger] rest[j] == (sources_into(rest, node as int)[k], node);
        assert(edges[j] == rest[j]);
    }
}

/// The source of every edge is listed for its target.
proof fn lemma_edge_is_listed(edges: Seq<(usize, usize)>, j: int)
    requires
        0 <= j < edges.len(),
    ensures
        exists|k: int|
            0 <= k < sources_into(edges, edges[j].1 as int).len() && #[trigger] sources_into(
                edges,
                edges[j].1 as int,
            )[k] == edges[j].0,
    decreases edges.len(),
{
    let node = edges[j].1 as int;
    let rest = edges.drop_last();
    if j == edges.len() - 1 {
        let k = sources_into(rest, node).len() as int;
        assert(sources_into(edges, node)[k] == edges[j].0);
    } else {
        lemma_edge_is_listed(rest, j);
        assert(rest[j] == edges[j]);
        let k = choose|k: int|
            0 <= k < sources_into(rest, node).len() && #[trigger] sources_into(rest, node)[k]
                == edges[j].0;
        assert(sources_into(edges, node)[k] == edges[j].0);
    }
}

/// For each node, the sources of the edges that enter it.
pub(crate) fn predecessors(node_count: usize, edges: &Vec<(usize, usize)>) -> (preds: Vec<Vec<usize>>)
    requires
        edges_resolved(node_count as nat, edges@),
    ensures
        preds.len() == node_count,
        forall|v: int| 0 <= v < node_count ==> (#[trigger] preds[v])@ == sources_into(edges@, v),
{
    let mut preds: Vec<Vec<usize>> = Vec::new();
    let mut v: usize = 0;
    while v < node_count
        invariant
            v <= node_count,
            preds.len() == v,
            forall|u: int| 0 <= u < v ==> (#[trigger] preds[u])@ == Seq::<usize>::empty(),
        decreases node_count - v,
    {
        preds.push(Vec::new());
        v = v + 1;
    }
    let mut j: usize = 0;
    while j < edges.len()
        invariant
            j <= edges.len(),
            preds.len() == node_count,
            edges_resolved(node_count as nat, edges@),
            forall|u: int|
                0 <= u < node_count ==> (#[trigger] preds[u])@ == sources_into(
                    edges@.take(j as int),
                    u,
                ),
        decreases edges.len() - j,
    {
        let (source, target) = edges[j];
        assert(edges@[j as int].1 < node_count);
        preds[target].push(source);
        proof {
            assert(edges@.take(j + 1).drop_last() =~= edges@.take(j as int));
            assert(edges@.take(j + 1).last() == edges@[j as int]);
        }
        j = j + 1;
    }
    assert(edges@.take(edges.len() as int) =~= edges@);
    preds
}

/// How many entries of `flags` are set.
pub open spec fn count_set(flags: Seq<bool>) -> nat
    decreases flags.len(),
{
    if flags.len() == 0 {
        0
    } else {
        count_set(flags.drop_last()) + (if flags.last() {
            1nat
        } else {
            0nat
        })
    }
}

/// No more flags are set than there are, and all are set where the count
/// reaches the length.
proof fn lemma_count_set_bound(flags: Seq<bool>)
    ensures
        count_set(flags) <= flags.len(),
        count_set(flags) == flags.len() ==> forall|i: int| 0 <= i < flags.len() ==> flags[i],
    decreases flags.len(),
{
    if flags.len() > 0 {
        lemma_count_set_bound(flags.drop_last());
        assert forall|i: int| count_set(flags) == flags.len() && 0 <= i < flags.len() implies flags[i] by {
            if i < flags.len() - 1 {
                assert(flags.drop_last()[i] == flags[i]);
            }
        }
    }
}

/// Setting a clear flag raises the count by one.
proof fn lemma_count_set_update(flags: Seq<bool>, at: int)
    requires
        0 <= at < flags.len(),
        !flags[at],
    ensures
        count_set(flags.update(at, true)) == count_set(flags) + 1,
    decreases flags.len(),
{
    let after = flags.update(at, true);
    if at == flags.len() - 1 {
        assert(after.drop_last() =~= flags.drop_last());
    } else {
        lemma_count_set_update(flags.drop_last(), at);
        assert(after.drop_last() =~= flags.drop_last().update(at, true));
    }
}

/// Nothing is set in a sequence of clear flags.
proof fn lemma_count_set_clear(flags: Seq<bool>)
    requires
        forall|i: int| 0 <= i < flags.len() ==> !flags[i],
    ensures
        count_set(flags) == 0,
    decreases flags.len(),
{
    if flags.len() > 0 {
        assert forall|i: int| 0 <= i < flags.drop_last().len() implies !flags.drop_last()[i] by {
            assert(flags.drop_last()[i] == flags[i]);
        }
        lemma_count_set_clear(flags.drop_last());
    }
}

/// The layers given so far are those of a layering, as far as the placed
/// nodes go.
pub open spec fn layered_where_placed(
    edges: Seq<(usize, usize)>,
    layers: Seq<usize>,
    placed: Seq<bool>,
) -> bool {
    &&& forall|j: int|
        0 <= j < edges.len() && placed[(#[trigger] edges[j]).1 as int] ==> placed[edges[j].0 as int]
            && layers[edges[j].0 as int] < layers[edges[j].1 as int]
    &&& forall|v: int|
        0 <= v < placed.len() && #[trigger] placed[v] ==> layers[v] == 0 || exists|j: int|
            0 <= j < edges.len() && (#[trigger] edges[j]).1 == v && layers[edges[j].0 as int] + 1
                == layers[v]
}


/// How much of `order` can be used: the length of its longest prefix, of at
/// most `node_count` entries, that is a topological prefix.
pub open spec fn usable_len(node_count: nat, edges: Seq<(usize, usize)>, order: Seq<usize>) -> nat {
    usable_from(node_count, edges, order, 0)
}

/// The search behind `usable_len`, from prefix length `k` on.
pub open spec fn usable_from(
    node_count: nat,
    edges: Seq<(usize, usize)>,
    order: Seq<usize>,
    k: nat,
) -> nat
    decreases order.len() - k,
{
    if k < order.len() && k < node_count && is_topological_prefix(
        node_count,
        edges,
        order.take(k + 1 as int),
    ) {
        usable_from(node_count, edges, order, k + 1)
    } else {
        k
    }
}

/// `node` is what keeps the layering from going on past the usable part of
/// `order`: it is not placed there, and it lies on a cycle or has all of its
/// predecessors placed.
pub open spec fn is_blocked(
    node_count: nat,
    edges: Seq<(usize, usize)>,
    order: Seq<usize>,
    node: usize,
) -> bool {
    let k = usable_len(node_count, edges, order) as int;
    &&& node < node_count
    &&& !comes_before(order, k, node)
    &&& (on_cycle(edges, node) || forall|j: int|
        0 <= j < edges.len() && (#[trigger] edges[j]).1 == node ==> comes_before(
            order,
            k,
            edges[j].0,
        ))
}

/// A shorter prefix of a topological prefix is one too.
proof fn lemma_prefix_closed(
    node_count: nat,
    edges: Seq<(usize, usize)>,
    order: Seq<usize>,
    m: int,
    k: int,
)
    requires
        0 <= m <= k <= order.len(),
        is_topological_prefix(node_count, edges, order.take(k)),
    ensures
        is_topological_prefix(node_count, edges, order.take(m)),
{
    let long = order.take(k);
    let short = order.take(m);
    assert forall|i: int| 0 <= i < short.len() implies #[trigger] short[i] < node_count by {
        assert(long[i] == short[i]);
    }
    assert forall|i: int, l: int| 0 <= i < l < short.len() implies #[trigger] short[i]
        != #[trigger] short[l] by {
        assert(long[i] == short[i] && long[l] == short[l]);
    }
    assert forall|i: int, j: int|
        0 <= i < short.len() && 0 <= j < edges.len() && (#[trigger] edges[j]).1
            == #[trigger] short[i] implies comes_before(short, i, edges[j].0) by {
        assert(long[i] == short[i]);
        assert(comes_before(long, i, edges[j].0));
        let w = choose|w: int| 0 <= w < i && w < long.len() && #[trigger] long[w] == edges[j].0;
        assert(short[w] == edges[j].0);
    }
}

/// Where the prefix of length `k` is usable and the next is not, `k` is the
/// usable length.
proof fn lemma_usable_len(node_count: nat, edges: Seq<(usize, usize)>, order: Seq<usize>, k: int)
    requires
        0 <= k <= order.len(),
        k <= node_count,
        is_topological_prefix(node_count, edges, order.take(k)),
        k == order.len() || k == node_count || !is_topological_prefix(
            node_count,
            edges,
            order.take(k + 1),
        ),
    ensures
        usable_len(node_count, edges, order) == k,
{
    lemma_usable_from(node_count, edges, order, k, 0);
}

proof fn lemma_usable_from(
    node_count: nat,
    edges: Seq<(usize, usize)>,
    order: Seq<usize>,
    k: int,
    m: int,
)
    requires
        0 <= m <= k <= order.len(),
        k <= node_count,
        is_topological_prefix(node_count, edges, order.take(k)),
        k == order.len() || k == node_count || !is_topological_prefix(
            node_count,
            edges,
            order.take(k + 1),
        ),
    ensures
        usable_from(node_count, edges, order, m as nat) == k,
    decreases k - m,
{
    if m < k {
        lemma_prefix_closed(node_count, edges, order, m + 1, k);
        lemma_usable_from(node_count, edges, order, k, m + 1);
    }
}

/// The layer rises by at least one along every edge of a walk.
pub proof fn lemma_walk_climbs(
    node_count: nat,
    edges: Seq<(usize, usize)>,
    layers: Seq<usize>,
    walk: Seq<usize>,
)
    requires
        is_layering(node_count, edges, layers),
        is_walk(edges, walk),
        walk.len() >= 1,
    ensures
        layers[walk[0] as int] + walk.len() - 1 <= layers[walk.last() as int],
    decreases walk.len(),
{
    if walk.len() >= 2 {
        let shorter = walk.drop_last();
        assert forall|i: int| 0 <= i < shorter.len() - 1 implies has_edge(
            edges,
            #[trigger] shorter[i],
            shorter[i + 1],
        ) by {
            assert(shorter[i] == walk[i] && shorter[i + 1] == walk[i + 1]);
        }
        lemma_walk_climbs(node_count, edges, layers, shorter);
        let last = walk.len() - 2;
        assert(has_edge(edges, walk[last], walk[last + 1]));
        let j = choose|j: int|
            0 <= j < edges.len() && #[trigger] edges[j] == (walk[last], walk[last + 1]);
        assert(layers[edges[j].0 as int] < layers[edges[j].1 as int]);
    }
}

/// A graph that has a layering has no cycle.
pub proof fn lemma_layered_is_acyclic(
    node_count: nat,
    edges: Seq<(usize, usize)>,
    layers: Seq<usize>,
)
    requires
        is_layering(node_count, edges, layers),
    ensures
        !has_cycle(edges),
{
    if has_cycle(edges) {
        let node = choose|node: usize| on_cycle(edges, node);
        let walk = choose|walk: Seq<usize>|
            walk.len() >= 2 && #[trigger] is_walk(edges, walk) && walk[0] == node && walk.last()
                == node;
        lemma_walk_climbs(node_count, edges, layers, walk);
    }
}

/// No layering gives a node a lower layer than another layering does.
proof fn lemma_layering_least(
    node_count: nat,
    edges: Seq<(usize, usize)>,
    a: Seq<usize>,
    b: Seq<usize>,
    v: int,
)
    requires
        edges_resolved(node_count, edges),
        is_layering(node_count, edges, a),
        is_layering(node_count, edges, b),
        0 <= v < node_count,
    ensures
        a[v] <= b[v],
    decreases a[v],
{
    if a[v] != 0 {
        let j = choose|j: int|
            0 <= j < edges.len() && (#[trigger] edges[j]).1 == v && a[edges[j].0 as int] + 1
                == a[v];
        lemma_layering_least(node_count, edges, a, b, edges[j].0 as int);
        assert(b[edges[j].0 as int] < b[edges[j].1 as int]);
    }
}

/// A graph has at most one layering.
pub proof fn lemma_layering_unique(
    node_count: nat,
    edges: Seq<(usize, usize)>,
    a: Seq<usize>,
    b: Seq<usize>,
)
    requires
        edges_resolved(node_count, edges),
        is_layering(node_count, edges, a),
        is_layering(node_count, edges, b),
    ensures
        a == b,
{
    assert forall|v: int| 0 <= v < node_count implies a[v] == b[v] by {
        lemma_layering_least(node_count, edges, a, b, v);
        lemma_layering_least(node_count, edges, b, a, v);
    }
    assert(a =~= b);
}

/// From every node a chain of predecessors leads down to layer 0.
proof fn lemma_descends_to_zero(
    node_count: nat,
    edges: Seq<(usize, usize)>,
    layers: Seq<usize>,
    v: int,
)
    requires
        edges_resolved(node_count, edges),
        is_layering(node_count, edges, layers),
        0 <= v < node_count,
    ensures
        exists|u: int| 0 <= u < node_count && #[trigger] layers[u] == 0,
    decreases layers[v],
{
    if layers[v] != 0 {
        let j = choose|j: int|
            0 <= j < edges.len() && (#[trigger] edges[j]).1 == v && layers[edges[j].0 as int] + 1
                == layers[v];
        lemma_descends_to_zero(node_count, edges, layers, edges[j].0 as int);
    }
}

/// In a layering the layer of every node is strictly above the layer of
/// each of its direct predecessors, and, unless the graph is empty, some
/// node is in layer 0.
pub proof fn lemma_layering_rises_from_zero(
    node_count: nat,
    edges: Seq<(usize, usize)>,
    layers: Seq<usize>,
)
    requires
        edges_resolved(node_count, edges),
        is_layering(node_count, edges, layers),
        node_count > 0,
    ensures
        forall|source: usize, target: usize| #[trigger]
            has_edge(edges, source, target) ==> layers[source as int] < layers[target as int],
        exists|u: int| 0 <= u < node_count && #[trigger] layers[u] == 0,
{
    assert forall|source: usize, target: usize| #[trigger]
        has_edge(edges, source, target) implies layers[source as int] < layers[target as int] by {
        let j = choose|j: int| 0 <= j < edges.len() && #[trigger] edges[j] == (source, target);
        assert(layers[edges[j].0 as int] < layers[edges[j].1 as int]);
    }
    lemma_descends_to_zero(node_count, edges, layers, 0);
}

/// In a layering, layer 0 holds exactly the nodes that no edge enters.
pub proof fn lemma_layer_zero_is_sources(
    node_count: nat,
    edges: Seq<(usize, usize)>,
    layers: Seq<usize>,
    v: int,
)
    requires
        is_layering(node_count, edges, layers),
        0 <= v < node_count,
    ensures
        layers[v] == 0 <==> forall|j: int| 0 <= j < edges.len() ==> (#[trigger] edges[j]).1 != v,
{
    if layers[v] == 0 {
        assert forall|j: int| 0 <= j < edges.len() implies (#[trigger] edges[j]).1 != v by {
            assert(layers[edges[j].0 as int] < layers[edges[j].1 as int]);
        }
    }
}

/// A vector of `len` copies of `value`.
pub(crate) fn repeated<T: Copy>(len: usize, value: T) -> (v: Vec<T>)
    ensures
        v.len() == len,
        forall|i: int| 0 <= i < len ==> v[i] == value,
{
    let mut v: Vec<T> = Vec::new();
    let mut i: usize = 0;
    while i < len
        invariant
            i <= len,
            v.len() == i,
            forall|k: int| 0 <= k < i ==> v[k] == value,
        decreases len - i,
    {
        v.push(value);
        i = i + 1;
    }
    v
}

/// One more than the highest layer among `sources`, or 0 where there are
/// none; `None` where one of them is not placed yet.
fn layer_above(sources: &Vec<usize>, layers: &Vec<usize>, placed: &Vec<bool>, bound: usize) -> (r:
    Option<usize>)
    requires
        layers.len() == placed.len(),
        forall|k: int| 0 <= k < sources.len() ==> sources[k] < placed.len(),
        forall|v: int| 0 <= v < placed.len() && placed[v] ==> layers[v] < bound,
    ensures
        r is Some <==> forall|k: int| 0 <= k < sources.len() ==> placed[sources[k] as int],
        r matches Some(layer) ==> {
            &&& layer <= bound
            &&& forall|k: int| 0 <= k < sources.len() ==> layers[sources[k] as int] < layer
            &&& layer == 0 || exists|k: int|
                0 <= k < sources.len() && layers[#[trigger] sources[k] as int] + 1 == layer
        },
{
    let mut layer: usize = 0;
    let mut k: usize = 0;
    while k < sources.len()
        invariant
            k <= sources.len(),
            layers.len() == placed.len(),
            forall|m: int| 0 <= m < sources.len() ==> sources[m] < placed.len(),
            forall|v: int| 0 <= v < placed.len() && placed[v] ==> layers[v] < bound,
            layer <= bound,
            forall|m: int| 0 <= m < k ==> placed[sources[m] as int],
            forall|m: int| 0 <= m < k ==> layers[sources[m] as int] < layer,
            layer == 0 || exists|m: int|
                0 <= m < k && layers[#[trigger] sources[m] as int] + 1 == layer,
        decreases sources.len() - k,
    {
        let p = sources[k];
        if !placed[p] {
            return None;
        }
        if layers[p] >= layer {
            layer = layers[p] + 1;
        }
        k = k + 1;
    }
    Some(layer)
}

/// The first of `sources` that is not placed, if there is one.
fn first_unplaced(sources: &Vec<usize>, placed: &Vec<bool>) -> (r: Option<usize>)
    requires
        forall|k: int| 0 <= k < sources.len() ==> sources[k] < placed.len(),
    ensures
        r is None ==> forall|k: int| 0 <= k < sources.len() ==> placed[sources[k] as int],
        r matches Some(p) ==> p < placed.len() && !placed[p as int] && exists|k: int|
            0 <= k < sources.len() && #[trigger] sources[k] == p,
{
    let mut k: usize = 0;
    while k < sources.len()
        invariant
            k <= sources.len(),
            forall|m: int| 0 <= m < sources.len() ==> sources[m] < placed.len(),
            forall|m: int| 0 <= m < k ==> placed[sources[m] as int],
        decreases sources.len() - k,
    {
        let p = sources[k];
        if !placed[p] {
            return Some(p);
        }
        k = k + 1;
    }
    None
}

/// Walks from `start` through predecessors that are not placed, until it
/// comes back to a node of the walk or finds none to go on with.
fn find_blocked(
    node_count: usize,
    edges: &Vec<(usize, usize)>,
    preds: &Vec<Vec<usize>>,
    placed: &Vec<bool>,
    start: usize,
) -> (node: usize)
    requires
        edges_resolved(node_count as nat, edges@),
        preds.len() == node_count,
        forall|v: int| 0 <= v < node_count ==> (#[trigger] preds[v])@ == sources_into(edges@, v),
        placed.len() == node_count,
        start < node_count,
        !placed[start as int],
    ensures
        node < node_count,
        !placed[node as int],
        on_cycle(edges@, node) || forall|j: int|
            0 <= j < edges.len() && (#[trigger] edges[j]).1 == node ==> placed[edges[j].0 as int],
{
    let mut seen: Vec<bool> = repeated(node_count, false);
    let mut cur: usize = start;
    let ghost mut trail: Seq<usize> = seq![start];
    proof {
        lemma_count_set_clear(seen@);
    }
    loop
        invariant
            edges_resolved(node_count as nat, edges@),
            preds.len() == node_count,
            forall|v: int| 0 <= v < node_count ==> (#[trigger] preds[v])@ == sources_into(edges@, v),
            placed.len() == node_count,
            seen.len() == node_count,
            cur < node_count,
            !placed[cur as int],
            trail.len() >= 1,
            trail.last() == cur,
            forall|i: int| 0 <= i < trail.len() - 1 ==> has_edge(edges@, trail[i + 1], #[trigger] trail[i]),
            forall|x: int|
                0 <= x < node_count ==> (#[trigger] seen[x] <==> exists|i: int|
                    0 <= i < trail.len() - 1 && #[trigger] trail[i] == x),
            !seen[cur as int],
            count_set(seen@) == trail.len() - 1,
        decreases node_count - count_set(seen@),
    {
        proof {
            lemma_count_set_update(seen@, cur as int);
        }
        seen.set(cur, true);
        proof {
            lemma_count_set_bound(seen@);
            assert forall|k: int| 0 <= k < preds[cur as int].len() implies preds[cur as int][k]
                < placed.len() by {
                lemma_source_has_edge(edges@, cur, k);
            }
        }
        match first_unplaced(&preds[cur], placed) {
            None => {
                proof {
                    assert forall|j: int|
                        0 <= j < edges.len() && (#[trigger] edges@[j]).1 == cur implies placed[edges@[j].0 as int] by {
                        lemma_edge_is_listed(edges@, j);
                    }
                }
                return cur;
            },
            Some(p) => {
                proof {
                    let k = choose|k: int|
                        0 <= k < preds[cur as int].len() && #[trigger] preds[cur as int][k] == p;
                    lemma_source_has_edge(edges@, cur, k);
                }
                if seen[p] {
                    proof {
                        let len = trail.len() as int;
                        let at = if p == cur {
                            len - 1
                        } else {
                            choose|i: int| 0 <= i < len - 1 && #[trigger] trail[i] == p
                        };
                        let walk = Seq::new(
                            (len - at + 1) as nat,
                            |m: int|
                                if m == 0 {
                                    p
                                } else {
                                    trail[len - m]
                                },
                        );
                        assert forall|m: int| 0 <= m < walk.len() - 1 implies has_edge(
                            edges@,
                            #[trigger] walk[m],
                            walk[m + 1],
                        ) by {
                            if m > 0 {
                                assert(has_edge(edges@, trail[(len - m - 1) + 1], trail[len - m - 1]));
                            }
                        }
                        assert(is_walk(edges@, walk));
                        assert(walk[0] == p && walk.last() == p);
                    }
                    return p;
                }
                proof {
                    let longer = trail.push(p);
                    assert forall|i: int| 0 <= i < longer.len() - 1 implies has_edge(
                        edges@,
                        longer[i + 1],
                        #[trigger] longer[i],
                    ) by {
                        if i < trail.len() - 1 {
                            assert(has_edge(edges@, trail[i + 1], trail[i]));
                        }
                    }
                    assert forall|x: int| 0 <= x < node_count implies (#[trigger] seen[x] <==> exists|
                        i: int,
                    |
                        0 <= i < longer.len() - 1 && #[trigger] longer[i] == x) by {
                        if seen[x] {
                            if x == cur {
                                assert(longer[trail.len() - 1] == x);
                            } else {
                                let i = choose|i: int|
                                    0 <= i < trail.len() - 1 && #[trigger] trail[i] == x;
                                assert(longer[i] == x);
                            }
                        }
                        if exists|i: int| 0 <= i < longer.len() - 1 && #[trigger] longer[i] == x {
                            let i = choose|i: int|
                                0 <= i < longer.len() - 1 && #[trigger] longer[i] == x;
                            if i < trail.len() - 1 {
                                assert(trail[i] == x);
                            }
                        }
                    }
                    trail = longer;
                }
                cur = p;
            },
        }
    }
}

/// Where the layering stands after `done` entries of `order`: these are a
/// topological prefix, exactly their nodes are placed, and the placed nodes
/// have their layers.
pub open spec fn placed_so_far(
    node_count: nat,
    edges: Seq<(usize, usize)>,
    order: Seq<usize>,
    done: int,
    layers: Seq<usize>,
    placed: Seq<bool>,
) -> bool {
    &&& node_count <= usize::MAX
    &&& layers.len() == node_count
    &&& placed.len() == node_count
    &&& 0 <= done <= node_count
    &&& done <= order.len()
    &&& is_topological_prefix(node_count, edges, order.take(done))
    &&& forall|v: int|
        0 <= v < node_count ==> (#[trigger] placed[v] <==> comes_before(order, done, v as usize))
    &&& layered_where_placed(edges, layers, placed)
    &&& count_set(placed) == done
    &&& forall|v: int| 0 <= v < node_count && placed[v] ==> layers[v] < done
}

/// The next entry of `order` cannot be used where it is no node, or is
/// placed already, or has a predecessor that is not placed.
proof fn lemma_cannot_place(
    node_count: nat,
    edges: Seq<(usize, usize)>,
    order: Seq<usize>,
    done: int,
    layers: Seq<usize>,
    placed: Seq<bool>,
)
    requires
        edges_resolved(node_count, edges),
        placed_so_far(node_count, edges, order, done, layers, placed),
        done < order.len(),
        order[done] >= node_count || placed[order[done] as int] || exists|j: int|
            0 <= j < edges.len() && (#[trigger] edges[j]).1 == order[done] && !placed[edges[j].0 as int],
    ensures
        !is_topological_prefix(node_count, edges, order.take(done + 1)),
{
    let next = order.take(done + 1);
    let v = order[done];
    assert(next[done] == v);
    if v >= node_count {
    } else if placed[v as int] {
        let k = choose|k: int| 0 <= k < done && k < order.len() && #[trigger] order[k] == v;
        assert(next[k] == v);
    } else {
        let j = choose|j: int|
            0 <= j < edges.len() && (#[trigger] edges[j]).1 == v && !placed[edges[j].0 as int];
        if is_topological_prefix(node_count, edges, next) {
            assert(comes_before(next, done, edges[j].0));
            let w = choose|w: int| 0 <= w < done && w < next.len() && #[trigger] next[w] == edges[j].0;
            assert(order[w] == edges[j].0);
            assert(comes_before(order, done, edges[j].0));
        }
    }
}

/// Placing the next entry of `order` in `layer`, one above the highest of
/// its predecessors, which are all placed, carries the layering one entry
/// on.
proof fn lemma_place_next(
    node_count: nat,
    edges: Seq<(usize, usize)>,
    order: Seq<usize>,
    done: int,
    layers: Seq<usize>,
    placed: Seq<bool>,
    layer: usize,
)
    requires
        edges_resolved(node_count, edges),
        placed_so_far(node_count, edges, order, done, layers, placed),
        done < order.len(),
        done < node_count,
        order[done] < node_count,
        !placed[order[done] as int],
        layer <= done,
        forall|j: int|
            0 <= j < edges.len() && (#[trigger] edges[j]).1 == order[done] ==> placed[edges[j].0 as int]
                && layers[edges[j].0 as int] < layer,
        layer == 0 || exists|j: int|
            0 <= j < edges.len() && (#[trigger] edges[j]).1 == order[done]
                && layers[edges[j].0 as int] + 1 == layer,
    ensures
        placed_so_far(
            node_count,
            edges,
            order,
            done + 1,
            layers.update(order[done] as int, layer),
            placed.update(order[done] as int, true),
        ),
{
    let v = order[done];
    let prev = order.take(done);
    let next = order.take(done + 1);
    let layers_after = layers.update(v as int, layer);
    let placed_after = placed.update(v as int, true);
    assert(next[done] == v);
    lemma_count_set_update(placed, v as int);
    assert forall|a: int, b: int| 0 <= a < b < next.len() implies #[trigger] next[a]
        != #[trigger] next[b] by {
        if b == done {
            if next[a] == v {
                assert(order[a] == v);
                assert(comes_before(order, done, v));
            }
        } else {
            assert(prev[a] == next[a] && prev[b] == next[b]);
        }
    }
    assert forall|a: int| 0 <= a < next.len() implies #[trigger] next[a] < node_count by {
        if a < done {
            assert(prev[a] == next[a]);
        }
    }
    assert forall|a: int, j: int|
        0 <= a < next.len() && 0 <= j < edges.len() && (#[trigger] edges[j]).1
            == #[trigger] next[a] implies comes_before(next, a, edges[j].0) by {
        if a == done {
            assert(placed[edges[j].0 as int]);
            assert(comes_before(order, done, edges[j].0));
            let w = choose|w: int|
                0 <= w < done && w < order.len() && #[trigger] order[w] == edges[j].0;
            assert(next[w] == edges[j].0);
        } else {
            assert(prev[a] == next[a]);
            assert(comes_before(prev, a, edges[j].0));
            let w = choose|w: int| 0 <= w < a && w < prev.len() && #[trigger] prev[w] == edges[j].0;
            assert(next[w] == edges[j].0);
        }
    }
    assert forall|x: int| 0 <= x < node_count implies (#[trigger] placed_after[x] <==> comes_before(
        order,
        done + 1,
        x as usize,
    )) by {
        if x == v {
            assert(order[done] == v);
        } else {
            if placed[x] {
                let w = choose|w: int| 0 <= w < done && w < order.len() && #[trigger] order[w] == x;
                assert(order[w] == x);
            }
            if comes_before(order, done + 1, x as usize) {
                let w = choose|w: int|
                    0 <= w < done + 1 && w < order.len() && #[trigger] order[w] == x;
                assert(w < done);
            }
        }
    }
    assert forall|j: int|
        0 <= j < edges.len() && placed_after[(#[trigger] edges[j]).1 as int] implies placed_after[edges[j].0 as int]
        && layers_after[edges[j].0 as int] < layers_after[edges[j].1 as int] by {
        if edges[j].1 != v {
            assert(placed[edges[j].1 as int]);
        }
    }
    assert forall|x: int| 0 <= x < placed_after.len() && #[trigger] placed_after[x] implies layers_after[x]
        == 0 || exists|j: int|
        0 <= j < edges.len() && (#[trigger] edges[j]).1 == x && layers_after[edges[j].0 as int] + 1
            == layers_after[x] by {
        if x == v {
            if layer != 0 {
                let j = choose|j: int|
                    0 <= j < edges.len() && (#[trigger] edges[j]).1 == v
                        && layers[edges[j].0 as int] + 1 == layer;
                assert(edges[j].1 == x && layers_after[edges[j].0 as int] + 1 == layers_after[x]);
            }
        } else {
            assert(placed[x]);
            if layers[x] != 0 {
                let j = choose|j: int|
                    0 <= j < edges.len() && (#[trigger] edges[j]).1 == x
                        && layers[edges[j].0 as int] + 1 == layers[x];
                assert(placed[edges[j].0 as int]);
                assert(edges[j].1 == x && layers_after[edges[j].0 as int] + 1 == layers_after[x]);
            }
        }
    }
}

/// Once every node is placed, the layers are the layering.
proof fn lemma_all_placed(
    node_count: nat,
    edges: Seq<(usize, usize)>,
    order: Seq<usize>,
    layers: Seq<usize>,
    placed: Seq<bool>,
)
    requires
        edges_resolved(node_count, edges),
        placed_so_far(node_count, edges, order, node_count as int, layers, placed),
    ensures
        is_layering(node_count, edges, layers),
        forall|v: int| 0 <= v < node_count ==> layers[v] < node_count,
{
    lemma_count_set_bound(placed);
    assert forall|j: int| 0 <= j < edges.len() implies layers[(#[trigger] edges[j]).0 as int]
        < layers[edges[j].1 as int] by {
        assert(placed[edges[j].1 as int]);
    }
    assert forall|v: int| 0 <= v < node_count implies #[trigger] layers[v] == 0 || exists|j: int|
        0 <= j < edges.len() && (#[trigger] edges[j]).1 == v && layers[edges[j].0 as int] + 1
            == layers[v] by {
        assert(placed[v]);
    }
    assert forall|v: int| 0 <= v < node_count implies layers[v] < node_count by {
        assert(placed[v]);
    }
}

/// The layer of every node, worked out along `order`.
///
/// The nodes are placed in the order given: a node gets layer 0 where no
/// edge enters it, and else one more than the highest layer among its
/// predecessors, which must all have been placed before it. The result is
/// the layering of the graph if the first `node_count` entries of `order`
/// are a topological order. Otherwise a node that blocks the layering is
/// reported.
pub fn layers_from_order(node_count: usize, edges: &Vec<(usize, usize)>, order: &Vec<usize>) -> (r:
    Result<Vec<usize>, LayoutError>)
    requires
        edges_resolved(node_count as nat, edges@),
    ensures
        r is Ok <==> covers_graph(node_count as nat, edges@, order@),
        r is Ok <==> usable_len(node_count as nat, edges@, order@) == node_count,
        r matches Ok(layers) ==> is_layering(node_count as nat, edges@, layers@),
        r matches Ok(layers) ==> forall|v: int| 0 <= v < node_count ==> layers[v] < node_count,
        r matches Err(e) ==> e matches LayoutError::GraphNotAcyclic { node } && is_blocked(
            node_count as nat,
            edges@,
            order@,
            node,
        ),
        has_cycle(edges@) ==> r is Err,
{
    let preds = predecessors(node_count, edges);
    let mut layers: Vec<usize> = repeated(node_count, 0usize);
    let mut placed: Vec<bool> = repeated(node_count, false);
    let mut i: usize = 0;
    let mut stopped = false;
    proof {
        lemma_count_set_clear(placed@);
        assert(order@.take(0) =~= Seq::<usize>::empty());
    }
    while !stopped && i < node_count && i < order.len()
        invariant
            edges_resolved(node_count as nat, edges@),
            preds.len() == node_count,
            forall|v: int| 0 <= v < node_count ==> (#[trigger] preds[v])@ == sources_into(edges@, v),
            placed_so_far(node_count as nat, edges@, order@, i as int, layers@, placed@),
            stopped ==> i < node_count && i < order.len() && !is_topological_prefix(
                node_count as nat,
                edges@,
                order@.take(i + 1),
            ),
        decreases (if stopped { 0int } else { 1int }), node_count - i,
    {
        let v = order[i];
        if v >= node_count || placed[v] {
            proof {
                lemma_cannot_place(node_count as nat, edges@, order@, i as int, layers@, placed@);
            }
            stopped = true;
        } else {
            proof {
                assert forall|k: int| 0 <= k < preds[v as int].len() implies preds[v as int][k]
                    < placed.len() by {
                    lemma_source_has_edge(edges@, v, k);
                }
            }
            match layer_above(&preds[v], &layers, &placed, i) {
                None => {
                    proof {
                        let k = choose|k: int|
                            0 <= k < preds[v as int].len() && !placed[preds[v as int][k] as int];
                        lemma_source_has_edge(edges@, v, k);
                        let j = choose|j: int|
                            0 <= j < edges.len() && #[trigger] edges[j] == (preds[v as int][k], v);
                        assert(edges@[j].1 == v && !placed[edges@[j].0 as int]);
                        lemma_cannot_place(
                            node_count as nat,
                            edges@,
                            order@,
                            i as int,
                            layers@,
                            placed@,
                        );
                    }
                    stopped = true;
                },
                Some(layer) => {
                    proof {
                        assert forall|j: int|
                            0 <= j < edges.len() && (#[trigger] edges@[j]).1 == v implies placed[edges@[j].0 as int]
                            && layers[edges@[j].0 as int] < layer by {
                            lemma_edge_is_listed(edges@, j);
                            let k = choose|k: int|
                                0 <= k < sources_into(edges@, v as int).len()
                                    && #[trigger] sources_into(edges@, v as int)[k] == edges@[j].0;
                            assert(placed[preds[v as int][k] as int]);
                        }
                        if layer != 0 {
                            let k = choose|k: int|
                                0 <= k < preds[v as int].len() && layers[#[trigger] preds[v as int][k] as int]
                                    + 1 == layer;
                            lemma_source_has_edge(edges@, v, k);
                            let j = choose|j: int|
                                0 <= j < edges.len() && #[trigger] edges[j] == (
                                    preds[v as int][k],
                                    v,
                                );
                            assert(edges@[j].1 == v && layers[edges@[j].0 as int] + 1 == layer);
                        }
                        lemma_place_next(
                            node_count as nat,
                            edges@,
                            order@,
                            i as int,
                            layers@,
                            placed@,
                            layer,
                        );
                    }
                    layers.set(v, layer);
                    placed.set(v, true);
                    i = i + 1;
                },
            }
        }
    }
    proof {
        lemma_usable_len(node_count as nat, edges@, order@, i as int);
        if order.len() >= node_count {
            assert(order@.take(node_count as int).len() == node_count);
            if i < node_count && is_topological_order(
                node_count as nat,
                edges@,
                order@.take(node_count as int),
            ) {
                assert(order@.take(node_count as int).take(i + 1) =~= order@.take(i + 1));
                lemma_prefix_closed(
                    node_count as nat,
                    edges@,
                    order@.take(node_count as int),
                    i + 1,
                    node_count as int,
                );
            }
        }
    }
    if i == node_count {
        proof {
            lemma_all_placed(node_count as nat, edges@, order@, layers@, placed@);
            lemma_layered_is_acyclic(node_count as nat, edges@, layers@);
        }
        Ok(layers)
    } else {
        let mut start: usize = 0;
        while start < node_count && placed[start]
            invariant
                start <= node_count,
                placed.len() == node_count,
                forall|u: int| 0 <= u < start ==> placed[u],
            decreases node_count - start,
        {
            start = start + 1;
        }
        proof {
            if start == node_count {
                lemma_count_all_set(placed@);
            }
        }
        let node = find_blocked(node_count, edges, &preds, &placed, start);
        Err(LayoutError::GraphNotAcyclic { node })
    }
}

/// What a topological walk that visits every node it can leaves out lies
/// behind a cycle: the node that blocks the layering is on one.
pub proof fn lemma_blocked_after_walk(
    node_count: nat,
    edges: Seq<(usize, usize)>,
    order: Seq<usize>,
    node: usize,
)
    requires
        is_topological_prefix(node_count, edges, order),
        visits_all_ready(node_count, edges, order),
        is_blocked(node_count, edges, order, node),
        !covers_graph(node_count, edges, order),
    ensures
        on_cycle(edges, node),
{
    let k = usable_len(node_count, edges, order) as int;
    lemma_usable_bounds(node_count, edges, order, 0);
    if k < order.len() {
        if k < node_count {
            assert(order.take(order.len() as int) =~= order);
            lemma_prefix_closed(node_count, edges, order, k + 1, order.len() as int);
        } else {
            assert(order.take(node_count as int).len() == node_count);
        }
    }
    if k == order.len() && !on_cycle(edges, node) {
        assert forall|j: int|
            0 <= j < edges.len() && (#[trigger] edges[j]).1 == node implies order.contains(
            edges[j].0,
        ) by {
            assert(comes_before(order, k, edges[j].0));
            let w = choose|w: int| 0 <= w < k && w < order.len() && #[trigger] order[w] == edges[j].0;
            assert(order[w] == edges[j].0);
        }
        assert(order.contains(node));
        let w = choose|w: int| 0 <= w < order.len() && order[w] == node;
        assert(comes_before(order, k, node));
    }
}

/// The usable length is the length of a topological prefix, and where it
/// stops short, the next entry cannot be used.
proof fn lemma_usable_bounds(
    node_count: nat,
    edges: Seq<(usize, usize)>,
    order: Seq<usize>,
    from: nat,
)
    requires
        from <= order.len(),
        from <= node_count,
        is_topological_prefix(node_count, edges, order.take(from as int)),
    ensures
        from <= usable_from(node_count, edges, order, from) <= order.len(),
        usable_from(node_count, edges, order, from) <= node_count,
        is_topological_prefix(
            node_count,
            edges,
            order.take(usable_from(node_count, edges, order, from) as int),
        ),
        usable_from(node_count, edges, order, from) < order.len() && usable_from(
            node_count,
            edges,
            order,
            from,
        ) < node_count ==> !is_topological_prefix(
            node_count,
            edges,
            order.take(usable_from(node_count, edges, order, from) + 1 as int),
        ),
    decreases order.len() - from,
{
    if from < order.len() && from < node_count && is_topological_prefix(
        node_count,
        edges,
        order.take(from + 1 as int),
    ) {
        lemma_usable_bounds(node_count, edges, order, from + 1);
    }
}

/// Where every flag is set, the count is the length.
proof fn lemma_count_all_set(flags: Seq<bool>)
    requires
        forall|i: int| 0 <= i < flags.len() ==> flags[i],
    ensures
        count_set(flags) == flags.len(),
    decreases flags.len(),
{
    if flags.len() > 0 {
        assert forall|i: int| 0 <= i < flags.drop_last().len() implies flags.drop_last()[i] by {
            assert(flags.drop_last()[i] == flags[i]);
        }
        lemma_count_all_set(flags.drop_last());
    }
}

} // verus!
