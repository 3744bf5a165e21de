//! Dependencies between nodes and the topological order that `connect` finds.
use vstd::prelude::*;
use vstd::set_lib::{lemma_int_range, lemma_len_subset, set_int_range};
use crate::node::{node_refs, Edge, Node, NodeInner, Task};

verus! {

/// Whether some node has identity `id`.
pub open spec fn has_id(nodes: Seq<Node>, id: usize) -> bool {
    exists|j: int| 0 <= j < nodes.len() && #[trigger] nodes[j].id == id
}

/// No two nodes share an identity.
pub open spec fn unique_ids(nodes: Seq<Node>) -> bool {
    forall|i: int, j: int|
        0 <= i < nodes.len() && 0 <= j < nodes.len() && i != j ==> #[trigger] nodes[i].id != #[trigger] nodes[j].id
}

/// `i` is the first index of a node with identity `id`.
pub open spec fn resolves(nodes: Seq<Node>, id: usize, i: int) -> bool {
    &&& 0 <= i < nodes.len()
    &&& nodes[i].id == id
    &&& forall|j: int| 0 <= j < i ==> #[trigger] nodes[j].id != id
}

/// First index of the node with identity `id`, if any.
pub fn find_node(nodes: &Vec<Node>, id: usize) -> (r: Option<usize>)
    ensures
        r is Some <==> has_id(nodes@, id),
        r is Some ==> resolves(nodes@, id, r->Some_0 as int),
{
    let mut i: usize = 0;
    while i < nodes.len()
        invariant
            i <= nodes@.len(),
            forall|j: int| 0 <= j < i ==> #[trigger] nodes@[j].id != id,
        decreases nodes@.len() - i,
    {
        if nodes[i].id == id {
            return Some(i);
        }
        i = i + 1;
    }
    None
}

/// Nodes after appending `new` in order, skipping any whose identity is
/// already present.
pub open spec fn append_new(nodes: Seq<Node>, new: Seq<Node>) -> Seq<Node>
    decreases new.len(),
{
    if new.len() == 0 {
        nodes
    } else {
        let p = append_new(nodes, new.drop_last());
        if has_id(p, new.last().id) {
            p
        } else {
            p.push(new.last())
        }
    }
}


/// `i` and `j` both resolving `id` are the same index.
pub proof fn lemma_resolves_unique(nodes: Seq<Node>, id: usize, i: int, j: int)
    requires
        resolves(nodes, id, i),
        resolves(nodes, id, j),
    ensures
        i == j,
{
    if i < j {
        assert(nodes[i].id != id);
    } else if j < i {
        assert(nodes[j].id != id);
    }
}

/// Node `d` depends on node `s` (indices): through an explicit edge, or
/// because `s` is an operand of the task held by `d`.
pub open spec fn depends(nodes: Seq<Node>, edges: Seq<Edge>, s: int, d: int) -> bool {
    ||| exists|e: int|
        0 <= e < edges.len() && #[trigger] resolves(nodes, edges[e].src, s) && resolves(
            nodes,
            edges[e].dst,
            d,
        )
    ||| 0 <= d < nodes.len() && exists|k: int|
        0 <= k < node_refs(nodes[d]).len() && #[trigger] resolves(nodes, node_refs(nodes[d])[k], s)
}

/// Every identity an edge or a task refers to is a node of the graph.
pub open spec fn all_resolved(nodes: Seq<Node>, edges: Seq<Edge>) -> bool {
    &&& forall|e: int|
        0 <= e < edges.len() ==> has_id(nodes, #[trigger] edges[e].src) && has_id(nodes, edges[e].dst)
    &&& forall|i: int, k: int|
        0 <= i < nodes.len() && 0 <= k < node_refs(nodes[i]).len() ==> has_id(
            nodes,
            #[trigger] node_refs(nodes[i])[k],
        )
}

/// `pos` gives each node a position below the node count, and every
/// dependency goes from a smaller position to a larger one.
pub open spec fn is_topo_pos(nodes: Seq<Node>, edges: Seq<Edge>, pos: Seq<usize>) -> bool {
    &&& pos.len() == nodes.len()
    &&& forall|i: int| 0 <= i < pos.len() ==> #[trigger] pos[i] < nodes.len()
    &&& forall|s: int, d: int|
        0 <= s < nodes.len() && 0 <= d < nodes.len() && #[trigger] depends(nodes, edges, s, d)
            ==> pos[s] < pos[d]
}

/// The dependencies admit a topological order.
pub open spec fn acyclic(nodes: Seq<Node>, edges: Seq<Edge>) -> bool {
    exists|pos: Seq<usize>| is_topo_pos(nodes, edges, pos)
}

/// `c` is a closed walk of dependencies: each node depends on the one before
/// it, and the first depends on the last.
pub open spec fn is_cycle(nodes: Seq<Node>, edges: Seq<Edge>, c: Seq<int>) -> bool {
    &&& c.len() >= 1
    &&& forall|k: int| 0 <= k < c.len() ==> 0 <= #[trigger] c[k] < nodes.len()
    &&& forall|k: int| 0 <= k < c.len() - 1 ==> #[trigger] depends(nodes, edges, c[k], c[k + 1])
    &&& depends(nodes, edges, c.last(), c[0])
}

/// A graph whose dependencies (explicit edges and task references) contain
/// a cycle has no topological order; since `connect` succeeds exactly on
/// graphs that have one, it fails there and the graph stays building, where
/// `emit` fails too.
pub proof fn cycle_not_acyclic(nodes: Seq<Node>, edges: Seq<Edge>, c: Seq<int>)
    requires
        is_cycle(nodes, edges, c),
    ensures
        !acyclic(nodes, edges),
{
    if acyclic(nodes, edges) {
        let pos = choose|pos: Seq<usize>| is_topo_pos(nodes, edges, pos);
        lemma_walk_rises(nodes, edges, c, pos, c.len() - 1);
        assert(depends(nodes, edges, c.last(), c[0]));
        assert(pos[c[c.len() - 1]] >= pos[c[0]] + c.len() - 1);
    }
}

proof fn lemma_walk_rises(nodes: Seq<Node>, edges: Seq<Edge>, c: Seq<int>, pos: Seq<usize>, k: int)
    requires
        is_cycle(nodes, edges, c),
        is_topo_pos(nodes, edges, pos),
        0 <= k < c.len(),
    ensures
        pos[c[k]] >= pos[c[0]] + k,
    decreases k,
{
    if k > 0 {
        lemma_walk_rises(nodes, edges, c, pos, k - 1);
        let j = k - 1;
        assert(depends(nodes, edges, c[j], c[j + 1]));
    }
}

/// Endpoints of each edge as node indices.
pub(crate) fn resolve_edges(nodes: &Vec<Node>, edges: &Vec<Edge>) -> (r: Result<Vec<(usize, usize)>, usize>)
    ensures
        r is Ok ==> r->Ok_0@.len() == edges@.len() && forall|e: int|
            0 <= e < edges@.len() ==> resolves(nodes@, edges@[e].src, #[trigger] r->Ok_0@[e].0 as int)
                && resolves(nodes@, edges@[e].dst, r->Ok_0@[e].1 as int),
        r is Ok <==> forall|e: int|
            0 <= e < edges@.len() ==> has_id(nodes@, #[trigger] edges@[e].src) && has_id(
                nodes@,
                edges@[e].dst,
            ),
        r is Err ==> !has_id(nodes@, r->Err_0),
{
    let mut ends: Vec<(usize, usize)> = Vec::new();
    let mut e: usize = 0;
    while e < edges.len()
        invariant
            e <= edges@.len(),
            ends@.len() == e,
            forall|j: int|
                0 <= j < e ==> resolves(nodes@, edges@[j].src, #[trigger] ends@[j].0 as int)
                    && resolves(nodes@, edges@[j].dst, ends@[j].1 as int),
        decreases edges@.len() - e,
    {
        let src = edges[e].src;
        let dst = edges[e].dst;
        let s = match find_node(nodes, src) {
            Some(s) => s,
            None => {
                assert(!has_id(nodes@, edges@[e as int].src));
                return Err(src);
            },
        };
        let d = match find_node(nodes, dst) {
            Some(d) => d,
            None => {
                assert(!has_id(nodes@, edges@[e as int].dst));
                return Err(dst);
            },
        };
        ends.push((s, d));
        e = e + 1;
    }
    assert forall|e: int| 0 <= e < edges@.len() implies has_id(nodes@, #[trigger] edges@[e].src)
        && has_id(nodes@, edges@[e].dst) by {
        assert(nodes@[ends@[e].0 as int].id == edges@[e].src);
        assert(nodes@[ends@[e].1 as int].id == edges@[e].dst);
    }
    Ok(ends)
}

/// Index of each node a task refers to, per node.
pub(crate) fn resolve_operands(nodes: &Vec<Node>) -> (r: Result<Vec<Vec<usize>>, usize>)
    ensures
        r is Ok ==> r->Ok_0@.len() == nodes@.len() && (forall|i: int|
            0 <= i < nodes@.len() ==> (#[trigger] r->Ok_0@[i])@.len() == node_refs(nodes@[i]).len())
            && forall|i: int, k: int|
            0 <= i < nodes@.len() && 0 <= k < node_refs(nodes@[i]).len() ==> resolves(
                nodes@,
                node_refs(nodes@[i])[k],
                #[trigger] r->Ok_0@[i]@[k] as int,
            ),
        r is Ok <==> forall|i: int, k: int|
            0 <= i < nodes@.len() && 0 <= k < node_refs(nodes@[i]).len() ==> has_id(
                nodes@,
                #[trigger] node_refs(nodes@[i])[k],
            ),
        r is Err ==> !has_id(nodes@, r->Err_0),
{
    let mut ops: Vec<Vec<usize>> = Vec::new();
    let mut i: usize = 0;
    while i < nodes.len()
        invariant
            i <= nodes@.len(),
            ops@.len() == i,
            forall|j: int|
                0 <= j < i ==> (#[trigger] ops@[j])@.len() == node_refs(nodes@[j]).len(),
            forall|j: int, k: int|
                0 <= j < i && 0 <= k < node_refs(nodes@[j]).len() ==> resolves(
                    nodes@,
                    node_refs(nodes@[j])[k],
                    #[trigger] ops@[j]@[k] as int,
                ),
        decreases nodes@.len() - i,
    {
        let refs = nodes[i].refs();
        let mut row: Vec<usize> = Vec::new();
        let mut k: usize = 0;
        while k < refs.len()
            invariant
                i < nodes@.len(),
                refs@ == node_refs(nodes@[i as int]),
                k <= refs@.len(),
                row@.len() == k,
                forall|m: int|
                    0 <= m < k ==> resolves(nodes@, refs@[m], #[trigger] row@[m] as int),
            decreases refs@.len() - k,
        {
            match find_node(nodes, refs[k]) {
                Some(x) => row.push(x),
                None => {
                    assert(!has_id(nodes@, node_refs(nodes@[i as int])[k as int]));
                    return Err(refs[k]);
                },
            }
            k = k + 1;
        }
        ops.push(row);
        i = i + 1;
    }
    assert forall|i: int, k: int|
        0 <= i < nodes@.len() && 0 <= k < node_refs(nodes@[i]).len() implies has_id(
            nodes@,
            #[trigger] node_refs(nodes@[i])[k],
        ) by {
        assert(nodes@[ops@[i]@[k] as int].id == node_refs(nodes@[i])[k]);
    }
    Ok(ops)
}

/// Views of a sequence of rows.
pub open spec fn rows(v: Seq<Vec<usize>>) -> Seq<Seq<usize>> {
    v.map_values(|o: Vec<usize>| o@)
}

/// Every dependency of node `i` is placed.
spec fn ready(ends: Seq<(usize, usize)>, ops: Seq<Seq<usize>>, placed: Seq<bool>, i: int) -> bool {
    &&& forall|e: int|
        0 <= e < ends.len() && #[trigger] ends[e].1 == i ==> placed[ends[e].0 as int]
    &&& forall|k: int| 0 <= k < ops[i].len() ==> placed[#[trigger] ops[i][k] as int]
}

/// Whether every dependency of node `i` is placed.
fn is_ready(ends: &Vec<(usize, usize)>, ops: &Vec<Vec<usize>>, placed: &Vec<bool>, i: usize) -> (r: bool)
    requires
        i < ops@.len(),
        forall|e: int| 0 <= e < ends@.len() ==> (#[trigger] ends@[e]).0 < placed@.len(),
        forall|k: int| 0 <= k < ops@[i as int]@.len() ==> #[trigger] ops@[i as int]@[k] < placed@.len(),
    ensures
        r == ready(ends@, rows(ops@), placed@, i as int),
{
    let ghost opv = rows(ops@);
    let mut e: usize = 0;
    while e < ends.len()
        invariant
            e <= ends@.len(),
            forall|e: int| 0 <= e < ends@.len() ==> (#[trigger] ends@[e]).0 < placed@.len(),
            forall|j: int|
                0 <= j < e && #[trigger] ends@[j].1 == i ==> placed@[ends@[j].0 as int],
        decreases ends@.len() - e,
    {
        if ends[e].1 == i && !placed[ends[e].0] {
            return false;
        }
        e = e + 1;
    }
    let row = &ops[i];
    let mut k: usize = 0;
    while k < row.len()
        invariant
            opv == rows(ops@),
            row@ == opv[i as int],
            k <= row@.len(),
            forall|k: int| 0 <= k < row@.len() ==> #[trigger] row@[k] < placed@.len(),
            forall|m: int| 0 <= m < k ==> placed@[#[trigger] row@[m] as int],
        decreases row@.len() - k,
    {
        if !placed[row[k]] {
            assert(opv[i as int][k as int] == row@[k as int]);
            assert(!placed@[opv[i as int][k as int] as int]);
            return false;
        }
        k = k + 1;
    }
    true
}


/// First unplaced node whose dependencies are all placed, if any.
fn find_ready(ends: &Vec<(usize, usize)>, ops: &Vec<Vec<usize>>, placed: &Vec<bool>) -> (r: Option<usize>)
    requires
        ops@.len() == placed@.len(),
        forall|e: int| 0 <= e < ends@.len() ==> (#[trigger] ends@[e]).0 < placed@.len(),
        forall|i: int, k: int|
            0 <= i < ops@.len() && 0 <= k < ops@[i]@.len() ==> #[trigger] ops@[i]@[k] < placed@.len(),
    ensures
        r is Some ==> r->Some_0 < placed@.len() && !placed@[r->Some_0 as int] && ready(
            ends@,
            rows(ops@),
            placed@,
            r->Some_0 as int,
        ),
        r is Some ==> forall|j: int|
            0 <= j < r->Some_0 && !#[trigger] placed@[j] ==> !ready(ends@, rows(ops@), placed@, j),
        r is None ==> forall|i: int|
            0 <= i < placed@.len() && !#[trigger] placed@[i] ==> !ready(ends@, rows(ops@), placed@, i),
{
    let mut i: usize = 0;
    while i < placed.len()
        invariant
            i <= placed@.len(),
            ops@.len() == placed@.len(),
            forall|e: int| 0 <= e < ends@.len() ==> (#[trigger] ends@[e]).0 < placed@.len(),
            forall|i: int, k: int|
                0 <= i < ops@.len() && 0 <= k < ops@[i]@.len() ==> #[trigger] ops@[i]@[k] < placed@.len(),
            forall|j: int|
                0 <= j < i && !#[trigger] placed@[j] ==> !ready(ends@, rows(ops@), placed@, j),
        decreases placed@.len() - i,
    {
        if !placed[i] && is_ready(ends, ops, placed, i) {
            return Some(i);
        }
        i = i + 1;
    }
    None
}

/// A vector of `n` copies of `v`.
pub(crate) fn filled<T: Copy>(n: usize, v: T) -> (r: Vec<T>)
    ensures
        r@ == Seq::new(n as nat, |i: int| v),
{
    let mut r: Vec<T> = Vec::new();
    while r.len() < n
        invariant
            r@.len() <= n,
            forall|i: int| 0 <= i < r@.len() ==> #[trigger] r@[i] == v,
        decreases n - r@.len(),
    {
        r.push(v);
    }
    assert(r@ =~= Seq::new(n as nat, |i: int| v));
    r
}

/// Index of the first unplaced node, if any.
fn first_unplaced(placed: &Vec<bool>) -> (r: Option<usize>)
    ensures
        r is Some ==> r->Some_0 < placed@.len() && !placed@[r->Some_0 as int],
        r is None ==> forall|i: int| 0 <= i < placed@.len() ==> #[trigger] placed@[i],
{
    let mut i: usize = 0;
    while i < placed.len()
        invariant
            i <= placed@.len(),
            forall|j: int| 0 <= j < i ==> #[trigger] placed@[j],
        decreases placed@.len() - i,
    {
        if !placed[i] {
            return Some(i);
        }
        i = i + 1;
    }
    None
}


/// Edge endpoints resolved to node indices.
pub(crate) open spec fn resolved_ends(nodes: Seq<Node>, edges: Seq<Edge>, ends: Seq<(usize, usize)>) -> bool {
    &&& ends.len() == edges.len()
    &&& forall|e: int|
        0 <= e < edges.len() ==> resolves(nodes, edges[e].src, #[trigger] ends[e].0 as int)
            && resolves(nodes, edges[e].dst, ends[e].1 as int)
}

/// Task references resolved to node indices.
pub(crate) open spec fn resolved_ops(nodes: Seq<Node>, ops: Seq<Seq<usize>>) -> bool {
    &&& ops.len() == nodes.len()
    &&& forall|i: int| 0 <= i < nodes.len() ==> (#[trigger] ops[i]).len() == node_refs(nodes[i]).len()
    &&& forall|i: int, k: int|
        0 <= i < nodes.len() && 0 <= k < node_refs(nodes[i]).len() ==> resolves(
            nodes,
            node_refs(nodes[i])[k],
            #[trigger] ops[i][k] as int,
        )
}

/// State of the placement loop: `order` lists the placed nodes, `pos`
/// inverts it, and each placed node comes after what it depends on.
#[verifier::opaque]
spec fn placement(
    nodes: Seq<Node>,
    edges: Seq<Edge>,
    ends: Seq<(usize, usize)>,
    ops: Seq<Seq<usize>>,
    placed: Seq<bool>,
    pos: Seq<usize>,
    order: Seq<usize>,
    done: Set<int>,
) -> bool {
    let n = nodes.len();
    &&& placed.len() == n
    &&& pos.len() == n
    &&& order.len() <= n
    &&& done.finite()
    &&& done.len() == order.len()
    &&& forall|i: int| #[trigger] done.contains(i) <==> 0 <= i < n && placed[i]
    &&& forall|k: int|
        0 <= k < order.len() ==> #[trigger] order[k] < n && placed[order[k] as int] && pos[order[k] as int]
            == k
    &&& forall|i: int|
        0 <= i < n && #[trigger] placed[i] ==> pos[i] < order.len() && order[pos[i] as int] == i
    &&& forall|e: int|
        0 <= e < ends.len() && #[trigger] placed[ends[e].1 as int] ==> placed[ends[e].0 as int]
            && pos[ends[e].0 as int] < pos[ends[e].1 as int]
    &&& forall|d: int, k: int|
        0 <= d < n && placed[d] && 0 <= k < ops[d].len() ==> placed[#[trigger] ops[d][k] as int]
            && pos[ops[d][k] as int] < pos[d]
}

proof fn lemma_place_init(
    nodes: Seq<Node>,
    edges: Seq<Edge>,
    ends: Seq<(usize, usize)>,
    ops: Seq<Seq<usize>>,
    placed: Seq<bool>,
    pos: Seq<usize>,
    order: Seq<usize>,
    done: Set<int>,
)
    requires
        resolved_ends(nodes, edges, ends),
        placed == Seq::new(nodes.len(), |i: int| false),
        pos == Seq::new(nodes.len(), |i: int| 0usize),
        order.len() == 0,
        done == Set::<int>::empty(),
    ensures
        placement(nodes, edges, ends, ops, placed, pos, order, done),
{
    reveal(placement);
    assert(done.len() == 0);
    assert(done.finite());
    assert forall|i: int| 0 <= i < nodes.len() implies !#[trigger] placed[i] by {}
    assert forall|e: int| 0 <= e < ends.len() && #[trigger] placed[ends[e].1 as int] implies placed[ends[e].0 as int]
        && pos[ends[e].0 as int] < pos[ends[e].1 as int] by {
        assert(resolves(nodes, edges[e].src, ends[e].0 as int));
        assert(!placed[ends[e].1 as int]);
    }
    assert forall|d: int, k: int|
        0 <= d < nodes.len() && placed[d] && 0 <= k < ops[d].len() implies placed[#[trigger] ops[d][k] as int]
            && pos[ops[d][k] as int] < pos[d] by {
        assert(!placed[d]);
    }
    assert forall|i: int| #[trigger] done.contains(i) <==> 0 <= i < nodes.len() && placed[i] by {
        if 0 <= i < nodes.len() {
            assert(!placed[i]);
        }
    }
}

proof fn lemma_place_bounds(
    nodes: Seq<Node>,
    edges: Seq<Edge>,
    ends: Seq<(usize, usize)>,
    ops: Seq<Seq<usize>>,
    placed: Seq<bool>,
    pos: Seq<usize>,
    order: Seq<usize>,
    done: Set<int>,
)
    requires
        resolved_ends(nodes, edges, ends),
        resolved_ops(nodes, ops),
        placement(nodes, edges, ends, ops, placed, pos, order, done),
    ensures
        placed.len() == nodes.len(),
        pos.len() == nodes.len(),
        order.len() <= nodes.len(),
        forall|i: int| 0 <= i < nodes.len() && #[trigger] placed[i] ==> pos[i] < order.len(),
        forall|k: int| 0 <= k < order.len() ==> #[trigger] order[k] < nodes.len() && placed[order[k] as int],
        forall|e: int| 0 <= e < ends.len() ==> (#[trigger] ends[e]).0 < placed.len(),
        forall|i: int, k: int|
            0 <= i < ops.len() && 0 <= k < ops[i].len() ==> #[trigger] ops[i][k] < placed.len(),
{
    reveal(placement);
    assert forall|e: int| 0 <= e < ends.len() implies (#[trigger] ends[e]).0 < placed.len() by {
        assert(resolves(nodes, edges[e].src, ends[e].0 as int));
    }
    assert forall|i: int, k: int| 0 <= i < ops.len() && 0 <= k < ops[i].len() implies #[trigger] ops[i][k]
        < placed.len() by {
        assert(resolves(nodes, node_refs(nodes[i])[k], ops[i][k] as int));
    }
}

proof fn lemma_place_step(
    nodes: Seq<Node>,
    edges: Seq<Edge>,
    ends: Seq<(usize, usize)>,
    ops: Seq<Seq<usize>>,
    placed: Seq<bool>,
    pos: Seq<usize>,
    order: Seq<usize>,
    done: Set<int>,
    i: int,
)
    requires
        resolved_ends(nodes, edges, ends),
        resolved_ops(nodes, ops),
        placement(nodes, edges, ends, ops, placed, pos, order, done),
        order.len() < nodes.len(),
        nodes.len() <= usize::MAX,
        0 <= i < nodes.len(),
        !placed[i],
        ready(ends, ops, placed, i),
    ensures
        placement(
            nodes,
            edges,
            ends,
            ops,
            placed.update(i, true),
            pos.update(i, order.len() as usize),
            order.push(i as usize),
            done.insert(i),
        ),
{
    reveal(placement);
    let p = order.len();
    let placed1 = placed.update(i, true);
    let pos1 = pos.update(i, p as usize);
    let order1 = order.push(i as usize);
    assert(!done.contains(i));
    assert forall|k: int| 0 <= k < order1.len() implies #[trigger] order1[k] < nodes.len() && placed1[order1[k] as int]
        && pos1[order1[k] as int] == k by {
        if k < p {
            assert(order1[k] == order[k]);
            assert(order[k] < nodes.len() && placed[order[k] as int] && pos[order[k] as int] == k);
            assert(order[k] as int != i);
        } else {
            assert(order1[k] as int == i);
        }
    }
    assert forall|e: int|
        0 <= e < ends.len() && #[trigger] placed1[ends[e].1 as int] implies placed1[ends[e].0 as int]
            && pos1[ends[e].0 as int] < pos1[ends[e].1 as int] by {
        assert(resolves(nodes, edges[e].src, ends[e].0 as int));
        assert(resolves(nodes, edges[e].dst, ends[e].1 as int));
        let x = ends[e].0 as int;
        if ends[e].1 as int == i {
            assert(placed[x]);
            assert(pos[x] < p);
            assert(x != i);
        } else {
            assert(placed[ends[e].1 as int]);
            assert(x != i);
        }
    }
    assert forall|d: int, k: int|
        0 <= d < nodes.len() && placed1[d] && 0 <= k < ops[d].len() implies placed1[#[trigger] ops[d][k] as int]
            && pos1[ops[d][k] as int] < pos1[d] by {
        let x = ops[d][k] as int;
        assert(resolves(nodes, node_refs(nodes[d])[k], x));
        if d == i {
            assert(placed[x]);
            assert(0 <= x < nodes.len() ==> pos[x] < p) by {
                if 0 <= x < nodes.len() {
                    assert(placed[x]);
                }
            }
            assert(x != i);
        } else {
            assert(placed[d]);
            assert(placed[x] && pos[x] < pos[d]);
            assert(x != i);
        }
    }
    assert forall|j: int| #[trigger] done.insert(i).contains(j) <==> 0 <= j < nodes.len() && placed1[j] by {
        if j != i {
            assert(done.contains(j) <==> 0 <= j < nodes.len() && placed[j]);
        }
    }
}

proof fn lemma_place_unplaced(
    nodes: Seq<Node>,
    edges: Seq<Edge>,
    ends: Seq<(usize, usize)>,
    ops: Seq<Seq<usize>>,
    placed: Seq<bool>,
    pos: Seq<usize>,
    order: Seq<usize>,
    done: Set<int>,
)
    requires
        placement(nodes, edges, ends, ops, placed, pos, order, done),
        order.len() < nodes.len(),
    ensures
        exists|u: int| 0 <= u < placed.len() && !placed[u],
{
    reveal(placement);
    let n = nodes.len() as int;
    if forall|u: int| 0 <= u < n ==> placed[u] {
        lemma_int_range(0, n);
        assert(set_int_range(0, n).subset_of(done));
        lemma_len_subset(set_int_range(0, n), done);
    }
}

proof fn lemma_place_done(
    nodes: Seq<Node>,
    edges: Seq<Edge>,
    ends: Seq<(usize, usize)>,
    ops: Seq<Seq<usize>>,
    placed: Seq<bool>,
    pos: Seq<usize>,
    order: Seq<usize>,
    done: Set<int>,
)
    requires
        resolved_ends(nodes, edges, ends),
        resolved_ops(nodes, ops),
        placement(nodes, edges, ends, ops, placed, pos, order, done),
        order.len() == nodes.len(),
    ensures
        is_topo_pos(nodes, edges, pos),
        forall|i: int| 0 <= i < nodes.len() ==> #[trigger] placed[i],
        forall|k: int| 0 <= k < nodes.len() ==> #[trigger] order[k] < nodes.len() && pos[order[k] as int] == k,
        forall|i: int| 0 <= i < nodes.len() ==> #[trigger] order[pos[i] as int] == i,
{
    reveal(placement);
    let n = nodes.len() as int;
    assert forall|i: int| 0 <= i < n implies #[trigger] placed[i] by {
        if !placed[i] {
            lemma_int_range(0, n);
            assert(done.subset_of(set_int_range(0, n).remove(i)));
            lemma_len_subset(done, set_int_range(0, n).remove(i));
        }
    }
    assert forall|s: int, d: int|
        0 <= s < n && 0 <= d < n && #[trigger] depends(nodes, edges, s, d) implies pos[s] < pos[d] by {
        assert(placed[d]);
        if exists|e: int|
            0 <= e < edges.len() && #[trigger] resolves(nodes, edges[e].src, s) && resolves(
                nodes,
                edges[e].dst,
                d,
            ) {
            let e = choose|e: int|
                0 <= e < edges.len() && #[trigger] resolves(nodes, edges[e].src, s) && resolves(
                    nodes,
                    edges[e].dst,
                    d,
                );
            lemma_resolves_unique(nodes, edges[e].src, s, ends[e].0 as int);
            lemma_resolves_unique(nodes, edges[e].dst, d, ends[e].1 as int);
            assert(placed[ends[e].1 as int]);
        } else {
            let k = choose|k: int|
                0 <= k < node_refs(nodes[d]).len() && #[trigger] resolves(nodes, node_refs(nodes[d])[k], s);
            lemma_resolves_unique(nodes, node_refs(nodes[d])[k], s, ops[d][k] as int);
            assert(placed[ops[d][k] as int]);
        }
    }
    assert forall|i: int| 0 <= i < n implies #[trigger] pos[i] < nodes.len() by {
        assert(placed[i]);
    }
    assert forall|i: int| 0 <= i < n implies #[trigger] order[pos[i] as int] == i by {
        assert(placed[i]);
    }
}


/// Node `d` waits on node `s` through an edge end or a task operand.
spec fn pred_link(ends: Seq<(usize, usize)>, ops: Seq<Seq<usize>>, s: int, d: int) -> bool {
    ||| exists|e: int| 0 <= e < ends.len() && #[trigger] ends[e].0 == s && ends[e].1 == d
    ||| exists|k: int| 0 <= k < ops[d].len() && #[trigger] ops[d][k] == s
}

proof fn lemma_link_depends(
    nodes: Seq<Node>,
    edges: Seq<Edge>,
    ends: Seq<(usize, usize)>,
    ops: Seq<Seq<usize>>,
    s: int,
    d: int,
)
    requires
        resolved_ends(nodes, edges, ends),
        resolved_ops(nodes, ops),
        0 <= d < nodes.len(),
        pred_link(ends, ops, s, d),
    ensures
        depends(nodes, edges, s, d),
{
    if exists|e: int| 0 <= e < ends.len() && #[trigger] ends[e].0 == s && ends[e].1 == d {
        let e = choose|e: int| 0 <= e < ends.len() && #[trigger] ends[e].0 == s && ends[e].1 == d;
        assert(resolves(nodes, edges[e].src, ends[e].0 as int));
    } else {
        let k = choose|k: int| 0 <= k < ops[d].len() && #[trigger] ops[d][k] == s;
        assert(resolves(nodes, node_refs(nodes[d])[k], ops[d][k] as int));
    }
}

/// An unplaced node that the unplaced, unready node `u` depends on.
fn unplaced_pred(ends: &Vec<(usize, usize)>, ops: &Vec<Vec<usize>>, placed: &Vec<bool>, u: usize) -> (r: usize)
    requires
        u < ops@.len(),
        ops@.len() == placed@.len(),
        forall|e: int| 0 <= e < ends@.len() ==> (#[trigger] ends@[e]).0 < placed@.len(),
        forall|i: int, k: int|
            0 <= i < ops@.len() && 0 <= k < ops@[i]@.len() ==> #[trigger] ops@[i]@[k] < placed@.len(),
        !ready(ends@, rows(ops@), placed@, u as int),
    ensures
        r < placed@.len(),
        !placed@[r as int],
        pred_link(ends@, rows(ops@), r as int, u as int),
{
    let mut e: usize = 0;
    while e < ends.len()
        invariant
            e <= ends@.len(),
            forall|e: int| 0 <= e < ends@.len() ==> (#[trigger] ends@[e]).0 < placed@.len(),
            forall|j: int|
                0 <= j < e && #[trigger] ends@[j].1 == u ==> placed@[ends@[j].0 as int],
        decreases ends@.len() - e,
    {
        if ends[e].1 == u && !placed[ends[e].0] {
            assert(ends@[e as int].1 == u);
            return ends[e].0;
        }
        e = e + 1;
    }
    let ghost opv = rows(ops@);
    let row = &ops[u];
    let mut k: usize = 0;
    while k < row.len()
        invariant
            opv == rows(ops@),
            row@ == opv[u as int],
            k <= row@.len(),
            forall|k: int| 0 <= k < row@.len() ==> #[trigger] row@[k] < placed@.len(),
            forall|m: int| 0 <= m < k ==> placed@[#[trigger] row@[m] as int],
        decreases row@.len() - k,
    {
        if !placed[row[k]] {
            assert(opv[u as int][k as int] == row@[k as int]);
            return row[k];
        }
        k = k + 1;
    }
    assert(ready(ends@, opv, placed@, u as int));
    u
}

/// From an unplaced node of a stuck placement, walk back through unplaced
/// predecessors until a node repeats; the walk between its two visits is a
/// cycle, and the repeated node is returned.
#[verifier::rlimit(50)]
fn find_cycle(
    node_vec: &Vec<Node>,
    edge_vec: &Vec<Edge>,
    ends: &Vec<(usize, usize)>,
    ops: &Vec<Vec<usize>>,
    placed: &Vec<bool>,
    u: usize,
) -> (r: usize)
    requires
        resolved_ends(node_vec@, edge_vec@, ends@),
        resolved_ops(node_vec@, rows(ops@)),
        placed@.len() == node_vec@.len(),
        forall|e: int| 0 <= e < ends@.len() ==> (#[trigger] ends@[e]).0 < placed@.len(),
        forall|i: int, k: int|
            0 <= i < ops@.len() && 0 <= k < ops@[i]@.len() ==> #[trigger] ops@[i]@[k] < placed@.len(),
        forall|i: int|
            0 <= i < placed@.len() && !#[trigger] placed@[i] ==> !ready(ends@, rows(ops@), placed@, i),
        u < node_vec@.len(),
        !placed@[u as int],
    ensures
        r < node_vec@.len(),
        exists|c: Seq<int>| is_cycle(node_vec@, edge_vec@, c) && c.last() == r,
{
    let ghost nodes = node_vec@;
    let ghost edges = edge_vec@;
    let ghost opv = rows(ops@);
    let n = node_vec.len();
    let mut u = u;
    // Walk back through unplaced predecessors until a node
    // repeats: the walk between its two visits is a cycle.
    let mut mark: Vec<Option<usize>> = filled(n, None);
    mark.set(u, Some(0));
    let ghost mut path: Seq<int> = seq![u as int];
    let ghost mut seen: Set<int> = set![u as int];
    let mut step: usize = 0;
    loop
        invariant
            nodes == node_vec@,
            edges == edge_vec@,
            n == nodes.len(),
            opv == rows(ops@),
            resolved_ends(nodes, edges, ends@),
            resolved_ops(nodes, opv),
            ops@.len() == n,
            placed@.len() == n,
            mark@.len() == n,
            forall|e: int| 0 <= e < ends@.len() ==> (#[trigger] ends@[e]).0 < placed@.len(),
            forall|i: int, k: int|
                0 <= i < ops@.len() && 0 <= k < ops@[i]@.len() ==> #[trigger] ops@[i]@[k] < placed@.len(),
            forall|i: int|
                0 <= i < placed@.len() && !#[trigger] placed@[i] ==> !ready(ends@, rows(ops@), placed@, i),
            u < n,
            !placed@[u as int],
            path.len() == step + 1,
            path[step as int] == u,
            forall|t: int| 0 <= t <= step ==> 0 <= #[trigger] path[t] < n,
            forall|t: int| 0 <= t < step ==> #[trigger] depends(nodes, edges, path[t + 1], path[t]),
            forall|t: int| 0 <= t <= step ==> #[trigger] mark@[path[t]] == Some(t as usize),
            forall|x: int|
                0 <= x < n && (#[trigger] mark@[x]) is Some ==> mark@[x]->Some_0 <= step && path[
                    mark@[x]->Some_0 as int
                ] == x,
            seen.finite(),
            seen.len() == step + 1,
            forall|x: int| #[trigger] seen.contains(x) <==> 0 <= x < n && mark@[x] is Some,
        decreases n - step,
    {
        let v = unplaced_pred(&ends, &ops, &placed, u);
        proof {
            lemma_link_depends(nodes, edges, ends@, opv, v as int, u as int);
        }
        match mark[v] {
            Some(t) => {
                proof {
                    let c = Seq::new((step - t + 1) as nat, |q: int| path[step - q]);
                    assert forall|q: int| 0 <= q < c.len() - 1 implies #[trigger] depends(
                        nodes,
                        edges,
                        c[q],
                        c[q + 1],
                    ) by {
                        let r = step - q - 1;
                        assert(depends(nodes, edges, path[r + 1], path[r]));
                    }
                    assert(c.last() == v as int);
                    assert(is_cycle(nodes, edges, c));
                }
                return v;
            },
            None => {
                proof {
                    lemma_int_range(0, n as int);
                    assert(!seen.contains(v as int));
                    assert(seen.insert(v as int).subset_of(set_int_range(0, n as int)));
                    lemma_len_subset(seen.insert(v as int), set_int_range(0, n as int));
                }
                step = step + 1;
                mark.set(v, Some(step));
                proof {
                    path = path.push(v as int);
                    seen = seen.insert(v as int);
                    assert forall|t: int| 0 <= t < step implies #[trigger] depends(nodes, edges, path[t + 1], path[t]) by {
                        if t < step - 1 {
                            assert(depends(nodes, edges, path[t + 1], path[t]));
                        }
                    }
                }
                u = v;
            },
        }
    }
}

/// Place every node after what it depends on, taking at each step the
/// first ready node; on failure, the index of a node that could not be
/// placed.
pub(crate) fn place_nodes(
    node_vec: &Vec<Node>,
    edge_vec: &Vec<Edge>,
    ends: &Vec<(usize, usize)>,
    ops: &Vec<Vec<usize>>,
) -> (r: Result<(Vec<usize>, Vec<usize>), usize>)
    requires
        resolved_ends(node_vec@, edge_vec@, ends@),
        resolved_ops(node_vec@, rows(ops@)),
    ensures
        r is Err ==> r->Err_0 < node_vec@.len() && !acyclic(node_vec@, edge_vec@),
        r is Err ==> exists|c: Seq<int>| is_cycle(node_vec@, edge_vec@, c) && c.last() == r->Err_0,
        r is Ok ==> {
            let (order, pos) = r->Ok_0;
            &&& is_topo_pos(node_vec@, edge_vec@, pos@)
            &&& order@.len() == node_vec@.len()
            &&& forall|k: int|
                0 <= k < node_vec@.len() ==> #[trigger] order@[k] < node_vec@.len() && pos@[order@[k] as int] == k
            &&& forall|i: int| 0 <= i < node_vec@.len() ==> #[trigger] order@[pos@[i] as int] == i
        },
{
    let ghost nodes = node_vec@;
    let ghost edges = edge_vec@;
    let ghost opv = rows(ops@);
    let n = node_vec.len();
        let mut placed = filled(n, false);
        let mut pos = filled(n, 0usize);
        let mut order: Vec<usize> = Vec::new();
        let ghost mut done: Set<int> = Set::empty();
        proof {
            lemma_place_init(nodes, edges, ends@, opv, placed@, pos@, order@, done);
        }
        while order.len() < n
            invariant
                nodes == node_vec@,
                edges == edge_vec@,
                n == nodes.len(),
                opv == rows(ops@),
                resolved_ends(nodes, edges, ends@),
                resolved_ops(nodes, opv),
                placed@.len() == n,
                pos@.len() == n,
                order@.len() <= n,
                placement(nodes, edges, ends@, opv, placed@, pos@, order@, done),
            decreases n - order@.len(),
        {
            proof {
                lemma_place_bounds(nodes, edges, ends@, opv, placed@, pos@, order@, done);
                assert forall|i: int, k: int|
                    0 <= i < ops@.len() && 0 <= k < ops@[i]@.len() implies #[trigger] ops@[i]@[k] < placed@.len() by {
                    assert(opv[i][k] == ops@[i]@[k]);
                }
            }
            match find_ready(&ends, &ops, &placed) {
                Some(i) => {
                    let p = order.len();
                    let ghost placed0 = placed@;
                    let ghost pos0 = pos@;
                    let ghost order0 = order@;
                    let ghost done0 = done;
                    placed.set(i, true);
                    pos.set(i, p);
                    order.push(i);
                    proof {
                        done = done.insert(i as int);
                        lemma_place_step(nodes, edges, ends@, opv, placed0, pos0, order0, done0, i as int);
                    }
                },
                None => {
                    proof {
                        lemma_place_unplaced(nodes, edges, ends@, opv, placed@, pos@, order@, done);
                    }
                    let mut u = match first_unplaced(&placed) {
                        Some(u) => u,
                        None => {
                            return Err(0);
                        },
                    };
                    let v = find_cycle(node_vec, edge_vec, &ends, &ops, &placed, u);
                    proof {
                        let c = choose|c: Seq<int>| is_cycle(nodes, edges, c) && c.last() == v as int;
                        cycle_not_acyclic(nodes, edges, c);
                    }
                    return Err(v);
                },
            }
        }
        proof {
            lemma_place_done(nodes, edges, ends@, opv, placed@, pos@, order@, done);
        }
    Ok((order, pos))
}


/// Edges a task node asks for: from each node it refers to, to itself, with
/// its index.
pub open spec fn node_cands(n: Node, i: usize) -> Seq<(usize, usize, usize)> {
    node_refs(n).map_values(|r: usize| (r, n.id, i))
}

/// Edges the first `m` nodes ask for, in node order.
pub open spec fn cands(nodes: Seq<Node>, m: nat) -> Seq<(usize, usize, usize)>
    decreases m,
{
    if m == 0 {
        seq![]
    } else {
        cands(nodes, (m - 1) as nat) + node_cands(nodes[m - 1], (m - 1) as usize)
    }
}

/// Some edge goes from identity `s` to identity `d`.
pub open spec fn joins(edges: Seq<Edge>, s: usize, d: usize) -> bool {
    exists|e: int| 0 <= e < edges.len() && #[trigger] edges[e].src == s && edges[e].dst == d
}

/// Some entry goes from identity `s` to identity `d`.
pub open spec fn listed(c: Seq<(usize, usize, usize)>, s: usize, d: usize) -> bool {
    exists|j: int| 0 <= j < c.len() && #[trigger] c[j].0 == s && c[j].1 == d
}

/// The asked-for edges that are kept: those whose pair no explicit edge and
/// no earlier kept edge joins.
pub open spec fn synth(edges: Seq<Edge>, c: Seq<(usize, usize, usize)>) -> Seq<(usize, usize, usize)>
    decreases c.len(),
{
    if c.len() == 0 {
        seq![]
    } else {
        let p = synth(edges, c.drop_last());
        let x = c.last();
        if joins(edges, x.0, x.1) || listed(p, x.0, x.1) {
            p
        } else {
            p.push(x)
        }
    }
}

/// Edges that `connect` adds to a graph: (source, destination, task index).
pub open spec fn synthesized(nodes: Seq<Node>, edges: Seq<Edge>) -> Seq<(usize, usize, usize)> {
    synth(edges, cands(nodes, nodes.len()))
}

/// Access descriptor of the task a node holds.
pub open spec fn task_access(n: Node) -> Option<Seq<(u64, u64)>> {
    match n.inner {
        NodeInner::Op(Task::Gemm(g)) => Some(g.access@),
        NodeInner::Buffer(_) => None,
    }
}

/// `e` is the edge added for `c`, with identity `id`, carrying the task's
/// access descriptor.
pub open spec fn is_synth_edge(nodes: Seq<Node>, e: Edge, c: (usize, usize, usize), id: int) -> bool {
    &&& e.id == id
    &&& e.src == c.0
    &&& e.dst == c.1
    &&& (e.access is Some <==> task_access(nodes[c.2 as int]) is Some)
    &&& e.access is Some ==> e.access->Some_0@ == task_access(nodes[c.2 as int])->Some_0
}

/// What an asked-for edge is made of.
pub open spec fn is_cand(nodes: Seq<Node>, c: (usize, usize, usize)) -> bool {
    &&& c.2 < nodes.len()
    &&& c.1 == nodes[c.2 as int].id
    &&& exists|k: int| 0 <= k < node_refs(nodes[c.2 as int]).len() && #[trigger] node_refs(nodes[c.2 as int])[k] == c.0
}

pub(crate) proof fn lemma_cands(nodes: Seq<Node>, m: nat)
    requires
        m <= nodes.len(),
        nodes.len() <= usize::MAX,
    ensures
        cands(nodes, m).len() <= 3 * m,
        forall|j: int| 0 <= j < cands(nodes, m).len() ==> is_cand(nodes, #[trigger] cands(nodes, m)[j]),
    decreases m,
{
    if m > 0 {
        lemma_cands(nodes, (m - 1) as nat);
        let p = cands(nodes, (m - 1) as nat);
        let q = node_cands(nodes[m - 1], (m - 1) as usize);
        assert(node_refs(nodes[m - 1]).len() <= 3);
        assert forall|j: int| 0 <= j < cands(nodes, m).len() implies is_cand(nodes, #[trigger] cands(nodes, m)[j]) by {
            if j < p.len() {
                assert(cands(nodes, m)[j] == p[j]);
            } else {
                let k = j - p.len();
                assert(cands(nodes, m)[j] == q[k]);
                assert(node_refs(nodes[m - 1])[k] == q[k].0);
            }
        }
    }
}

pub(crate) proof fn lemma_synth_within(edges: Seq<Edge>, c: Seq<(usize, usize, usize)>)
    ensures
        synth(edges, c).len() <= c.len(),
        forall|j: int| 0 <= j < synth(edges, c).len() ==> exists|i: int| 0 <= i < c.len() && c[i] == #[trigger] synth(edges, c)[j],
    decreases c.len(),
{
    if c.len() > 0 {
        let d = c.drop_last();
        lemma_synth_within(edges, d);
        let p = synth(edges, d);
        assert forall|j: int| 0 <= j < synth(edges, c).len() implies exists|i: int| 0 <= i < c.len() && c[i] == #[trigger] synth(edges, c)[j] by {
            if j < p.len() {
                let i = choose|i: int| 0 <= i < d.len() && d[i] == #[trigger] p[j];
                assert(c[i] == d[i]);
            } else {
                assert(c[c.len() - 1] == synth(edges, c)[j]);
            }
        }
    }
}

/// Whether some edge goes from `s` to `d`.
fn joins_exec(edges: &Vec<Edge>, s: usize, d: usize) -> (r: bool)
    ensures
        r == joins(edges@, s, d),
{
    let mut e: usize = 0;
    while e < edges.len()
        invariant
            e <= edges@.len(),
            forall|j: int| 0 <= j < e ==> !(#[trigger] edges@[j].src == s && edges@[j].dst == d),
        decreases edges@.len() - e,
    {
        if edges[e].src == s && edges[e].dst == d {
            return true;
        }
        e = e + 1;
    }
    false
}

/// Whether some entry goes from `s` to `d`.
fn listed_exec(c: &Vec<(usize, usize, usize)>, s: usize, d: usize) -> (r: bool)
    ensures
        r == listed(c@, s, d),
{
    let mut j: usize = 0;
    while j < c.len()
        invariant
            j <= c@.len(),
            forall|q: int| 0 <= q < j ==> !(#[trigger] c@[q].0 == s && c@[q].1 == d),
        decreases c@.len() - j,
    {
        if c[j].0 == s && c[j].1 == d {
            return true;
        }
        j = j + 1;
    }
    false
}

/// The edges `connect` adds, as (source, destination, task index).
pub(crate) fn synthesize(nodes: &Vec<Node>, edges: &Vec<Edge>) -> (r: Vec<(usize, usize, usize)>)
    ensures
        r@ == synthesized(nodes@, edges@),
{
    let mut out: Vec<(usize, usize, usize)> = Vec::new();
    let mut i: usize = 0;
    while i < nodes.len()
        invariant
            i <= nodes@.len(),
            out@ == synth(edges@, cands(nodes@, i as nat)),
        decreases nodes@.len() - i,
    {
        let refs = nodes[i].refs();
        let ghost q = node_cands(nodes@[i as int], i);
        let ghost base = cands(nodes@, i as nat);
        let mut k: usize = 0;
        while k < refs.len()
            invariant
                i < nodes@.len(),
                refs@ == node_refs(nodes@[i as int]),
                q == node_cands(nodes@[i as int], i),
                base == cands(nodes@, i as nat),
                k <= refs@.len(),
                out@ == synth(edges@, base + q.take(k as int)),
            decreases refs@.len() - k,
        {
            let x = (refs[k], nodes[i].id, i);
            proof {
                assert((base + q.take(k + 1)).drop_last() =~= base + q.take(k as int));
                assert((base + q.take(k + 1)).last() == x);
            }
            if !joins_exec(edges, x.0, x.1) && !listed_exec(&out, x.0, x.1) {
                out.push(x);
            }
            k = k + 1;
        }
        proof {
            assert(q.take(q.len() as int) =~= q);
            assert(cands(nodes@, (i + 1) as nat) == base + q);
        }
        i = i + 1;
    }
    out
}

/// Edges added beside task references keep every dependency ordered.
pub(crate) proof fn lemma_added_edges_ordered(
    nodes: Seq<Node>,
    edges: Seq<Edge>,
    more: Seq<Edge>,
    pos: Seq<usize>,
)
    requires
        unique_ids(nodes),
        all_resolved(nodes, edges),
        is_topo_pos(nodes, edges, pos),
        forall|j: int|
            0 <= j < more.len() ==> exists|i: int, k: int|
                0 <= i < nodes.len() && 0 <= k < node_refs(nodes[i]).len() && (#[trigger] more[j]).dst == nodes[i].id
                    && more[j].src == node_refs(nodes[i])[k],
    ensures
        all_resolved(nodes, edges + more),
        is_topo_pos(nodes, edges + more, pos),
{
    let all = edges + more;
    assert forall|e: int| 0 <= e < all.len() implies has_id(nodes, #[trigger] all[e].src) && has_id(nodes, all[e].dst) by {
        if e >= edges.len() {
            let j = e - edges.len();
            assert(all[e] == more[j]);
            let (i, k) = choose|i: int, k: int|
                0 <= i < nodes.len() && 0 <= k < node_refs(nodes[i]).len() && (#[trigger] more[j]).dst == nodes[i].id
                    && more[j].src == node_refs(nodes[i])[k];
            assert(has_id(nodes, node_refs(nodes[i])[k]));
            assert(nodes[i].id == all[e].dst);
            assert(has_id(nodes, all[e].dst));
            assert(has_id(nodes, all[e].src));
        } else {
            assert(all[e] == edges[e]);
            assert(0 <= e < edges.len());
            assert(all_resolved(nodes, edges));
            let src = edges[e].src;
            assert(has_id(nodes, src));
        }
    }
    assert forall|s: int, d: int|
        0 <= s < nodes.len() && 0 <= d < nodes.len() && #[trigger] depends(nodes, all, s, d) implies pos[s] < pos[d] by {
        if exists|e: int| 0 <= e < all.len() && #[trigger] resolves(nodes, all[e].src, s) && resolves(nodes, all[e].dst, d) {
            let e = choose|e: int| 0 <= e < all.len() && #[trigger] resolves(nodes, all[e].src, s) && resolves(nodes, all[e].dst, d);
            if e < edges.len() {
                assert(all[e] == edges[e]);
                assert(depends(nodes, edges, s, d));
            } else {
                let j = e - edges.len();
                assert(all[e] == more[j]);
                let (i, k) = choose|i: int, k: int|
                    0 <= i < nodes.len() && 0 <= k < node_refs(nodes[i]).len() && (#[trigger] more[j]).dst == nodes[i].id
                        && more[j].src == node_refs(nodes[i])[k];
                assert(nodes[d].id == nodes[i].id);
                assert(d == i);
                assert(resolves(nodes, node_refs(nodes[d])[k], s));
                assert(depends(nodes, edges, s, d));
            }
        } else {
            assert(depends(nodes, edges, s, d));
        }
    }
}

} // verus!
