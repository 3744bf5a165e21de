//! Dataflow graphs: building, connecting and emitting program text.
use vstd::prelude::*;
use crate::error::ThrillerError;
use crate::id::{next_id, IdCounter};
use crate::node::{node_fragment, node_refs, Edge, Node, NodeInner, Task};
use crate::order::{
    acyclic, all_resolved, is_cycle, append_new, depends, filled, find_node, has_id, is_topo_pos, place_nodes, unique_ids, synthesize, synthesized, is_synth_edge, is_cand, lemma_cands,
    lemma_synth_within, lemma_added_edges_ordered, cands,
    resolve_edges, resolve_operands, resolves, rows,
};
use crate::text::{ascii_to_string, chars_of, is_ascii_bytes, lemma_ascii_concat};
use crate::node::lemma_fragment_ascii;
use crate::MemoryLevel;

verus! {

/// Names of the nodes that node `i` refers to: their positions in the
/// emission order.
pub open spec fn operand_names(v: GraphView, i: int) -> Seq<nat> {
    Seq::new(v.operands[i].len(), |k: int| v.pos[v.operands[i][k] as int] as nat)
}

/// Code for node `i` of a connected graph.
pub open spec fn fragment(v: GraphView, i: int) -> Seq<u8> {
    node_fragment(v.nodes[i], v.pos[i] as nat, operand_names(v, i))
}

/// Code for the first `k` nodes of the emission order.
pub open spec fn program_prefix(v: GraphView, k: nat) -> Seq<u8>
    decreases k,
{
    if k == 0 {
        seq![]
    } else {
        program_prefix(v, (k - 1) as nat) + fragment(v, v.order[k - 1] as int)
    }
}

/// The program text of a connected graph: the code of every node, in the
/// emission order.
pub open spec fn program(v: GraphView) -> Seq<u8> {
    program_prefix(v, v.nodes.len())
}


proof fn lemma_prefix_ignores_state(v: GraphView, w: GraphView, k: nat)
    requires
        w == (GraphView { state: w.state, ..v }),
    ensures
        program_prefix(w, k) == program_prefix(v, k),
    decreases k,
{
    if k > 0 {
        lemma_prefix_ignores_state(v, w, (k - 1) as nat);
    }
}

/// Emitting twice gives byte-identical text: emission changes only the
/// state, and the program text does not depend on it.
pub proof fn emit_twice_same_text(g0: GraphView, g1: GraphView)
    requires
        g1 == (GraphView { state: GraphState::Emitted, ..g0 }),
    ensures
        program(g1) == program(g0),
        chars_of(program(g1)) == chars_of(program(g0)),
{
    lemma_prefix_ignores_state(g0, g1, g0.nodes.len());
}

proof fn lemma_prefix_extends(v: GraphView, j: nat, k: nat)
    requires
        j <= k,
    ensures
        program_prefix(v, j).len() <= program_prefix(v, k).len(),
        program_prefix(v, k).subrange(0, program_prefix(v, j).len() as int) == program_prefix(v, j),
    decreases k,
{
    if j < k {
        lemma_prefix_extends(v, j, (k - 1) as nat);
        let p = program_prefix(v, (k - 1) as nat);
        let f = fragment(v, v.order[k - 1] as int);
        assert((p + f).subrange(0, program_prefix(v, j).len() as int) =~= p.subrange(
            0,
            program_prefix(v, j).len() as int,
        ));
    } else {
        assert(program_prefix(v, k).subrange(0, program_prefix(v, k).len() as int) =~= program_prefix(v, k));
    }
}

/// Where node `i` of a connected graph has its code in the program text.
proof fn lemma_fragment_at(v: GraphView, i: int)
    requires
        connected_inv(v),
        0 <= i < v.nodes.len(),
    ensures
        program_prefix(v, (v.pos[i] + 1) as nat).len() <= program(v).len(),
        program(v).subrange(
            program_prefix(v, v.pos[i] as nat).len() as int,
            program_prefix(v, (v.pos[i] + 1) as nat).len() as int,
        ) == fragment(v, i),
{
    let p = v.pos[i] as nat;
    assert(v.order[v.pos[i] as int] == i);
    lemma_prefix_extends(v, p + 1, v.nodes.len());
    let whole = program(v);
    let upto = program_prefix(v, p + 1);
    assert(upto == program_prefix(v, p) + fragment(v, i));
    assert(whole.subrange(program_prefix(v, p).len() as int, upto.len() as int) =~= upto.subrange(
        program_prefix(v, p).len() as int,
        upto.len() as int,
    ));
    assert(upto.subrange(program_prefix(v, p).len() as int, upto.len() as int) =~= fragment(v, i));
}

/// In the program text of a connected graph, the code of a node lies wholly
/// before the code of every node that depends on it.
pub proof fn dependency_order(v: GraphView, s: int, d: int)
    requires
        connected_inv(v),
        0 <= s < v.nodes.len(),
        0 <= d < v.nodes.len(),
        depends(v.nodes, v.edges, s, d),
    ensures
        v.pos[s] < v.pos[d],
        program(v).subrange(
            program_prefix(v, v.pos[s] as nat).len() as int,
            program_prefix(v, (v.pos[s] + 1) as nat).len() as int,
        ) == fragment(v, s),
        program(v).subrange(
            program_prefix(v, v.pos[d] as nat).len() as int,
            program_prefix(v, (v.pos[d] + 1) as nat).len() as int,
        ) == fragment(v, d),
        program_prefix(v, (v.pos[s] + 1) as nat).len() <= program_prefix(v, v.pos[d] as nat).len(),
{
    lemma_fragment_at(v, s);
    lemma_fragment_at(v, d);
    lemma_prefix_extends(v, (v.pos[s] + 1) as nat, v.pos[d] as nat);
}

/// Edges for the synthesized pairs, with fresh identities, each carrying the
/// access descriptor of its task.
fn make_edges(ids: &mut IdCounter, nodes: &Vec<Node>, added: &Vec<(usize, usize, usize)>) -> (r: Vec<Edge>)
    requires
        old(ids).peek() + added@.len() <= usize::MAX,
        forall|j: int| 0 <= j < added@.len() ==> (#[trigger] added@[j]).2 < nodes@.len(),
    ensures
        final(ids).peek() == old(ids).peek() + added@.len(),
        r@.len() == added@.len(),
        forall|j: int|
            0 <= j < added@.len() ==> is_synth_edge(nodes@, #[trigger] r@[j], added@[j], old(ids).peek() + j),
{
    let mut out: Vec<Edge> = Vec::new();
    let mut j: usize = 0;
    while j < added.len()
        invariant
            j <= added@.len(),
            old(ids).peek() + added@.len() <= usize::MAX,
            forall|j: int| 0 <= j < added@.len() ==> (#[trigger] added@[j]).2 < nodes@.len(),
            ids.peek() == old(ids).peek() + j,
            out@.len() == j,
            forall|q: int|
                0 <= q < j ==> is_synth_edge(nodes@, #[trigger] out@[q], added@[q], old(ids).peek() + q),
        decreases added@.len() - j,
    {
        let (src, dst, idx) = added[j];
        let access = match &nodes[idx].inner {
            NodeInner::Op(Task::Gemm(g)) => Some(g.access.duplicate()),
            NodeInner::Buffer(_) => None,
        };
        let id = next_id(ids);
        out.push(Edge { id, src, dst, access });
        j = j + 1;
    }
    out
}

/// Lifecycle of a graph.
#[derive(Clone, Copy, PartialEq, Eq, Structural, Debug)]
pub enum GraphState {
    /// Nodes and edges may be added.
    Building,
    /// The dependency structure is final and acyclic.
    Connected,
    /// Code has been produced; the graph is read-only.
    Emitted,
}

/// Kind of code block a graph stands for.
#[derive(Clone, Copy, PartialEq, Eq, Structural, Debug)]
pub enum BlockType {
    /// A plain block.
    Block,
    /// A loop body.
    Loop,
}

/// Mathematical model of a graph.
pub struct GraphView {
    pub id: usize,
    pub level: MemoryLevel,
    pub block: BlockType,
    pub state: GraphState,
    pub nodes: Seq<Node>,
    pub edges: Seq<Edge>,
    /// Emission order (node indices), once connected.
    pub order: Seq<usize>,
    /// Position of each node in `order`, once connected.
    pub pos: Seq<usize>,
    /// Index of each node a task refers to, per node, once connected.
    pub operands: Seq<Seq<usize>>,
}

/// What holds of a connected (or emitted) graph.
pub open spec fn connected_inv(v: GraphView) -> bool {
    let n = v.nodes.len();
    &&& all_resolved(v.nodes, v.edges)
    &&& is_topo_pos(v.nodes, v.edges, v.pos)
    &&& v.order.len() == n
    &&& forall|k: int| 0 <= k < n ==> #[trigger] v.order[k] < n && v.pos[v.order[k] as int] == k
    &&& forall|i: int| 0 <= i < n ==> #[trigger] v.order[v.pos[i] as int] == i
    &&& v.operands.len() == n
    &&& forall|i: int|
        0 <= i < n ==> (#[trigger] v.operands[i]).len() == node_refs(v.nodes[i]).len()
    &&& forall|i: int, k: int|
        0 <= i < n && 0 <= k < node_refs(v.nodes[i]).len() ==> resolves(
            v.nodes,
            node_refs(v.nodes[i])[k],
            #[trigger] v.operands[i][k] as int,
        )
}

/// A dataflow graph for one code block: nodes and edges, appended while
/// building, then connected and emitted.
pub struct Graph {
    id: usize,
    level: MemoryLevel,
    block: BlockType,
    state: GraphState,
    nodes: Vec<Node>,
    edges: Vec<Edge>,
    order: Vec<usize>,
    pos: Vec<usize>,
    operands: Vec<Vec<usize>>,
}

impl View for Graph {
    type V = GraphView;

    closed spec fn view(&self) -> GraphView {
        GraphView {
            id: self.id,
            level: self.level,
            block: self.block,
            state: self.state,
            nodes: self.nodes@,
            edges: self.edges@,
            order: self.order@,
            pos: self.pos@,
            operands: rows(self.operands@),
        }
    }
}

impl Graph {
    /// Well-formedness: a graph past building keeps its order.
    pub open spec fn wf(&self) -> bool {
        &&& unique_ids(self@.nodes)
        &&& self@.state != GraphState::Building ==> connected_inv(self@)
    }

    /// An empty graph in the building state, with a fresh identity.
    pub fn new(ids: &mut IdCounter, level: MemoryLevel, block: BlockType) -> (r: Graph)
        requires
            old(ids).can_issue(),
        ensures
            r.wf(),
            r@.id == old(ids).peek(),
            final(ids).peek() == old(ids).peek() + 1,
            r@.level == level && r@.block == block,
            r@.state == GraphState::Building,
            r@.nodes.len() == 0 && r@.edges.len() == 0,
    {
        Graph {
            id: next_id(ids),
            level,
            block,
            state: GraphState::Building,
            nodes: Vec::new(),
            edges: Vec::new(),
            order: Vec::new(),
            pos: Vec::new(),
            operands: Vec::new(),
        }
    }

    /// The lifecycle state.
    pub fn state(&self) -> (r: GraphState)
        ensures
            r == self@.state,
    {
        self.state
    }

    /// Number of nodes.
    pub fn node_count(&self) -> (r: usize)
        ensures
            r == self@.nodes.len(),
    {
        self.nodes.len()
    }

    /// Number of edges.
    pub fn edge_count(&self) -> (r: usize)
        ensures
            r == self@.edges.len(),
    {
        self.edges.len()
    }

    /// The edges, explicit ones first, then those `connect` added.
    pub fn edges(&self) -> (r: &Vec<Edge>)
        ensures
            r@ == self@.edges,
    {
        &self.edges
    }

    /// Identity of the graph.
    pub fn id(&self) -> (r: usize)
        ensures
            r == self@.id,
    {
        self.id
    }

    /// Default memory level of the graph.
    pub fn level(&self) -> (r: MemoryLevel)
        ensures
            r == self@.level,
    {
        self.level
    }

    /// Kind of block the graph stands for.
    pub fn block(&self) -> (r: BlockType)
        ensures
            r == self@.block,
    {
        self.block
    }

    /// Append nodes, skipping any whose identity is already in the graph.
    /// Fails with `GraphState`, changing nothing, unless building.
    pub fn add_nodes(&mut self, new: Vec<Node>) -> (r: Result<(), ThrillerError>)
        requires
            old(self).wf(),
        ensures
            final(self).wf(),
            old(self)@.state == GraphState::Building ==> r is Ok && final(self)@ == (GraphView {
                nodes: append_new(old(self)@.nodes, new@),
                ..old(self)@
            }),
            old(self)@.state != GraphState::Building ==> r == Err::<(), ThrillerError>(
                ThrillerError::GraphState,
            ) && final(self)@ == old(self)@,
    {
        if self.state != GraphState::Building {
            return Err(ThrillerError::GraphState);
        }
        let ghost all = new@;
        let total = new.len();
        let mut rest = new;
        let mut i: usize = 0;
        while rest.len() > 0
            invariant
                i + rest@.len() == all.len(),
                all.len() == total,
                rest@ == all.skip(i as int),
                self.state == GraphState::Building,
                unique_ids(self@.nodes),
                self@ == (GraphView { nodes: append_new(old(self)@.nodes, all.take(i as int)), ..old(self)@ }),
            decreases rest@.len(),
        {
            let node = rest.remove(0);
            proof {
                assert(all.take(i + 1).drop_last() =~= all.take(i as int));
                assert(node == all[i as int]);
            }
            if find_node(&self.nodes, node.id).is_none() {
                let ghost before = self.nodes@;
                self.nodes.push(node);
                proof {
                    assert forall|a: int, b: int|
                        0 <= a < self.nodes@.len() && 0 <= b < self.nodes@.len() && a != b implies #[trigger] self.nodes@[a].id
                            != #[trigger] self.nodes@[b].id by {
                        if a < before.len() && b < before.len() {
                            assert(before[a].id != before[b].id);
                        } else if a < before.len() {
                            assert(before[a].id == self.nodes@[a].id);
                        } else {
                            assert(before[b].id == self.nodes@[b].id);
                        }
                    }
                }
            }
            i = i + 1;
            proof {
                assert(rest@ =~= all.skip(i as int));
                assert(self@ =~= (GraphView { nodes: append_new(old(self)@.nodes, all.take(i as int)), ..old(self)@ }));
            }
        }
        proof {
            assert(all.take(all.len() as int) =~= all);
        }
        Ok(())
    }

    /// Append edges. Fails with `GraphState`, changing nothing, unless
    /// building.
    pub fn add_edges(&mut self, new: Vec<Edge>) -> (r: Result<(), ThrillerError>)
        requires
            old(self).wf(),
        ensures
            final(self).wf(),
            old(self)@.state == GraphState::Building ==> r is Ok && final(self)@ == (GraphView {
                edges: old(self)@.edges + new@,
                ..old(self)@
            }),
            old(self)@.state != GraphState::Building ==> r == Err::<(), ThrillerError>(
                ThrillerError::GraphState,
            ) && final(self)@ == old(self)@,
    {
        if self.state != GraphState::Building {
            return Err(ThrillerError::GraphState);
        }
        let ghost added = new@;
        let mut new = new;
        self.edges.append(&mut new);
        proof {
            assert(self@ =~= (GraphView { edges: old(self)@.edges + added, ..old(self)@ }));
        }
        Ok(())
    }

    /// Finalise the dependency structure: every task depends on the nodes it
    /// refers to (inputs and output), besides the explicit edges. Fails with
    /// `GraphState` unless building; with `DanglingReference` when an edge or a
    /// task refers to an identity that is not a node of the graph; with
    /// `CyclicDependency`, naming a node on a cycle, when the dependencies
    /// admit no topological order.
    /// On failure nothing changes. On success the graph is connected, holds a
    /// topological order in which, among the nodes ready at each step, the
    /// one added first comes first, and has gained, after its own edges, one
    /// edge from each node a task refers to into that task, carrying the
    /// task's access descriptor, unless an edge already joins the pair. Each
    /// added edge takes a fresh identity from `ids`.
    ///
    /// Two tasks that write overlapping parts of one buffer are not ordered by
    /// that alone: the author gives the later one an explicit edge from the
    /// earlier (`AccessMap::overlaps` tells where one is needed).
    pub fn connect(&mut self, ids: &mut IdCounter) -> (r: Result<(), ThrillerError>)
        requires
            old(self).wf(),
            old(ids).peek() + 3 * old(self)@.nodes.len() <= usize::MAX,
        ensures
            final(self).wf(),
            r is Err ==> final(self)@ == old(self)@ && *final(ids) == *old(ids),
            old(self)@.state != GraphState::Building ==> r == Err::<(), ThrillerError>(
                ThrillerError::GraphState,
            ),
            r is Ok ==> {
                let (nodes, edges) = (old(self)@.nodes, old(self)@.edges);
                let added = synthesized(nodes, edges);
                &&& final(ids).peek() == old(ids).peek() + added.len()
                &&& final(self)@.edges.len() == edges.len() + added.len()
                &&& final(self)@.edges.subrange(0, edges.len() as int) == edges
                &&& forall|j: int|
                    0 <= j < added.len() ==> is_synth_edge(
                        nodes,
                        #[trigger] final(self)@.edges[edges.len() + j],
                        added[j],
                        old(ids).peek() + j,
                    )
            },
            old(self)@.state != GraphState::Building ==> r == Err::<(), ThrillerError>(
                ThrillerError::GraphState,
            ),
            old(self)@.state == GraphState::Building ==> {
                let (nodes, edges) = (old(self)@.nodes, old(self)@.edges);
                &&& r is Ok <==> all_resolved(nodes, edges) && acyclic(nodes, edges)
                &&& (r is Err && r->Err_0 is DanglingReference) <==> !all_resolved(nodes, edges)
                &&& (r is Err && r->Err_0 is DanglingReference) ==> !has_id(
                    nodes,
                    r->Err_0->DanglingReference_0,
                )
                &&& (r is Err && r->Err_0 is CyclicDependency) <==> all_resolved(nodes, edges)
                    && !acyclic(nodes, edges)
                &&& (r is Err && r->Err_0 is CyclicDependency) ==> exists|c: Seq<int>|
                    is_cycle(nodes, edges, c) && nodes[c.last()].id == r->Err_0->CyclicDependency_0
                &&& r is Ok ==> final(self)@.state == GraphState::Connected && final(self)@.nodes
                    == nodes && final(self)@.id == old(self)@.id
                    && final(self)@.level == old(self)@.level && final(self)@.block == old(
                    self,
                )@.block
            },
    {
        if self.state != GraphState::Building {
            return Err(ThrillerError::GraphState);
        }
        let ghost nodes = self.nodes@;
        let ghost edges = self.edges@;
        let n = self.nodes.len();
        let ends = match resolve_edges(&self.nodes, &self.edges) {
            Ok(x) => x,
            Err(id) => {
                return Err(ThrillerError::DanglingReference(id));
            },
        };
        let ops = match resolve_operands(&self.nodes) {
            Ok(x) => x,
            Err(id) => {
                return Err(ThrillerError::DanglingReference(id));
            },
        };
        assert(all_resolved(nodes, edges));
        let ghost opv = rows(ops@);
        proof {
            assert forall|i: int, k: int|
                0 <= i < n && 0 <= k < node_refs(nodes[i]).len() implies resolves(
                    nodes,
                    node_refs(nodes[i])[k],
                    #[trigger] opv[i][k] as int,
                ) by {
                assert(opv[i] == ops@[i]@);
            }
        }
        let (order, pos) = match place_nodes(&self.nodes, &self.edges, &ends, &ops) {
            Ok(x) => x,
            Err(u) => {
                return Err(ThrillerError::CyclicDependency(self.nodes[u].id));
            },
        };
        let added = synthesize(&self.nodes, &self.edges);
        proof {
            lemma_cands(nodes, nodes.len());
            lemma_synth_within(edges, cands(nodes, nodes.len()));
            assert forall|j: int| 0 <= j < added@.len() implies is_cand(nodes, #[trigger] added@[j]) by {
                let c = cands(nodes, nodes.len());
                let q = choose|q: int| 0 <= q < c.len() && c[q] == #[trigger] added@[j];
                assert(is_cand(nodes, c[q]));
            }
        }
        let mut more = make_edges(ids, &self.nodes, &added);
        let ghost more_v = more@;
        proof {
            assert forall|j: int| 0 <= j < more_v.len() implies exists|i: int, k: int|
                0 <= i < nodes.len() && 0 <= k < node_refs(nodes[i]).len() && (#[trigger] more_v[j]).dst == nodes[i].id
                    && more_v[j].src == node_refs(nodes[i])[k] by {
                assert(is_synth_edge(nodes, more_v[j], added@[j], old(ids).peek() + j));
                assert(is_cand(nodes, added@[j]));
                let i = added@[j].2 as int;
                let k = choose|k: int| 0 <= k < node_refs(nodes[i]).len() && #[trigger] node_refs(nodes[i])[k] == added@[j].0;
                assert(more_v[j].dst == nodes[i].id && more_v[j].src == node_refs(nodes[i])[k]);
            }
            lemma_added_edges_ordered(nodes, edges, more_v, pos@);
        }
        self.edges.append(&mut more);
        self.state = GraphState::Connected;
        self.order = order;
        self.pos = pos;
        self.operands = ops;
        proof {
            assert(self@.edges == edges + more_v);
            assert(self@.edges.subrange(0, edges.len() as int) =~= edges);
            assert forall|j: int| 0 <= j < added@.len() implies is_synth_edge(
                nodes,
                #[trigger] self@.edges[edges.len() + j],
                added@[j],
                old(ids).peek() + j,
            ) by {
                assert(self@.edges[edges.len() + j] == more_v[j]);
            }
            assert(connected_inv(self@));
        }
        Ok(())
    }

    /// Program text of a connected graph, as bytes.
    pub(crate) fn emit_bytes(&self) -> (r: Vec<u8>)
        requires
            self.wf(),
            self@.state != GraphState::Building,
        ensures
            r@ == program(self@),
            is_ascii_bytes(r@),
    {
        let ghost v = self@;
        let n = self.nodes.len();
        let mut names: Vec<Option<usize>> = filled(n, None);
        let mut out: Vec<u8> = Vec::new();
        let mut k: usize = 0;
        while k < n
            invariant
                v == self@,
                connected_inv(v),
                n == v.nodes.len(),
                k <= n,
                out@ == program_prefix(v, k as nat),
                is_ascii_bytes(out@),
                names@.len() == n,
                forall|j: int|
                    0 <= j < n ==> #[trigger] names@[j] == (if v.pos[j] < k {
                        Some(v.pos[j])
                    } else {
                        None
                    }),
            decreases n - k,
        {
            let i = self.order[k];
            assert(v.order[k as int] == i);
            names.set(i, Some(k));
            let row = &self.operands[i];
            assert(row@ == v.operands[i as int]);
            let mut ctx: Vec<Option<usize>> = Vec::new();
            let mut m: usize = 0;
            while m < row.len()
                invariant
                    v == self@,
                    connected_inv(v),
                    n == v.nodes.len(),
                    i < n,
                    v.pos[i as int] == k,
                    row@ == v.operands[i as int],
                    names@.len() == n,
                    forall|j: int|
                        0 <= j < n ==> #[trigger] names@[j] == (if v.pos[j] <= k {
                            Some(v.pos[j])
                        } else {
                            None
                        }),
                    m <= row@.len(),
                    ctx@.len() == m,
                    forall|q: int|
                        0 <= q < m ==> #[trigger] ctx@[q] == Some(v.pos[row@[q] as int]) && v.pos[row@[q] as int]
                            < k,
                decreases row@.len() - m,
            {
                let o = row[m];
                proof {
                    let nodes = v.nodes;
                    assert(resolves(nodes, node_refs(nodes[i as int])[m as int], o as int));
                    assert(depends(nodes, v.edges, o as int, i as int));
                }
                ctx.push(names[o]);
                m = m + 1;
            }
            let ghost want = operand_names(v, i as int);
            assert(Seq::new(ctx@.len(), |q: int| ctx@[q]->Some_0 as nat) =~= want);
            let mut frag = match self.nodes[i].emit(k, &ctx) {
                Ok(f) => f,
                Err(_) => {
                    assert(ctx@[0] is Some);
                    return out;
                },
            };
            proof {
                lemma_fragment_ascii(v.nodes[i as int], k as nat, want);
                lemma_ascii_concat(out@, frag@);
            }
            out.append(&mut frag);
            k = k + 1;
        }
        out
    }

    /// Mark a connected graph as emitted.
    pub(crate) fn set_emitted(&mut self)
        requires
            old(self).wf(),
            old(self)@.state != GraphState::Building,
        ensures
            final(self).wf(),
            final(self)@ == (GraphView { state: GraphState::Emitted, ..old(self)@ }),
    {
        self.state = GraphState::Emitted;
        assert(self@ =~= (GraphView { state: GraphState::Emitted, ..old(self)@ }));
    }

    /// Emit the program text: each node in the order fixed by `connect`,
    /// named `v` and its position. Fails with `GraphState`, changing
    /// nothing, while building; otherwise the graph becomes emitted, and every
    /// call returns the same text.
    pub fn emit(&mut self) -> (r: Result<String, ThrillerError>)
        requires
            old(self).wf(),
        ensures
            final(self).wf(),
            old(self)@.state == GraphState::Building ==> r == Err::<String, ThrillerError>(
                ThrillerError::GraphState,
            ) && final(self)@ == old(self)@,
            old(self)@.state != GraphState::Building ==> r is Ok && r->Ok_0@ == chars_of(
                program(old(self)@),
            ) && final(self)@ == (GraphView { state: GraphState::Emitted, ..old(self)@ }),
    {
        if self.state == GraphState::Building {
            return Err(ThrillerError::GraphState);
        }
        let bytes = self.emit_bytes();
        self.state = GraphState::Emitted;
        proof {
            assert(self@ =~= (GraphView { state: GraphState::Emitted, ..old(self)@ }));
        }
        Ok(ascii_to_string(bytes))
    }
}

} // verus!
