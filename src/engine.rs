//! The engine: graphs of one program and the allocator that names them.
use vstd::prelude::*;
use crate::error::ThrillerError;
use crate::graph::{program, Graph, GraphState, GraphView};
use crate::id::{initialize, IdCounter};
use crate::text::{ascii_to_string, chars_of, is_ascii_bytes, lemma_ascii_concat};

verus! {

/// Program text of the first `k` graphs, one after the other.
pub open spec fn programs(gs: Seq<GraphView>, k: nat) -> Seq<u8>
    decreases k,
{
    if k == 0 {
        seq![]
    } else {
        programs(gs, (k - 1) as nat) + program(gs[k - 1])
    }
}

/// Whether some graph is still building.
pub open spec fn any_building(gs: Seq<GraphView>) -> bool {
    exists|i: int| 0 <= i < gs.len() && (#[trigger] gs[i]).state == GraphState::Building
}

/// Composition root: owns the identity allocator and the graphs of a
/// program, and emits them in the order they were added.
pub struct Engine {
    /// The allocator that names every entity built for this engine.
    pub ids: IdCounter,
    graphs: Vec<Graph>,
}

impl Engine {
    /// Views of the graphs, in the order they were added.
    pub closed spec fn graphs(&self) -> Seq<GraphView> {
        self.graphs@.map_values(|g: Graph| g@)
    }

    /// The allocator's state.
    pub closed spec fn counter(&self) -> IdCounter {
        self.ids
    }

    /// Every graph is well formed.
    pub closed spec fn wf(&self) -> bool {
        forall|i: int| 0 <= i < self.graphs@.len() ==> (#[trigger] self.graphs@[i]).wf()
    }

    /// An engine with a fresh allocator and no graphs.
    pub fn new() -> (r: Engine)
        ensures
            r.wf(),
            r.counter().peek() == crate::id::ID_BASE,
            r.graphs().len() == 0,
    {
        let r = Engine { ids: initialize(), graphs: Vec::new() };
        assert(r.graphs() =~= Seq::<GraphView>::empty());
        r
    }

    /// Register a graph after those already added.
    pub fn add_graph(&mut self, g: Graph)
        requires
            old(self).wf(),
            g.wf(),
        ensures
            final(self).wf(),
            final(self).graphs() == old(self).graphs().push(g@),
            final(self).counter() == old(self).counter(),
    {
        self.graphs.push(g);
        assert(self.graphs() =~= old(self).graphs().push(g@));
    }

    /// Emit every graph in registration order and concatenate the texts.
    /// Fails with `GraphState`, changing nothing, when a graph is still
    /// building; otherwise every graph becomes emitted.
    pub fn emit_all(&mut self) -> (r: Result<String, ThrillerError>)
        requires
            old(self).wf(),
        ensures
            final(self).wf(),
            final(self).counter() == old(self).counter(),
            final(self).graphs().len() == old(self).graphs().len(),
            any_building(old(self).graphs()) ==> r == Err::<String, ThrillerError>(
                ThrillerError::GraphState,
            ) && final(self).graphs() == old(self).graphs(),
            !any_building(old(self).graphs()) ==> r is Ok && r->Ok_0@ == chars_of(
                programs(old(self).graphs(), old(self).graphs().len()),
            ) && forall|i: int|
                0 <= i < old(self).graphs().len() ==> #[trigger] final(self).graphs()[i] == (GraphView {
                    state: GraphState::Emitted,
                    ..old(self).graphs()[i]
                }),
    {
        let ghost gs = self.graphs();
        let mut i: usize = 0;
        while i < self.graphs.len()
            invariant
                gs == self.graphs(),
                self.wf(),
                self.ids == old(self).ids,
                i <= gs.len(),
                forall|j: int| 0 <= j < i ==> (#[trigger] gs[j]).state != GraphState::Building,
            decreases gs.len() - i,
        {
            if self.graphs[i].state() == GraphState::Building {
                assert(gs[i as int] == self.graphs@[i as int]@);
                return Err(ThrillerError::GraphState);
            }
            assert(gs[i as int] == self.graphs@[i as int]@);
            i = i + 1;
        }
        let mut rest: Vec<Graph> = Vec::new();
        core::mem::swap(&mut rest, &mut self.graphs);
        let ghost all = rest@;
        let total = rest.len();
        let mut out: Vec<u8> = Vec::new();
        let mut k: usize = 0;
        while rest.len() > 0
            invariant
                gs == all.map_values(|g: Graph| g@),
                forall|j: int| 0 <= j < all.len() ==> (#[trigger] all[j]).wf(),
                forall|j: int| 0 <= j < gs.len() ==> (#[trigger] gs[j]).state != GraphState::Building,
                k + rest@.len() == all.len(),
                all.len() == total,
                rest@ == all.skip(k as int),
                self.graphs@.len() == k,
                forall|j: int|
                    0 <= j < k ==> (#[trigger] self.graphs@[j])@ == (GraphView {
                        state: GraphState::Emitted,
                        ..gs[j]
                    }) && self.graphs@[j].wf(),
                self.ids == old(self).ids,
                out@ == programs(gs, k as nat),
                is_ascii_bytes(out@),
            decreases rest@.len(),
        {
            let mut g = rest.remove(0);
            assert(g == all[k as int]);
            assert(gs[k as int] == g@);
            let mut bytes = g.emit_bytes();
            proof {
                lemma_ascii_concat(out@, bytes@);
            }
            out.append(&mut bytes);
            g.set_emitted();
            self.graphs.push(g);
            k = k + 1;
            assert(rest@ =~= all.skip(k as int));
        }
        assert(self.graphs() =~= Seq::new(gs.len(), |j: int| GraphView { state: GraphState::Emitted, ..gs[j] }));
        Ok(ascii_to_string(out))
    }
}

} // verus!
