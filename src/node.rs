//! Graph entities: buffers, tasks, nodes and edges, and the code of a node.
use vstd::prelude::*;
use crate::access::{is_trivial, AccessMap};
use crate::error::ThrillerError;
use crate::id::{next_id, IdCounter};
use crate::text::{
    decimal, is_ascii_bytes, lemma_ascii_concat, lemma_decimal_then, lemma_name_ascii, level_word,
    name_text, push_bytes, push_decimal_u64, push_level, push_name,
};
use crate::MemoryLevel;

verus! {

/// A named, shaped memory region at a memory level.
#[derive(Clone, Debug)]
pub struct Buffer {
    pub id: usize,
    pub level: MemoryLevel,
    pub shape: Vec<usize>,
    /// How the buffer's owner lays it out, if it says.
    pub access: Option<AccessMap>,
}

impl Buffer {
    /// A buffer with a fresh identity.
    pub fn new(ids: &mut IdCounter, level: MemoryLevel, shape: Vec<usize>) -> (r: Buffer)
        requires
            old(ids).can_issue(),
        ensures
            r.id == old(ids).peek(),
            final(ids).peek() == old(ids).peek() + 1,
            r.level == level,
            r.shape@ == shape@,
            r.access is None,
    {
        Buffer { id: next_id(ids), level, shape, access: None }
    }

    /// A buffer with a fresh identity and the access descriptor that lays
    /// it out.
    pub fn with_access(ids: &mut IdCounter, level: MemoryLevel, shape: Vec<usize>, access: AccessMap) -> (r: Buffer)
        requires
            old(ids).can_issue(),
        ensures
            r.id == old(ids).peek(),
            final(ids).peek() == old(ids).peek() + 1,
            r.level == level,
            r.shape@ == shape@,
            r.access is Some && r.access->Some_0@ == access@,
    {
        Buffer { id: next_id(ids), level, shape, access: Some(access) }
    }
}

/// Matrix multiply: `c = a * b`, over node identities.
#[derive(Clone, Debug)]
pub struct Gemm {
    pub id: usize,
    pub a: usize,
    pub b: usize,
    pub c: usize,
    pub access: AccessMap,
}

impl Gemm {
    /// A matrix multiply of inputs `a`, `b` into output `c`, with a fresh
    /// identity.
    pub fn new(ids: &mut IdCounter, a: &Node, b: &Node, c: &Node, access: AccessMap) -> (r: Gemm)
        requires
            old(ids).can_issue(),
        ensures
            r.id == old(ids).peek(),
            final(ids).peek() == old(ids).peek() + 1,
            r.a == a.id && r.b == b.id && r.c == c.id,
            r.access@ == access@,
    {
        Gemm { id: next_id(ids), a: a.id, b: b.id, c: c.id, access }
    }
}

/// A computation with input nodes, one output node and an access
/// descriptor. New operations are added as new variants.
#[derive(Clone, Debug)]
pub enum Task {
    Gemm(Gemm),
}

/// Identities of the nodes a task refers to: its inputs, then its output.
pub open spec fn task_refs(t: Task) -> Seq<usize> {
    match t {
        Task::Gemm(g) => seq![g.a, g.b, g.c],
    }
}

impl Task {
    /// Identities of the input nodes.
    pub fn inputs(&self) -> (r: Vec<usize>)
        ensures
            r@ == task_refs(*self).drop_last(),
    {
        match self {
            Task::Gemm(g) => {
                let r = vec![g.a, g.b];
                assert(r@ =~= task_refs(*self).drop_last());
                r
            },
        }
    }

    /// Identity of the output node.
    pub fn output(&self) -> (r: usize)
        ensures
            r == task_refs(*self).last(),
    {
        match self {
            Task::Gemm(g) => g.c,
        }
    }

    /// Identities of all referenced nodes: inputs, then output.
    pub fn refs(&self) -> (r: Vec<usize>)
        ensures
            r@ == task_refs(*self),
    {
        match self {
            Task::Gemm(g) => {
                let r = vec![g.a, g.b, g.c];
                assert(r@ =~= task_refs(*self));
                r
            },
        }
    }
}

/// What a node holds: a buffer or an operation.
#[derive(Clone, Debug)]
pub enum NodeInner {
    Buffer(Buffer),
    Op(Task),
}

/// A graph vertex.
#[derive(Clone, Debug)]
pub struct Node {
    pub id: usize,
    pub inner: NodeInner,
}

/// Identities of the nodes a node refers to (none for a buffer).
pub open spec fn node_refs(n: Node) -> Seq<usize> {
    match n.inner {
        NodeInner::Buffer(_) => seq![],
        NodeInner::Op(t) => task_refs(t),
    }
}

impl Node {
    /// A node holding a buffer, with a fresh identity.
    pub fn buffer(ids: &mut IdCounter, buf: Buffer) -> (r: Node)
        requires
            old(ids).can_issue(),
        ensures
            r.id == old(ids).peek(),
            final(ids).peek() == old(ids).peek() + 1,
            r.inner == NodeInner::Buffer(buf),
    {
        Node { id: next_id(ids), inner: NodeInner::Buffer(buf) }
    }

    /// A node holding an operation, with a fresh identity.
    pub fn op(ids: &mut IdCounter, task: Task) -> (r: Node)
        requires
            old(ids).can_issue(),
        ensures
            r.id == old(ids).peek(),
            final(ids).peek() == old(ids).peek() + 1,
            r.inner == NodeInner::Op(task),
    {
        Node { id: next_id(ids), inner: NodeInner::Op(task) }
    }

    /// Identities of the nodes this node refers to.
    pub fn refs(&self) -> (r: Vec<usize>)
        ensures
            r@ == node_refs(*self),
    {
        match &self.inner {
            NodeInner::Buffer(_) => {
                let r: Vec<usize> = Vec::new();
                assert(r@ =~= node_refs(*self));
                r
            },
            NodeInner::Op(t) => t.refs(),
        }
    }
}

/// Directed dependency: `dst` depends on the value of `src` (node
/// identities), optionally through a given access descriptor.
#[derive(Clone, Debug)]
pub struct Edge {
    pub id: usize,
    pub src: usize,
    pub dst: usize,
    pub access: Option<AccessMap>,
}

impl Edge {
    /// An edge from `src` to `dst`, with a fresh identity.
    pub fn new(ids: &mut IdCounter, src: &Node, dst: &Node) -> (r: Edge)
        requires
            old(ids).can_issue(),
        ensures
            r.id == old(ids).peek(),
            final(ids).peek() == old(ids).peek() + 1,
            r.src == src.id && r.dst == dst.id && r.access is None,
    {
        Edge { id: next_id(ids), src: src.id, dst: dst.id, access: None }
    }

    /// An edge from `src` to `dst` that carries the access descriptor used
    /// for this dependency, with a fresh identity.
    pub fn attached(ids: &mut IdCounter, src: &Node, dst: &Node, access: AccessMap) -> (r: Edge)
        requires
            old(ids).can_issue(),
        ensures
            r.id == old(ids).peek(),
            final(ids).peek() == old(ids).peek() + 1,
            r.src == src.id && r.dst == dst.id && r.access == Some(access),
    {
        Edge { id: next_id(ids), src: src.id, dst: dst.id, access: Some(access) }
    }
}


/// `gemm(` in ASCII.
pub open spec fn gemm_open() -> Seq<u8> {
    seq![103u8, 101u8, 109u8, 109u8, 40u8]
}

/// `, ` in ASCII.
pub open spec fn comma() -> Seq<u8> {
    seq![44u8, 32u8]
}

/// `);` and a newline in ASCII.
pub open spec fn call_close() -> Seq<u8> {
    seq![41u8, 59u8, 10u8]
}

/// `;` and a newline in ASCII.
pub open spec fn decl_close() -> Seq<u8> {
    seq![59u8, 10u8]
}

/// `, offset:stride` for each dimension, in ASCII.
pub open spec fn access_terms(p: Seq<(u64, u64)>) -> Seq<u8>
    decreases p.len(),
{
    if p.len() == 0 {
        seq![]
    } else {
        access_terms(p.drop_last()) + comma() + decimal(p.last().0 as nat) + seq![58u8] + decimal(
            p.last().1 as nat,
        )
    }
}

/// Terms a matrix multiply adds for its access descriptor: none for a plain
/// access, the offset and stride of each dimension otherwise.
pub open spec fn gemm_terms(p: Seq<(u64, u64)>) -> Seq<u8> {
    if is_trivial(p) {
        seq![]
    } else {
        access_terms(p)
    }
}

/// Code for a node named `own` whose referenced nodes are named `names`: a
/// buffer declares its name at its memory level (`global v3;`), a matrix
/// multiply calls the primitive on its operands, then any access terms
/// (`gemm(v0, v1, v2);`, `gemm(v0, v1, v2, 4:1, 0:1);`).
pub open spec fn node_fragment(n: Node, own: nat, names: Seq<nat>) -> Seq<u8> {
    match n.inner {
        NodeInner::Buffer(b) => level_word(b.level) + seq![32u8] + name_text(own) + decl_close(),
        NodeInner::Op(Task::Gemm(g)) => gemm_open() + name_text(names[0]) + comma() + name_text(
            names[1],
        ) + comma() + name_text(names[2]) + gemm_terms(g.access@) + call_close(),
    }
}

/// Append the access terms of a matrix multiply to `out`.
fn push_gemm_terms(out: &mut Vec<u8>, m: &AccessMap)
    ensures
        final(out)@ == old(out)@ + gemm_terms(m@),
{
    if m.is_trivial() {
        assert(old(out)@ + gemm_terms(m@) =~= old(out)@);
        return;
    }
    let sep: [u8; 2] = [44u8, 32u8];
    assert(sep@ =~= comma());
    let colon: [u8; 1] = [58u8];
    let mut d: usize = 0;
    while d < m.dims()
        invariant
            sep@ == comma(),
            colon@ == seq![58u8],
            d <= m@.len(),
            out@ == old(out)@ + access_terms(m@.take(d as int)),
        decreases m@.len() - d,
    {
        let (o, st) = m.pair(d);
        push_bytes(out, &sep);
        push_decimal_u64(out, o);
        push_bytes(out, &colon);
        push_decimal_u64(out, st);
        proof {
            let t = m@.take(d + 1);
            assert(t.drop_last() =~= m@.take(d as int));
            assert(out@ =~= old(out)@ + access_terms(t));
        }
        d = d + 1;
    }
    assert(m@.take(m@.len() as int) =~= m@);
}

proof fn lemma_access_terms_ascii(p: Seq<(u64, u64)>)
    ensures
        is_ascii_bytes(access_terms(p)),
    decreases p.len(),
{
    if p.len() > 0 {
        lemma_access_terms_ascii(p.drop_last());
        let a = access_terms(p.drop_last());
        lemma_ascii_concat(a, comma());
        lemma_decimal_then(a + comma(), p.last().0 as nat);
        lemma_ascii_concat(a + comma() + decimal(p.last().0 as nat), seq![58u8]);
        lemma_decimal_then(a + comma() + decimal(p.last().0 as nat) + seq![58u8], p.last().1 as nat);
    }
}

impl Node {
    /// Code for this node, named `own`, given the names of the nodes it
    /// refers to (inputs, then output). Fails with `Codegen` when a name is
    /// missing.
    pub fn emit(&self, own: usize, names: &Vec<Option<usize>>) -> (r: Result<Vec<u8>, ThrillerError>)
        ensures
            (names@.len() == node_refs(*self).len() && forall|k: int|
                0 <= k < names@.len() ==> #[trigger] names@[k] is Some) <==> r is Ok,
            r is Err ==> r == Err::<Vec<u8>, ThrillerError>(ThrillerError::Codegen),
            r is Ok ==> r->Ok_0@ == node_fragment(
                *self,
                own as nat,
                Seq::new(names@.len(), |k: int| names@[k]->Some_0 as nat),
            ),
    {
        let ghost nm = Seq::new(names@.len(), |k: int| names@[k]->Some_0 as nat);
        let mut out: Vec<u8> = Vec::new();
        match &self.inner {
            NodeInner::Buffer(b) => {
                if names.len() != 0 {
                    return Err(ThrillerError::Codegen);
                }
                push_level(&mut out, b.level);
                out.push(32u8);
                push_name(&mut out, own);
                let close: [u8; 2] = [59u8, 10u8];
                push_bytes(&mut out, &close);
                assert(close@ =~= decl_close());
                assert(out@ =~= node_fragment(*self, own as nat, nm));
            },
            NodeInner::Op(Task::Gemm(g)) => {
                if names.len() != 3 {
                    return Err(ThrillerError::Codegen);
                }
                let (a, b, c) = match (names[0], names[1], names[2]) {
                    (Some(a), Some(b), Some(c)) => (a, b, c),
                    _ => {
                        return Err(ThrillerError::Codegen);
                    },
                };
                assert forall|k: int| 0 <= k < names@.len() implies #[trigger] names@[k] is Some by {
                    assert(k == 0 || k == 1 || k == 2);
                }
                let open: [u8; 5] = [103u8, 101u8, 109u8, 109u8, 40u8];
                let sep: [u8; 2] = [44u8, 32u8];
                let close: [u8; 3] = [41u8, 59u8, 10u8];
                assert(open@ =~= gemm_open());
                assert(sep@ =~= comma());
                assert(close@ =~= call_close());
                push_bytes(&mut out, &open);
                push_name(&mut out, a);
                push_bytes(&mut out, &sep);
                push_name(&mut out, b);
                push_bytes(&mut out, &sep);
                push_name(&mut out, c);
                push_gemm_terms(&mut out, &g.access);
                push_bytes(&mut out, &close);
                assert(out@ =~= node_fragment(*self, own as nat, nm));
            },
        }
        Ok(out)
    }
}

/// Code for a node is ASCII.
pub(crate) proof fn lemma_fragment_ascii(n: Node, own: nat, names: Seq<nat>)
    requires
        names.len() == node_refs(n).len(),
    ensures
        is_ascii_bytes(node_fragment(n, own, names)),
{
    match n.inner {
        NodeInner::Buffer(b) => {
            lemma_name_ascii(own);
            let w = level_word(b.level);
            assert(is_ascii_bytes(w));
            lemma_ascii_concat(w, seq![32u8]);
            lemma_ascii_concat(w + seq![32u8], name_text(own));
            lemma_ascii_concat(w + seq![32u8] + name_text(own), decl_close());
        },
        NodeInner::Op(Task::Gemm(g)) => {
            lemma_access_terms_ascii(g.access@);
            lemma_name_ascii(names[0]);
            lemma_name_ascii(names[1]);
            lemma_name_ascii(names[2]);
            let t0 = gemm_open() + name_text(names[0]);
            lemma_ascii_concat(gemm_open(), name_text(names[0]));
            lemma_ascii_concat(t0, comma());
            lemma_ascii_concat(t0 + comma(), name_text(names[1]));
            let t1 = t0 + comma() + name_text(names[1]);
            lemma_ascii_concat(t1, comma());
            lemma_ascii_concat(t1 + comma(), name_text(names[2]));
            let t2 = t1 + comma() + name_text(names[2]);
            lemma_ascii_concat(t2, gemm_terms(g.access@));
            lemma_ascii_concat(t2 + gemm_terms(g.access@), call_close());
        },
    }
}

} // verus!
