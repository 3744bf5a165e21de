use thriller_flow::graph::GraphState;
use thriller_flow::{
    initialize, AccessMap, BlockType, Buffer, Edge, Gemm, Graph, IdCounter, Node, Task,
    ThrillerError,
};
use thriller_flow::MemoryLevel;

fn buffer_node(ids: &mut IdCounter, level: MemoryLevel, shape: Vec<usize>) -> Node {
    let buf = Buffer::new(ids, level, shape);
    Node::buffer(ids, buf)
}

fn trivial_access() -> AccessMap {
    AccessMap::new(2, vec![(0, 0), (0, 0)]).unwrap()
}

fn gemm_node(ids: &mut IdCounter, a: &Node, b: &Node, c: &Node, access: AccessMap) -> Node {
    let g = Gemm::new(ids, a, b, c, access);
    Node::op(ids, Task::Gemm(g))
}

#[test]
fn scenario_gemm_over_three_global_buffers() {
    let mut ids = initialize();
    let a = buffer_node(&mut ids, MemoryLevel::Global, vec![128, 128]);
    let b = buffer_node(&mut ids, MemoryLevel::Global, vec![128, 128]);
    let c = buffer_node(&mut ids, MemoryLevel::Global, vec![128, 128]);
    let g = gemm_node(&mut ids, &a, &b, &c, trivial_access());
    let (a_id, b_id, c_id, g_id) = (a.id, b.id, c.id, g.id);
    let mut graph = Graph::new(&mut ids, MemoryLevel::Global, BlockType::Block);
    assert_eq!(graph.add_nodes(vec![a, b, c, g]), Ok(()));
    assert_eq!(graph.connect(&mut ids), Ok(()));
    assert_eq!(graph.state(), GraphState::Connected);
    assert_eq!(graph.edge_count(), 3);
    let edges = graph.edges();
    assert_eq!((edges[0].src, edges[0].dst), (a_id, g_id));
    assert_eq!((edges[1].src, edges[1].dst), (b_id, g_id));
    assert_eq!((edges[2].src, edges[2].dst), (c_id, g_id));
    assert!(edges.iter().all(|e| e.access.as_ref().unwrap().is_trivial()));
    assert!(edges.iter().all(|e| e.access.as_ref().unwrap().dims() == 2));
    let text = graph.emit().unwrap();
    assert_eq!(text, "global v0;\nglobal v1;\nglobal v2;\ngemm(v0, v1, v2);\n");
    assert_eq!(text.matches("global ").count(), 3);
    assert_eq!(text.matches("gemm(").count(), 1);
    assert_eq!(graph.state(), GraphState::Emitted);
}

#[test]
fn scenario_two_writers_of_one_buffer_connect() {
    let mut ids = initialize();
    let a = buffer_node(&mut ids, MemoryLevel::Shared, vec![64, 64]);
    let b = buffer_node(&mut ids, MemoryLevel::Shared, vec![64, 64]);
    let c = buffer_node(&mut ids, MemoryLevel::Global, vec![64, 64]);
    let acc1 = AccessMap::new(2, vec![(0, 1), (0, 1)]).unwrap();
    let acc2 = AccessMap::new(2, vec![(4, 1), (0, 1)]).unwrap();
    assert!(acc1.overlaps(&acc2));
    let g1 = gemm_node(&mut ids, &a, &b, &c, acc1);
    let g2 = gemm_node(&mut ids, &a, &b, &c, acc2);
    let mut graph = Graph::new(&mut ids, MemoryLevel::Global, BlockType::Block);
    graph.add_nodes(vec![a, b, c, g1, g2]).unwrap();
    assert_eq!(graph.connect(&mut ids), Ok(()));
    assert_eq!(
        graph.emit().unwrap(),
        "shared v0;\nshared v1;\nglobal v2;\ngemm(v0, v1, v2, 0:1, 0:1);\ngemm(v0, v1, v2, 4:1, 0:1);\n"
    );
}

#[test]
fn scenario_edge_to_missing_node_is_dangling() {
    let mut ids = initialize();
    let a = buffer_node(&mut ids, MemoryLevel::Global, vec![4]);
    let x = buffer_node(&mut ids, MemoryLevel::Global, vec![4]);
    let e = Edge::new(&mut ids, &a, &x);
    let mut graph = Graph::new(&mut ids, MemoryLevel::Global, BlockType::Block);
    graph.add_nodes(vec![a]).unwrap();
    graph.add_edges(vec![e]).unwrap();
    assert_eq!(graph.connect(&mut ids), Err(ThrillerError::DanglingReference(x.id)));
    assert_eq!(graph.state(), GraphState::Building);
    assert_eq!(graph.emit(), Err(ThrillerError::GraphState));
}

#[test]
fn scenario_task_with_missing_operand_is_dangling() {
    let mut ids = initialize();
    let a = buffer_node(&mut ids, MemoryLevel::Global, vec![4]);
    let b = buffer_node(&mut ids, MemoryLevel::Global, vec![4]);
    let c = buffer_node(&mut ids, MemoryLevel::Global, vec![4]);
    let g = gemm_node(&mut ids, &a, &b, &c, trivial_access());
    let mut graph = Graph::new(&mut ids, MemoryLevel::Global, BlockType::Block);
    graph.add_nodes(vec![a, c, g]).unwrap();
    assert_eq!(graph.connect(&mut ids), Err(ThrillerError::DanglingReference(b.id)));
}

#[test]
fn scenario_emit_while_building_fails() {
    let mut ids = initialize();
    let a = buffer_node(&mut ids, MemoryLevel::Register, vec![8]);
    let b = buffer_node(&mut ids, MemoryLevel::Register, vec![8]);
    let e = Edge::new(&mut ids, &a, &b);
    let mut graph = Graph::new(&mut ids, MemoryLevel::Register, BlockType::Loop);
    graph.add_nodes(vec![a, b]).unwrap();
    graph.add_edges(vec![e]).unwrap();
    assert_eq!(graph.emit(), Err(ThrillerError::GraphState));
    assert_eq!(graph.node_count(), 2);
    assert_eq!(graph.edge_count(), 1);
    assert_eq!(graph.state(), GraphState::Building);
}

#[test]
fn cycle_of_explicit_edges_fails_connect() {
    let mut ids = initialize();
    let a = buffer_node(&mut ids, MemoryLevel::Global, vec![2]);
    let b = buffer_node(&mut ids, MemoryLevel::Global, vec![2]);
    let e1 = Edge::new(&mut ids, &a, &b);
    let e2 = Edge::new(&mut ids, &b, &a);
    let (a_id, b_id) = (a.id, b.id);
    let mut graph = Graph::new(&mut ids, MemoryLevel::Global, BlockType::Block);
    graph.add_nodes(vec![a, b]).unwrap();
    graph.add_edges(vec![e1, e2]).unwrap();
    let r = graph.connect(&mut ids);
    assert!(r == Err(ThrillerError::CyclicDependency(a_id)) || r == Err(ThrillerError::CyclicDependency(b_id)));
    assert_eq!(graph.state(), GraphState::Building);
    assert_eq!(graph.emit(), Err(ThrillerError::GraphState));
}

#[test]
fn cycle_through_synthesized_edge_fails_connect() {
    let mut ids = initialize();
    let a = buffer_node(&mut ids, MemoryLevel::Global, vec![2]);
    let b = buffer_node(&mut ids, MemoryLevel::Global, vec![2]);
    let c = buffer_node(&mut ids, MemoryLevel::Global, vec![2]);
    let g = gemm_node(&mut ids, &a, &b, &c, trivial_access());
    let back = Edge::new(&mut ids, &g, &a);
    let mut graph = Graph::new(&mut ids, MemoryLevel::Global, BlockType::Block);
    graph.add_nodes(vec![a, b, c, g]).unwrap();
    graph.add_edges(vec![back]).unwrap();
    assert!(matches!(graph.connect(&mut ids), Err(ThrillerError::CyclicDependency(_))));
}

#[test]
fn self_edge_fails_connect() {
    let mut ids = initialize();
    let a = buffer_node(&mut ids, MemoryLevel::Global, vec![2]);
    let e = Edge::new(&mut ids, &a, &a);
    let a_id = a.id;
    let mut graph = Graph::new(&mut ids, MemoryLevel::Global, BlockType::Block);
    graph.add_nodes(vec![a]).unwrap();
    graph.add_edges(vec![e]).unwrap();
    assert_eq!(graph.connect(&mut ids), Err(ThrillerError::CyclicDependency(a_id)));
}

#[test]
fn emit_twice_gives_identical_text() {
    let mut ids = initialize();
    let a = buffer_node(&mut ids, MemoryLevel::Shared, vec![16]);
    let b = buffer_node(&mut ids, MemoryLevel::Register, vec![16]);
    let e = Edge::new(&mut ids, &a, &b);
    let mut graph = Graph::new(&mut ids, MemoryLevel::Shared, BlockType::Block);
    graph.add_nodes(vec![a, b]).unwrap();
    graph.add_edges(vec![e]).unwrap();
    graph.connect(&mut ids).unwrap();
    let first = graph.emit().unwrap();
    let second = graph.emit().unwrap();
    assert_eq!(first, second);
    assert_eq!(first, "shared v0;\nreg v1;\n");
}

#[test]
fn edge_source_is_emitted_before_destination() {
    let mut ids = initialize();
    let a = buffer_node(&mut ids, MemoryLevel::Register, vec![1]);
    let c = buffer_node(&mut ids, MemoryLevel::Shared, vec![1]);
    let e = Edge::new(&mut ids, &c, &a);
    let mut graph = Graph::new(&mut ids, MemoryLevel::Register, BlockType::Block);
    graph.add_nodes(vec![a, c]).unwrap();
    graph.add_edges(vec![e]).unwrap();
    graph.connect(&mut ids).unwrap();
    let text = graph.emit().unwrap();
    assert_eq!(text, "shared v0;\nreg v1;\n");
    assert!(text.find("shared").unwrap() < text.find("reg").unwrap());
}

#[test]
fn attached_edge_orders_like_a_plain_one() {
    let mut ids = initialize();
    let a = buffer_node(&mut ids, MemoryLevel::Global, vec![1]);
    let c = buffer_node(&mut ids, MemoryLevel::Register, vec![1]);
    let e = Edge::attached(&mut ids, &c, &a, AccessMap::new(1, vec![(2, 3)]).unwrap());
    assert!(e.access.is_some());
    let mut graph = Graph::new(&mut ids, MemoryLevel::Global, BlockType::Block);
    graph.add_nodes(vec![a, c]).unwrap();
    graph.add_edges(vec![e]).unwrap();
    graph.connect(&mut ids).unwrap();
    assert_eq!(graph.emit().unwrap(), "reg v0;\nglobal v1;\n");
}

#[test]
fn names_past_nine_have_several_digits() {
    let mut ids = initialize();
    let mut nodes = Vec::new();
    for _ in 0..11 {
        nodes.push(buffer_node(&mut ids, MemoryLevel::Register, vec![1]));
    }
    let mut graph = Graph::new(&mut ids, MemoryLevel::Register, BlockType::Block);
    graph.add_nodes(nodes).unwrap();
    graph.connect(&mut ids).unwrap();
    let text = graph.emit().unwrap();
    assert!(text.ends_with("reg v9;\nreg v10;\n"));
    assert_eq!(text.len(), 10 * 8 + 9);
}

#[test]
fn adding_a_node_twice_keeps_one() {
    let mut ids = initialize();
    let a = buffer_node(&mut ids, MemoryLevel::Global, vec![1]);
    let mut graph = Graph::new(&mut ids, MemoryLevel::Global, BlockType::Block);
    graph.add_nodes(vec![a.clone(), a.clone()]).unwrap();
    graph.add_nodes(vec![a]).unwrap();
    assert_eq!(graph.node_count(), 1);
}

#[test]
fn changes_after_connect_are_refused() {
    let mut ids = initialize();
    let a = buffer_node(&mut ids, MemoryLevel::Global, vec![1]);
    let b = buffer_node(&mut ids, MemoryLevel::Global, vec![1]);
    let e = Edge::new(&mut ids, &a, &b);
    let mut graph = Graph::new(&mut ids, MemoryLevel::Global, BlockType::Block);
    graph.add_nodes(vec![a]).unwrap();
    graph.connect(&mut ids).unwrap();
    assert_eq!(graph.add_nodes(vec![b]), Err(ThrillerError::GraphState));
    assert_eq!(graph.add_edges(vec![e]), Err(ThrillerError::GraphState));
    assert_eq!(graph.connect(&mut ids), Err(ThrillerError::GraphState));
    assert_eq!(graph.node_count(), 1);
    assert_eq!(graph.edge_count(), 0);
}

#[test]
fn empty_graph_emits_empty_text() {
    let mut ids = initialize();
    let mut graph = Graph::new(&mut ids, MemoryLevel::Global, BlockType::Block);
    graph.connect(&mut ids).unwrap();
    assert_eq!(graph.emit().unwrap(), "");
}

#[test]
fn graph_getters() {
    let mut ids = initialize();
    let graph = Graph::new(&mut ids, MemoryLevel::Shared, BlockType::Loop);
    assert_eq!(graph.id(), 0);
    assert_eq!(graph.level(), MemoryLevel::Shared);
    assert_eq!(graph.block(), BlockType::Loop);
    assert_eq!(graph.state(), GraphState::Building);
}

#[test]
fn cycle_error_names_a_node_on_the_cycle() {
    let mut ids = initialize();
    let d = buffer_node(&mut ids, MemoryLevel::Global, vec![2]);
    let a = buffer_node(&mut ids, MemoryLevel::Global, vec![2]);
    let b = buffer_node(&mut ids, MemoryLevel::Global, vec![2]);
    let e1 = Edge::new(&mut ids, &a, &b);
    let e2 = Edge::new(&mut ids, &b, &a);
    let e3 = Edge::new(&mut ids, &a, &d);
    let a_id = a.id;
    let mut graph = Graph::new(&mut ids, MemoryLevel::Global, BlockType::Block);
    graph.add_nodes(vec![d, a, b]).unwrap();
    graph.add_edges(vec![e1, e2, e3]).unwrap();
    assert_eq!(graph.connect(&mut ids), Err(ThrillerError::CyclicDependency(a_id)));
}

#[test]
fn explicit_edge_replaces_synthesized_one() {
    let mut ids = initialize();
    let a = buffer_node(&mut ids, MemoryLevel::Global, vec![2]);
    let b = buffer_node(&mut ids, MemoryLevel::Global, vec![2]);
    let c = buffer_node(&mut ids, MemoryLevel::Global, vec![2]);
    let access = AccessMap::new(1, vec![(8, 2)]).unwrap();
    let g = gemm_node(&mut ids, &a, &a, &c, access);
    let explicit = Edge::new(&mut ids, &c, &g);
    let (a_id, g_id) = (a.id, g.id);
    let mut graph = Graph::new(&mut ids, MemoryLevel::Global, BlockType::Block);
    graph.add_nodes(vec![a, b, c, g]).unwrap();
    graph.add_edges(vec![explicit]).unwrap();
    let next = ids.remaining();
    graph.connect(&mut ids).unwrap();
    assert_eq!(ids.remaining(), next - 1);
    assert_eq!(graph.edge_count(), 2);
    let added = &graph.edges()[1];
    assert_eq!((added.src, added.dst), (a_id, g_id));
    assert_eq!(added.access.as_ref().unwrap().pair(0), (8, 2));
}
