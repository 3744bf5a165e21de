use thriller_flow::graph::GraphState;
use thriller_flow::{BlockType, Buffer, Engine, Graph, Node, ThrillerError};
use thriller_flow::MemoryLevel;

fn one_buffer_graph(engine: &mut Engine, level: MemoryLevel, connect: bool) -> Graph {
    let buf = Buffer::new(&mut engine.ids, level, vec![8]);
    let node = Node::buffer(&mut engine.ids, buf);
    let mut g = Graph::new(&mut engine.ids, level, BlockType::Block);
    g.add_nodes(vec![node]).unwrap();
    if connect {
        g.connect(&mut engine.ids).unwrap();
    }
    g
}

#[test]
fn engine_concatenates_graphs_in_order() {
    let mut engine = Engine::new();
    let g1 = one_buffer_graph(&mut engine, MemoryLevel::Shared, true);
    let g2 = one_buffer_graph(&mut engine, MemoryLevel::Global, true);
    engine.add_graph(g1);
    engine.add_graph(g2);
    assert_eq!(engine.emit_all().unwrap(), "shared v0;\nglobal v0;\n");
    assert_eq!(engine.emit_all().unwrap(), "shared v0;\nglobal v0;\n");
}

#[test]
fn engine_refuses_a_building_graph() {
    let mut engine = Engine::new();
    let g1 = one_buffer_graph(&mut engine, MemoryLevel::Shared, true);
    let g2 = one_buffer_graph(&mut engine, MemoryLevel::Global, false);
    assert_eq!(g2.state(), GraphState::Building);
    engine.add_graph(g1);
    engine.add_graph(g2);
    assert_eq!(engine.emit_all(), Err(ThrillerError::GraphState));
}
