use thriller_flow::{initialize, next_id, AccessMap, Buffer, Gemm, Node, Task, ThrillerError};
use thriller_flow::MemoryLevel;

#[test]
fn identities_strictly_increase() {
    let mut ids = initialize();
    let a = next_id(&mut ids);
    let b = next_id(&mut ids);
    assert_eq!(a, 0);
    assert_eq!(b, 1);
    assert!(a < b);
}

#[test]
fn constructors_draw_fresh_identities() {
    let mut ids = initialize();
    let buf = Buffer::new(&mut ids, MemoryLevel::Global, vec![128, 128]);
    assert_eq!(buf.id, 0);
    assert_eq!(buf.shape, vec![128, 128]);
    assert!(buf.access.is_none());
    let node = Node::buffer(&mut ids, buf);
    assert_eq!(node.id, 1);
    assert_eq!(next_id(&mut ids), 2);
}

#[test]
fn memory_level_defaults_to_register() {
    assert_eq!(MemoryLevel::default(), MemoryLevel::Register);
}

#[test]
fn task_lists_inputs_then_output() {
    let mut ids = initialize();
    let buf_a = Buffer::new(&mut ids, MemoryLevel::Global, vec![2]);
    let a = Node::buffer(&mut ids, buf_a);
    let buf_b = Buffer::new(&mut ids, MemoryLevel::Global, vec![2]);
    let b = Node::buffer(&mut ids, buf_b);
    let buf_c = Buffer::new(&mut ids, MemoryLevel::Global, vec![2]);
    let c = Node::buffer(&mut ids, buf_c);
    let gemm = Gemm::new(&mut ids, &a, &b, &c, AccessMap::new(0, vec![]).unwrap());
    let t = Task::Gemm(gemm);
    assert_eq!(t.inputs(), vec![a.id, b.id]);
    assert_eq!(t.output(), c.id);
    assert_eq!(t.refs(), vec![a.id, b.id, c.id]);
    let g = Node::op(&mut ids, t);
    assert_eq!(g.refs(), vec![a.id, b.id, c.id]);
    assert_eq!(a.refs(), Vec::<usize>::new());
}

#[test]
fn buffer_node_emits_its_declaration() {
    let mut ids = initialize();
    let buf_a = Buffer::new(&mut ids, MemoryLevel::Global, vec![2]);
    let a = Node::buffer(&mut ids, buf_a);
    assert_eq!(a.emit(7, &vec![]).unwrap(), b"global v7;\n".to_vec());
    assert_eq!(a.emit(7, &vec![Some(1)]), Err(ThrillerError::Codegen));
}

#[test]
fn gemm_node_emits_a_call_on_its_operands() {
    let mut ids = initialize();
    let buf_a = Buffer::new(&mut ids, MemoryLevel::Global, vec![2]);
    let a = Node::buffer(&mut ids, buf_a);
    let gemm = Gemm::new(&mut ids, &a, &a, &a, AccessMap::new(0, vec![]).unwrap());
    let g = Node::op(&mut ids, Task::Gemm(gemm));
    assert_eq!(
        g.emit(9, &vec![Some(3), Some(12), Some(5)]).unwrap(),
        b"gemm(v3, v12, v5);\n".to_vec()
    );
}

#[test]
fn gemm_node_without_operand_name_fails() {
    let mut ids = initialize();
    let buf_a = Buffer::new(&mut ids, MemoryLevel::Global, vec![2]);
    let a = Node::buffer(&mut ids, buf_a);
    let gemm = Gemm::new(&mut ids, &a, &a, &a, AccessMap::new(0, vec![]).unwrap());
    let g = Node::op(&mut ids, Task::Gemm(gemm));
    assert_eq!(g.emit(4, &vec![Some(0), None, Some(2)]), Err(ThrillerError::Codegen));
    assert_eq!(g.emit(4, &vec![Some(0), Some(1)]), Err(ThrillerError::Codegen));
}

#[test]
fn gemm_node_with_strided_access_emits_its_terms() {
    let mut ids = initialize();
    let buf_a = Buffer::new(&mut ids, MemoryLevel::Global, vec![2]);
    let a = Node::buffer(&mut ids, buf_a);
    let access = AccessMap::new(2, vec![(16, 128), (0, 0)]).unwrap();
    assert!(!access.is_trivial());
    let gemm = Gemm::new(&mut ids, &a, &a, &a, access);
    let g = Node::op(&mut ids, Task::Gemm(gemm));
    assert_eq!(
        g.emit(3, &vec![Some(0), Some(1), Some(2)]).unwrap(),
        b"gemm(v0, v1, v2, 16:128, 0:0);\n".to_vec()
    );
    assert!(AccessMap::new(2, vec![(0, 0), (0, 0)]).unwrap().is_trivial());
}

#[test]
fn buffer_may_carry_its_layout() {
    let mut ids = initialize();
    let access = AccessMap::new(2, vec![(0, 128), (0, 1)]).unwrap();
    let buf = Buffer::with_access(&mut ids, MemoryLevel::Shared, vec![64, 128], access);
    assert_eq!(buf.id, 0);
    assert_eq!(buf.access.as_ref().unwrap().pair(0), (0, 128));
}
