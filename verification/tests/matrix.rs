use hexosynth::dsp::NodeId;
use hexosynth::matrix::{Cell, Matrix};
use hexosynth::nodes::{NodeConfigurator, NodeOp};

fn op_str(op: &NodeOp) -> String {
    String::from_utf8(op.to_text()).unwrap()
}

#[test]
fn check_matrix_3_sine() {
    let node_conf = NodeConfigurator::<f32>::new();
    let mut matrix = Matrix::new(node_conf, 3, 3);

    matrix.place(0, 0, Cell::empty(NodeId::Sin(0)).out(None, Some(0), None));
    matrix.place(
        1,
        0,
        Cell::empty(NodeId::Sin(1)).input(None, Some(0), None).out(None, None, Some(0)),
    );
    matrix.place(1, 1, Cell::empty(NodeId::Sin(2)).input(Some(0), None, None));
    matrix.sync();

    let conf = matrix.into_conf();
    let nodes = conf.get_nodes();
    assert!(nodes[0].to_instance(0) == NodeId::Sin(0));
    assert!(nodes[1].to_instance(1) == NodeId::Sin(1));
    assert!(nodes[2].to_instance(2) == NodeId::Sin(2));

    let prog = conf.get_prog().unwrap();
    assert_eq!(op_str(&prog.prog[0]), "Op(i=0 out=(0-1) in=(0-1) at=(0-0))");
    assert_eq!(op_str(&prog.prog[1]), "Op(i=1 out=(1-2) in=(1-2) at=(0-0) cpy=(o0 => i1))");
    assert_eq!(op_str(&prog.prog[2]), "Op(i=2 out=(2-3) in=(2-3) at=(0-0) cpy=(o1 => i2))");
}

#[test]
fn check_matrix_filled() {
    let node_conf = NodeConfigurator::<f32>::new();
    let mut matrix = Matrix::new(node_conf, 9, 9);

    let mut i = 1;
    for x in 0..9 {
        for y in 0..9 {
            matrix.place(x, y, Cell::empty(NodeId::Sin(i)));
            i += 1;
        }
    }
    matrix.sync();

    let conf = matrix.into_conf();
    let nodes = conf.get_nodes();
    let ex_nodes: Vec<&NodeId> = nodes.iter().filter(|n| n.to_instance(0) != NodeId::Nop).collect();
    assert_eq!(ex_nodes.len(), 9 * 9 + 1);
}

#[test]
fn check_matrix_into_output() {
    let node_conf = NodeConfigurator::<f32>::new();
    let mut matrix = Matrix::new(node_conf, 3, 3);

    matrix.place(0, 0, Cell::empty(NodeId::Sin(0)).out(None, Some(0), None));
    matrix.place(
        1,
        0,
        Cell::empty(NodeId::Out(0)).input(None, Some(0), None).out(None, None, Some(0)),
    );
    matrix.sync();

    let conf = matrix.into_conf();
    let nodes = conf.get_nodes();
    assert!(nodes[0].to_instance(0) == NodeId::Sin(0));
    assert!(nodes[1].to_instance(0) == NodeId::Out(0));

    let prog = conf.get_prog().unwrap();
    assert_eq!(prog.prog.len(), 2);
    assert_eq!(op_str(&prog.prog[0]), "Op(i=0 out=(0-1) in=(0-1) at=(0-0))");
    assert_eq!(op_str(&prog.prog[1]), "Op(i=1 out=(1-1) in=(1-3) at=(0-1) cpy=(o0 => i1))");
}

#[test]
fn check_matrix_skip_instance() {
    let node_conf = NodeConfigurator::<f32>::new();
    let mut matrix = Matrix::new(node_conf, 3, 3);

    matrix.place(0, 0, Cell::empty(NodeId::Sin(2)).out(None, Some(0), None));
    matrix.place(
        1,
        0,
        Cell::empty(NodeId::Out(0)).input(None, Some(0), None).out(None, None, Some(0)),
    );
    matrix.sync();

    let conf = matrix.into_conf();
    let nodes = conf.get_nodes();
    assert!(nodes[0].to_instance(0) == NodeId::Sin(0));
    assert!(nodes[1].to_instance(0) == NodeId::Sin(0));
    assert!(nodes[2].to_instance(0) == NodeId::Sin(0));
    assert!(nodes[3].to_instance(0) == NodeId::Out(0));

    let prog = conf.get_prog().unwrap();
    assert_eq!(prog.prog.len(), 2);
    assert_eq!(op_str(&prog.prog[0]), "Op(i=2 out=(2-3) in=(2-3) at=(0-0))");
    assert_eq!(op_str(&prog.prog[1]), "Op(i=3 out=(3-3) in=(3-5) at=(0-1) cpy=(o2 => i3))");
}
