use hexosynth::dsp::{NodeId, NodeInfo};
use hexosynth::matrix::{Cell, Matrix, NodeInstance};
use hexosynth::nodes::{NodeConfigurator, NodeOp, NodeProg};
use hexosynth::CellDir;

fn ops(prog: &NodeProg<f32>) -> Vec<(u8, (usize, usize), (usize, usize), (usize, usize), Vec<(usize, usize)>)> {
    prog.prog
        .iter()
        .map(|o| (o.idx, o.out_idxlen, o.in_idxlen, o.at_idxlen, o.inputs.clone()))
        .collect()
}

fn three_sines() -> Matrix<f32> {
    let mut matrix = Matrix::new(NodeConfigurator::<f32>::new(), 3, 3);
    matrix.place(0, 0, Cell::empty(NodeId::Sin(0)).out(None, Some(0), None));
    matrix.place(
        1,
        0,
        Cell::empty(NodeId::Sin(1)).input(None, Some(0), None).out(None, None, Some(0)),
    );
    matrix.place(1, 1, Cell::empty(NodeId::Sin(2)).input(Some(0), None, None));
    matrix
}

#[test]
fn cell_dir_outputs_and_inputs() {
    for d in [CellDir::TR, CellDir::BR, CellDir::B] {
        assert!(d.is_output());
        assert!(!d.is_input());
    }
    for d in [CellDir::BL, CellDir::TL, CellDir::T, CellDir::C] {
        assert!(!d.is_output());
        assert!(d.is_input());
    }
}

#[test]
fn cell_dir_offsets_depend_on_column() {
    assert_eq!(CellDir::TR.to_offs(2), (1, -1));
    assert_eq!(CellDir::TR.to_offs(3), (1, 0));
    assert_eq!(CellDir::BR.to_offs(2), (1, 0));
    assert_eq!(CellDir::BR.to_offs(3), (1, 1));
    assert_eq!(CellDir::B.to_offs(0), (0, 1));
    assert_eq!(CellDir::BL.to_offs(0), (-1, 0));
    assert_eq!(CellDir::BL.to_offs(1), (-1, 1));
    assert_eq!(CellDir::TL.to_offs(0), (-1, -1));
    assert_eq!(CellDir::TL.to_offs(1), (-1, 0));
    assert_eq!(CellDir::T.to_offs(5), (0, -1));
    assert_eq!(CellDir::C.to_offs(5), (0, 0));
}

#[test]
fn facing_edges_meet() {
    // From (2, 2) across TR lies (3, 1); from there across BL lies (2, 2).
    let m = Matrix::new(NodeConfigurator::<f32>::new(), 5, 5);
    let mut marked = Matrix::new(NodeConfigurator::<f32>::new(), 5, 5);
    marked.place(3, 1, Cell::empty(NodeId::Sin(7)));
    marked.place(2, 2, Cell::empty(NodeId::Out(1)));
    assert_eq!(marked.get_adjacent(2, 2, CellDir::TR).unwrap().node_id(), NodeId::Sin(7));
    assert_eq!(marked.get_adjacent(3, 1, CellDir::BL).unwrap().node_id(), NodeId::Out(1));
    assert!(m.get_adjacent(0, 0, CellDir::T).is_none());
    assert!(m.get_adjacent(0, 0, CellDir::TL).is_none());
    assert!(m.get_adjacent(4, 4, CellDir::B).is_none());
    assert!(m.get_adjacent(4, 0, CellDir::TR).is_none());
}

#[test]
fn node_id_instances() {
    assert_eq!(NodeId::Sin(3).instance(), 3);
    assert_eq!(NodeId::Nop.instance(), 0);
    assert_eq!(NodeId::Sin(3).to_instance(7), NodeId::Sin(7));
    assert_eq!(NodeId::Out(0).to_instance(300), NodeId::Out(44));
    assert_eq!(NodeId::Nop.to_instance(5), NodeId::Nop);
}

#[test]
fn node_id_text() {
    assert_eq!(String::from_utf8(NodeId::Sin(0).to_text()).unwrap(), "Sin 0");
    assert_eq!(String::from_utf8(NodeId::Out(42).to_text()).unwrap(), "Out 42");
    assert_eq!(String::from_utf8(NodeId::Sin(255).to_text()).unwrap(), "Sin 255");
    assert_eq!(String::from_utf8(NodeId::Nop.to_text()).unwrap(), "Nop 0");
}

#[test]
fn node_info_ports() {
    let sin = NodeInfo::from_node_id(NodeId::Sin(4));
    assert_eq!((sin.in_count(), sin.out_count(), sin.at_count()), (1, 1, 0));
    assert_eq!(sin.in_name(0), Some(b"freq".to_vec()));
    assert_eq!(sin.in_name(1), None);
    assert_eq!(sin.out_name(0), Some(b"sig".to_vec()));
    let out = NodeInfo::from_node_id(NodeId::Out(0));
    assert_eq!((out.in_count(), out.out_count(), out.at_count()), (2, 0, 1));
    assert_eq!(out.in_name(1), Some(b"ch2".to_vec()));
    assert_eq!(out.out_name(0), None);
    let nop = NodeInfo::from_node_id(NodeId::Nop);
    assert_eq!((nop.in_count(), nop.out_count(), nop.at_count()), (0, 0, 0));
}

#[test]
fn cell_ports_set_and_clear() {
    let mut c = Cell::empty(NodeId::Sin(1));
    assert!(!c.is_empty());
    assert!(Cell::empty(NodeId::Nop).is_empty());
    c.set_io_dir(CellDir::TR, 2);
    c.set_io_dir(CellDir::T, 300);
    assert_eq!(c, Cell::empty(NodeId::Sin(1)).out(Some(2), None, None).input(Some(44), None, None));
    c.set_io_dir(CellDir::C, 1);
    assert_eq!(c, Cell::empty(NodeId::Sin(1)).out(Some(2), None, None).input(Some(44), None, None));
    c.clear_io_dir(CellDir::TR);
    assert_eq!(c, Cell::empty(NodeId::Sin(1)).input(Some(44), None, None));
    c.set_node_id(NodeId::Out(0));
    assert_eq!(c.node_id(), NodeId::Out(0));
    assert_eq!(c.pos(), (0, 0));
}

#[test]
fn node_instance_ranges() {
    let ni = NodeInstance::new(NodeId::Out(0)).set_index(3).set_output(3, 3).set_input(3, 5).set_atom(0, 1);
    assert_eq!(ni.in_local2global(0), Some(3));
    assert_eq!(ni.in_local2global(1), Some(4));
    assert_eq!(ni.in_local2global(2), None);
    assert_eq!(ni.out_local2global(0), None);
    assert!(!ni.is_used());
    let mut used = ni;
    used.mark_used();
    assert!(used.is_used());
    let op: NodeOp = ni.to_op();
    assert_eq!((op.idx, op.out_idxlen, op.in_idxlen, op.at_idxlen), (3, (3, 3), (3, 5), (0, 1)));
    assert!(op.inputs.is_empty());
    let far = NodeInstance::new(NodeId::Sin(0)).set_index(260);
    assert_eq!(far.to_op().idx, 4);
}

#[test]
fn append_merges_ops_of_one_node() {
    let mut prog = NodeProg::<f32>::new(2, 2, 0);
    let a = NodeInstance::new(NodeId::Sin(0)).set_index(0).set_output(0, 1).set_input(0, 1);
    let b = NodeInstance::new(NodeId::Sin(1)).set_index(1).set_output(1, 2).set_input(1, 2);
    prog.append_with_inputs(a.to_op(), None, None, None);
    prog.append_with_inputs(b.to_op(), Some((0, 1)), None, Some((0, 1)));
    prog.append_with_inputs(a.to_op(), None, Some((1, 0)), None);
    assert_eq!(
        ops(&prog),
        vec![
            (0, (0, 1), (0, 1), (0, 0), vec![(1, 0)]),
            (1, (1, 2), (1, 2), (0, 0), vec![(0, 1), (0, 1)]),
        ]
    );
}

#[test]
fn configurator_creates_once() {
    let mut conf = NodeConfigurator::<f32>::new();
    assert!(conf.create_node(NodeId::Nop).is_none());
    let (info, i) = conf.create_node(NodeId::Sin(2)).unwrap();
    assert_eq!(i, 0);
    assert_eq!(info.in_count(), 1);
    assert_eq!(conf.create_node(NodeId::Out(0)).unwrap().1, 1);
    assert_eq!(conf.create_node(NodeId::Sin(2)).unwrap().1, 0);
    assert_eq!(conf.get_nodes(), &vec![NodeId::Sin(2), NodeId::Out(0)]);
    assert_eq!(conf.unique_index_for(NodeId::Out(0)), Some(1));
    assert_eq!(conf.unique_index_for(NodeId::Out(1)), None);
    assert!(conf.get_prog().is_none());
}

#[test]
fn place_then_get() {
    let mut m = Matrix::new(NodeConfigurator::<f32>::new(), 4, 3);
    assert_eq!(m.size(), (4, 3));
    m.place(2, 1, Cell::empty(NodeId::Sin(5)).out(Some(0), None, None));
    assert_eq!(m.get(2, 1).unwrap().node_id(), NodeId::Sin(5));
    assert_eq!(m.get(2, 1).unwrap().pos(), (2, 1));
    assert_eq!(m.get(1, 2).unwrap().node_id(), NodeId::Nop);
    assert_eq!(m.get(2, 2).unwrap().node_id(), NodeId::Nop);
    assert!(m.get(4, 0).is_none());
    assert!(m.get(0, 3).is_none());
    let copy = m.get_copy(2, 1).unwrap();
    let mut expected = Cell::empty(NodeId::Sin(5)).out(Some(0), None, None);
    expected.x = 2;
    expected.y = 1;
    assert_eq!(copy, expected);
}

#[test]
fn place_row_past_height_lands_in_next_column() {
    let mut m = Matrix::new(NodeConfigurator::<f32>::new(), 3, 3);
    m.place(0, 3, Cell::empty(NodeId::Sin(0)));
    assert_eq!(m.get(1, 0).unwrap().node_id(), NodeId::Sin(0));
    assert_eq!(m.get_copy(1, 0).unwrap().pos(), (1, 0));
}

#[test]
fn get_copy_records_position() {
    let mut m = Matrix::new(NodeConfigurator::<f32>::new(), 3, 3);
    m.place(0, 3, Cell::empty(NodeId::Sin(0)));
    assert_eq!(m.get(1, 0).unwrap().pos(), (0, 3));
    assert_eq!(m.get_copy(1, 0).unwrap().pos(), (1, 0));
    assert!(m.get_copy(3, 0).is_none());
}

#[test]
fn edges_with_inputs() {
    let mut m = three_sines();
    m.sync();
    assert!(m.adjacent_edge_has_input(0, 0, CellDir::BR));
    assert!(!m.adjacent_edge_has_input(0, 0, CellDir::TR));
    assert!(m.adjacent_edge_has_input(1, 0, CellDir::B));
    assert!(!m.adjacent_edge_has_input(1, 0, CellDir::T));
    assert_eq!(m.get_adjacent_out_vec_index(1, 0, CellDir::TL), Some(0));
    assert_eq!(m.get_adjacent_out_vec_index(1, 1, CellDir::T), Some(1));
    assert_eq!(m.get_adjacent_out_vec_index(1, 1, CellDir::TL), None);
    assert_eq!(m.get_adjacent_out_vec_index(0, 0, CellDir::BR), None);
}

#[test]
fn sync_counts_generations_and_is_stable() {
    let mut m = three_sines();
    assert_eq!(m.get_generation(), 0);
    m.sync();
    assert_eq!(m.get_generation(), 1);
    m.sync();
    assert_eq!(m.get_generation(), 2);
    let conf = m.into_conf();
    assert_eq!(conf.get_nodes(), &vec![NodeId::Sin(0), NodeId::Sin(1), NodeId::Sin(2)]);
    assert_eq!(
        ops(conf.get_prog().unwrap()),
        vec![
            (0, (0, 1), (0, 1), (0, 0), vec![]),
            (1, (1, 2), (1, 2), (0, 0), vec![(0, 1)]),
            (2, (2, 3), (2, 3), (0, 0), vec![(1, 2)]),
        ]
    );
}

#[test]
fn sync_keeps_existing_nodes_first() {
    let mut conf = NodeConfigurator::<f32>::new();
    conf.create_node(NodeId::Out(0));
    let mut m = Matrix::new(conf, 2, 2);
    m.place(0, 0, Cell::empty(NodeId::Sin(1)));
    m.sync();
    let prog_len;
    {
        assert_eq!(m.unique_index_for(&NodeId::Out(0)), Some(0));
        assert_eq!(m.unique_index_for(&NodeId::Sin(0)), Some(1));
        assert_eq!(m.unique_index_for(&NodeId::Sin(1)), Some(2));
        prog_len = 1;
    }
    let conf = m.into_conf();
    let prog = conf.get_prog().unwrap();
    assert_eq!(prog.prog.len(), prog_len);
    assert_eq!((prog.out_len, prog.in_len, prog.at_len), (2, 4, 1));
    assert_eq!(ops(prog), vec![(2, (1, 2), (3, 4), (1, 1), vec![])]);
}

#[test]
fn one_node_in_two_cells_runs_once() {
    let mut m = Matrix::new(NodeConfigurator::<f32>::new(), 2, 2);
    m.place(0, 0, Cell::empty(NodeId::Sin(0)).out(None, None, Some(0)));
    m.place(0, 1, Cell::empty(NodeId::Sin(0)).input(Some(0), None, None));
    m.sync();
    let conf = m.into_conf();
    assert_eq!(ops(conf.get_prog().unwrap()), vec![(0, (0, 1), (0, 1), (0, 0), vec![(0, 0)])]);
}

#[test]
fn info_after_sync() {
    let mut m = three_sines();
    assert!(m.info_for(&NodeId::Sin(0)).is_none());
    m.sync();
    assert_eq!(m.info_for(&NodeId::Sin(2)), Some(NodeInfo::from_node_id(NodeId::Sin(2))));
    assert!(m.info_for(&NodeId::Out(0)).is_none());
}

#[test]
fn unused_instances() {
    let mut m = Matrix::new(NodeConfigurator::<f32>::new(), 3, 3);
    m.place(0, 0, Cell::empty(NodeId::Sin(2)));
    // before any sync() nothing is known, so the id itself is free
    assert_eq!(m.get_unused_instance_node_id(NodeId::Sin(2)), NodeId::Sin(2));
    m.sync();
    // Sin 0 and Sin 1 were created to fill the gap, but no cell uses them
    assert_eq!(m.get_unused_instance_node_id(NodeId::Sin(0)), NodeId::Sin(0));
    assert_eq!(m.get_unused_instance_node_id(NodeId::Sin(1)), NodeId::Sin(1));
    // Sin 2 is used, Sin 3 does not exist yet
    assert_eq!(m.get_unused_instance_node_id(NodeId::Sin(2)), NodeId::Sin(3));
    assert_eq!(m.get_unused_instance_node_id(NodeId::Out(0)), NodeId::Out(0));
}

#[test]
fn unused_instance_wraps_around() {
    let mut m = Matrix::new(NodeConfigurator::<f32>::new(), 2, 1);
    m.place(0, 0, Cell::empty(NodeId::Sin(255)));
    m.place(1, 0, Cell::empty(NodeId::Sin(0)));
    m.sync();
    assert_eq!(m.get_unused_instance_node_id(NodeId::Sin(255)), NodeId::Sin(1));
}

#[test]
fn cell_label() {
    let mut buf = [0u8; 16];
    assert_eq!(Cell::empty(NodeId::Sin(3)).label(&mut buf), Some("Sin 3"));
    let mut buf = [0u8; 16];
    assert_eq!(Cell::empty(NodeId::Out(12)).label(&mut buf), Some("Out 12"));
    let mut small = [0u8; 4];
    assert_eq!(Cell::empty(NodeId::Sin(3)).label(&mut small), None);
    assert_eq!(&small, b"Sin ");
    let mut untouched = [7u8; 4];
    assert_eq!(Cell::empty(NodeId::Nop).label(&mut untouched), None);
    assert_eq!(untouched, [7u8; 4]);
}

#[test]
fn edge_labels() {
    let mut m = three_sines();
    m.sync();
    let sin0 = m.get_copy(0, 0).unwrap();
    let sin1 = m.get_copy(1, 0).unwrap();
    let mut buf = [0u8; 8];
    assert_eq!(m.edge_label(&sin0, CellDir::BR, &mut buf), Some(("sig", true)));
    let mut buf = [0u8; 8];
    assert_eq!(m.edge_label(&sin1, CellDir::TL, &mut buf), Some(("freq", false)));
    let mut buf = [0u8; 8];
    assert_eq!(m.edge_label(&sin0, CellDir::TR, &mut buf), None);
    let mut buf = [0u8; 8];
    assert_eq!(m.edge_label(&sin0, CellDir::C, &mut buf), None);
    let mut small = [0u8; 2];
    assert_eq!(m.edge_label(&sin0, CellDir::BR, &mut small), None);
    assert_eq!(&small, b"si");
    let unknown = Cell::empty(NodeId::Out(3)).input(Some(0), None, None);
    let mut buf = [0u8; 8];
    assert_eq!(m.edge_label(&unknown, CellDir::T, &mut buf), None);
}

#[test]
fn for_each_visits_every_cell() {
    let m = three_sines();
    let seen = std::cell::RefCell::new(Vec::new());
    m.for_each(|x, y, c| {
        if !c.is_empty() {
            seen.borrow_mut().push((x, y, c.node_id()));
        }
    });
    assert_eq!(seen.into_inner(), vec![(0, 0, NodeId::Sin(0)), (1, 0, NodeId::Sin(1)), (1, 1, NodeId::Sin(2))]);
}

#[test]
fn initial_patch() {
    let m = hexosynth::initial_matrix(NodeConfigurator::<f32>::new());
    assert_eq!(m.size(), (8, 7));
    assert_eq!(m.get_generation(), 1);
    assert_eq!(m.get(0, 1).unwrap().node_id(), NodeId::Sin(0));
    assert_eq!(m.get(1, 0).unwrap().node_id(), NodeId::Out(0));
    let conf = m.into_conf();
    assert_eq!(conf.get_nodes(), &vec![NodeId::Sin(0), NodeId::Out(0)]);
    assert_eq!(
        ops(conf.get_prog().unwrap()),
        vec![
            (0, (0, 1), (0, 1), (0, 0), vec![]),
            (1, (1, 1), (1, 3), (0, 1), vec![(0, 1)]),
        ]
    );
}

#[test]
fn for_each_sees_each_position_once() {
    let m = three_sines();
    let seen = std::cell::RefCell::new(Vec::new());
    m.for_each(|x, y, _c| seen.borrow_mut().push((x, y)));
    let expected: Vec<(usize, usize)> = (0..3).flat_map(|x| (0..3).map(move |y| (x, y))).collect();
    assert_eq!(seen.into_inner(), expected);
}
