use hexosynth::dsp::{NodeId, ParamId};
use hexosynth::matrix::{Cell, Matrix};
use hexosynth::nodes::NodeConfigurator;

fn sin_into_out() -> Matrix<f32> {
    let mut m = Matrix::new(NodeConfigurator::<f32>::new(), 3, 3);
    m.place(0, 0, Cell::empty(NodeId::Sin(0)).out(None, Some(0), None));
    m.place(1, 0, Cell::empty(NodeId::Out(0)).input(None, Some(0), None));
    m
}

fn pid(node: NodeId, idx: u8, atom: bool) -> ParamId {
    ParamId { node, idx, atom }
}

#[test]
fn param_ids_of_nodes() {
    assert_eq!(NodeId::Sin(3).inp_param_by_idx(0), Some(pid(NodeId::Sin(3), 0, false)));
    assert_eq!(NodeId::Sin(3).inp_param_by_idx(1), None);
    assert_eq!(NodeId::Sin(3).atom_param_by_idx(0), None);
    assert_eq!(NodeId::Out(0).inp_param_by_idx(1), Some(pid(NodeId::Out(0), 1, false)));
    assert_eq!(NodeId::Out(0).atom_param_by_idx(0), Some(pid(NodeId::Out(0), 0, true)));
    let p = pid(NodeId::Out(2), 1, true);
    assert_eq!(p.node_id(), NodeId::Out(2));
    assert!(p.is_atom());
    assert_eq!(p.inp(), 1);
}

#[test]
fn tables_after_sync() {
    let mut m = sin_into_out();
    assert!(m.atom_entries().is_empty());
    m.sync();
    assert_eq!(
        m.atom_entries(),
        vec![
            (1, pid(NodeId::Out(0), 0, true), None),
            (0, pid(NodeId::Sin(0), 0, false), None),
            (1, pid(NodeId::Out(0), 0, false), None),
            (1, pid(NodeId::Out(0), 1, false), None),
        ]
    );
    let conf = m.into_conf();
    let prog = conf.get_prog().unwrap();
    assert_eq!(prog.params, vec![None, None, None]);
    assert_eq!(prog.atoms, vec![None]);
}

#[test]
fn set_param_routes_by_kind() {
    let mut m = sin_into_out();
    m.sync();
    m.set_param(pid(NodeId::Out(0), 1, false), 0.25);
    m.set_param(pid(NodeId::Out(0), 0, true), 1.0);
    assert_eq!(
        m.atom_entries(),
        vec![
            (1, pid(NodeId::Out(0), 0, true), Some(1.0)),
            (0, pid(NodeId::Sin(0), 0, false), None),
            (1, pid(NodeId::Out(0), 0, false), None),
            (1, pid(NodeId::Out(0), 1, false), Some(0.25)),
        ]
    );
    let conf = m.into_conf();
    let prog = conf.get_prog().unwrap();
    assert_eq!(prog.params, vec![None, None, Some(0.25)]);
    assert_eq!(prog.atoms, vec![Some(1.0)]);
}

#[test]
fn set_param_without_entry_is_ignored() {
    let mut m = sin_into_out();
    m.set_param(pid(NodeId::Sin(0), 0, false), 0.5);
    assert!(m.atom_entries().is_empty());
    m.sync();
    m.set_param(pid(NodeId::Sin(7), 0, false), 0.5);
    m.set_param(pid(NodeId::Sin(0), 0, true), 0.5);
    assert!(m.atom_entries().iter().all(|e| e.2.is_none()));
}

#[test]
fn values_survive_sync() {
    let mut m = sin_into_out();
    m.sync();
    m.set_param(pid(NodeId::Sin(0), 0, false), 0.5);
    m.set_param(pid(NodeId::Out(0), 0, true), 2.0);
    m.place(2, 2, Cell::empty(NodeId::Sin(1)));
    m.sync();
    assert_eq!(
        m.atom_entries(),
        vec![
            (1, pid(NodeId::Out(0), 0, true), Some(2.0)),
            (0, pid(NodeId::Sin(0), 0, false), Some(0.5)),
            (1, pid(NodeId::Out(0), 0, false), None),
            (1, pid(NodeId::Out(0), 1, false), None),
            (2, pid(NodeId::Sin(1), 0, false), None),
        ]
    );
    let conf = m.into_conf();
    let prog = conf.get_prog().unwrap();
    assert_eq!(prog.params, vec![Some(0.5), None, None, None]);
    assert_eq!(prog.atoms, vec![Some(2.0)]);
}

#[test]
fn for_each_atom_visits_atoms_then_params() {
    let mut m = sin_into_out();
    m.sync();
    m.set_param(pid(NodeId::Sin(0), 0, false), 0.75);
    let seen = std::cell::RefCell::new(Vec::new());
    m.for_each_atom(|i, p, v| seen.borrow_mut().push((i, p, *v)));
    assert_eq!(seen.into_inner(), m.atom_entries());
    assert_eq!(m.atom_entries()[1], (0, pid(NodeId::Sin(0), 0, false), Some(0.75)));
}
