pub mod cell_dir;
pub mod dsp;
pub mod matrix;
pub mod nodes;
pub mod params;
pub mod util;

pub use cell_dir::CellDir;

use vstd::prelude::*;
use dsp::NodeId;
use matrix::{Cell, Matrix};
use nodes::NodeConfigurator;

verus! {

/// The cells of the patch the synthesizer starts with, in an 8 x 7 matrix:
/// a sine oscillator at (0, 1) whose top-right output feeds the
/// bottom-left input of the audio output at (1, 0).
pub open spec fn initial_cells() -> Seq<Cell> {
    Seq::new(56, |i: int| matrix::spec_empty_cell(NodeId::Nop))
        .update(1, matrix::Cell { x: 0, y: 1, out1: Some(0), ..matrix::spec_empty_cell(NodeId::Sin(0)) })
        .update(7, matrix::Cell { x: 1, y: 0, in3: Some(0), ..matrix::spec_empty_cell(NodeId::Out(0)) })
}

/// The matrix the synthesizer starts with: the initial patch, synced once
/// with the nodes of `config`.
pub fn initial_matrix<V: Copy>(config: NodeConfigurator<V>) -> (r: Matrix<V>)
    requires
        config.wf(),
        config.node_ids().len() + 256 * 56 <= usize::MAX / 4,
    ensures
        r.wf(),
        r.width() == 8,
        r.height() == 7,
        r.cells() == initial_cells(),
        r.nodes() == matrix::nodes_after(config.node_ids(), initial_cells(), 56),
        r.generation() == 1,
        r.conf().uploaded() matches Some((p, copy_old_out)) && copy_old_out
            && p.ops() == matrix::prog_after(initial_cells(), 8, 7, r.nodes(), 56),
{
    let mut matrix = Matrix::new(config, 8, 7);

    matrix.place(0, 1, Cell::empty(NodeId::Sin(0)).out(Some(0), None, None));
    matrix.place(1, 0, Cell::empty(NodeId::Out(0)).input(None, None, Some(0)));
    assert(matrix.cells() =~= initial_cells());
    matrix.sync();
    matrix
}

/// The initial patch holds exactly two nodes: the sine oscillator at
/// (0, 1), whose top-right edge carries its output 0, and the audio output
/// at (1, 0), whose bottom-left edge carries its input 0; every other cell
/// of the 8 x 7 matrix is empty.
pub proof fn lemma_initial_patch()
    ensures
        initial_cells().len() == 8 * 7,
        forall|x: int, y: int| 0 <= x < 8 && 0 <= y < 7 && !(x == 0 && y == 1) && !(x == 1 && y == 0)
            ==> (#[trigger] initial_cells()[x * 7 + y]).node_id == NodeId::Nop,
        initial_cells()[1int].node_id == NodeId::Sin(0) && initial_cells()[1int].out1 == Some(0u8),
        initial_cells()[7int].node_id == NodeId::Out(0) && initial_cells()[7int].in3 == Some(0u8),
{
    assert forall|x: int, y: int| 0 <= x < 8 && 0 <= y < 7 && !(x == 0 && y == 1) && !(x == 1 && y == 0)
        implies (#[trigger] initial_cells()[x * 7 + y]).node_id == NodeId::Nop by {
        assert(x * 7 + y != 1 && x * 7 + y != 7);
    }
}

} // verus!
