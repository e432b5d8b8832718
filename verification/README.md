# hexosynth

The node matrix of a hexagonal modular synthesizer, as a verified library.

Cells of a hex grid hold nodes (oscillators, outputs, ...) and assign node
ports to their six edges. An output edge of one cell faces an input edge of
its neighbour; `Matrix::sync` turns the grid into a node program: it creates
missing nodes (filling gaps in instance numbers), lays out every node's
ranges in the output, input and atom vectors, rebuilds the tables of
automatable parameters and atoms, and emits one op per node with the copies
from facing outputs into its inputs.

- `src/cell_dir.rs`: the six edges of a cell and their grid offsets.
- `src/dsp.rs`: node ids, node types' port counts and names, labels.
- `src/nodes.rs`: node ops, node programs, the node list.
- `src/matrix.rs`: cells, node instances, the matrix and `sync`, with the
  laws that hold of it.
- `src/params.rs`: the parameter and atom tables that `sync` rebuilds
  (values are kept per parameter; new ones start at their defaults).
- `src/util.rs`: writing text into caller buffers.
- `app/`: the floating-point side (host parameters, UI parameter values,
  audio buffers, the sine oscillator).
