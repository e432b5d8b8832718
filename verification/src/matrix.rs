use vstd::prelude::*;
use crate::cell_dir::{CellDir, spec_is_output, spec_offs};
use crate::dsp::{NodeId, NodeInfo, spec_node_info, spec_instance, spec_to_instance};
use crate::nodes::{NodeConfigurator, NodeOp, OpModel, NodeProg, find_node};
use crate::params::{ParamEntry, param_ids, table_ok, rebuilt, table_values, lookup_entry, first_entry_at};
use crate::dsp::ParamId;
use vstd::string::StringSliceAdditionalSpecFns;

verus! {

/// A hexagonal cell of the matrix: the node placed in it, its position,
/// and which output or input port of the node each edge carries.
#[derive(Debug, Clone, Copy, PartialEq, Eq, Structural)]
pub struct Cell {
    pub node_id: NodeId,
    pub x: u8,
    pub y: u8,
    /// Top-Right output
    pub out1: Option<u8>,
    /// Bottom-Right output
    pub out2: Option<u8>,
    /// Bottom output
    pub out3: Option<u8>,
    /// Top input
    pub in1: Option<u8>,
    /// Top-Left input
    pub in2: Option<u8>,
    /// Bottom-Left input
    pub in3: Option<u8>,
}

/// The port carried by edge `dir` of `c`; the center carries none.
pub open spec fn spec_port(c: Cell, dir: CellDir) -> Option<u8> {
    match dir {
        CellDir::TR => c.out1,
        CellDir::BR => c.out2,
        CellDir::B => c.out3,
        CellDir::BL => c.in3,
        CellDir::TL => c.in2,
        CellDir::T => c.in1,
        CellDir::C => None,
    }
}

/// `c` with edge `dir` carrying `p`; the center cannot carry a port.
pub open spec fn spec_with_port(c: Cell, dir: CellDir, p: Option<u8>) -> Cell {
    match dir {
        CellDir::TR => Cell { out1: p, ..c },
        CellDir::BR => Cell { out2: p, ..c },
        CellDir::B => Cell { out3: p, ..c },
        CellDir::BL => Cell { in3: p, ..c },
        CellDir::TL => Cell { in2: p, ..c },
        CellDir::T => Cell { in1: p, ..c },
        CellDir::C => c,
    }
}

/// A cell holding `node_id` at position (0, 0) with no ports assigned.
pub open spec fn spec_empty_cell(node_id: NodeId) -> Cell {
    Cell {
        node_id,
        x: 0,
        y: 0,
        out1: None,
        out2: None,
        out3: None,
        in1: None,
        in2: None,
        in3: None,
    }
}

impl Cell {
    pub fn empty(node_id: NodeId) -> (r: Self)
        ensures
            r == spec_empty_cell(node_id),
    {
        Self {
            node_id,
            x: 0,
            y: 0,
            out1: None,
            out2: None,
            out3: None,
            in1: None,
            in2: None,
            in3: None,
        }
    }

    pub fn is_empty(&self) -> (r: bool)
        ensures
            r == (self.node_id == NodeId::Nop),
    {
        self.node_id == NodeId::Nop
    }

    pub fn node_id(&self) -> (r: NodeId)
        ensures
            r == self.node_id,
    {
        self.node_id
    }

    pub fn set_node_id(&mut self, new_id: NodeId)
        ensures
            *final(self) == (Cell { node_id: new_id, ..*old(self) }),
    {
        self.node_id = new_id;
    }

    pub fn pos(&self) -> (r: (usize, usize))
        ensures
            r.0 == self.x,
            r.1 == self.y,
    {
        (self.x as usize, self.y as usize)
    }

    /// Removes the port from edge `dir`.
    pub fn clear_io_dir(&mut self, dir: CellDir)
        ensures
            *final(self) == spec_with_port(*old(self), dir, None),
    {
        match dir {
            CellDir::TR => { self.out1 = None; },
            CellDir::BR => { self.out2 = None; },
            CellDir::B => { self.out3 = None; },
            CellDir::BL => { self.in3 = None; },
            CellDir::TL => { self.in2 = None; },
            CellDir::T => { self.in1 = None; },
            CellDir::C => {},
        }
    }

    /// Assigns port `idx` (kept in eight bits) to edge `dir`.
    pub fn set_io_dir(&mut self, dir: CellDir, idx: usize)
        ensures
            *final(self) == spec_with_port(*old(self), dir, Some((idx % 256) as u8)),
    {
        let p: u8 = (idx % 256) as u8;
        match dir {
            CellDir::TR => { self.out1 = Some(p); },
            CellDir::BR => { self.out2 = Some(p); },
            CellDir::B => { self.out3 = Some(p); },
            CellDir::BL => { self.in3 = Some(p); },
            CellDir::TL => { self.in2 = Some(p); },
            CellDir::T => { self.in1 = Some(p); },
            CellDir::C => {},
        }
    }

    /// The cell with its three input edges set to `i1` (top), `i2`
    /// (top-left) and `i3` (bottom-left).
    pub fn input(self, i1: Option<u8>, i2: Option<u8>, i3: Option<u8>) -> (r: Self)
        ensures
            r == (Cell { in1: i1, in2: i2, in3: i3, ..self }),
    {
        let mut c = self;
        c.in1 = i1;
        c.in2 = i2;
        c.in3 = i3;
        c
    }

    /// The cell with its three output edges set to `o1` (top-right), `o2`
    /// (bottom-right) and `o3` (bottom).
    pub fn out(self, o1: Option<u8>, o2: Option<u8>, o3: Option<u8>) -> (r: Self)
        ensures
            r == (Cell { out1: o1, out2: o2, out3: o3, ..self }),
    {
        let mut c = self;
        c.out1 = o1;
        c.out2 = o2;
        c.out3 = o3;
        c
    }
}

/// Setting a port is read back from the same edge, leaves every other edge
/// as it was, and clearing it afterwards gives the same cell as clearing it
/// right away.
pub proof fn lemma_set_port_then_read(c: Cell, dir: CellDir, other: CellDir, p: Option<u8>)
    requires
        dir != CellDir::C,
        other != dir,
    ensures
        spec_port(spec_with_port(c, dir, p), dir) == p,
        spec_port(spec_with_port(c, dir, p), other) == spec_port(c, other),
        spec_with_port(spec_with_port(c, dir, p), dir, None) == spec_with_port(c, dir, None),
        spec_with_port(c, dir, p).node_id == c.node_id,
{
}

/// Where a node lives in the program: its index, whether a cell of the
/// matrix uses it, and its ranges in the output, input and atom vectors.
#[derive(Debug, Clone, Copy)]
pub struct NodeInstance {
    pub id: NodeId,
    pub in_use: bool,
    pub prog_idx: usize,
    pub out_start: usize,
    pub out_end: usize,
    pub in_start: usize,
    pub in_end: usize,
    pub at_start: usize,
    pub at_end: usize,
}

/// The global index of local port `idx` within the range `[start, end)`.
pub open spec fn spec_local2global(start: usize, end: usize, idx: u8) -> Option<usize> {
    if start + idx < end { Some((start + idx) as usize) } else { None }
}

/// The op that runs an instance, with no copies.
pub open spec fn spec_to_op(ni: NodeInstance) -> OpModel {
    OpModel {
        idx: (ni.prog_idx % 256) as u8,
        out_idxlen: (ni.out_start, ni.out_end),
        in_idxlen: (ni.in_start, ni.in_end),
        at_idxlen: (ni.at_start, ni.at_end),
        inputs: Seq::empty(),
    }
}

impl NodeInstance {
    /// An unused instance of `id` with index 0 and empty ranges.
    pub fn new(id: NodeId) -> (r: Self)
        ensures
            r == (NodeInstance {
                id,
                in_use: false,
                prog_idx: 0,
                out_start: 0,
                out_end: 0,
                in_start: 0,
                in_end: 0,
                at_start: 0,
                at_end: 0,
            }),
    {
        Self {
            id,
            in_use: false,
            prog_idx: 0,
            out_start: 0,
            out_end: 0,
            in_start: 0,
            in_end: 0,
            at_start: 0,
            at_end: 0,
        }
    }

    pub fn mark_used(&mut self)
        ensures
            *final(self) == (NodeInstance { in_use: true, ..*old(self) }),
    {
        self.in_use = true;
    }

    pub fn is_used(&self) -> (r: bool)
        ensures
            r == self.in_use,
    {
        self.in_use
    }

    /// The op that runs this node; the index is kept in eight bits.
    pub fn to_op(&self) -> (r: NodeOp)
        ensures
            r@ == spec_to_op(*self),
    {
        let r = NodeOp {
            idx: (self.prog_idx % 256) as u8,
            out_idxlen: (self.out_start, self.out_end),
            in_idxlen: (self.in_start, self.in_end),
            at_idxlen: (self.at_start, self.at_end),
            inputs: Vec::new(),
        };
        assert(r@ =~= spec_to_op(*self));
        r
    }

    /// The index in the input vector of the node's input `idx`, if the
    /// node has that input.
    pub fn in_local2global(&self, idx: u8) -> (r: Option<usize>)
        requires
            self.in_start + idx <= usize::MAX,
        ensures
            r == spec_local2global(self.in_start, self.in_end, idx),
    {
        let idx = self.in_start + idx as usize;
        if idx < self.in_end {
            Some(idx)
        } else {
            None
        }
    }

    /// The index in the output vector of the node's output `idx`, if the
    /// node has that output.
    pub fn out_local2global(&self, idx: u8) -> (r: Option<usize>)
        requires
            self.out_start + idx <= usize::MAX,
        ensures
            r == spec_local2global(self.out_start, self.out_end, idx),
    {
        let idx = self.out_start + idx as usize;
        if idx < self.out_end {
            Some(idx)
        } else {
            None
        }
    }

    pub fn set_index(self, idx: usize) -> (r: Self)
        ensures
            r == (NodeInstance { prog_idx: idx, ..self }),
    {
        let mut s = self;
        s.prog_idx = idx;
        s
    }

    pub fn set_output(self, s: usize, e: usize) -> (r: Self)
        ensures
            r == (NodeInstance { out_start: s, out_end: e, ..self }),
    {
        let mut n = self;
        n.out_start = s;
        n.out_end = e;
        n
    }

    pub fn set_input(self, s: usize, e: usize) -> (r: Self)
        ensures
            r == (NodeInstance { in_start: s, in_end: e, ..self }),
    {
        let mut n = self;
        n.in_start = s;
        n.in_end = e;
        n
    }

    pub fn set_atom(self, s: usize, e: usize) -> (r: Self)
        ensures
            r == (NodeInstance { at_start: s, at_end: e, ..self }),
    {
        let mut n = self;
        n.at_start = s;
        n.at_end = e;
        n
    }
}

/// A global port index lies in the node's range, at the local index's
/// distance from its start.
pub proof fn lemma_local2global_in_range(start: usize, end: usize, idx: u8)
    ensures
        spec_local2global(start, end, idx) matches Some(g) ==> start <= g < end && g == start + idx,
        spec_local2global(start, end, idx) is None ==> start + idx >= end,
{
}

} // verus!

verus! {

/// Start of the `i`-th node's range in the output vector: the outputs of
/// all nodes before it, laid out one after the other.
pub open spec fn out_offset(ns: Seq<NodeId>, i: int) -> nat
    decreases i,
{
    if i <= 0 { 0 } else { out_offset(ns, i - 1) + spec_node_info(ns[i - 1]).outs as nat }
}

/// Start of the `i`-th node's range in the input vector.
pub open spec fn in_offset(ns: Seq<NodeId>, i: int) -> nat
    decreases i,
{
    if i <= 0 { 0 } else { in_offset(ns, i - 1) + spec_node_info(ns[i - 1]).ins as nat }
}

/// Start of the `i`-th node's range in the atom vector.
pub open spec fn at_offset(ns: Seq<NodeId>, i: int) -> nat
    decreases i,
{
    if i <= 0 { 0 } else { at_offset(ns, i - 1) + spec_node_info(ns[i - 1]).atoms as nat }
}

/// Instance `i` of `insts` is node `i` of `ns`, with index `i` and its
/// ranges laid out in node order.
pub open spec fn placed_at(ns: Seq<NodeId>, insts: Seq<NodeInstance>, i: int) -> bool {
    let ni = insts[i];
    &&& ni.id == ns[i]
    &&& ni.prog_idx == i
    &&& ni.out_start == out_offset(ns, i)
    &&& ni.out_end == out_offset(ns, i + 1)
    &&& ni.in_start == in_offset(ns, i)
    &&& ni.in_end == in_offset(ns, i + 1)
    &&& ni.at_start == at_offset(ns, i)
    &&& ni.at_end == at_offset(ns, i + 1)
}

/// One instance per node, in node order, laid out contiguously.
pub open spec fn laid_out(ns: Seq<NodeId>, insts: Seq<NodeInstance>) -> bool {
    &&& insts.len() == ns.len()
    &&& forall|i: int| 0 <= i < ns.len() ==> #[trigger] placed_at(ns, insts, i)
}

/// The position across edge `dir` of (x, y) in a `w` x `h` grid, if it
/// lies in the grid. The coordinates are taken as 32-bit signed integers.
pub open spec fn grid_pos(w: nat, h: nat, x: usize, y: usize, dir: CellDir) -> Option<(int, int)> {
    let o = spec_offs(dir, x as int);
    let nx = (x as i32) + o.0;
    let ny = (y as i32) + o.1;
    if nx < 0 || ny < 0 || nx >= w || ny >= h {
        None
    } else {
        Some((nx, ny))
    }
}

/// The cell across edge `dir` of (x, y), for cells stored column by column.
pub open spec fn grid_adjacent(cells: Seq<Cell>, w: nat, h: nat, x: usize, y: usize, dir: CellDir) -> Option<Cell> {
    match grid_pos(w, h, x, y, dir) {
        Some(p) => Some(cells[p.0 * h + p.1]),
        None => None,
    }
}

/// For an input edge `dir` of (x, y): the node of the neighbouring cell and
/// its output port on the edge that touches `dir`.
pub open spec fn grid_out_port(cells: Seq<Cell>, w: nat, h: nat, x: usize, y: usize, dir: CellDir) -> Option<(NodeId, u8)> {
    if spec_is_output(dir) {
        None
    } else {
        match grid_adjacent(cells, w, h, x, y, dir) {
            Some(c) => if c.node_id == NodeId::Nop {
                None
            } else {
                match spec_port(c, crate::cell_dir::spec_opposite(dir)) {
                    Some(o) => Some((c.node_id, o)),
                    None => None,
                }
            },
            None => None,
        }
    }
}

/// The `k`-th id tried when looking for a free instance of `id`'s type:
/// the instance numbers count up from `id`'s and wrap around after 255.
pub open spec fn candidate(id: NodeId, k: int) -> NodeId {
    spec_to_instance(id, spec_instance(id) as int + k)
}

/// The matrix of hexagonal cells, stored column by column, together with
/// the node list it is turned into a program for.
pub struct Matrix<V> {
    config: NodeConfigurator<V>,
    matrix: Vec<Cell>,
    w: usize,
    h: usize,
    /// A counter that increases for each sync(), it can be used
    /// by other components of the application to detect changes in
    /// the matrix to resync their own data.
    gen_counter: usize,
    /// Where each node lives in the program, as of the last sync().
    instances: Vec<NodeInstance>,
    /// The nodes whose port information a sync() has recorded.
    infos: Vec<NodeId>,
    /// Contains automateable parameters after the matrix was sync()'ed
    params: Vec<ParamEntry<V>>,
    /// Stores an old set of the values of automateable paramters.
    params_old: Vec<ParamEntry<V>>,
    /// Contains non automateable atom data for the nodes after the matrix was
    /// sync()'ed.
    atoms: Vec<ParamEntry<V>>,
    /// Stores an old set of atom data.
    atoms_old: Vec<ParamEntry<V>>,
}

impl<V: Copy> Matrix<V> {
    pub closed spec fn width(&self) -> nat {
        self.w as nat
    }

    pub closed spec fn height(&self) -> nat {
        self.h as nat
    }

    /// The cells, column by column: cell (x, y) is at `x * height + y`.
    pub closed spec fn cells(&self) -> Seq<Cell> {
        self.matrix@
    }

    pub closed spec fn conf(&self) -> NodeConfigurator<V> {
        self.config
    }

    pub closed spec fn instances(&self) -> Seq<NodeInstance> {
        self.instances@
    }

    /// The nodes whose port information a sync() has recorded.
    pub closed spec fn known(&self) -> Seq<NodeId> {
        self.infos@
    }

    /// The parameter table: one entry per input of each node, in node
    /// order, as of the last sync().
    pub closed spec fn params(&self) -> Seq<ParamEntry<V>> {
        self.params@
    }

    /// The parameter table before the last sync().
    pub closed spec fn params_old(&self) -> Seq<ParamEntry<V>> {
        self.params_old@
    }

    /// The atom table: one entry per atom of each node, in node order, as of
    /// the last sync().
    pub closed spec fn atoms(&self) -> Seq<ParamEntry<V>> {
        self.atoms@
    }

    /// The atom table before the last sync().
    pub closed spec fn atoms_old(&self) -> Seq<ParamEntry<V>> {
        self.atoms_old@
    }

    pub closed spec fn generation(&self) -> nat {
        self.gen_counter as nat
    }

    pub open spec fn nodes(&self) -> Seq<NodeId> {
        self.conf().node_ids()
    }

    pub open spec fn cell_at(&self, x: int, y: int) -> Cell {
        self.cells()[x * self.height() + y]
    }

    pub open spec fn wf(&self) -> bool {
        &&& self.conf().wf()
        &&& self.cells().len() == self.width() * self.height()
        &&& self.width() * self.height() <= usize::MAX
        &&& (self.instances().len() == 0 || laid_out(self.nodes(), self.instances()))
        &&& forall|i: int| 0 <= i < self.known().len() ==> self.nodes().contains(#[trigger] self.known()[i])
        &&& self.known().no_duplicates()
        &&& table_ok(param_ids(self.nodes(), false), self.params())
        &&& table_ok(param_ids(self.nodes(), true), self.atoms())
    }

    /// Whether some instance belongs to `id`.
    pub open spec fn has_instance(&self, id: NodeId) -> bool {
        exists|i: int| 0 <= i < self.instances().len() && self.instances()[i].id == id
    }

    /// The instance of `id`.
    pub open spec fn instance_of(&self, id: NodeId) -> NodeInstance {
        self.instances()[choose|i: int| 0 <= i < self.instances().len() && self.instances()[i].id == id]
    }

    /// The position across edge `dir` of (x, y), if it lies in the matrix.
    pub open spec fn adjacent_pos(&self, x: usize, y: usize, dir: CellDir) -> Option<(int, int)> {
        grid_pos(self.width(), self.height(), x, y, dir)
    }

    /// The step across `dir` from (x, y) stays within 32-bit signed integers.
    pub open spec fn adjacent_fits(x: usize, y: usize, dir: CellDir) -> bool {
        let o = spec_offs(dir, x as int);
        &&& i32::MIN <= (x as i32) + o.0 <= i32::MAX
        &&& i32::MIN <= (y as i32) + o.1 <= i32::MAX
    }

    /// The cell across edge `dir` of (x, y).
    pub open spec fn adjacent_cell(&self, x: usize, y: usize, dir: CellDir) -> Option<Cell> {
        grid_adjacent(self.cells(), self.width(), self.height(), x, y, dir)
    }

    /// For an input edge: the node of the neighbouring cell and its output
    /// port on the edge that touches `dir`.
    pub open spec fn adjacent_out_port(&self, x: usize, y: usize, dir: CellDir) -> Option<(NodeId, u8)> {
        grid_out_port(self.cells(), self.width(), self.height(), x, y, dir)
    }

    /// The index in the output vector of the output that feeds edge `dir`
    /// of (x, y).
    pub open spec fn spec_adjacent_out_vec_index(&self, x: usize, y: usize, dir: CellDir) -> Option<usize> {
        match self.adjacent_out_port(x, y, dir) {
            Some((id, o)) => {
                let ni = self.instance_of(id);
                spec_local2global(ni.out_start, ni.out_end, o)
            },
            None => None,
        }
    }

    /// The neighbour's node across an input edge has an instance whose
    /// output range can be indexed.
    pub open spec fn adjacent_out_ready(&self, x: usize, y: usize, dir: CellDir) -> bool {
        spec_is_output(dir) || {
            &&& Self::adjacent_fits(x, y, dir)
            &&& match self.adjacent_out_port(x, y, dir) {
                Some((id, o)) => self.has_instance(id) && self.instance_of(id).out_start + o <= usize::MAX,
                None => true,
            }
        }
    }
}

proof fn lemma_index_in_grid(x: int, y: int, w: int, h: int)
    requires
        0 <= x < w,
        0 <= y < h,
    ensures
        0 <= x * h + y < w * h,
        x * h + y + 1 <= w * h,
{
    assert(x * h + y < w * h) by (nonlinear_arith)
        requires 0 <= x < w, 0 <= y < h;
}

/// Position of the first instance of `id`.
fn find_instance(insts: &Vec<NodeInstance>, id: NodeId) -> (r: Option<usize>)
    ensures
        match r {
            Some(i) => i < insts@.len() && insts@[i as int].id == id,
            None => forall|j: int| 0 <= j < insts@.len() ==> insts@[j].id != id,
        },
{
    let n = insts.len();
    let mut i: usize = 0;
    while i < n
        invariant
            n == insts@.len(),
            i <= n,
            forall|j: int| 0 <= j < i ==> insts@[j].id != id,
        decreases n - i,
    {
        if insts[i].id == id {
            return Some(i);
        }
        i += 1;
    }
    None
}

impl<V: Copy> Matrix<V> {
    /// An instance found for `id` is the instance of `id`.
    proof fn lemma_found_instance(&self, id: NodeId, i: int)
        requires
            self.wf(),
            0 <= i < self.instances().len(),
            self.instances()[i].id == id,
        ensures
            self.has_instance(id),
            self.instance_of(id) == self.instances()[i],
    {
        let k = choose|k: int| 0 <= k < self.instances().len() && self.instances()[k].id == id;
        assert(placed_at(self.nodes(), self.instances(), i));
        assert(placed_at(self.nodes(), self.instances(), k));
        assert(self.nodes().no_duplicates());
    }

    /// A `w` x `h` matrix of empty cells for the nodes of `config`.
    pub fn new(config: NodeConfigurator<V>, w: usize, h: usize) -> (r: Self)
        requires
            config.wf(),
            w * h <= usize::MAX,
        ensures
            r.wf(),
            r.width() == w,
            r.height() == h,
            r.cells() == Seq::new((w * h) as nat, |i: int| spec_empty_cell(NodeId::Nop)),
            r.conf() == config,
            r.instances().len() == 0,
            r.known().len() == 0,
            r.generation() == 0,
            r.params().len() == 0,
            r.atoms().len() == 0,
            r.params_old().len() == 0,
            r.atoms_old().len() == 0,
    {
        let n = w * h;
        let mut matrix: Vec<Cell> = Vec::new();
        while matrix.len() < n
            invariant
                matrix.len() <= n,
                forall|i: int| 0 <= i < matrix.len() ==> matrix@[i] == spec_empty_cell(NodeId::Nop),
            decreases n - matrix.len(),
        {
            matrix.push(Cell::empty(NodeId::Nop));
        }
        let r = Self {
            instances: Vec::new(),
            infos: Vec::new(),
            params: Vec::new(),
            params_old: Vec::new(),
            atoms: Vec::new(),
            atoms_old: Vec::new(),
            gen_counter: 0,
            config,
            w,
            h,
            matrix,
        };
        assert(r.cells() =~= Seq::new((w * h) as nat, |i: int| spec_empty_cell(NodeId::Nop)));
        r
    }

    pub fn size(&self) -> (r: (usize, usize))
        ensures
            r.0 == self.width(),
            r.1 == self.height(),
    {
        (self.w, self.h)
    }

    pub fn into_conf(self) -> (r: NodeConfigurator<V>)
        ensures
            r == self.conf(),
    {
        self.config
    }

    /// The unique index of a node: its position in the node list.
    pub fn unique_index_for(&self, node_id: &NodeId) -> (r: Option<usize>)
        requires
            self.wf(),
        ensures
            match r {
                Some(i) => i < self.nodes().len() && self.nodes()[i as int] == *node_id,
                None => !self.nodes().contains(*node_id),
            },
    {
        self.config.unique_index_for(*node_id)
    }

    /// The port counts of a node that the matrix has seen in a sync().
    pub fn info_for(&self, node_id: &NodeId) -> (r: Option<NodeInfo>)
        ensures
            r == if self.known().contains(*node_id) { Some(spec_node_info(*node_id)) } else { None },
    {
        match find_node(&self.infos, *node_id) {
            Some(_) => Some(NodeInfo::from_node_id(*node_id)),
            None => None,
        }
    }

    /// Puts `cell` at (x, y), recording that position in it. `x` and `y` are
    /// kept in eight bits in the cell.
    pub fn place(&mut self, x: usize, y: usize, cell: Cell)
        requires
            old(self).wf(),
            x * old(self).height() + y < old(self).cells().len(),
        ensures
            final(self).wf(),
            final(self).cells() == old(self).cells().update(
                x * old(self).height() + y,
                Cell { x: (x % 256) as u8, y: (y % 256) as u8, ..cell },
            ),
            final(self).width() == old(self).width(),
            final(self).height() == old(self).height(),
            final(self).conf() == old(self).conf(),
            final(self).instances() == old(self).instances(),
            final(self).known() == old(self).known(),
            final(self).params() == old(self).params(),
            final(self).atoms() == old(self).atoms(),
            final(self).params_old() == old(self).params_old(),
            final(self).atoms_old() == old(self).atoms_old(),
            final(self).generation() == old(self).generation(),
    {
        let mut cell = cell;
        cell.x = (x % 256) as u8;
        cell.y = (y % 256) as u8;
        let idx = x * self.h + y;
        self.matrix.set(idx, cell);
        assert(self.known() == old(self).known());
        assert(self.nodes() == old(self).nodes());
    }

    pub fn get_generation(&self) -> (r: usize)
        ensures
            r == self.generation(),
    {
        self.gen_counter
    }

    /// The cell at (x, y), if that lies in the matrix.
    pub fn get(&self, x: usize, y: usize) -> (r: Option<&Cell>)
        requires
            self.wf(),
        ensures
            r == if x < self.width() && y < self.height() {
                Some(&self.cell_at(x as int, y as int))
            } else {
                None
            },
    {
        if x >= self.w || y >= self.h {
            return None;
        }
        proof {
            lemma_index_in_grid(x as int, y as int, self.w as int, self.h as int);
        }
        Some(&self.matrix[x * self.h + y])
    }

    /// A copy of the cell at (x, y), with its recorded position set to
    /// (x, y), if that lies in the matrix.
    pub fn get_copy(&self, x: usize, y: usize) -> (r: Option<Cell>)
        requires
            self.wf(),
        ensures
            r == if x < self.width() && y < self.height() {
                Some(Cell { x: x as u8, y: y as u8, ..self.cell_at(x as int, y as int) })
            } else {
                None
            },
    {
        if x >= self.w || y >= self.h {
            return None;
        }
        proof {
            lemma_index_in_grid(x as int, y as int, self.w as int, self.h as int);
        }
        let mut cell = self.matrix[x * self.h + y];
        cell.x = (x % 256) as u8;
        cell.y = (y % 256) as u8;
        proof {
            assert((x % 256) as u8 == x as u8) by (bit_vector);
            assert((y % 256) as u8 == y as u8) by (bit_vector);
        }
        Some(cell)
    }

    /// The cell across edge `dir` of (x, y), if it lies in the matrix.
    pub fn get_adjacent(&self, x: usize, y: usize, dir: CellDir) -> (r: Option<&Cell>)
        requires
            self.wf(),
            Self::adjacent_fits(x, y, dir),
        ensures
            r == match self.adjacent_cell(x, y, dir) {
                Some(c) => Some(&c),
                None => None,
            },
    {
        let offs: (i32, i32) = dir.to_offs(x);
        #[verifier::truncate]
        let xi: i32 = x as i32;
        #[verifier::truncate]
        let yi: i32 = y as i32;
        let x = xi + offs.0;
        let y = yi + offs.1;

        if x < 0 || y < 0 || (x as usize) >= self.w || (y as usize) >= self.h {
            return None;
        }
        proof {
            lemma_index_in_grid(x as int, y as int, self.w as int, self.h as int);
        }
        Some(&self.matrix[(x as usize) * self.h + (y as usize)])
    }

    /// Whether the cell across output edge `edge` of (x, y) takes an input
    /// on the edge that touches it.
    pub fn adjacent_edge_has_input(&self, x: usize, y: usize, edge: CellDir) -> (r: bool)
        requires
            self.wf(),
            Self::adjacent_fits(x, y, edge),
        ensures
            r == match self.adjacent_cell(x, y, edge) {
                Some(c) => spec_is_output(edge) && spec_port(c, crate::cell_dir::spec_opposite(edge)) is Some,
                None => false,
            },
    {
        if let Some(cell) = self.get_adjacent(x, y, edge) {
            match edge {
                CellDir::TR => cell.in3.is_some(),
                CellDir::BR => cell.in2.is_some(),
                CellDir::B => cell.in1.is_some(),
                _ => false,
            }
        } else {
            false
        }
    }

    /// For an input edge of (x, y): the index in the output vector of the
    /// output of the neighbouring node that faces it.
    pub fn get_adjacent_out_vec_index(&self, x: usize, y: usize, dir: CellDir) -> (r: Option<usize>)
        requires
            self.wf(),
            self.adjacent_out_ready(x, y, dir),
        ensures
            r == self.spec_adjacent_out_vec_index(x, y, dir),
    {
        if dir.is_output() {
            return None;
        }

        if let Some(cell) = self.get_adjacent(x, y, dir) {
            if cell.node_id != NodeId::Nop {
                let port = match dir {
                    CellDir::T => cell.out3,
                    CellDir::TL => cell.out2,
                    CellDir::BL => cell.out1,
                    _ => None,
                };
                if let Some(cell_out_i) = port {
                    match find_instance(&self.instances, cell.node_id) {
                        Some(i) => {
                            proof {
                                self.lemma_found_instance(cell.node_id, i as int);
                            }
                            self.instances[i].out_local2global(cell_out_i)
                        },
                        None => {
                            proof {
                                assert(!self.has_instance(cell.node_id));
                            }
                            None
                        },
                    }
                } else {
                    None
                }
            } else {
                None
            }
        } else {
            None
        }
    }
}

impl<V: Copy> Matrix<V> {
    /// `id` has no instance, or its instance is not used by any cell.
    pub open spec fn is_free(&self, id: NodeId) -> bool {
        !self.has_instance(id) || !self.instance_of(id).in_use
    }

    /// Some instance number of `id`'s type is free.
    pub open spec fn has_free_instance(&self, id: NodeId) -> bool {
        exists|k: int| 0 <= k < 256 && self.is_free(#[trigger] candidate(id, k))
    }

    /// The first free id of `id`'s type, counting up from `id`'s instance
    /// number: one whose instance is not used by any cell, or one that has
    /// no instance yet. (When every instance number of the type is taken
    /// and used, there is none.)
    pub fn get_unused_instance_node_id(&self, id: NodeId) -> (r: NodeId)
        requires
            self.wf(),
            self.has_free_instance(id),
        ensures
            exists|k: int| {
                &&& 0 <= k < 256
                &&& r == #[trigger] candidate(id, k)
                &&& self.is_free(r)
                &&& forall|j: int| 0 <= j < k ==> !self.is_free(#[trigger] candidate(id, j))
            },
    {
        let mut cur = id.to_instance(id.instance());
        let ghost mut k: int = 0;
        loop
            invariant
                self.wf(),
                self.has_free_instance(id),
                0 <= k < 256,
                cur == candidate(id, k),
                forall|j: int| 0 <= j < k ==> !self.is_free(#[trigger] candidate(id, j)),
            decreases 256 - k,
        {
            match find_instance(&self.instances, cur) {
                None => {
                    assert(!self.has_instance(cur));
                    assert(self.is_free(candidate(id, k)));
                    return cur;
                },
                Some(i) => {
                    proof {
                        self.lemma_found_instance(cur, i as int);
                    }
                    if !self.instances[i].is_used() {
                        assert(self.is_free(candidate(id, k)));
                        return self.instances[i].id;
                    }
                },
            }
            proof {
                assert(!self.is_free(candidate(id, k)));
                let w = choose|w: int| 0 <= w < 256 && self.is_free(#[trigger] candidate(id, w));
                if w <= k {
                    assert(!self.is_free(candidate(id, w)));
                }
                assert(k + 1 < 256);
            }
            let next = cur.instance() + 1;
            cur = cur.to_instance(next);
            proof {
                lemma_candidate_step(id, k);
                k = k + 1;
            }
        }
    }
}

/// Counting one instance number up from the `k`-th candidate gives the
/// next candidate.
proof fn lemma_candidate_step(id: NodeId, k: int)
    requires
        0 <= k,
    ensures
        spec_to_instance(candidate(id, k), spec_instance(candidate(id, k)) as int + 1)
            == candidate(id, k + 1),
{
    let a = spec_instance(id) + k;
    assert(((a % 256) + 1) % 256 == (a + 1) % 256) by {
        vstd::arithmetic::div_mod::lemma_add_mod_noop(a, 1, 256);
        vstd::arithmetic::div_mod::lemma_small_mod(1, 256);
        vstd::arithmetic::div_mod::lemma_mod_twice(a, 256);
    }
}

/// `ns` with the lower-numbered instances `0 .. n` of `id`'s type added at
/// the end, in increasing order, where they are missing.
pub open spec fn with_fillers(ns: Seq<NodeId>, id: NodeId, n: nat) -> Seq<NodeId>
    decreases n,
{
    if n == 0 {
        ns
    } else {
        let p = with_fillers(ns, id, (n - 1) as nat);
        let f = spec_to_instance(id, n - 1);
        if p.contains(f) { p } else { p.push(f) }
    }
}

/// The node list after meeting cell `c`: a node that the list lacks is
/// created, after the instances of its type with lower numbers that the
/// list lacks.
pub open spec fn add_cell_node(ns: Seq<NodeId>, c: Cell) -> Seq<NodeId> {
    if c.node_id == NodeId::Nop || ns.contains(c.node_id) {
        ns
    } else {
        with_fillers(ns, c.node_id, spec_instance(c.node_id)).push(c.node_id)
    }
}

/// The node list after meeting the first `k` cells, column by column.
pub open spec fn nodes_after(ns: Seq<NodeId>, cells: Seq<Cell>, k: nat) -> Seq<NodeId>
    decreases k,
{
    if k == 0 {
        ns
    } else {
        add_cell_node(nodes_after(ns, cells, (k - 1) as nat), cells[k - 1])
    }
}

/// A list of distinct real nodes.
pub open spec fn distinct_nodes(ns: Seq<NodeId>) -> bool {
    ns.no_duplicates() && !ns.contains(NodeId::Nop)
}

/// Appending a real node that the list lacks keeps the list distinct, and
/// the list then holds exactly its old nodes and the new one.
proof fn lemma_push_distinct(p: Seq<NodeId>, f: NodeId)
    requires
        distinct_nodes(p),
        f != NodeId::Nop,
        !p.contains(f),
    ensures
        distinct_nodes(p.push(f)),
        forall|a: NodeId| p.push(f).contains(a) <==> (p.contains(a) || a == f),
        forall|k: int| 0 <= k <= p.len() ==> #[trigger] p.push(f).subrange(0, k) == p.subrange(0, k),
{
    let q = p.push(f);
    assert forall|a: NodeId| q.contains(a) <==> (p.contains(a) || a == f) by {
        if q.contains(a) {
            let j = choose|j: int| 0 <= j < q.len() && q[j] == a;
            if j < p.len() {
                assert(p[j] == a);
            }
        }
        if p.contains(a) {
            let j = choose|j: int| 0 <= j < p.len() && p[j] == a;
            assert(q[j] == a);
        }
        if a == f {
            assert(q[p.len() as int] == f);
        }
    }
    assert forall|i: int, j: int| 0 <= i < q.len() && 0 <= j < q.len() && i != j implies q[i] != q[j] by {
        if i == p.len() as int && j < p.len() {
            assert(p[j] == q[j]);
        } else if j == p.len() as int && i < p.len() {
            assert(p[i] == q[i]);
        }
    }
    assert forall|k: int| 0 <= k <= p.len() implies #[trigger] q.subrange(0, k) == p.subrange(0, k) by {
        assert(q.subrange(0, k) =~= p.subrange(0, k));
    }
}

proof fn lemma_with_fillers(ns: Seq<NodeId>, id: NodeId, n: nat)
    requires
        distinct_nodes(ns),
        id != NodeId::Nop,
        n <= 256,
    ensures
        distinct_nodes(with_fillers(ns, id, n)),
        with_fillers(ns, id, n).len() <= ns.len() + n,
        ns.len() <= with_fillers(ns, id, n).len(),
        with_fillers(ns, id, n).subrange(0, ns.len() as int) == ns,
        n <= spec_instance(id) && !ns.contains(id) ==> !with_fillers(ns, id, n).contains(id),
    decreases n,
{
    if n > 0 {
        let p = with_fillers(ns, id, (n - 1) as nat);
        lemma_with_fillers(ns, id, (n - 1) as nat);
        let f = spec_to_instance(id, n - 1);
        crate::dsp::lemma_to_instance(id, n - 1);
        if !p.contains(f) {
            lemma_push_distinct(p, f);
            assert(p.push(f).subrange(0, ns.len() as int) == p.subrange(0, ns.len() as int));
            if n <= spec_instance(id) && !ns.contains(id) {
                assert(f != id);
            }
        }
    } else {
        assert(ns.subrange(0, ns.len() as int) =~= ns);
    }
}

proof fn lemma_add_cell_node(ns: Seq<NodeId>, c: Cell)
    requires
        distinct_nodes(ns),
    ensures
        distinct_nodes(add_cell_node(ns, c)),
        add_cell_node(ns, c).len() <= ns.len() + 256,
        ns.len() <= add_cell_node(ns, c).len(),
        add_cell_node(ns, c).subrange(0, ns.len() as int) == ns,
        c.node_id != NodeId::Nop ==> add_cell_node(ns, c).contains(c.node_id),
{
    if !(c.node_id == NodeId::Nop || ns.contains(c.node_id)) {
        let id = c.node_id;
        let p = with_fillers(ns, id, spec_instance(id));
        lemma_with_fillers(ns, id, spec_instance(id));
        lemma_push_distinct(p, id);
        assert(p.push(id).subrange(0, ns.len() as int) == p.subrange(0, ns.len() as int));
    } else {
        assert(ns.subrange(0, ns.len() as int) =~= ns);
    }
}

/// Whether `a` is an extension of `b` (keeps it as a prefix).
pub open spec fn extends(a: Seq<NodeId>, b: Seq<NodeId>) -> bool {
    b.len() <= a.len() && a.subrange(0, b.len() as int) == b
}

proof fn lemma_extends_contains(a: Seq<NodeId>, b: Seq<NodeId>, id: NodeId)
    requires
        extends(a, b),
        b.contains(id),
    ensures
        a.contains(id),
{
    let j = choose|j: int| 0 <= j < b.len() && b[j] == id;
    assert(a.subrange(0, b.len() as int)[j] == a[j]);
}

proof fn lemma_nodes_after(ns: Seq<NodeId>, cells: Seq<Cell>, k: nat)
    requires
        distinct_nodes(ns),
        k <= cells.len(),
    ensures
        distinct_nodes(nodes_after(ns, cells, k)),
        nodes_after(ns, cells, k).len() <= ns.len() + 256 * k,
        extends(nodes_after(ns, cells, k), ns),
        forall|j: int| 0 <= j < k && (#[trigger] cells[j]).node_id != NodeId::Nop
            ==> nodes_after(ns, cells, k).contains(cells[j].node_id),
    decreases k,
{
    if k > 0 {
        let p = nodes_after(ns, cells, (k - 1) as nat);
        lemma_nodes_after(ns, cells, (k - 1) as nat);
        lemma_add_cell_node(p, cells[k - 1]);
        let q = add_cell_node(p, cells[k - 1]);
        assert(q.subrange(0, ns.len() as int) =~= q.subrange(0, p.len() as int).subrange(0, ns.len() as int));
        assert forall|j: int| 0 <= j < k && (#[trigger] cells[j]).node_id != NodeId::Nop implies q.contains(cells[j].node_id) by {
            if j < k - 1 {
                lemma_extends_contains(q, p, cells[j].node_id);
            }
        }
    } else {
        assert(ns.subrange(0, ns.len() as int) =~= ns);
    }
}

impl<V: Copy> Matrix<V> {
    /// Creates the nodes of the cells that the node list lacks (with the
    /// lower-numbered instances of their types), and records every node as
    /// known. The instance table is emptied, to be laid out anew.
    fn create_missing_nodes(&mut self)
        requires
            old(self).wf(),
        ensures
            final(self).wf(),
            final(self).nodes() == nodes_after(old(self).nodes(), old(self).cells(), old(self).cells().len()),
            final(self).known() == final(self).nodes(),
            final(self).instances().len() == 0,
            final(self).cells() == old(self).cells(),
            final(self).width() == old(self).width(),
            final(self).height() == old(self).height(),
            final(self).generation() == old(self).generation(),
            final(self).conf().uploaded() == old(self).conf().uploaded(),
            final(self).params().len() == 0,
            final(self).atoms().len() == 0,
            final(self).params_old() == old(self).params(),
            final(self).atoms_old() == old(self).atoms(),
    {
        self.instances = Vec::new();
        // Keep the old tables as reference for the values.
        std::mem::swap(&mut self.params_old, &mut self.params);
        self.params = Vec::new();
        std::mem::swap(&mut self.atoms_old, &mut self.atoms);
        self.atoms = Vec::new();

        let mut infos: Vec<NodeId> = Vec::new();
        let nodes = self.config.get_nodes();
        let n0 = nodes.len();
        let mut i: usize = 0;
        while i < n0
            invariant
                n0 == nodes@.len(),
                i <= n0,
                infos@ == nodes@.subrange(0, i as int),
            decreases n0 - i,
        {
            infos.push(nodes[i]);
            i += 1;
            assert(infos@ =~= nodes@.subrange(0, i as int));
        }
        assert(infos@ =~= nodes@);
        self.infos = infos;

        let ghost start = self.nodes();
        let ghost cells = self.cells();
        proof {
            lemma_nodes_after(start, cells, 0);
        }
        let n = self.matrix.len();
        let mut k: usize = 0;
        while k < n
            invariant
                n == cells.len(),
                k <= n,
                start == old(self).nodes(),
                cells == old(self).cells(),
                self.cells() == cells,
                self.width() == old(self).width(),
                self.height() == old(self).height(),
                self.generation() == old(self).generation(),
                self.conf().uploaded() == old(self).conf().uploaded(),
                self.instances().len() == 0,
                self.cells().len() == self.width() * self.height(),
                self.width() * self.height() <= usize::MAX,
                distinct_nodes(start),
                self.conf().wf(),
                self.nodes() == nodes_after(start, cells, k as nat),
                self.known() == self.nodes(),
                self.params().len() == 0,
                self.atoms().len() == 0,
                self.params_old() == old(self).params(),
                self.atoms_old() == old(self).atoms(),
            decreases n - k,
        {
            let id = self.matrix[k].node_id;
            proof {
                lemma_nodes_after(start, cells, k as nat);
            }
            if id != NodeId::Nop {
                if self.config.unique_index_for(id).is_none() {
                    let ghost before = self.nodes();
                    let inst = id.instance();
                    let mut j: usize = 0;
                    while j < inst
                        invariant
                            inst == spec_instance(id),
                            id != NodeId::Nop,
                            j <= inst,
                            distinct_nodes(before),
                            self.conf().wf(),
                            self.conf().uploaded() == old(self).conf().uploaded(),
                            self.nodes() == with_fillers(before, id, j as nat),
                            self.known() == self.nodes(),
                            self.params().len() == 0,
                            self.atoms().len() == 0,
                            self.params_old() == old(self).params(),
                            self.atoms_old() == old(self).atoms(),
                            self.cells() == cells,
                            self.width() == old(self).width(),
                            self.height() == old(self).height(),
                            self.generation() == old(self).generation(),
                            self.instances().len() == 0,
                        decreases inst - j,
                    {
                        let f = id.to_instance(j);
                        if self.config.unique_index_for(f).is_none() {
                            let _ = self.config.create_node(f);
                            self.infos.push(f);
                        }
                        j += 1;
                    }
                    proof {
                        lemma_with_fillers(before, id, spec_instance(id));
                    }
                    let _ = self.config.create_node(id);
                    self.infos.push(id);
                }
            }
            k += 1;
        }
        proof {
            lemma_nodes_after(start, cells, n as nat);
            assert forall|i: int| 0 <= i < self.known().len() implies self.nodes().contains(#[trigger] self.known()[i]) by {
                assert(self.nodes()[i] == self.known()[i]);
            }
        }
    }
}

/// No node type has more than two ports of a kind, so the ranges of `i`
/// nodes fit in `2 * i` slots.
proof fn lemma_offsets_bounded(ns: Seq<NodeId>, i: int)
    requires
        0 <= i <= ns.len(),
    ensures
        out_offset(ns, i) <= 2 * i,
        in_offset(ns, i) <= 2 * i,
        at_offset(ns, i) <= i,
    decreases i,
{
    if i > 0 {
        lemma_offsets_bounded(ns, i - 1);
    }
}

impl<V: Copy> Matrix<V> {
    /// Lays out one instance per node, in node order, with contiguous
    /// ranges; no instance is marked as used. Returns the lengths of the
    /// output, input and atom vectors.
    #[verifier::spinoff_prover]
    fn layout_instances(&mut self) -> (r: (usize, usize, usize))
        requires
            old(self).wf(),
            old(self).nodes().len() <= usize::MAX / 4,
        ensures
            final(self).wf(),
            laid_out(final(self).nodes(), final(self).instances()),
            forall|i: int| 0 <= i < final(self).instances().len() ==> !(#[trigger] final(self).instances()[i]).in_use,
            r.0 == out_offset(final(self).nodes(), final(self).nodes().len() as int),
            r.1 == in_offset(final(self).nodes(), final(self).nodes().len() as int),
            r.2 == at_offset(final(self).nodes(), final(self).nodes().len() as int),
            final(self).nodes() == old(self).nodes(),
            final(self).known() == old(self).known(),
            final(self).params() == old(self).params(),
            final(self).atoms() == old(self).atoms(),
            final(self).params_old() == old(self).params_old(),
            final(self).atoms_old() == old(self).atoms_old(),
            final(self).cells() == old(self).cells(),
            final(self).width() == old(self).width(),
            final(self).height() == old(self).height(),
            final(self).generation() == old(self).generation(),
            final(self).conf() == old(self).conf(),
    {
        let nodes = self.config.get_nodes();
        let ghost ns = nodes@;
        let n = nodes.len();
        let mut insts: Vec<NodeInstance> = Vec::new();
        let mut out_len: usize = 0;
        let mut in_len: usize = 0;
        let mut at_len: usize = 0;
        let mut i: usize = 0;
        while i < n
            invariant
                n == ns.len(),
                ns == nodes@,
                n <= usize::MAX / 4,
                i <= n,
                insts@.len() == i,
                out_len == out_offset(ns, i as int),
                in_len == in_offset(ns, i as int),
                at_len == at_offset(ns, i as int),
                forall|j: int| 0 <= j < i ==> #[trigger] placed_at(ns, insts@, j),
                forall|j: int| 0 <= j < i ==> !(#[trigger] insts@[j]).in_use,
            decreases n - i,
        {
            proof {
                lemma_offsets_bounded(ns, i as int);
            }
            let id = nodes[i];
            let info = NodeInfo::from_node_id(id);

            let out_idx = out_len;
            out_len = out_len + info.out_count();

            let in_idx = in_len;
            in_len = in_len + info.in_count();

            let at_idx = at_len;
            at_len = at_len + info.at_count();

            let ni = NodeInstance::new(id)
                .set_index(i)
                .set_output(out_idx, out_len)
                .set_input(in_idx, in_len)
                .set_atom(at_idx, at_len);
            let ghost old_insts = insts@;
            insts.push(ni);
            proof {
                assert(insts@[i as int] == ni);
                assert(placed_at(ns, insts@, i as int));
                assert forall|j: int| 0 <= j < i + 1 implies !(#[trigger] insts@[j]).in_use by {
                    if j < i {
                        assert(insts@[j] == old_insts[j]);
                    }
                }
                assert forall|j: int| 0 <= j < i + 1 implies #[trigger] placed_at(ns, insts@, j) by {
                    if j < i {
                        assert(insts@[j] == old_insts[j]);
                        assert(placed_at(ns, old_insts, j));
                    } else {
                        assert(insts@[j] == ni);
                        assert(ni.prog_idx == j);
                        assert(ni.out_start == out_offset(ns, j));
                        assert(ni.out_end == out_offset(ns, j + 1));
                        assert(ni.in_end == in_offset(ns, j + 1));
                        assert(ni.at_end == at_offset(ns, j + 1));
                    }
                }
            }
            i += 1;
        }
        self.instances = insts;
        proof {
            assert(laid_out(self.nodes(), self.instances()));
            assert forall|i: int| 0 <= i < self.known().len() implies self.nodes().contains(#[trigger] self.known()[i]) by {
                assert(old(self).nodes().contains(old(self).known()[i]));
            }
        }
        (out_len, in_len, at_len)
    }
}

/// The instance of the `i`-th node of `ns` in the layout of `ns`, unused.
pub open spec fn slot_at(ns: Seq<NodeId>, i: int) -> NodeInstance {
    NodeInstance {
        id: ns[i],
        in_use: false,
        prog_idx: i as usize,
        out_start: out_offset(ns, i) as usize,
        out_end: out_offset(ns, i + 1) as usize,
        in_start: in_offset(ns, i) as usize,
        in_end: in_offset(ns, i + 1) as usize,
        at_start: at_offset(ns, i) as usize,
        at_end: at_offset(ns, i + 1) as usize,
    }
}

/// The instance of node `id` in the layout of `ns`, unused.
pub open spec fn node_slot(ns: Seq<NodeId>, id: NodeId) -> NodeInstance {
    slot_at(ns, ns.index_of(id))
}

/// The index in the output vector of the output that feeds input edge
/// `dir` of (x, y).
pub open spec fn feed_index(cells: Seq<Cell>, w: nat, h: nat, ns: Seq<NodeId>, x: usize, y: usize, dir: CellDir) -> Option<usize> {
    match grid_out_port(cells, w, h, x, y, dir) {
        Some((id, o)) => {
            let ni = node_slot(ns, id);
            spec_local2global(ni.out_start, ni.out_end, o)
        },
        None => None,
    }
}

/// The copy `(output index, input index)` for input port `port` of the cell
/// at (x, y), carried on its edge `dir`: present when the port is set, an
/// output feeds the edge and the node has that input.
pub open spec fn input_link(
    cells: Seq<Cell>,
    w: nat,
    h: nat,
    ns: Seq<NodeId>,
    x: usize,
    y: usize,
    dir: CellDir,
    port: Option<u8>,
) -> Option<(usize, usize)> {
    match port {
        Some(p) => match feed_index(cells, w, h, ns, x, y, dir) {
            Some(o) => {
                let ni = node_slot(ns, cells[x * h + y].node_id);
                match spec_local2global(ni.in_start, ni.in_end, p) {
                    Some(g) => Some((o, g)),
                    None => None,
                }
            },
            None => None,
        },
        None => None,
    }
}

/// The copies into the inputs of the cell at (x, y): top, top-left,
/// bottom-left, in that order.
pub open spec fn cell_links(cells: Seq<Cell>, w: nat, h: nat, ns: Seq<NodeId>, x: usize, y: usize) -> Seq<(usize, usize)> {
    let c = cells[x * h + y];
    crate::nodes::present_links(
        input_link(cells, w, h, ns, x, y, CellDir::T, c.in1),
        input_link(cells, w, h, ns, x, y, CellDir::TL, c.in2),
        input_link(cells, w, h, ns, x, y, CellDir::BL, c.in3),
    )
}

/// The program built from the first `k` cells, column by column: each cell
/// with a node appends the op of its node together with the copies into
/// its inputs (merged into the node's op when one is there already).
pub open spec fn prog_after(cells: Seq<Cell>, w: nat, h: nat, ns: Seq<NodeId>, k: nat) -> Seq<OpModel>
    decreases k,
{
    if k == 0 {
        Seq::empty()
    } else {
        let p = prog_after(cells, w, h, ns, (k - 1) as nat);
        let j = k - 1;
        let c = cells[j];
        if c.node_id == NodeId::Nop {
            p
        } else {
            crate::nodes::spec_append_op(
                p,
                spec_to_op(node_slot(ns, c.node_id)),
                cell_links(cells, w, h, ns, (j / (h as int)) as usize, (j % (h as int)) as usize),
            )
        }
    }
}

/// Whether some of the first `k` cells holds node `id`.
pub open spec fn used_before(cells: Seq<Cell>, id: NodeId, k: int) -> bool {
    exists|j: int| 0 <= j < k && cells[j].node_id == id
}

/// Every node placed in a cell is in the node list.
pub open spec fn cells_known(cells: Seq<Cell>, ns: Seq<NodeId>) -> bool {
    forall|j: int| 0 <= j < cells.len() && (#[trigger] cells[j]).node_id != NodeId::Nop ==> ns.contains(cells[j].node_id)
}

impl<V: Copy> Matrix<V> {
    /// With the instances laid out, the instance of a listed node sits at
    /// the node's position and has the node's layout.
    proof fn lemma_instance_of_listed(&self, id: NodeId)
        requires
            self.wf(),
            laid_out(self.nodes(), self.instances()),
            self.nodes().contains(id),
        ensures
            self.has_instance(id),
            ({
                let ni = self.instance_of(id);
                let s = node_slot(self.nodes(), id);
                &&& ni.id == s.id
                &&& ni.prog_idx == s.prog_idx
                &&& ni.out_start == s.out_start
                &&& ni.out_end == s.out_end
                &&& ni.in_start == s.in_start
                &&& ni.in_end == s.in_end
                &&& ni.at_start == s.at_start
                &&& ni.at_end == s.at_end
            }),
            self.instances()[self.nodes().index_of(id)] == self.instance_of(id),
            0 <= self.nodes().index_of(id) < self.nodes().len(),
    {
        let ns = self.nodes();
        let i = ns.index_of(id);
        assert(placed_at(ns, self.instances(), i));
        self.lemma_found_instance(id, i);
    }

    /// Adds the op of the cell at (x, y) to `prog` and marks its node used.
    fn program_cell(&mut self, prog: &mut NodeProg<V>, x: usize, y: usize)
        requires
            old(self).wf(),
            laid_out(old(self).nodes(), old(self).instances()),
            cells_known(old(self).cells(), old(self).nodes()),
            x < old(self).width(),
            y < old(self).height(),
            old(self).width() <= i32::MAX,
            old(self).height() <= i32::MAX,
            2 * old(self).nodes().len() + 256 <= usize::MAX,
        ensures
            final(self).wf(),
            laid_out(final(self).nodes(), final(self).instances()),
            final(self).nodes() == old(self).nodes(),
            final(self).known() == old(self).known(),
            final(self).params() == old(self).params(),
            final(self).atoms() == old(self).atoms(),
            final(self).params_old() == old(self).params_old(),
            final(self).atoms_old() == old(self).atoms_old(),
            final(self).cells() == old(self).cells(),
            final(self).width() == old(self).width(),
            final(self).height() == old(self).height(),
            final(self).generation() == old(self).generation(),
            final(self).conf() == old(self).conf(),
            forall|i: int| 0 <= i < final(self).instances().len() ==> (#[trigger] final(self).instances()[i]).in_use
                == (old(self).instances()[i].in_use || old(self).nodes()[i] == old(self).cell_at(x as int, y as int).node_id),
            final(prog).out_len == old(prog).out_len,
            final(prog).in_len == old(prog).in_len,
            final(prog).at_len == old(prog).at_len,
            final(prog).params == old(prog).params,
            final(prog).atoms == old(prog).atoms,
            final(prog).ops() == ({
                let c = old(self).cell_at(x as int, y as int);
                if c.node_id == NodeId::Nop {
                    old(prog).ops()
                } else {
                    crate::nodes::spec_append_op(
                        old(prog).ops(),
                        spec_to_op(node_slot(old(self).nodes(), c.node_id)),
                        cell_links(old(self).cells(), old(self).width(), old(self).height(), old(self).nodes(), x, y),
                    )
                }
            }),
    {
        proof {
            lemma_index_in_grid(x as int, y as int, self.w as int, self.h as int);
        }
        let k = x * self.h + y;
        let cell = self.matrix[k];
        if cell.node_id == NodeId::Nop {
            return;
        }
        let ghost ns = self.nodes();
        let ghost cells = self.cells();
        proof {
            assert(cells[k as int] == cell);
            assert(ns.contains(cell.node_id));
            self.lemma_instance_of_listed(cell.node_id);
            lemma_offsets_bounded(ns, ns.index_of(cell.node_id));
            lemma_offsets_bounded(ns, ns.index_of(cell.node_id) + 1);
            self.lemma_feed_ready(x, y, CellDir::T);
            self.lemma_feed_ready(x, y, CellDir::TL);
            self.lemma_feed_ready(x, y, CellDir::BL);
        }

        let in_1_out_idx = self.get_adjacent_out_vec_index(x, y, CellDir::T);
        let in_2_out_idx = self.get_adjacent_out_vec_index(x, y, CellDir::TL);
        let in_3_out_idx = self.get_adjacent_out_vec_index(x, y, CellDir::BL);

        let i = match find_instance(&self.instances, cell.node_id) {
            Some(i) => i,
            None => {
                // cannot happen: every listed node has an instance
                proof {
                    assert(self.instances()[ns.index_of(cell.node_id)].id == cell.node_id);
                }
                return;
            },
        };
        proof {
            self.lemma_found_instance(cell.node_id, i as int);
        }
        let mut ni = self.instances[i];
        ni.mark_used();
        let ghost old_insts = self.instances();
        self.instances.set(i, ni);
        let op = ni.to_op();

        let in_1 = match cell.in1 {
            Some(in1_idx) => match in_1_out_idx {
                Some(in1_out_idx) => match ni.in_local2global(in1_idx) {
                    Some(in1_global_idx) => Some((in1_out_idx, in1_global_idx)),
                    None => None,
                },
                None => None,
            },
            None => None,
        };
        let in_2 = match cell.in2 {
            Some(in2_idx) => match in_2_out_idx {
                Some(in2_out_idx) => match ni.in_local2global(in2_idx) {
                    Some(in2_global_idx) => Some((in2_out_idx, in2_global_idx)),
                    None => None,
                },
                None => None,
            },
            None => None,
        };
        let in_3 = match cell.in3 {
            Some(in3_idx) => match in_3_out_idx {
                Some(in3_out_idx) => match ni.in_local2global(in3_idx) {
                    Some(in3_global_idx) => Some((in3_out_idx, in3_global_idx)),
                    None => None,
                },
                None => None,
            },
            None => None,
        };

        proof {
            assert(op@ =~= spec_to_op(node_slot(ns, cell.node_id)));
            assert(in_1 == input_link(cells, self.width(), self.height(), ns, x, y, CellDir::T, cell.in1));
            assert(in_2 == input_link(cells, self.width(), self.height(), ns, x, y, CellDir::TL, cell.in2));
            assert(in_3 == input_link(cells, self.width(), self.height(), ns, x, y, CellDir::BL, cell.in3));
        }
        prog.append_with_inputs(op, in_1, in_2, in_3);

        proof {
            assert(laid_out(self.nodes(), self.instances())) by {
                assert forall|j: int| 0 <= j < ns.len() implies #[trigger] placed_at(ns, self.instances(), j) by {
                    assert(placed_at(ns, old_insts, j));
                }
            }
            assert forall|j: int| 0 <= j < self.instances().len() implies (#[trigger] self.instances()[j]).in_use
                == (old_insts[j].in_use || ns[j] == cell.node_id) by {
                assert(placed_at(ns, old_insts, i as int));
                if j == i {
                    assert(self.instances()[j] == ni);
                    assert(ns[j] == cell.node_id);
                } else {
                    assert(placed_at(ns, old_insts, j));
                    assert(placed_at(ns, old_insts, i as int));
                    assert(ns[j] != ns[i as int]);
                }
            }
            assert forall|j: int| 0 <= j < self.known().len() implies self.nodes().contains(#[trigger] self.known()[j]) by {
                assert(old(self).nodes().contains(old(self).known()[j]));
            }
        }
    }

    /// The output feeding input edge `dir` of a cell can be looked up while
    /// the instances are laid out, and it is found at the layout position.
    proof fn lemma_feed_ready(&self, x: usize, y: usize, dir: CellDir)
        requires
            self.wf(),
            laid_out(self.nodes(), self.instances()),
            cells_known(self.cells(), self.nodes()),
            x < self.width(),
            y < self.height(),
            self.width() <= i32::MAX,
            self.height() <= i32::MAX,
            2 * self.nodes().len() + 256 <= usize::MAX,
            dir == CellDir::T || dir == CellDir::TL || dir == CellDir::BL,
        ensures
            self.adjacent_out_ready(x, y, dir),
            self.spec_adjacent_out_vec_index(x, y, dir)
                == feed_index(self.cells(), self.width(), self.height(), self.nodes(), x, y, dir),
    {
        assert((x as i32) == x);
        assert((y as i32) == y);
        match self.adjacent_out_port(x, y, dir) {
            Some((id, o)) => {
                let p = self.adjacent_pos(x, y, dir).unwrap();
                lemma_index_in_grid(p.0, p.1, self.width() as int, self.height() as int);
                assert(self.cells()[p.0 * self.height() + p.1].node_id == id);
                assert(self.nodes().contains(id));
                self.lemma_instance_of_listed(id);
                lemma_offsets_bounded(self.nodes(), self.nodes().index_of(id));
            },
            None => {},
        }
    }
}

impl<V: Copy> Matrix<V> {
    /// The size limits under which the node list that a sync() builds, and
    /// the vectors laid out for it, stay indexable: at most 256 nodes come
    /// in per cell.
    pub open spec fn sync_fits(&self) -> bool {
        &&& self.width() <= i32::MAX
        &&& self.height() <= i32::MAX
        &&& self.nodes().len() + 256 * self.cells().len() <= usize::MAX / 4
        &&& self.generation() < usize::MAX
    }

    /// Brings the node list and the program in line with the cells: creates
    /// the nodes that cells hold and the list lacks, lays out every node's
    /// ranges in the output, input and atom vectors in node order, rebuilds
    /// the parameter and atom tables (an entry that existed keeps its value,
    /// a new one starts at its default; the old tables are kept), builds the
    /// program from the cells column by column (each op fed by the outputs
    /// that face its input edges, the input and atom vectors starting from
    /// the tables' values), uploads it and counts up the generation.
    pub fn sync(&mut self)
        requires
            old(self).wf(),
            old(self).sync_fits(),
        ensures
            final(self).wf(),
            final(self).cells() == old(self).cells(),
            final(self).width() == old(self).width(),
            final(self).height() == old(self).height(),
            final(self).nodes() == nodes_after(old(self).nodes(), old(self).cells(), old(self).cells().len()),
            final(self).known() == final(self).nodes(),
            laid_out(final(self).nodes(), final(self).instances()),
            forall|i: int| 0 <= i < final(self).instances().len() ==> (#[trigger] final(self).instances()[i]).in_use
                == used_before(old(self).cells(), final(self).nodes()[i], old(self).cells().len() as int),
            final(self).generation() == old(self).generation() + 1,
            final(self).conf().uploaded() matches Some((p, copy_old_out)) && {
                &&& copy_old_out
                &&& p.ops() == prog_after(
                    old(self).cells(),
                    old(self).width(),
                    old(self).height(),
                    final(self).nodes(),
                    old(self).cells().len(),
                )
                &&& p.out_len == out_offset(final(self).nodes(), final(self).nodes().len() as int)
                &&& p.in_len == in_offset(final(self).nodes(), final(self).nodes().len() as int)
                &&& p.at_len == at_offset(final(self).nodes(), final(self).nodes().len() as int)
                &&& p.params@ == table_values(final(self).params())
                &&& p.atoms@ == table_values(final(self).atoms())
            },
            final(self).params() == rebuilt(param_ids(final(self).nodes(), false), old(self).params()),
            final(self).atoms() == rebuilt(param_ids(final(self).nodes(), true), old(self).atoms()),
            final(self).params_old() == old(self).params(),
            final(self).atoms_old() == old(self).atoms(),
            final(self).params().len() == param_ids(final(self).nodes(), false).len(),
            final(self).atoms().len() == param_ids(final(self).nodes(), true).len(),
            forall|k: int| 0 <= k < final(self).params().len() ==> #[trigger] final(self).params()[k] == (ParamEntry {
                param_id: param_ids(final(self).nodes(), false)[k],
                index: k as usize,
                value: if k < old(self).params().len() { old(self).params()[k].value } else { None },
            }),
            forall|k: int| 0 <= k < final(self).atoms().len() ==> #[trigger] final(self).atoms()[k] == (ParamEntry {
                param_id: param_ids(final(self).nodes(), true)[k],
                index: k as usize,
                value: if k < old(self).atoms().len() { old(self).atoms()[k].value } else { None },
            }),
    {
        let ghost cells = self.cells();
        let ghost n0 = self.nodes();
        proof {
            lemma_nodes_after(self.nodes(), cells, cells.len());
        }
        self.create_missing_nodes();
        let (out_len, in_len, at_len) = self.layout_instances();
        let ghost ns = self.nodes();

        // Rebuild the parameter and atom tables: entries that existed
        // before keep their values, new ones start at their defaults.
        proof {
            crate::params::lemma_param_ids_distinct(ns, false);
            crate::params::lemma_param_ids_distinct(ns, true);
            crate::params::lemma_params_upto_prefix(ns, n0, n0.len() as int, ns.len() as int, false);
            crate::params::lemma_params_upto_prefix(ns, n0, n0.len() as int, ns.len() as int, true);
            crate::params::lemma_rebuilt_keeps_values(param_ids(n0, false), param_ids(ns, false), old(self).params());
            crate::params::lemma_rebuilt_keeps_values(param_ids(n0, true), param_ids(ns, true), old(self).atoms());
        }
        let params = crate::params::rebuild_table(self.config.get_nodes(), &self.params_old, false);
        self.params = params;
        let atoms = crate::params::rebuild_table(self.config.get_nodes(), &self.atoms_old, true);
        self.atoms = atoms;
        let ghost tables = (self.params(), self.atoms(), self.params_old(), self.atoms_old());

        let mut prog = NodeProg::new(out_len, in_len, at_len);
        let w = self.w;
        let h = self.h;
        let mut x: usize = 0;
        while x < w
            invariant
                w == self.width(),
                h == self.height(),
                x <= w,
                self.wf(),
                laid_out(ns, self.instances()),
                cells_known(cells, ns),
                self.nodes() == ns,
                self.known() == ns,
                self.params() == tables.0,
                self.atoms() == tables.1,
                self.params_old() == tables.2,
                self.atoms_old() == tables.3,
                self.cells() == cells,
                cells.len() == w * h,
                self.generation() == old(self).generation(),
                self.conf().uploaded() == old(self).conf().uploaded(),
                self.width() <= i32::MAX,
                self.height() <= i32::MAX,
                2 * ns.len() + 256 <= usize::MAX,
                prog.ops() == prog_after(cells, w as nat, h as nat, ns, (x * h) as nat),
                prog.out_len == out_len,
                prog.in_len == in_len,
                prog.at_len == at_len,
                prog.params@ == crate::nodes::all_default::<V>(in_len as nat),
                prog.atoms@ == crate::nodes::all_default::<V>(at_len as nat),
                forall|i: int| 0 <= i < self.instances().len() ==> (#[trigger] self.instances()[i]).in_use
                    == used_before(cells, ns[i], x * h),
            decreases w - x,
        {
            let mut y: usize = 0;
            while y < h
                invariant
                    w == self.width(),
                    h == self.height(),
                    x < w,
                    y <= h,
                    self.wf(),
                    laid_out(ns, self.instances()),
                    cells_known(cells, ns),
                    self.nodes() == ns,
                    self.known() == ns,
                    self.params() == tables.0,
                    self.atoms() == tables.1,
                    self.params_old() == tables.2,
                    self.atoms_old() == tables.3,
                    self.cells() == cells,
                    cells.len() == w * h,
                    self.generation() == old(self).generation(),
                    self.conf().uploaded() == old(self).conf().uploaded(),
                    self.width() <= i32::MAX,
                    self.height() <= i32::MAX,
                    2 * ns.len() + 256 <= usize::MAX,
                    prog.ops() == prog_after(cells, w as nat, h as nat, ns, (x * h + y) as nat),
                    prog.out_len == out_len,
                    prog.in_len == in_len,
                    prog.at_len == at_len,
                    prog.params@ == crate::nodes::all_default::<V>(in_len as nat),
                    prog.atoms@ == crate::nodes::all_default::<V>(at_len as nat),
                    forall|i: int| 0 <= i < self.instances().len() ==> (#[trigger] self.instances()[i]).in_use
                        == used_before(cells, ns[i], x * h + y),
                decreases h - y,
            {
                let ghost k = x * h + y;
                proof {
                    lemma_index_in_grid(x as int, y as int, w as int, h as int);
                    vstd::arithmetic::div_mod::lemma_fundamental_div_mod_converse(k, h as int, x as int, y as int);
                }
                let ghost before = self.instances();
                self.program_cell(&mut prog, x, y);
                proof {
                    assert(prog.ops() == prog_after(cells, w as nat, h as nat, ns, (k + 1) as nat));
                    assert forall|i: int| 0 <= i < self.instances().len() implies (#[trigger] self.instances()[i]).in_use
                        == used_before(cells, ns[i], k + 1) by {
                        assert(before[i].in_use == used_before(cells, ns[i], k));
                        if used_before(cells, ns[i], k + 1) && !used_before(cells, ns[i], k) {
                            let j = choose|j: int| 0 <= j < k + 1 && cells[j].node_id == ns[i];
                            assert(j == k);
                        }
                        if cells[k].node_id == ns[i] {
                            assert(used_before(cells, ns[i], k + 1));
                        }
                        if used_before(cells, ns[i], k) {
                            let j = choose|j: int| 0 <= j < k && cells[j].node_id == ns[i];
                            assert(used_before(cells, ns[i], k + 1));
                        }
                    }
                }
                y += 1;
            }
            proof {
                assert(x * h + h == (x + 1) * h) by (nonlinear_arith);
            }
            x += 1;
        }

        // Copy the parameter values and atom data into the program.
        crate::params::fill_values(&mut prog.params, &self.params);
        crate::params::fill_values(&mut prog.atoms, &self.atoms);

        self.config.upload_prog(prog, true);
        self.gen_counter = self.gen_counter + 1;
        proof {
            assert(w * h == cells.len());
            assert forall|j: int| 0 <= j < self.known().len() implies self.nodes().contains(#[trigger] self.known()[j]) by {
                assert(self.nodes()[j] == self.known()[j]);
            }
        }
    }
}

/// Placing a cell at (x, y) changes only that position: reading (x, y)
/// back gives the placed cell and every other position keeps its cell.
pub proof fn lemma_place_then_read(cells: Seq<Cell>, w: nat, h: nat, x: int, y: int, x2: int, y2: int, c: Cell)
    requires
        cells.len() == w * h,
        0 <= x < w,
        0 <= y < h,
        0 <= x2 < w,
        0 <= y2 < h,
    ensures
        cells.update(x * h + y, c)[x2 * h + y2] == if x2 == x && y2 == y { c } else { cells[x2 * h + y2] },
{
    lemma_index_in_grid(x, y, w as int, h as int);
    lemma_index_in_grid(x2, y2, w as int, h as int);
    if x * h + y == x2 * h + y2 {
        vstd::arithmetic::div_mod::lemma_fundamental_div_mod_converse(x * h + y, h as int, x, y);
        vstd::arithmetic::div_mod::lemma_fundamental_div_mod_converse(x2 * h + y2, h as int, x2, y2);
    }
}

/// When every node held by the cells is listed already, meeting the cells
/// adds nothing.
proof fn lemma_nodes_after_known(ns: Seq<NodeId>, cells: Seq<Cell>, k: nat)
    requires
        k <= cells.len(),
        forall|j: int| 0 <= j < k && (#[trigger] cells[j]).node_id != NodeId::Nop ==> ns.contains(cells[j].node_id),
    ensures
        nodes_after(ns, cells, k) == ns,
    decreases k,
{
    if k > 0 {
        lemma_nodes_after_known(ns, cells, (k - 1) as nat);
    }
}

/// sync() never removes or reorders nodes: the node list before is a prefix
/// of the node list after, which holds the node of every cell.
pub proof fn lemma_sync_keeps_nodes(ns: Seq<NodeId>, cells: Seq<Cell>)
    requires
        distinct_nodes(ns),
    ensures
        extends(nodes_after(ns, cells, cells.len()), ns),
        distinct_nodes(nodes_after(ns, cells, cells.len())),
        cells_known(cells, nodes_after(ns, cells, cells.len())),
{
    lemma_nodes_after(ns, cells, cells.len());
}

/// A second sync() on unchanged cells changes neither the node list nor
/// the program: it is built from the same cells and the same nodes.
pub proof fn lemma_sync_idempotent(ns: Seq<NodeId>, cells: Seq<Cell>, w: nat, h: nat)
    requires
        distinct_nodes(ns),
    ensures
        ({
            let once = nodes_after(ns, cells, cells.len());
            &&& nodes_after(once, cells, cells.len()) == once
            &&& prog_after(cells, w, h, nodes_after(once, cells, cells.len()), cells.len())
                == prog_after(cells, w, h, once, cells.len())
        }),
{
    lemma_nodes_after(ns, cells, cells.len());
    let once = nodes_after(ns, cells, cells.len());
    lemma_nodes_after_known(once, cells, cells.len());
}

proof fn lemma_with_fillers_below(ns: Seq<NodeId>, id: NodeId, n: nat, i: int)
    requires
        id != NodeId::Nop,
        0 <= i < n,
    ensures
        with_fillers(ns, id, n).contains(spec_to_instance(id, i)),
    decreases n,
{
    let p = with_fillers(ns, id, (n - 1) as nat);
    let f = spec_to_instance(id, n - 1);
    if i < n - 1 {
        lemma_with_fillers_below(ns, id, (n - 1) as nat, i);
        if !p.contains(f) {
            let j = choose|j: int| 0 <= j < p.len() && p[j] == spec_to_instance(id, i);
            assert(p.push(f)[j] == spec_to_instance(id, i));
        }
    } else {
        if !p.contains(f) {
            assert(p.push(f)[p.len() as int] == f);
        }
    }
}

/// A node that sync() creates for a cell comes with all the lower-numbered
/// instances of its type: the node list has no gap below it.
pub proof fn lemma_sync_fills_gaps(ns: Seq<NodeId>, cells: Seq<Cell>, id: NodeId, i: int)
    requires
        distinct_nodes(ns),
        nodes_after(ns, cells, cells.len()).contains(id),
        !ns.contains(id),
        0 <= i < spec_instance(id),
    ensures
        nodes_after(ns, cells, cells.len()).contains(spec_to_instance(id, i)),
{
    lemma_fills_gaps_upto(ns, cells, cells.len(), id, i);
}

proof fn lemma_fills_gaps_upto(ns: Seq<NodeId>, cells: Seq<Cell>, k: nat, id: NodeId, i: int)
    requires
        distinct_nodes(ns),
        k <= cells.len(),
        nodes_after(ns, cells, k).contains(id),
        !ns.contains(id),
        0 <= i < spec_instance(id),
    ensures
        nodes_after(ns, cells, k).contains(spec_to_instance(id, i)),
    decreases k,
{
    if k > 0 {
        let p = nodes_after(ns, cells, (k - 1) as nat);
        let c = cells[k - 1];
        lemma_nodes_after(ns, cells, (k - 1) as nat);
        lemma_add_cell_node(p, c);
        let q = add_cell_node(p, c);
        if p.contains(id) {
            lemma_fills_gaps_upto(ns, cells, (k - 1) as nat, id, i);
            lemma_extends_contains(q, p, spec_to_instance(id, i));
        } else {
            // `id` came in with cell `c`: it is `c`'s node or one of the
            // lower instances created with it
            let cid = c.node_id;
            assert(cid != NodeId::Nop && !p.contains(cid));
            let fl = with_fillers(p, cid, spec_instance(cid));
            assert(q == fl.push(cid));
            lemma_with_fillers(p, cid, spec_instance(cid));
            if id != cid {
                assert(fl.contains(id)) by {
                    let j = choose|j: int| 0 <= j < q.len() && q[j] == id;
                    assert(j < fl.len());
                    assert(fl[j] == id);
                }
                lemma_fillers_new_are_lower(p, cid, spec_instance(cid), id);
                let i2 = choose|i2: int| 0 <= i2 < spec_instance(cid) && id == spec_to_instance(cid, i2);
                crate::dsp::lemma_to_instance(cid, i2);
            }
            assert(spec_instance(id) <= spec_instance(cid));
            assert(spec_to_instance(id, i) == spec_to_instance(cid, i));
            lemma_with_fillers_below(p, cid, spec_instance(cid), i);
            let j = choose|j: int| 0 <= j < fl.len() && fl[j] == spec_to_instance(cid, i);
            assert(q[j] == spec_to_instance(id, i));
        }
    }
}

/// Each node in the fillers that was not listed before is a lower instance
/// of `id`'s type.
proof fn lemma_fillers_new_are_lower(ns: Seq<NodeId>, id: NodeId, n: nat, a: NodeId)
    requires
        id != NodeId::Nop,
        n <= 256,
        with_fillers(ns, id, n).contains(a),
        !ns.contains(a),
    ensures
        exists|i: int| 0 <= i < n && a == spec_to_instance(id, i),
    decreases n,
{
    if n > 0 {
        let p = with_fillers(ns, id, (n - 1) as nat);
        let f = spec_to_instance(id, n - 1);
        if p.contains(a) {
            lemma_fillers_new_are_lower(ns, id, (n - 1) as nat, a);
            let i = choose|i: int| 0 <= i < n - 1 && a == spec_to_instance(id, i);
            assert(0 <= i < n && a == spec_to_instance(id, i));
        } else {
            let j = choose|j: int| 0 <= j < p.push(f).len() && p.push(f)[j] == a;
            if j < p.len() {
                assert(p.contains(a));
            }
            assert(a == f);
        }
    }
}

/// No two ops of a program run the same node index.
pub open spec fn distinct_op_indices(ops: Seq<OpModel>) -> bool {
    forall|a: int, b: int| 0 <= a < ops.len() && 0 <= b < ops.len() && a != b ==> ops[a].idx != ops[b].idx
}

/// Some op of the program runs node index `idx`.
pub open spec fn has_op_for(ops: Seq<OpModel>, idx: u8) -> bool {
    exists|o: int| 0 <= o < ops.len() && ops[o].idx == idx
}

proof fn lemma_append_op(ops: Seq<OpModel>, op: OpModel, links: Seq<(usize, usize)>)
    requires
        distinct_op_indices(ops),
    ensures
        distinct_op_indices(crate::nodes::spec_append_op(ops, op, links)),
        has_op_for(crate::nodes::spec_append_op(ops, op, links), op.idx),
        forall|idx: u8| has_op_for(ops, idx) ==> has_op_for(crate::nodes::spec_append_op(ops, op, links), idx),
{
    let r = crate::nodes::spec_append_op(ops, op, links);
    if exists|i: int| crate::nodes::is_first_op_for(ops, op.idx, i) {
        let i = choose|i: int| crate::nodes::is_first_op_for(ops, op.idx, i);
        assert(r[i].idx == op.idx);
        assert forall|idx: u8| has_op_for(ops, idx) implies has_op_for(r, idx) by {
            let o = choose|o: int| 0 <= o < ops.len() && ops[o].idx == idx;
            assert(r[o].idx == idx);
        }
    } else {
        assert(!has_op_for(ops, op.idx)) by {
            if has_op_for(ops, op.idx) {
                let o = choose|o: int| 0 <= o < ops.len() && ops[o].idx == op.idx;
                assert(crate::nodes::is_first_op_for(ops, op.idx, o));
            }
        }
        assert(r[ops.len() as int].idx == op.idx);
        assert forall|idx: u8| has_op_for(ops, idx) implies has_op_for(r, idx) by {
            let o = choose|o: int| 0 <= o < ops.len() && ops[o].idx == idx;
            assert(r[o].idx == idx);
        }
        assert forall|a: int, b: int| 0 <= a < r.len() && 0 <= b < r.len() && a != b implies r[a].idx != r[b].idx by {
            if a == ops.len() as int {
                assert(ops[b].idx == r[b].idx);
            } else if b == ops.len() as int {
                assert(ops[a].idx == r[a].idx);
            }
        }
    }
}

/// The program that sync() builds runs every node placed in the matrix,
/// and runs each node index in a single op.
pub proof fn lemma_prog_runs_placed_nodes(cells: Seq<Cell>, w: nat, h: nat, ns: Seq<NodeId>, k: nat)
    requires
        k <= cells.len(),
    ensures
        distinct_op_indices(prog_after(cells, w, h, ns, k)),
        forall|j: int| 0 <= j < k && (#[trigger] cells[j]).node_id != NodeId::Nop
            ==> has_op_for(prog_after(cells, w, h, ns, k), spec_to_op(node_slot(ns, cells[j].node_id)).idx),
    decreases k,
{
    if k > 0 {
        lemma_prog_runs_placed_nodes(cells, w, h, ns, (k - 1) as nat);
        let p = prog_after(cells, w, h, ns, (k - 1) as nat);
        let c = cells[k - 1];
        if c.node_id != NodeId::Nop {
            let j = k - 1;
            lemma_append_op(
                p,
                spec_to_op(node_slot(ns, c.node_id)),
                cell_links(cells, w, h, ns, (j / (h as int)) as usize, (j % (h as int)) as usize),
            );
        }
    }
}

/// Neighbourhood is symmetric: if (nx, ny) lies across edge `dir` of
/// (x, y), then (x, y) lies across the facing edge of (nx, ny). So an
/// output edge of one cell and the input edge it faces always look at each
/// other.
pub proof fn lemma_adjacent_symmetric(w: nat, h: nat, x: usize, y: usize, dir: CellDir)
    requires
        x < w,
        y < h,
        w <= i32::MAX,
        h <= i32::MAX,
    ensures
        grid_pos(w, h, x, y, dir) matches Some(p) ==>
            grid_pos(w, h, p.0 as usize, p.1 as usize, crate::cell_dir::spec_opposite(dir)) == Some((x as int, y as int)),
{
    assert((x as i32) == x);
    assert((y as i32) == y);
    crate::cell_dir::lemma_opposite_edges_meet(dir, x as int);
    if let Some(p) = grid_pos(w, h, x, y, dir) {
        assert(((p.0 as usize) as i32) == p.0);
        assert(((p.1 as usize) as i32) == p.1);
        assert((p.0 as usize) as int == p.0);
    }
}

impl<V: Copy> Matrix<V> {
    /// Calls `f(x, y, cell)` for every position of the matrix, column by
    /// column.
    pub fn for_each<F: Fn(usize, usize, &Cell)>(&self, f: F)
        requires
            self.wf(),
            forall|x: usize, y: usize| x < self.width() && y < self.height()
                ==> f.requires((x, y, &self.cell_at(x as int, y as int))),
        ensures
            forall|x: usize, y: usize| x < self.width() && y < self.height()
                ==> f.ensures((x, y, &self.cell_at(x as int, y as int)), ()),
    {
        let w = self.w;
        let h = self.h;
        let mut x: usize = 0;
        while x < w
            invariant
                w == self.width(),
                h == self.height(),
                x <= w,
                self.wf(),
                forall|x: usize, y: usize| x < self.width() && y < self.height()
                    ==> f.requires((x, y, &self.cell_at(x as int, y as int))),
                forall|a: usize, b: usize| a < x && b < h
                    ==> f.ensures((a, b, &self.cell_at(a as int, b as int)), ()),
            decreases w - x,
        {
            let mut y: usize = 0;
            while y < h
                invariant
                    w == self.width(),
                    h == self.height(),
                    x < w,
                    y <= h,
                    self.wf(),
                    forall|x: usize, y: usize| x < self.width() && y < self.height()
                        ==> f.requires((x, y, &self.cell_at(x as int, y as int))),
                    forall|a: usize, b: usize| a < x && b < h
                        ==> f.ensures((a, b, &self.cell_at(a as int, b as int)), ()),
                    forall|b: usize| b < y ==> f.ensures((x, b, &self.cell_at(x as int, b as int)), ()),
                decreases h - y,
            {
                proof {
                    lemma_index_in_grid(x as int, y as int, w as int, h as int);
                }
                let cell = &self.matrix[x * h + y];
                assert(*cell == self.cell_at(x as int, y as int));
                assert(f.requires((x, y, &self.cell_at(x as int, y as int))));
                f(x, y, cell);
                y += 1;
            }
            assert forall|a: usize, b: usize| a < x + 1 && b < h
                implies f.ensures((a, b, &self.cell_at(a as int, b as int)), ()) by {
                if a < x {
                } else {
                    assert(a == x);
                }
            }
            x += 1;
        }
    }
}

impl Cell {
    /// Writes the label of the cell's node ("type instance") to the start
    /// of `buf` as far as it fits, and returns it if all of it fits. An
    /// empty cell has no label and leaves `buf` alone.
    pub fn label<'a>(&self, buf: &'a mut [u8]) -> (r: Option<&'a str>)
        ensures
            self.node_id == NodeId::Nop ==> r is None && final(buf)@ == old(buf)@,
            self.node_id != NodeId::Nop ==> {
                let t = crate::dsp::spec_label(self.node_id);
                let m = if t.len() <= old(buf)@.len() { t.len() } else { old(buf)@.len() };
                &&& final(buf)@ == t.subrange(0, m as int) + old(buf)@.subrange(m as int, old(buf)@.len() as int)
                &&& (r is Some <==> t.len() <= old(buf)@.len())
                &&& (r matches Some(s) ==> s.spec_bytes() == t)
            },
    {
        if self.node_id == NodeId::Nop {
            return None;
        }
        let text = self.node_id.to_text();
        proof {
            crate::dsp::lemma_texts_ascii(self.node_id, 0);
        }
        crate::util::write_text(buf, &text)
    }
}

impl<V: Copy> Matrix<V> {
    /// Whether the cell across output edge `edge` of the cell at (x, y)
    /// takes an input on the edge that touches it.
    pub open spec fn spec_edge_connected(&self, x: usize, y: usize, edge: CellDir) -> bool {
        match self.adjacent_cell(x, y, edge) {
            Some(c) => spec_is_output(edge) && spec_port(c, crate::cell_dir::spec_opposite(edge)) is Some,
            None => false,
        }
    }

    /// The text for edge `edge` of `cell`: the name of the port the edge
    /// carries, and for an output edge whether the neighbour takes it as an
    /// input. There is none for an empty cell, a node the matrix has not
    /// seen in a sync(), an edge without a port, or a port the node lacks.
    pub open spec fn spec_edge_text(&self, cell: Cell, edge: CellDir) -> Option<(Seq<u8>, bool)> {
        if cell.node_id == NodeId::Nop || !self.known().contains(cell.node_id) {
            None
        } else if spec_is_output(edge) {
            match spec_port(cell, edge) {
                Some(o) => match crate::dsp::spec_out_name(cell.node_id, o as int) {
                    Some(t) => Some((t, self.spec_edge_connected(cell.x as usize, cell.y as usize, edge))),
                    None => None,
                },
                None => None,
            }
        } else {
            match spec_port(cell, edge) {
                Some(i) => match crate::dsp::spec_in_name(cell.node_id, i as int) {
                    Some(t) => Some((t, false)),
                    None => None,
                },
                None => None,
            }
        }
    }

    /// Writes the text for edge `edge` of `cell` to the start of `buf` as
    /// far as it fits, and returns it with the connection flag if all of it
    /// fits; where there is no text, `buf` is left alone.
    pub fn edge_label<'a>(&self, cell: &Cell, edge: CellDir, buf: &'a mut [u8]) -> (r: Option<(&'a str, bool)>)
        requires
            self.wf(),
        ensures
            match self.spec_edge_text(*cell, edge) {
                None => r is None && final(buf)@ == old(buf)@,
                Some((t, connected)) => {
                    let m = if t.len() <= old(buf)@.len() { t.len() } else { old(buf)@.len() };
                    &&& final(buf)@ == t.subrange(0, m as int) + old(buf)@.subrange(m as int, old(buf)@.len() as int)
                    &&& (r is Some <==> t.len() <= old(buf)@.len())
                    &&& (r matches Some((s, c)) ==> s.spec_bytes() == t && c == connected)
                },
            },
    {
        if cell.node_id == NodeId::Nop {
            return None;
        }

        let out_idx = match edge {
            CellDir::TR => Some(cell.out1),
            CellDir::BR => Some(cell.out2),
            CellDir::B => Some(cell.out3),
            _ => None,
        };
        let in_idx = match edge {
            CellDir::BL => Some(cell.in3),
            CellDir::TL => Some(cell.in2),
            CellDir::T => Some(cell.in1),
            _ => None,
        };

        if find_node(&self.infos, cell.node_id).is_none() {
            return None;
        }
        let info = NodeInfo::from_node_id(cell.node_id);

        let mut is_connected_edge = false;

        let edge_str = if let Some(out_idx) = out_idx {
            is_connected_edge = self.adjacent_edge_has_input(cell.x as usize, cell.y as usize, edge);
            match out_idx {
                Some(o) => info.out_name(o as usize),
                None => None,
            }
        } else if let Some(in_idx) = in_idx {
            match in_idx {
                Some(i) => info.in_name(i as usize),
                None => None,
            }
        } else {
            None
        };

        let edge_str = match edge_str {
            Some(t) => t,
            None => {
                return None;
            },
        };

        proof {
            match spec_port(*cell, edge) {
                Some(p) => crate::dsp::lemma_texts_ascii(cell.node_id, p as int),
                None => {},
            }
        }
        match crate::util::write_text(buf, &edge_str) {
            Some(s) => Some((s, is_connected_edge)),
            None => None,
        }
    }
}

/// Some op of the program runs node index `idx` and does copy `l`.
pub open spec fn has_copy(ops: Seq<OpModel>, idx: u8, l: (usize, usize)) -> bool {
    exists|o: int| 0 <= o < ops.len() && ops[o].idx == idx && ops[o].inputs.contains(l)
}

proof fn lemma_append_keeps_copy(ops: Seq<OpModel>, op: OpModel, links: Seq<(usize, usize)>, idx: u8, l: (usize, usize))
    requires
        has_copy(ops, idx, l),
    ensures
        has_copy(crate::nodes::spec_append_op(ops, op, links), idx, l),
{
    let r = crate::nodes::spec_append_op(ops, op, links);
    let o = choose|o: int| 0 <= o < ops.len() && ops[o].idx == idx && ops[o].inputs.contains(l);
    let j = choose|j: int| 0 <= j < ops[o].inputs.len() && ops[o].inputs[j] == l;
    if exists|i: int| crate::nodes::is_first_op_for(ops, op.idx, i) {
        let i = choose|i: int| crate::nodes::is_first_op_for(ops, op.idx, i);
        if i == o {
            assert(r[o].inputs[j] == l);
        } else {
            assert(r[o] == ops[o]);
        }
    } else {
        assert(r[o] == ops[o]);
    }
    assert(r[o].inputs.contains(l));
}

proof fn lemma_append_adds_copies(ops: Seq<OpModel>, op: OpModel, links: Seq<(usize, usize)>, l: (usize, usize))
    requires
        links.contains(l),
    ensures
        has_copy(crate::nodes::spec_append_op(ops, op, links), op.idx, l),
{
    let r = crate::nodes::spec_append_op(ops, op, links);
    let j = choose|j: int| 0 <= j < links.len() && links[j] == l;
    if exists|i: int| crate::nodes::is_first_op_for(ops, op.idx, i) {
        let i = choose|i: int| crate::nodes::is_first_op_for(ops, op.idx, i);
        assert(r[i].inputs[ops[i].inputs.len() + j] == l);
        assert(r[i].inputs.contains(l));
    } else {
        let n = ops.len() as int;
        assert(r[n].inputs[op.inputs.len() + j] == l);
        assert(r[n].inputs.contains(l));
    }
}

proof fn lemma_copies_kept_from(cells: Seq<Cell>, w: nat, h: nat, ns: Seq<NodeId>, from: nat, k: nat, idx: u8, l: (usize, usize))
    requires
        from <= k <= cells.len(),
        has_copy(prog_after(cells, w, h, ns, from), idx, l),
    ensures
        has_copy(prog_after(cells, w, h, ns, k), idx, l),
    decreases k - from,
{
    if k > from {
        lemma_copies_kept_from(cells, w, h, ns, from, (k - 1) as nat, idx, l);
        let p = prog_after(cells, w, h, ns, (k - 1) as nat);
        let c = cells[k - 1];
        if c.node_id != NodeId::Nop {
            let j = k - 1;
            lemma_append_keeps_copy(
                p,
                spec_to_op(node_slot(ns, c.node_id)),
                cell_links(cells, w, h, ns, (j / (h as int)) as usize, (j % (h as int)) as usize),
                idx,
                l,
            );
        }
    }
}

/// Every connection of the matrix becomes a copy in the program: when an
/// input edge of the cell at (x, y) carries an input port of its node and
/// faces an output port of the neighbouring node that both nodes have, the
/// op that runs the cell's node copies that output into that input before
/// the node runs.
pub proof fn lemma_prog_copies_connections(cells: Seq<Cell>, w: nat, h: nat, ns: Seq<NodeId>, x: usize, y: usize, l: (usize, usize))
    requires
        cells.len() == w * h,
        x < w,
        y < h,
        cells[x * h + y].node_id != NodeId::Nop,
        cell_links(cells, w, h, ns, x, y).contains(l),
    ensures
        has_copy(
            prog_after(cells, w, h, ns, cells.len()),
            spec_to_op(node_slot(ns, cells[x * h + y].node_id)).idx,
            l,
        ),
{
    let k = x * h + y;
    lemma_index_in_grid(x as int, y as int, w as int, h as int);
    vstd::arithmetic::div_mod::lemma_fundamental_div_mod_converse(k, h as int, x as int, y as int);
    let p = prog_after(cells, w, h, ns, k as nat);
    lemma_append_adds_copies(p, spec_to_op(node_slot(ns, cells[k].node_id)), cell_links(cells, w, h, ns, x, y), l);
    assert(has_copy(prog_after(cells, w, h, ns, (k + 1) as nat), spec_to_op(node_slot(ns, cells[k].node_id)).idx, l));
    lemma_copies_kept_from(cells, w, h, ns, (k + 1) as nat, cells.len(), spec_to_op(node_slot(ns, cells[k].node_id)).idx, l);
}

/// Op `o` runs node `o.idx` of `ns` on that node's ranges.
pub open spec fn op_matches_layout(ns: Seq<NodeId>, op: OpModel) -> bool {
    let s = slot_at(ns, op.idx as int);
    &&& op.idx < ns.len()
    &&& op.out_idxlen == (s.out_start, s.out_end)
    &&& op.in_idxlen == (s.in_start, s.in_end)
    &&& op.at_idxlen == (s.at_start, s.at_end)
}

/// With at most 256 nodes (so that node indices fit the ops' eight bits),
/// every op of the program that sync() builds runs one node on exactly the
/// ranges laid out for that node.
pub proof fn lemma_prog_ops_use_layout(cells: Seq<Cell>, w: nat, h: nat, ns: Seq<NodeId>, k: nat)
    requires
        k <= cells.len(),
        ns.len() <= 256,
        cells_known(cells, ns),
    ensures
        forall|o: int| 0 <= o < prog_after(cells, w, h, ns, k).len()
            ==> op_matches_layout(ns, #[trigger] prog_after(cells, w, h, ns, k)[o]),
    decreases k,
{
    if k > 0 {
        lemma_prog_ops_use_layout(cells, w, h, ns, (k - 1) as nat);
        let p = prog_after(cells, w, h, ns, (k - 1) as nat);
        let c = cells[k - 1];
        if c.node_id != NodeId::Nop {
            let j = k - 1;
            let links = cell_links(cells, w, h, ns, (j / (h as int)) as usize, (j % (h as int)) as usize);
            let op = spec_to_op(node_slot(ns, c.node_id));
            let r = crate::nodes::spec_append_op(p, op, links);
            assert(ns.contains(c.node_id));
            let n = ns.index_of(c.node_id);
            assert(0 <= n < ns.len());
            assert(op.idx == n);
            assert(op_matches_layout(ns, op));
            assert forall|o: int| 0 <= o < r.len() implies op_matches_layout(ns, #[trigger] r[o]) by {
                if exists|i: int| crate::nodes::is_first_op_for(p, op.idx, i) {
                    let i = choose|i: int| crate::nodes::is_first_op_for(p, op.idx, i);
                    assert(op_matches_layout(ns, p[o]));
                } else {
                    if o < p.len() {
                        assert(op_matches_layout(ns, p[o]));
                    }
                }
            }
        }
    }
}

/// Table `t` with the (first) entry of `p` taking value `v`; unchanged if
/// `t` has no entry of `p`.
pub open spec fn set_value<V>(t: Seq<ParamEntry<V>>, p: ParamId, v: V) -> Seq<ParamEntry<V>> {
    if exists|k: int| first_entry_at(t, p, k) {
        let k = choose|k: int| first_entry_at(t, p, k);
        t.update(k, ParamEntry { value: Some(v), ..t[k] })
    } else {
        t
    }
}

/// The entries of table `t` with the unique index of their node.
pub open spec fn entries_of<V>(ns: Seq<NodeId>, t: Seq<ParamEntry<V>>) -> Seq<(usize, ParamId, Option<V>)> {
    Seq::new(t.len(), |k: int| (ns.index_of(t[k].param_id.node) as usize, t[k].param_id, t[k].value))
}

impl<V: Copy> Matrix<V> {
    /// Sets the value of parameter `param`: of its atom entry for an atom,
    /// else of its input entry, and hands the value to the backend at the
    /// entry's index. A parameter without an entry (the matrix was not
    /// synced since its node came in) is ignored.
    pub fn set_param(&mut self, param: ParamId, at: V)
        requires
            old(self).wf(),
        ensures
            final(self).wf(),
            final(self).cells() == old(self).cells(),
            final(self).width() == old(self).width(),
            final(self).height() == old(self).height(),
            final(self).nodes() == old(self).nodes(),
            final(self).instances() == old(self).instances(),
            final(self).known() == old(self).known(),
            final(self).generation() == old(self).generation(),
            final(self).params_old() == old(self).params_old(),
            final(self).atoms_old() == old(self).atoms_old(),
            final(self).params() == if param.atom { old(self).params() } else { set_value(old(self).params(), param, at) },
            final(self).atoms() == if param.atom { set_value(old(self).atoms(), param, at) } else { old(self).atoms() },
            ({
                let t = if param.atom { old(self).atoms() } else { old(self).params() };
                match lookup_entry(t, param) {
                    Some(e) => {
                        &&& (old(self).conf().uploaded() is None ==> final(self).conf().uploaded() is None)
                        &&& (old(self).conf().uploaded() matches Some((p, c)) ==> final(self).conf().uploaded() matches Some((q, d))
                            && d == c && crate::nodes::value_set(p, q, param.atom, e.index as int, at))
                    },
                    None => final(self).conf() == old(self).conf(),
                }
            }),
    {
        if param.is_atom() {
            match crate::params::find_entry(&self.atoms, param) {
                Some(k) => {
                    let mut e = self.atoms[k];
                    e.value = Some(at);
                    self.atoms.set(k, e);
                    self.config.set_atom(e.index, at);
                    proof {
                        let c = choose|c: int| first_entry_at(old(self).atoms(), param, c);
                        if c < k {
                        } else if c > k {
                        }
                        assert(self.atoms() =~= set_value(old(self).atoms(), param, at));
                    }
                },
                None => {
                    proof {
                        assert(!exists|c: int| first_entry_at(old(self).atoms(), param, c));
                    }
                },
            }
        } else {
            match crate::params::find_entry(&self.params, param) {
                Some(k) => {
                    let mut e = self.params[k];
                    e.value = Some(at);
                    self.params.set(k, e);
                    self.config.set_param(e.index, at);
                    proof {
                        let c = choose|c: int| first_entry_at(old(self).params(), param, c);
                        if c < k {
                        } else if c > k {
                        }
                        assert(self.params() =~= set_value(old(self).params(), param, at));
                    }
                },
                None => {
                    proof {
                        assert(!exists|c: int| first_entry_at(old(self).params(), param, c));
                    }
                },
            }
        }
        proof {
            assert(self.known() == old(self).known());
            assert(self.nodes() == old(self).nodes());
        }
    }

    /// The atom entries and then the parameter entries, each with the unique
    /// index of its node and its value (`None`: the default).
    pub fn atom_entries(&self) -> (r: Vec<(usize, ParamId, Option<V>)>)
        requires
            self.wf(),
        ensures
            r@ == entries_of(self.nodes(), self.atoms()) + entries_of(self.nodes(), self.params()),
    {
        let mut r: Vec<(usize, ParamId, Option<V>)> = Vec::new();
        self.push_entries(&mut r, &self.atoms, true);
        self.push_entries(&mut r, &self.params, false);
        r
    }

    fn push_entries(&self, r: &mut Vec<(usize, ParamId, Option<V>)>, t: &Vec<ParamEntry<V>>, atom: bool)
        requires
            self.wf(),
            t@ == if atom { self.atoms() } else { self.params() },
        ensures
            final(r)@ == old(r)@ + entries_of(self.nodes(), t@),
    {
        let ghost ns = self.nodes();
        proof {
            crate::params::lemma_param_ids_distinct(ns, atom);
        }
        let n = t.len();
        let mut k: usize = 0;
        while k < n
            invariant
                n == t@.len(),
                k <= n,
                self.wf(),
                ns == self.nodes(),
                t@ == if atom { self.atoms() } else { self.params() },
                forall|j: int| 0 <= j < param_ids(ns, atom).len() ==> ns.contains((#[trigger] param_ids(ns, atom)[j]).node),
                r@ == old(r)@ + entries_of(ns, t@).subrange(0, k as int),
            decreases n - k,
        {
            let e = t[k];
            proof {
                assert(e.param_id == param_ids(ns, atom)[k as int]);
                assert(ns.contains(e.param_id.node));
            }
            match self.config.unique_index_for(e.param_id.node_id()) {
                Some(u) => {
                    proof {
                        assert(ns[ns.index_of(e.param_id.node) as int] == e.param_id.node);
                        assert(ns.no_duplicates());
                    }
                    r.push((u, e.param_id, e.value));
                },
                None => {},
            }
            k += 1;
            assert(r@ =~= old(r)@ + entries_of(ns, t@).subrange(0, k as int));
        }
        assert(entries_of(ns, t@).subrange(0, n as int) =~= entries_of(ns, t@));
    }

    /// Calls `f(unique index, parameter, value)` for each atom entry and then
    /// each parameter entry (`None`: the default value).
    pub fn for_each_atom<F: Fn(usize, ParamId, &Option<V>)>(&self, f: F)
        requires
            self.wf(),
            forall|k: int| 0 <= k < (entries_of(self.nodes(), self.atoms()) + entries_of(self.nodes(), self.params())).len()
                ==> {
                    let e = #[trigger] (entries_of(self.nodes(), self.atoms()) + entries_of(self.nodes(), self.params()))[k];
                    f.requires((e.0, e.1, &e.2))
                },
        ensures
            forall|k: int| 0 <= k < (entries_of(self.nodes(), self.atoms()) + entries_of(self.nodes(), self.params())).len()
                ==> {
                    let e = #[trigger] (entries_of(self.nodes(), self.atoms()) + entries_of(self.nodes(), self.params()))[k];
                    f.ensures((e.0, e.1, &e.2), ())
                },
    {
        let entries = self.atom_entries();
        let n = entries.len();
        let mut k: usize = 0;
        while k < n
            invariant
                n == entries@.len(),
                k <= n,
                forall|j: int| 0 <= j < entries@.len() ==> {
                    let e = #[trigger] entries@[j];
                    f.requires((e.0, e.1, &e.2))
                },
                forall|j: int| 0 <= j < k ==> {
                    let e = #[trigger] entries@[j];
                    f.ensures((e.0, e.1, &e.2), ())
                },
            decreases n - k,
        {
            let e = entries[k];
            assert(f.requires((e.0, e.1, &e.2)));
            f(e.0, e.1, &e.2);
            k += 1;
        }
    }
}

/// `a` is the node of one of the first `k` cells, or one of the
/// lower-numbered instances of such a node.
pub open spec fn from_cells(cells: Seq<Cell>, k: int, a: NodeId) -> bool {
    exists|j: int, n: int| 0 <= j < k && cells[j].node_id != NodeId::Nop
        && 0 <= n <= spec_instance(cells[j].node_id) && a == #[trigger] spec_to_instance(cells[j].node_id, n)
}

proof fn lemma_new_nodes_from_cells(ns: Seq<NodeId>, cells: Seq<Cell>, k: nat, a: NodeId)
    requires
        distinct_nodes(ns),
        k <= cells.len(),
        nodes_after(ns, cells, k).contains(a),
        !ns.contains(a),
    ensures
        from_cells(cells, k as int, a),
    decreases k,
{
    if k > 0 {
        let p = nodes_after(ns, cells, (k - 1) as nat);
        let c = cells[k - 1];
        lemma_nodes_after(ns, cells, (k - 1) as nat);
        if p.contains(a) {
            lemma_new_nodes_from_cells(ns, cells, (k - 1) as nat, a);
            let (j, n) = choose|j: int, n: int| 0 <= j < k - 1 && cells[j].node_id != NodeId::Nop
                && 0 <= n <= spec_instance(cells[j].node_id) && a == #[trigger] spec_to_instance(cells[j].node_id, n);
            assert(0 <= j < k && cells[j].node_id != NodeId::Nop && a == spec_to_instance(cells[j].node_id, n));
        } else {
            let cid = c.node_id;
            assert(cid != NodeId::Nop && !p.contains(cid));
            let fl = with_fillers(p, cid, spec_instance(cid));
            lemma_with_fillers(p, cid, spec_instance(cid));
            crate::dsp::lemma_to_instance(cid, spec_instance(cid) as int);
            if a == cid {
                assert(a == spec_to_instance(cid, spec_instance(cid) as int));
            } else {
                assert(fl.contains(a)) by {
                    let q = fl.push(cid);
                    let j = choose|j: int| 0 <= j < q.len() && q[j] == a;
                    assert(j < fl.len());
                    assert(fl[j] == a);
                }
                lemma_fillers_new_are_lower(p, cid, spec_instance(cid), a);
            }
            assert(cells[k - 1].node_id == cid);
        }
    }
}

/// sync() creates no node out of nowhere: each node it adds is the node of
/// a cell or a lower-numbered instance of one (so the node list after is
/// the list before together with such nodes, see `lemma_sync_keeps_nodes`).
pub proof fn lemma_sync_adds_only_cell_nodes(ns: Seq<NodeId>, cells: Seq<Cell>, a: NodeId)
    requires
        distinct_nodes(ns),
        nodes_after(ns, cells, cells.len()).contains(a),
        !ns.contains(a),
    ensures
        from_cells(cells, cells.len() as int, a),
{
    lemma_new_nodes_from_cells(ns, cells, cells.len(), a);
}

/// The copies of the first `k` cells that hold a node with op index `idx`,
/// cell after cell.
pub open spec fn node_links(cells: Seq<Cell>, w: nat, h: nat, ns: Seq<NodeId>, idx: u8, k: nat) -> Seq<(usize, usize)>
    decreases k,
{
    if k == 0 {
        Seq::empty()
    } else {
        let j = k - 1;
        let c = cells[j];
        let prev = node_links(cells, w, h, ns, idx, (k - 1) as nat);
        if c.node_id != NodeId::Nop && spec_to_op(node_slot(ns, c.node_id)).idx == idx {
            prev + cell_links(cells, w, h, ns, (j / (h as int)) as usize, (j % (h as int)) as usize)
        } else {
            prev
        }
    }
}

/// The copies of each op are exactly those of the cells that hold its
/// node, in cell order: the program copies nothing that no connection of
/// the matrix asks for.
pub proof fn lemma_prog_copies_exactly(cells: Seq<Cell>, w: nat, h: nat, ns: Seq<NodeId>, k: nat)
    requires
        k <= cells.len(),
    ensures
        forall|o: int| 0 <= o < prog_after(cells, w, h, ns, k).len() ==> (#[trigger] prog_after(cells, w, h, ns, k)[o]).inputs
            == node_links(cells, w, h, ns, prog_after(cells, w, h, ns, k)[o].idx, k),
        forall|idx: u8| !has_op_for(prog_after(cells, w, h, ns, k), idx) ==> #[trigger] node_links(cells, w, h, ns, idx, k).len() == 0,
    decreases k,
{
    if k > 0 {
        lemma_prog_copies_exactly(cells, w, h, ns, (k - 1) as nat);
        lemma_prog_runs_placed_nodes(cells, w, h, ns, (k - 1) as nat);
        let p = prog_after(cells, w, h, ns, (k - 1) as nat);
        let r = prog_after(cells, w, h, ns, k);
        let j = k - 1;
        let c = cells[j];
        if c.node_id != NodeId::Nop {
            let links = cell_links(cells, w, h, ns, (j / (h as int)) as usize, (j % (h as int)) as usize);
            let op = spec_to_op(node_slot(ns, c.node_id));
            lemma_append_op(p, op, links);
            if exists|i: int| crate::nodes::is_first_op_for(p, op.idx, i) {
                let i = choose|i: int| crate::nodes::is_first_op_for(p, op.idx, i);
                assert forall|o: int| 0 <= o < r.len() implies (#[trigger] r[o]).inputs
                    == node_links(cells, w, h, ns, r[o].idx, k) by {
                    if o != i {
                        assert(p[o].idx != op.idx);
                    }
                }
            } else {
                assert(!has_op_for(p, op.idx)) by {
                    if has_op_for(p, op.idx) {
                        let o = choose|o: int| 0 <= o < p.len() && p[o].idx == op.idx;
                        assert(crate::nodes::is_first_op_for(p, op.idx, o));
                    }
                }
                assert(node_links(cells, w, h, ns, op.idx, (k - 1) as nat).len() == 0);
                assert forall|o: int| 0 <= o < r.len() implies (#[trigger] r[o]).inputs
                    == node_links(cells, w, h, ns, r[o].idx, k) by {
                    if o == p.len() {
                        assert(node_links(cells, w, h, ns, op.idx, (k - 1) as nat) =~= Seq::empty());
                        assert(op.inputs =~= Seq::empty());
                        assert(r[o].inputs =~= node_links(cells, w, h, ns, op.idx, k));
                    } else {
                        assert(p[o].idx != op.idx);
                    }
                }
            }
            assert forall|idx: u8| !has_op_for(r, idx) implies #[trigger] node_links(cells, w, h, ns, idx, k).len() == 0 by {
                assert(idx != op.idx);
                assert(!has_op_for(p, idx));
                assert(node_links(cells, w, h, ns, idx, (k - 1) as nat).len() == 0);
                assert(node_links(cells, w, h, ns, idx, k) == node_links(cells, w, h, ns, idx, (k - 1) as nat));
            }
        } else {
            assert forall|idx: u8| !has_op_for(r, idx) implies #[trigger] node_links(cells, w, h, ns, idx, k).len() == 0 by {
                assert(node_links(cells, w, h, ns, idx, (k - 1) as nat).len() == 0);
            }
            assert forall|o: int| 0 <= o < r.len() implies (#[trigger] r[o]).inputs
                == node_links(cells, w, h, ns, r[o].idx, k) by {
                assert(r[o] == p[o]);
            }
        }
    }
}

/// The builders of an instance leave its use flag alone; only marking it
/// used sets it.
pub proof fn lemma_builders_keep_use_flag(ni: NodeInstance, i: usize, s: usize, e: usize)
    ensures
        (NodeInstance { prog_idx: i, ..ni }).in_use == ni.in_use,
        (NodeInstance { out_start: s, out_end: e, ..ni }).in_use == ni.in_use,
        (NodeInstance { in_start: s, in_end: e, ..ni }).in_use == ni.in_use,
        (NodeInstance { at_start: s, at_end: e, ..ni }).in_use == ni.in_use,
        (NodeInstance { in_use: true, ..ni }).in_use,
{
}

/// Copy `l` goes from output port `q` of the node in the cell facing
/// input edge `d` of the cell at (x, y) into input port `p` that edge
/// carries: its input index is the node's first input index plus `p`, its
/// output index the facing node's first output index plus `q`, and both
/// nodes have those ports.
pub open spec fn copy_through_edge(
    cells: Seq<Cell>,
    w: nat,
    h: nat,
    ns: Seq<NodeId>,
    x: usize,
    y: usize,
    d: CellDir,
    l: (usize, usize),
) -> bool {
    let c = cells[x * h + y];
    &&& spec_port(c, d) matches Some(p)
    &&& p < spec_node_info(c.node_id).ins
    &&& l.1 == in_offset(ns, ns.index_of(c.node_id)) + p
    &&& grid_adjacent(cells, w, h, x, y, d) matches Some(f)
    &&& f.node_id != NodeId::Nop
    &&& spec_port(f, crate::cell_dir::spec_opposite(d)) matches Some(q)
    &&& q < spec_node_info(f.node_id).outs
    &&& l.0 == out_offset(ns, ns.index_of(f.node_id)) + q
}

proof fn lemma_present_links_from(a: Option<(usize, usize)>, b: Option<(usize, usize)>, c: Option<(usize, usize)>, l: (usize, usize))
    requires
        crate::nodes::present_links(a, b, c).contains(l),
    ensures
        a == Some(l) || b == Some(l) || c == Some(l),
{
    let s = crate::nodes::present_links(a, b, c);
    let j = choose|j: int| 0 <= j < s.len() && s[j] == l;
    let s1: Seq<(usize, usize)> = match a { Some(v) => seq![v], None => Seq::empty() };
    let s2: Seq<(usize, usize)> = match b { Some(v) => seq![v], None => Seq::empty() };
    if j < s1.len() {
        assert(s[j] == s1[j]);
    } else if j < s1.len() + s2.len() {
        assert(s[j] == s2[j - s1.len()]);
    }
}

proof fn lemma_input_link_target(cells: Seq<Cell>, w: nat, h: nat, ns: Seq<NodeId>, x: usize, y: usize, d: CellDir, l: (usize, usize))
    requires
        cells.len() == w * h,
        x < w,
        y < h,
        cells_known(cells, ns),
        distinct_nodes(ns),
        4 * ns.len() + 1024 <= usize::MAX,
        cells[x * h + y].node_id != NodeId::Nop,
        input_link(cells, w, h, ns, x, y, d, spec_port(cells[x * h + y], d)) == Some(l),
        !spec_is_output(d),
    ensures
        copy_through_edge(cells, w, h, ns, x, y, d, l),
{
    lemma_index_in_grid(x as int, y as int, w as int, h as int);
    let c = cells[x * h + y];
    assert(ns.contains(c.node_id));
    let i = ns.index_of(c.node_id);
    lemma_offsets_bounded(ns, i);
    lemma_offsets_bounded(ns, i + 1);
    let (id, q) = grid_out_port(cells, w, h, x, y, d).unwrap();
    let pos = grid_pos(w, h, x, y, d).unwrap();
    lemma_index_in_grid(pos.0, pos.1, w as int, h as int);
    let f = cells[pos.0 * h + pos.1];
    assert(f.node_id == id);
    assert(ns.contains(id));
    let k = ns.index_of(id);
    lemma_offsets_bounded(ns, k);
    lemma_offsets_bounded(ns, k + 1);
}

/// The copies into a cell's inputs target the input ports its edges carry:
/// every copy the program makes for the cell at (x, y) comes through one of
/// its input edges (top, top-left, bottom-left), lands on the input index
/// of the port that edge carries, and reads the output index of the port
/// that the facing cell carries on the touching edge. So two edges with
/// different ports of one node never copy into the same input.
pub proof fn lemma_copies_target_edge_ports(cells: Seq<Cell>, w: nat, h: nat, ns: Seq<NodeId>, x: usize, y: usize, l: (usize, usize))
    requires
        cells.len() == w * h,
        x < w,
        y < h,
        cells_known(cells, ns),
        distinct_nodes(ns),
        4 * ns.len() + 1024 <= usize::MAX,
        cells[x * h + y].node_id != NodeId::Nop,
        cell_links(cells, w, h, ns, x, y).contains(l),
    ensures
        copy_through_edge(cells, w, h, ns, x, y, CellDir::T, l)
            || copy_through_edge(cells, w, h, ns, x, y, CellDir::TL, l)
            || copy_through_edge(cells, w, h, ns, x, y, CellDir::BL, l),
{
    let c = cells[x * h + y];
    lemma_present_links_from(
        input_link(cells, w, h, ns, x, y, CellDir::T, c.in1),
        input_link(cells, w, h, ns, x, y, CellDir::TL, c.in2),
        input_link(cells, w, h, ns, x, y, CellDir::BL, c.in3),
        l,
    );
    if input_link(cells, w, h, ns, x, y, CellDir::T, c.in1) == Some(l) {
        lemma_input_link_target(cells, w, h, ns, x, y, CellDir::T, l);
    } else if input_link(cells, w, h, ns, x, y, CellDir::TL, c.in2) == Some(l) {
        lemma_input_link_target(cells, w, h, ns, x, y, CellDir::TL, l);
    } else {
        lemma_input_link_target(cells, w, h, ns, x, y, CellDir::BL, l);
    }
}

/// The connection flag of an output edge's text is whether the cell across
/// that edge takes an input on the edge facing it: across the top-right
/// edge its bottom-left input, across the bottom-right edge its top-left
/// input, across the bottom edge its top input.
pub proof fn lemma_edge_flag_is_facing_input<V: Copy>(m: Matrix<V>, cell: Cell, edge: CellDir)
    requires
        m.spec_edge_text(cell, edge) is Some,
        spec_is_output(edge),
    ensures
        m.spec_edge_text(cell, edge).unwrap().1 == match m.adjacent_cell(cell.x as usize, cell.y as usize, edge) {
            Some(n) => match edge {
                CellDir::TR => n.in3 is Some,
                CellDir::BR => n.in2 is Some,
                _ => n.in1 is Some,
            },
            None => false,
        },
{
}

} // verus!
