use vstd::prelude::*;
use crate::dsp::{NodeId, NodeInfo, spec_node_info, spec_decimal};

verus! {

/// One operation of a node program: run node `idx` on its slices of the
/// output, input and atom vectors, after copying the listed outputs into
/// its inputs.
#[derive(Debug)]
pub struct NodeOp {
    /// Index of the node in the node list.
    pub idx: u8,
    /// Range `(start, end)` of the node's outputs in the output vector.
    pub out_idxlen: (usize, usize),
    /// Range `(start, end)` of the node's inputs in the input vector.
    pub in_idxlen: (usize, usize),
    /// Range `(start, end)` of the node's atoms in the atom vector.
    pub at_idxlen: (usize, usize),
    /// Copies `(output index, input index)` done before the node runs.
    pub inputs: Vec<(usize, usize)>,
}

/// The mathematical content of a [NodeOp].
#[verifier::ext_equal]
pub struct OpModel {
    pub idx: u8,
    pub out_idxlen: (usize, usize),
    pub in_idxlen: (usize, usize),
    pub at_idxlen: (usize, usize),
    pub inputs: Seq<(usize, usize)>,
}

impl View for NodeOp {
    type V = OpModel;

    open spec fn view(&self) -> OpModel {
        OpModel {
            idx: self.idx,
            out_idxlen: self.out_idxlen,
            in_idxlen: self.in_idxlen,
            at_idxlen: self.at_idxlen,
            inputs: self.inputs@,
        }
    }
}

/// The copies given as optional arguments, in order, without the absent ones.
pub open spec fn present_links(
    inp1: Option<(usize, usize)>,
    inp2: Option<(usize, usize)>,
    inp3: Option<(usize, usize)>,
) -> Seq<(usize, usize)> {
    let s1 = match inp1 { Some(l) => seq![l], None => Seq::empty() };
    let s2 = match inp2 { Some(l) => seq![l], None => Seq::empty() };
    let s3 = match inp3 { Some(l) => seq![l], None => Seq::empty() };
    s1 + s2 + s3
}

/// Whether `i` is the first position of an op for node `idx`.
pub open spec fn is_first_op_for(ops: Seq<OpModel>, idx: u8, i: int) -> bool {
    &&& 0 <= i < ops.len()
    &&& ops[i].idx == idx
    &&& forall|j: int| 0 <= j < i ==> ops[j].idx != idx
}

/// Appending an op with extra copies to a program: where the program already
/// holds an op for the same node, the copies are added to the first such op
/// and `op` itself is dropped; otherwise `op` with the copies is appended.
pub open spec fn spec_append_op(ops: Seq<OpModel>, op: OpModel, links: Seq<(usize, usize)>) -> Seq<OpModel> {
    if exists|i: int| is_first_op_for(ops, op.idx, i) {
        let i = choose|i: int| is_first_op_for(ops, op.idx, i);
        ops.update(i, OpModel { inputs: ops[i].inputs + links, ..ops[i] })
    } else {
        ops.push(OpModel { inputs: op.inputs + links, ..op })
    }
}

impl NodeOp {
    /// Appends the present copies to this op's copies, in order.
    fn add_links(
        &mut self,
        inp1: Option<(usize, usize)>,
        inp2: Option<(usize, usize)>,
        inp3: Option<(usize, usize)>,
    )
        ensures
            final(self)@ == (OpModel { inputs: old(self)@.inputs + present_links(inp1, inp2, inp3), ..old(self)@ }),
    {
        let ghost s1: Seq<(usize, usize)> = match inp1 { Some(l) => seq![l], None => Seq::empty() };
        let ghost s2: Seq<(usize, usize)> = match inp2 { Some(l) => seq![l], None => Seq::empty() };
        let ghost s3: Seq<(usize, usize)> = match inp3 { Some(l) => seq![l], None => Seq::empty() };
        if let Some(l) = inp1 {
            self.inputs.push(l);
        }
        assert(self.inputs@ =~= old(self).inputs@ + s1);
        if let Some(l) = inp2 {
            self.inputs.push(l);
        }
        assert(self.inputs@ =~= old(self).inputs@ + s1 + s2);
        if let Some(l) = inp3 {
            self.inputs.push(l);
        }
        assert(self.inputs@ =~= old(self).inputs@ + s1 + s2 + s3);
        assert(present_links(inp1, inp2, inp3) =~= s1 + s2 + s3);
        assert(self@ =~= (OpModel { inputs: old(self)@.inputs + present_links(inp1, inp2, inp3), ..old(self)@ }));
    }
}

/// The text of a copy: ` cpy=(o<output> => i<input>)`.
pub open spec fn copy_text(l: (usize, usize)) -> Seq<u8> {
    seq![32u8, 99u8, 112u8, 121u8, 61u8, 40u8, 111u8] + spec_decimal(l.0 as nat) + seq![32u8, 61u8, 62u8, 32u8, 105u8] + spec_decimal(l.1 as nat) + seq![41u8]
}

/// The text of a list of copies, one after the other.
pub open spec fn copies_text(s: Seq<(usize, usize)>) -> Seq<u8>
    decreases s.len(),
{
    if s.len() == 0 { Seq::empty() } else { copies_text(s.drop_last()) + copy_text(s.last()) }
}

/// The text of an op:
/// `Op(i=<idx> out=(<s>-<e>) in=(<s>-<e>) at=(<s>-<e>)<copies>)`.
pub open spec fn op_text(op: OpModel) -> Seq<u8> {
    seq![79u8, 112u8, 40u8, 105u8, 61u8] + spec_decimal(op.idx as nat)
        + seq![32u8, 111u8, 117u8, 116u8, 61u8, 40u8] + spec_decimal(op.out_idxlen.0 as nat) + seq![45u8] + spec_decimal(op.out_idxlen.1 as nat)
        + seq![41u8, 32u8, 105u8, 110u8, 61u8, 40u8] + spec_decimal(op.in_idxlen.0 as nat) + seq![45u8] + spec_decimal(op.in_idxlen.1 as nat)
        + seq![41u8, 32u8, 97u8, 116u8, 61u8, 40u8] + spec_decimal(op.at_idxlen.0 as nat) + seq![45u8] + spec_decimal(op.at_idxlen.1 as nat)
        + seq![41u8] + copies_text(op.inputs) + seq![41u8]
}

/// Appends the decimal digits of `n`.
pub fn push_decimal(out: &mut Vec<u8>, n: usize)
    ensures
        final(out)@ == old(out)@ + spec_decimal(n as nat),
    decreases n,
{
    if n >= 10 {
        push_decimal(out, n / 10);
    }
    out.push((48 + n % 10) as u8);
    proof {
        if n >= 10 {
            assert(final(out)@ =~= old(out)@ + spec_decimal(n as nat));
        } else {
            assert(final(out)@ =~= old(out)@ + spec_decimal(n as nat));
        }
    }
}

/// Appends the bytes of `bytes`.
fn push_all(out: &mut Vec<u8>, bytes: Vec<u8>)
    ensures
        final(out)@ == old(out)@ + bytes@,
{
    let n = bytes.len();
    let mut i: usize = 0;
    while i < n
        invariant
            n == bytes@.len(),
            i <= n,
            out@ == old(out)@ + bytes@.subrange(0, i as int),
        decreases n - i,
    {
        out.push(bytes[i]);
        i += 1;
        assert(out@ =~= old(out)@ + bytes@.subrange(0, i as int));
    }
    assert(bytes@.subrange(0, n as int) =~= bytes@);
}

impl NodeOp {
    /// The text of this op, as in `Op(i=1 out=(1-2) in=(1-2) at=(0-0) cpy=(o0 => i1))`.
    pub fn to_text(&self) -> (r: Vec<u8>)
        ensures
            r@ == op_text(self@),
    {
        let mut r: Vec<u8> = Vec::new();
        push_all(&mut r, vec![79u8, 112u8, 40u8, 105u8, 61u8]);
        push_decimal(&mut r, self.idx as usize);
        push_all(&mut r, vec![32u8, 111u8, 117u8, 116u8, 61u8, 40u8]);
        push_decimal(&mut r, self.out_idxlen.0);
        push_all(&mut r, vec![45u8]);
        push_decimal(&mut r, self.out_idxlen.1);
        push_all(&mut r, vec![41u8, 32u8, 105u8, 110u8, 61u8, 40u8]);
        push_decimal(&mut r, self.in_idxlen.0);
        push_all(&mut r, vec![45u8]);
        push_decimal(&mut r, self.in_idxlen.1);
        push_all(&mut r, vec![41u8, 32u8, 97u8, 116u8, 61u8, 40u8]);
        push_decimal(&mut r, self.at_idxlen.0);
        push_all(&mut r, vec![45u8]);
        push_decimal(&mut r, self.at_idxlen.1);
        push_all(&mut r, vec![41u8]);
        let ghost head = r@;
        let n = self.inputs.len();
        let mut i: usize = 0;
        while i < n
            invariant
                n == self.inputs@.len(),
                i <= n,
                r@ == head + copies_text(self.inputs@.subrange(0, i as int)),
            decreases n - i,
        {
            let l = self.inputs[i];
            push_all(&mut r, vec![32u8, 99u8, 112u8, 121u8, 61u8, 40u8, 111u8]);
            push_decimal(&mut r, l.0);
            push_all(&mut r, vec![32u8, 61u8, 62u8, 32u8, 105u8]);
            push_decimal(&mut r, l.1);
            push_all(&mut r, vec![41u8]);
            proof {
                let s = self.inputs@.subrange(0, i as int + 1);
                assert(s.drop_last() =~= self.inputs@.subrange(0, i as int));
                assert(s.last() == l);
            }
            i += 1;
            assert(r@ =~= head + copies_text(self.inputs@.subrange(0, i as int)));
        }
        assert(self.inputs@.subrange(0, n as int) =~= self.inputs@);
        push_all(&mut r, vec![41u8]);
        assert(r@ =~= op_text(self@));
        r
    }
}

/// A node program: the ops in execution order, the lengths of the output,
/// input and atom vectors they work on, and the values the input and atom
/// vectors start from (`None`: the port's default value).
pub struct NodeProg<V> {
    pub prog: Vec<NodeOp>,
    pub out_len: usize,
    pub in_len: usize,
    pub at_len: usize,
    pub params: Vec<Option<V>>,
    pub atoms: Vec<Option<V>>,
}

/// `n` ports at their default values.
pub open spec fn all_default<V>(n: nat) -> Seq<Option<V>> {
    Seq::new(n, |i: int| None)
}

/// A vector of `n` ports at their default values.
fn defaults<V>(n: usize) -> (r: Vec<Option<V>>)
    ensures
        r@ == all_default::<V>(n as nat),
{
    let mut r: Vec<Option<V>> = Vec::new();
    while r.len() < n
        invariant
            r@.len() <= n,
            forall|i: int| 0 <= i < r@.len() ==> r@[i] is None,
        decreases n - r@.len(),
    {
        r.push(None);
    }
    assert(r@ =~= all_default::<V>(n as nat));
    r
}

/// The ops of a program as models.
pub open spec fn ops_view(ops: Seq<NodeOp>) -> Seq<OpModel> {
    ops.map_values(|o: NodeOp| o@)
}

impl<V> NodeProg<V> {
    pub open spec fn ops(&self) -> Seq<OpModel> {
        ops_view(self.prog@)
    }

    /// An empty program for vectors of the given lengths, with every input
    /// and atom at its default value.
    pub fn new(out_len: usize, in_len: usize, at_len: usize) -> (r: NodeProg<V>)
        ensures
            r.ops() == Seq::<OpModel>::empty(),
            r.out_len == out_len,
            r.in_len == in_len,
            r.at_len == at_len,
            r.params@ == all_default::<V>(in_len as nat),
            r.atoms@ == all_default::<V>(at_len as nat),
    {
        let r = NodeProg { prog: Vec::new(), out_len, in_len, at_len, params: defaults(in_len), atoms: defaults(at_len) };
        assert(r.ops() =~= Seq::<OpModel>::empty());
        r
    }

    /// Adds `node_op` with the given copies, merging it into an op of the
    /// same node if the program already has one.
    pub fn append_with_inputs(
        &mut self,
        node_op: NodeOp,
        inp1: Option<(usize, usize)>,
        inp2: Option<(usize, usize)>,
        inp3: Option<(usize, usize)>,
    )
        ensures
            final(self).ops() == spec_append_op(old(self).ops(), node_op@, present_links(inp1, inp2, inp3)),
            final(self).out_len == old(self).out_len,
            final(self).in_len == old(self).in_len,
            final(self).at_len == old(self).at_len,
            final(self).params == old(self).params,
            final(self).atoms == old(self).atoms,
    {
        let ghost links = present_links(inp1, inp2, inp3);
        let ghost old_ops = self.ops();
        let n = self.prog.len();
        let mut i: usize = 0;
        while i < n
            invariant
                n == self.prog.len(),
                self.prog@ == old(self).prog@,
                self.out_len == old(self).out_len,
                self.in_len == old(self).in_len,
                self.at_len == old(self).at_len,
                self.params == old(self).params,
                self.atoms == old(self).atoms,
                old_ops == old(self).ops(),
                links == present_links(inp1, inp2, inp3),
                i <= n,
                forall|j: int| 0 <= j < i ==> self.prog@[j].idx != node_op.idx,
            decreases n - i,
        {
            if self.prog[i].idx == node_op.idx {
                let mut op = self.prog.remove(i);
                let ghost removed = op@;
                op.add_links(inp1, inp2, inp3);
                let ghost merged = op@;
                self.prog.insert(i, op);
                proof {
                    assert(removed == old_ops[i as int]);
                    assert(self.prog@ =~= old(self).prog@.update(i as int, self.prog@[i as int]));
                    assert(merged =~= OpModel { inputs: old_ops[i as int].inputs + links, ..old_ops[i as int] });
                    assert(self.ops() =~= old_ops.update(i as int, merged));
                    assert(is_first_op_for(old_ops, node_op.idx, i as int));
                    let k = choose|k: int| is_first_op_for(old_ops, node_op.idx, k);
                    assert(k == i) by {
                        if k < i {
                        } else if k > i {
                        }
                    }
                    assert(self.ops() =~= spec_append_op(old_ops, node_op@, links));
                }
                return;
            }
            i += 1;
        }
        let mut op = node_op;
        op.add_links(inp1, inp2, inp3);
        self.prog.push(op);
        proof {
            assert(!exists|k: int| is_first_op_for(old_ops, node_op.idx, k));
            assert(self.ops() =~= spec_append_op(old_ops, node_op@, links));
        }
    }
}

} // verus!

verus! {

/// Position of `id` in `nodes`, if it occurs.
pub fn find_node(nodes: &Vec<NodeId>, id: NodeId) -> (r: Option<usize>)
    ensures
        match r {
            Some(i) => i < nodes@.len() && nodes@[i as int] == id
                && forall|j: int| 0 <= j < i ==> nodes@[j] != id,
            None => !nodes@.contains(id),
        },
{
    let n = nodes.len();
    let mut i: usize = 0;
    while i < n
        invariant
            n == nodes@.len(),
            i <= n,
            forall|j: int| 0 <= j < i ==> nodes@[j] != id,
        decreases n - i,
    {
        if nodes[i] == id {
            return Some(i);
        }
        i += 1;
    }
    None
}

/// `q` is `p` with the input value at `i` set to `value` (if `p` has that
/// input) or, with `atom`, the atom value at `i`.
pub open spec fn value_set<V>(p: NodeProg<V>, q: NodeProg<V>, atom: bool, i: int, value: V) -> bool {
    &&& q.prog == p.prog
    &&& q.out_len == p.out_len
    &&& q.in_len == p.in_len
    &&& q.at_len == p.at_len
    &&& q.params@ == if !atom && 0 <= i < p.params@.len() { p.params@.update(i, Some(value)) } else { p.params@ }
    &&& q.atoms@ == if atom && 0 <= i < p.atoms@.len() { p.atoms@.update(i, Some(value)) } else { p.atoms@ }
}

/// The list of node instances that the synthesizer runs, in creation order,
/// and the last program handed to the audio backend.
pub struct NodeConfigurator<V> {
    nodes: Vec<NodeId>,
    prog: Option<NodeProg<V>>,
    copy_old_out: bool,
}

impl<V> NodeConfigurator<V> {
    /// The node ids, in creation order; the position of a node is its
    /// unique index.
    pub closed spec fn node_ids(&self) -> Seq<NodeId> {
        self.nodes@
    }

    /// The last uploaded program, with its flag that asks the backend to
    /// keep the previous output values.
    pub closed spec fn uploaded(&self) -> Option<(NodeProg<V>, bool)> {
        match &self.prog {
            Some(p) => Some((*p, self.copy_old_out)),
            None => None,
        }
    }

    /// Every node occurs once and none is `Nop`.
    pub open spec fn wf(&self) -> bool {
        &&& self.node_ids().no_duplicates()
        &&& !self.node_ids().contains(NodeId::Nop)
    }

    /// A configurator without nodes and without a program.
    pub fn new() -> (r: NodeConfigurator<V>)
        ensures
            r.wf(),
            r.node_ids() == Seq::<NodeId>::empty(),
            r.uploaded() is None,
    {
        NodeConfigurator { nodes: Vec::new(), prog: None, copy_old_out: false }
    }

    /// The node ids, in creation order.
    pub fn get_nodes(&self) -> (r: &Vec<NodeId>)
        ensures
            r@ == self.node_ids(),
    {
        &self.nodes
    }

    /// The last uploaded program.
    pub fn get_prog(&self) -> (r: Option<&NodeProg<V>>)
        ensures
            match self.uploaded() {
                Some((p, _)) => r == Some(&p),
                None => r is None,
            },
    {
        match &self.prog {
            Some(p) => Some(p),
            None => None,
        }
    }

    /// The unique index of a node: its position in the node list.
    pub fn unique_index_for(&self, ni: NodeId) -> (r: Option<usize>)
        requires
            self.wf(),
        ensures
            match r {
                Some(i) => i < self.node_ids().len() && self.node_ids()[i as int] == ni,
                None => !self.node_ids().contains(ni),
            },
    {
        find_node(&self.nodes, ni)
    }

    /// Creates the node `ni` unless it exists, and returns the port counts
    /// of its type and its index. `Nop` cannot be created.
    pub fn create_node(&mut self, ni: NodeId) -> (r: Option<(NodeInfo, usize)>)
        requires
            old(self).wf(),
        ensures
            final(self).wf(),
            final(self).uploaded() == old(self).uploaded(),
            ni == NodeId::Nop ==> r is None && final(self).node_ids() == old(self).node_ids(),
            ni != NodeId::Nop ==> {
                &&& r is Some
                &&& r.unwrap().0 == spec_node_info(ni)
                &&& final(self).node_ids() == if old(self).node_ids().contains(ni) {
                    old(self).node_ids()
                } else {
                    old(self).node_ids().push(ni)
                }
                &&& r.unwrap().1 < final(self).node_ids().len()
                &&& final(self).node_ids()[r.unwrap().1 as int] == ni
            },
    {
        if ni == NodeId::Nop {
            return None;
        }
        let info = NodeInfo::from_node_id(ni);
        match find_node(&self.nodes, ni) {
            Some(i) => Some((info, i)),
            None => {
                let i = self.nodes.len();
                self.nodes.push(ni);
                Some((info, i))
            },
        }
    }

    /// Hands a program to the audio backend; with `copy_old_out` the backend
    /// carries the previous output values over into the new output vector.
    pub fn upload_prog(&mut self, prog: NodeProg<V>, copy_old_out: bool)
        ensures
            final(self).node_ids() == old(self).node_ids(),
            final(self).uploaded() == Some((prog, copy_old_out)),
    {
        self.prog = Some(prog);
        self.copy_old_out = copy_old_out;
    }

    /// Hands the backend a new value for input `input_idx`: the running
    /// program's input takes it, if the program has that input.
    pub fn set_param(&mut self, input_idx: usize, value: V)
        ensures
            final(self).node_ids() == old(self).node_ids(),
            old(self).uploaded() is None ==> final(self).uploaded() is None,
            old(self).uploaded() matches Some((p, c)) ==> final(self).uploaded() matches Some((q, d))
                && d == c && value_set(p, q, false, input_idx as int, value),
    {
        if let Some(mut p) = self.prog.take() {
            if input_idx < p.params.len() {
                p.params.set(input_idx, Some(value));
            }
            self.prog = Some(p);
        }
    }

    /// Hands the backend a new value for atom `at_idx`: the running
    /// program's atom takes it, if the program has that atom.
    pub fn set_atom(&mut self, at_idx: usize, value: V)
        ensures
            final(self).node_ids() == old(self).node_ids(),
            old(self).uploaded() is None ==> final(self).uploaded() is None,
            old(self).uploaded() matches Some((p, c)) ==> final(self).uploaded() matches Some((q, d))
                && d == c && value_set(p, q, true, at_idx as int, value),
    {
        if let Some(mut p) = self.prog.take() {
            if at_idx < p.atoms.len() {
                p.atoms.set(at_idx, Some(value));
            }
            self.prog = Some(p);
        }
    }
}

} // verus!
