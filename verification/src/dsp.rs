use vstd::prelude::*;

verus! {

/// Identifies a node of the synthesizer: its type and its instance number.
#[derive(Debug, Clone, Copy, PartialEq, Eq, Structural)]
pub enum NodeId {
    /// No node: marks an empty cell.
    Nop,
    /// A sine oscillator.
    Sin(u8),
    /// The audio output.
    Out(u8),
}

/// The instance number of a node id (0 for `Nop`).
pub open spec fn spec_instance(id: NodeId) -> nat {
    match id {
        NodeId::Nop => 0,
        NodeId::Sin(i) => i as nat,
        NodeId::Out(i) => i as nat,
    }
}

/// The node of the same type with instance number `i`, which is kept in
/// eight bits. `Nop` has no instances and stays `Nop`.
pub open spec fn spec_to_instance(id: NodeId, i: int) -> NodeId {
    match id {
        NodeId::Nop => NodeId::Nop,
        NodeId::Sin(_) => NodeId::Sin((i % 256) as u8),
        NodeId::Out(_) => NodeId::Out((i % 256) as u8),
    }
}

/// Two node ids of the same type.
pub open spec fn same_type(a: NodeId, b: NodeId) -> bool {
    match (a, b) {
        (NodeId::Nop, NodeId::Nop) => true,
        (NodeId::Sin(_), NodeId::Sin(_)) => true,
        (NodeId::Out(_), NodeId::Out(_)) => true,
        _ => false,
    }
}

impl NodeId {
    /// The instance number of this node.
    pub fn instance(&self) -> (r: usize)
        ensures
            r == spec_instance(*self),
            r < 256,
    {
        match self {
            NodeId::Nop => 0,
            NodeId::Sin(i) => *i as usize,
            NodeId::Out(i) => *i as usize,
        }
    }

    /// The node of the same type with the given instance number; the number
    /// is taken modulo 256.
    pub fn to_instance(&self, instance: usize) -> (r: NodeId)
        ensures
            r == spec_to_instance(*self, instance as int),
    {
        let i: u8 = (instance % 256) as u8;
        match self {
            NodeId::Nop => NodeId::Nop,
            NodeId::Sin(_) => NodeId::Sin(i),
            NodeId::Out(_) => NodeId::Out(i),
        }
    }
}

/// Renumbering keeps the type, and the new instance number is the requested
/// one modulo 256.
pub proof fn lemma_to_instance(id: NodeId, i: int)
    requires
        id != NodeId::Nop,
        0 <= i,
    ensures
        spec_to_instance(id, i) != NodeId::Nop,
        same_type(spec_to_instance(id, i), id),
        spec_instance(spec_to_instance(id, i)) == i % 256,
        spec_to_instance(id, spec_instance(id) as int) == id,
{
}

/// A node type and the number of its input, output and atom (setting)
/// ports.
#[derive(Debug, Clone, Copy, PartialEq, Eq, Structural)]
pub struct NodeInfo {
    /// The node type (instance 0).
    pub node: NodeId,
    pub ins: usize,
    pub outs: usize,
    pub atoms: usize,
}

/// The type and port counts of each node type.
pub open spec fn spec_node_info(id: NodeId) -> NodeInfo {
    match id {
        NodeId::Nop => NodeInfo { node: NodeId::Nop, ins: 0, outs: 0, atoms: 0 },
        NodeId::Sin(_) => NodeInfo { node: NodeId::Sin(0), ins: 1, outs: 1, atoms: 0 },
        NodeId::Out(_) => NodeInfo { node: NodeId::Out(0), ins: 2, outs: 0, atoms: 1 },
    }
}

impl NodeInfo {
    /// The port counts of the type of `id`.
    pub fn from_node_id(id: NodeId) -> (r: NodeInfo)
        ensures
            r == spec_node_info(id),
    {
        match id {
            NodeId::Nop => NodeInfo { node: NodeId::Nop, ins: 0, outs: 0, atoms: 0 },
            NodeId::Sin(_) => NodeInfo { node: NodeId::Sin(0), ins: 1, outs: 1, atoms: 0 },
            NodeId::Out(_) => NodeInfo { node: NodeId::Out(0), ins: 2, outs: 0, atoms: 1 },
        }
    }

    pub fn in_count(&self) -> (r: usize)
        ensures
            r == self.ins,
    {
        self.ins
    }

    pub fn out_count(&self) -> (r: usize)
        ensures
            r == self.outs,
    {
        self.outs
    }

    pub fn at_count(&self) -> (r: usize)
        ensures
            r == self.atoms,
    {
        self.atoms
    }
}

/// The name of a node type, as ASCII text.
pub open spec fn spec_name(id: NodeId) -> Seq<u8> {
    match id {
        NodeId::Nop => seq![78u8, 111u8, 112u8],
        NodeId::Sin(_) => seq![83u8, 105u8, 110u8],
        NodeId::Out(_) => seq![79u8, 117u8, 116u8],
    }
}

/// The decimal digits of `n`, as ASCII text.
pub open spec fn spec_decimal(n: nat) -> Seq<u8>
    decreases n,
{
    if n < 10 {
        seq![(48 + n) as u8]
    } else {
        spec_decimal(n / 10).push((48 + n % 10) as u8)
    }
}

/// The label of a node: its type name, a space and its instance number.
pub open spec fn spec_label(id: NodeId) -> Seq<u8> {
    spec_name(id) + seq![32u8] + spec_decimal(spec_instance(id))
}

/// The name of input `i` of a node type, as ASCII text.
pub open spec fn spec_in_name(id: NodeId, i: int) -> Option<Seq<u8>> {
    match id {
        NodeId::Sin(_) => if i == 0 { Some(seq![102u8, 114u8, 101u8, 113u8]) } else { None },
        NodeId::Out(_) => if i == 0 {
            Some(seq![99u8, 104u8, 49u8])
        } else if i == 1 {
            Some(seq![99u8, 104u8, 50u8])
        } else {
            None
        },
        NodeId::Nop => None,
    }
}

/// The name of output `i` of a node type, as ASCII text.
pub open spec fn spec_out_name(id: NodeId, i: int) -> Option<Seq<u8>> {
    match id {
        NodeId::Sin(_) => if i == 0 { Some(seq![115u8, 105u8, 103u8]) } else { None },
        _ => None,
    }
}

impl NodeId {
    /// The name of this node's type.
    pub fn name(&self) -> (r: Vec<u8>)
        ensures
            r@ == spec_name(*self),
    {
        let r = match self {
            NodeId::Nop => vec![78u8, 111u8, 112u8],
            NodeId::Sin(_) => vec![83u8, 105u8, 110u8],
            NodeId::Out(_) => vec![79u8, 117u8, 116u8],
        };
        assert(r@ =~= spec_name(*self));
        r
    }

    /// The label of this node: its type name, a space and its instance
    /// number.
    pub fn to_text(&self) -> (r: Vec<u8>)
        ensures
            r@ == spec_label(*self),
    {
        let mut r = self.name();
        r.push(32u8);
        crate::nodes::push_decimal(&mut r, self.instance());
        assert(r@ =~= spec_label(*self));
        r
    }
}

impl NodeInfo {
    /// The name of input `idx` of the node type, if it has that input.
    pub fn in_name(&self, idx: usize) -> (r: Option<Vec<u8>>)
        ensures
            match r {
                Some(v) => spec_in_name(self.node, idx as int) == Some(v@),
                None => spec_in_name(self.node, idx as int) is None,
            },
    {
        match self.node {
            NodeId::Sin(_) => if idx == 0 {
                let v = vec![102u8, 114u8, 101u8, 113u8];
                assert(v@ =~= seq![102u8, 114u8, 101u8, 113u8]);
                Some(v)
            } else {
                None
            },
            NodeId::Out(_) => if idx == 0 {
                let v = vec![99u8, 104u8, 49u8];
                assert(v@ =~= seq![99u8, 104u8, 49u8]);
                Some(v)
            } else if idx == 1 {
                let v = vec![99u8, 104u8, 50u8];
                assert(v@ =~= seq![99u8, 104u8, 50u8]);
                Some(v)
            } else {
                None
            },
            NodeId::Nop => None,
        }
    }

    /// The name of output `idx` of the node type, if it has that output.
    pub fn out_name(&self, idx: usize) -> (r: Option<Vec<u8>>)
        ensures
            match r {
                Some(v) => spec_out_name(self.node, idx as int) == Some(v@),
                None => spec_out_name(self.node, idx as int) is None,
            },
    {
        match self.node {
            NodeId::Sin(_) => if idx == 0 {
                let v = vec![115u8, 105u8, 103u8];
                assert(v@ =~= seq![115u8, 105u8, 103u8]);
                Some(v)
            } else {
                None
            },
            _ => None,
        }
    }
}

/// Decimal digits are ASCII.
pub proof fn lemma_decimal_ascii(n: nat)
    ensures
        crate::util::all_ascii(spec_decimal(n)),
    decreases n,
{
    if n >= 10 {
        lemma_decimal_ascii(n / 10);
        assert(crate::util::all_ascii(spec_decimal(n))) by {
            let p = spec_decimal(n / 10);
            assert forall|i: int| 0 <= i < spec_decimal(n).len() implies spec_decimal(n)[i] < 128 by {
                if i < p.len() {
                    assert(spec_decimal(n)[i] == p[i]);
                }
            }
        }
    }
}

/// Node labels and port names are ASCII text.
pub proof fn lemma_texts_ascii(id: NodeId, i: int)
    ensures
        crate::util::all_ascii(spec_label(id)),
        spec_in_name(id, i) matches Some(t) ==> crate::util::all_ascii(t),
        spec_out_name(id, i) matches Some(t) ==> crate::util::all_ascii(t),
{
    lemma_decimal_ascii(spec_instance(id));
    let l = spec_label(id);
    let d = spec_decimal(spec_instance(id));
    assert forall|j: int| 0 <= j < l.len() implies l[j] < 128 by {
        if j >= 4 {
            assert(l[j] == d[j - 4]);
        }
    }
}

/// Identifies a parameter of a node: one of its inputs (automatable), or
/// with `atom` one of its atoms (settings, not automatable).
#[derive(Debug, Clone, Copy, PartialEq, Eq, Structural)]
pub struct ParamId {
    pub node: NodeId,
    pub idx: u8,
    pub atom: bool,
}

/// The number of inputs of a node type, or with `atom` of its atoms.
pub open spec fn port_count(id: NodeId, atom: bool) -> nat {
    if atom { spec_node_info(id).atoms as nat } else { spec_node_info(id).ins as nat }
}

/// The parameter for input (or with `atom`, atom) `idx` of node `id`, if
/// the node has it.
pub open spec fn spec_param_by_idx(id: NodeId, idx: int, atom: bool) -> Option<ParamId> {
    if 0 <= idx < port_count(id, atom) {
        Some(ParamId { node: id, idx: idx as u8, atom })
    } else {
        None
    }
}

impl ParamId {
    pub fn node_id(&self) -> (r: NodeId)
        ensures
            r == self.node,
    {
        self.node
    }

    pub fn is_atom(&self) -> (r: bool)
        ensures
            r == self.atom,
    {
        self.atom
    }

    /// The index of the input or atom within its node.
    pub fn inp(&self) -> (r: u8)
        ensures
            r == self.idx,
    {
        self.idx
    }
}

impl NodeId {
    /// The parameter for input `idx` of this node, if it has that input.
    pub fn inp_param_by_idx(&self, idx: usize) -> (r: Option<ParamId>)
        ensures
            r == spec_param_by_idx(*self, idx as int, false),
    {
        let info = NodeInfo::from_node_id(*self);
        if idx < info.in_count() {
            Some(ParamId { node: *self, idx: idx as u8, atom: false })
        } else {
            None
        }
    }

    /// The parameter for atom `idx` of this node, if it has that atom.
    pub fn atom_param_by_idx(&self, idx: usize) -> (r: Option<ParamId>)
        ensures
            r == spec_param_by_idx(*self, idx as int, true),
    {
        let info = NodeInfo::from_node_id(*self);
        if idx < info.at_count() {
            Some(ParamId { node: *self, idx: idx as u8, atom: true })
        } else {
            None
        }
    }
}

/// The number that decimal digits (ASCII) denote, read in base 10.
pub open spec fn decimal_value(s: Seq<u8>) -> int
    decreases s.len(),
{
    if s.len() == 0 { 0 } else { decimal_value(s.drop_last()) * 10 + (s.last() as int - 48) }
}

/// The decimal text of `n` denotes `n`: it consists of ASCII digits only,
/// read back in base 10 they give `n`, and it has no leading zero.
pub proof fn lemma_decimal_reads_back(n: nat)
    ensures
        decimal_value(spec_decimal(n)) == n,
        spec_decimal(n).len() >= 1,
        forall|i: int| 0 <= i < spec_decimal(n).len() ==> 48 <= #[trigger] spec_decimal(n)[i] <= 57,
        n > 0 ==> spec_decimal(n)[0] != 48u8,
    decreases n,
{
    if n >= 10 {
        lemma_decimal_reads_back(n / 10);
        let p = spec_decimal(n / 10);
        let s = spec_decimal(n);
        assert(s.drop_last() =~= p);
        assert(s.last() as int - 48 == n % 10);
        assert(decimal_value(s) == decimal_value(p) * 10 + n % 10);
        assert(n == (n / 10) * 10 + n % 10) by {
            vstd::arithmetic::div_mod::lemma_fundamental_div_mod(n as int, 10);
        }
        assert forall|i: int| 0 <= i < s.len() implies 48 <= #[trigger] s[i] <= 57 by {
            if i < p.len() {
                assert(s[i] == p[i]);
            }
        }
        assert(s[0] == p[0]);
    } else {
        let s = spec_decimal(n);
        assert(s.drop_last() =~= Seq::<u8>::empty());
        assert(decimal_value(s.drop_last()) == 0);
        assert(s.last() as int == 48 + n);
    }
}

/// A node's label is its type name, a space, and the decimal digits of its
/// instance number, which read back as that number.
pub proof fn lemma_label_reads_back(id: NodeId)
    ensures
        spec_label(id).subrange(0, 3) == spec_name(id),
        spec_label(id)[3] == 32u8,
        decimal_value(spec_label(id).subrange(4, spec_label(id).len() as int)) == spec_instance(id),
{
    lemma_decimal_reads_back(spec_instance(id));
    let l = spec_label(id);
    assert(l.subrange(0, 3) =~= spec_name(id));
    assert(l.subrange(4, l.len() as int) =~= spec_decimal(spec_instance(id)));
}

} // verus!
