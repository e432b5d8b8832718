use vstd::prelude::*;
use crate::dsp::{NodeId, NodeInfo, ParamId, port_count, spec_node_info, spec_param_by_idx};
use crate::matrix::{in_offset, at_offset, distinct_nodes, extends};

verus! {

/// An entry of a parameter (or atom) table: the parameter, its index in the
/// program's input (or atom) vector, and its value (`None`: the default).
#[derive(Debug, Clone, Copy)]
pub struct ParamEntry<V> {
    pub param_id: ParamId,
    pub index: usize,
    pub value: Option<V>,
}

/// The parameters of the inputs (or with `atom`, the atoms) of node `id`.
pub open spec fn node_params(id: NodeId, atom: bool) -> Seq<ParamId> {
    Seq::new(port_count(id, atom), |j: int| ParamId { node: id, idx: j as u8, atom })
}

/// The parameters of the first `i` nodes of `ns`, node after node.
pub open spec fn params_upto(ns: Seq<NodeId>, i: int, atom: bool) -> Seq<ParamId>
    decreases i,
{
    if i <= 0 { Seq::empty() } else { params_upto(ns, i - 1, atom) + node_params(ns[i - 1], atom) }
}

/// The parameters of all nodes of `ns`, node after node: the `k`-th is the
/// one whose value sits at index `k` of the input (or atom) vector.
pub open spec fn param_ids(ns: Seq<NodeId>, atom: bool) -> Seq<ParamId> {
    params_upto(ns, ns.len() as int, atom)
}

/// `k` is the first position of an entry of `p` in `t`.
pub open spec fn first_entry_at<V>(t: Seq<ParamEntry<V>>, p: ParamId, k: int) -> bool {
    &&& 0 <= k < t.len()
    &&& t[k].param_id == p
    &&& forall|j: int| 0 <= j < k ==> t[j].param_id != p
}

/// The (first) entry of parameter `p` in table `t`, if there is one.
pub open spec fn lookup_entry<V>(t: Seq<ParamEntry<V>>, p: ParamId) -> Option<ParamEntry<V>> {
    if exists|k: int| first_entry_at(t, p, k) {
        Some(t[choose|k: int| first_entry_at(t, p, k)])
    } else {
        None
    }
}

/// The entry at position `k` of a table rebuilt for parameters `ids`: the
/// old entry of that parameter if `old` has one, else a new entry at index
/// `k` with the default value.
pub open spec fn rebuilt_entry<V>(ids: Seq<ParamId>, old: Seq<ParamEntry<V>>, k: int) -> ParamEntry<V> {
    match lookup_entry(old, ids[k]) {
        Some(e) => e,
        None => ParamEntry { param_id: ids[k], index: k as usize, value: None },
    }
}

/// The table rebuilt for parameters `ids` from the old table `old`.
pub open spec fn rebuilt<V>(ids: Seq<ParamId>, old: Seq<ParamEntry<V>>) -> Seq<ParamEntry<V>> {
    Seq::new(ids.len(), |k: int| rebuilt_entry(ids, old, k))
}

/// The table is empty, or holds one entry per parameter of `ids`, in that
/// order, each at its own position as index.
pub open spec fn table_ok<V>(ids: Seq<ParamId>, t: Seq<ParamEntry<V>>) -> bool {
    t.len() == 0 || (t.len() == ids.len() && forall|k: int| 0 <= k < t.len() ==> (#[trigger] t[k]).param_id == ids[k] && t[k].index == k)
}

/// The values of a table, in table order.
pub open spec fn table_values<V>(t: Seq<ParamEntry<V>>) -> Seq<Option<V>> {
    Seq::new(t.len(), |k: int| t[k].value)
}

/// The start of node `i`'s inputs (or atoms) in the vector.
pub open spec fn offset(ns: Seq<NodeId>, i: int, atom: bool) -> nat {
    if atom { at_offset(ns, i) } else { in_offset(ns, i) }
}

pub proof fn lemma_params_upto(ns: Seq<NodeId>, i: int, atom: bool)
    requires
        0 <= i <= ns.len(),
    ensures
        params_upto(ns, i, atom).len() == offset(ns, i, atom),
        forall|k: int| 0 <= k < params_upto(ns, i, atom).len() ==> {
            let p = #[trigger] params_upto(ns, i, atom)[k];
            &&& p.atom == atom
            &&& exists|j: int| 0 <= j < i && ns[j] == p.node && offset(ns, j, atom) <= k < offset(ns, j + 1, atom)
                && p.idx == k - offset(ns, j, atom)
        },
    decreases i,
{
    if i > 0 {
        lemma_params_upto(ns, i - 1, atom);
        let a = params_upto(ns, i - 1, atom);
        let b = node_params(ns[i - 1], atom);
        assert forall|k: int| 0 <= k < params_upto(ns, i, atom).len() implies {
            let p = #[trigger] params_upto(ns, i, atom)[k];
            &&& p.atom == atom
            &&& exists|j: int| 0 <= j < i && ns[j] == p.node && offset(ns, j, atom) <= k < offset(ns, j + 1, atom)
                && p.idx == k - offset(ns, j, atom)
        } by {
            if k < a.len() {
                assert(params_upto(ns, i, atom)[k] == a[k]);
            } else {
                let p = params_upto(ns, i, atom)[k];
                assert(p == b[k - a.len()]);
                assert(k - a.len() < 2);
                assert(ns[i - 1] == p.node && offset(ns, i - 1, atom) <= k < offset(ns, i, atom));
            }
        }
    }
}

/// The parameters of distinct nodes are distinct, and each belongs to a
/// node of the list.
pub proof fn lemma_param_ids_distinct(ns: Seq<NodeId>, atom: bool)
    requires
        distinct_nodes(ns),
    ensures
        param_ids(ns, atom).no_duplicates(),
        param_ids(ns, atom).len() == offset(ns, ns.len() as int, atom),
        forall|k: int| 0 <= k < param_ids(ns, atom).len() ==> ns.contains((#[trigger] param_ids(ns, atom)[k]).node),
{
    lemma_params_upto(ns, ns.len() as int, atom);
    let ids = param_ids(ns, atom);
    assert forall|k: int| 0 <= k < ids.len() implies ns.contains((#[trigger] ids[k]).node) by {
        let j = choose|j: int| 0 <= j < ns.len() && ns[j] == ids[k].node && offset(ns, j, atom) <= k < offset(ns, j + 1, atom)
            && ids[k].idx == k - offset(ns, j, atom);
    }
    assert forall|a: int, b: int| 0 <= a < ids.len() && 0 <= b < ids.len() && a != b implies ids[a] != ids[b] by {
        let ja = choose|j: int| 0 <= j < ns.len() && ns[j] == ids[a].node && offset(ns, j, atom) <= a < offset(ns, j + 1, atom)
            && ids[a].idx == a - offset(ns, j, atom);
        let jb = choose|j: int| 0 <= j < ns.len() && ns[j] == ids[b].node && offset(ns, j, atom) <= b < offset(ns, j + 1, atom)
            && ids[b].idx == b - offset(ns, j, atom);
        if ids[a] == ids[b] {
            assert(ns[ja] == ns[jb]);
            assert(ja == jb);
            assert(a - offset(ns, ja, atom) < 2 && b - offset(ns, ja, atom) < 2);
        }
    }
}

/// The parameters of the first `i` nodes depend on those nodes only.
pub proof fn lemma_params_upto_same(a: Seq<NodeId>, b: Seq<NodeId>, i: int, atom: bool)
    requires
        0 <= i <= a.len(),
        i <= b.len(),
        forall|k: int| 0 <= k < i ==> a[k] == b[k],
    ensures
        params_upto(a, i, atom) == params_upto(b, i, atom),
    decreases i,
{
    if i > 0 {
        lemma_params_upto_same(a, b, i - 1, atom);
        assert(a[i - 1] == b[i - 1]);
    }
}

/// The parameters of the first `i` nodes come first among those of the
/// first `j >= i` nodes.
pub proof fn lemma_params_upto_grows(a: Seq<NodeId>, i: int, j: int, atom: bool)
    requires
        0 <= i <= j,
        j <= a.len(),
    ensures
        params_upto(a, i, atom).len() <= params_upto(a, j, atom).len(),
        forall|k: int| 0 <= k < params_upto(a, i, atom).len() ==> #[trigger] params_upto(a, i, atom)[k] == params_upto(a, j, atom)[k],
    decreases j,
{
    if j > i {
        lemma_params_upto_grows(a, i, j - 1, atom);
    }
}

/// The parameters of the first `i` nodes do not depend on the nodes after
/// them, and come first among those of more nodes.
pub proof fn lemma_params_upto_prefix(a: Seq<NodeId>, b: Seq<NodeId>, i: int, j: int, atom: bool)
    requires
        0 <= i <= j,
        j <= a.len(),
        i <= b.len(),
        forall|k: int| 0 <= k < i ==> a[k] == b[k],
    ensures
        params_upto(b, i, atom).len() <= params_upto(a, j, atom).len(),
        forall|k: int| 0 <= k < params_upto(b, i, atom).len() ==> #[trigger] params_upto(b, i, atom)[k] == params_upto(a, j, atom)[k],
{
    lemma_params_upto_same(a, b, i, atom);
    lemma_params_upto_grows(a, i, j, atom);
}

/// Position of the entry of `p` in `t`.
pub(crate) fn find_entry<V>(t: &Vec<ParamEntry<V>>, p: ParamId) -> (r: Option<usize>)
    ensures
        match r {
            Some(k) => first_entry_at(t@, p, k as int),
            None => forall|k: int| 0 <= k < t@.len() ==> t@[k].param_id != p,
        },
{
    let n = t.len();
    let mut k: usize = 0;
    while k < n
        invariant
            n == t@.len(),
            k <= n,
            forall|j: int| 0 <= j < k ==> t@[j].param_id != p,
        decreases n - k,
    {
        if t[k].param_id == p {
            return Some(k);
        }
        k += 1;
    }
    None
}

/// The table for the parameters of `nodes` rebuilt from `old`: node after
/// node, each input (or atom) keeps its old entry if `old` has one and gets
/// a new entry with the default value otherwise.
pub fn rebuild_table<V: Copy>(nodes: &Vec<NodeId>, old: &Vec<ParamEntry<V>>, atom: bool) -> (r: Vec<ParamEntry<V>>)
    requires
        2 * nodes@.len() <= usize::MAX,
    ensures
        r@ == rebuilt(param_ids(nodes@, atom), old@),
{
    let ghost ns = nodes@;
    let ghost ids = param_ids(ns, atom);
    proof {
        lemma_params_upto(ns, ns.len() as int, atom);
    }
    let n = nodes.len();
    let mut r: Vec<ParamEntry<V>> = Vec::new();
    let mut i: usize = 0;
    while i < n
        invariant
            n == ns.len(),
            ns == nodes@,
            ids == param_ids(ns, atom),
            2 * n <= usize::MAX,
            i <= n,
            r@.len() == params_upto(ns, i as int, atom).len(),
            r@.len() <= 2 * i,
            forall|k: int| 0 <= k < r@.len() ==> #[trigger] r@[k] == rebuilt_entry(ids, old@, k),
        decreases n - i,
    {
        let id = nodes[i];
        let info = NodeInfo::from_node_id(id);
        let cnt = if atom { info.at_count() } else { info.in_count() };
        let ghost before = r@;
        proof {
            lemma_params_upto(ns, i as int, atom);
            lemma_params_upto(ns, i as int + 1, atom);
            lemma_params_upto_prefix(ns, ns, i as int + 1, n as int, atom);
        }
        let start = r.len();
        let mut j: usize = 0;
        while j < cnt
            invariant
                n == ns.len(),
                ns == nodes@,
                ids == param_ids(ns, atom),
                i < n,
                id == ns[i as int],
                cnt == port_count(id, atom),
                cnt <= 2,
                j <= cnt,
                start == params_upto(ns, i as int, atom).len(),
                start <= 2 * i,
                2 * n <= usize::MAX,
                r@.len() == start + j,
                params_upto(ns, i as int + 1, atom) == params_upto(ns, i as int, atom) + node_params(id, atom),
                forall|k: int| 0 <= k < params_upto(ns, i as int + 1, atom).len()
                    ==> #[trigger] params_upto(ns, i as int + 1, atom)[k] == ids[k],
                forall|k: int| 0 <= k < r@.len() ==> #[trigger] r@[k] == rebuilt_entry(ids, old@, k),
            decreases cnt - j,
        {
            let pid = if atom { id.atom_param_by_idx(j) } else { id.inp_param_by_idx(j) };
            let pid = pid.unwrap();
            let ghost k = (start + j) as int;
            proof {
                assert(params_upto(ns, i as int + 1, atom)[k] == node_params(id, atom)[j as int]);
                assert(ids[k] == pid);
            }
            match find_entry(old, pid) {
                Some(o) => {
                    proof {
                        let c = choose|c: int| first_entry_at(old@, pid, c);
                        if c < o {
                        } else if c > o {
                        }
                        assert(c == o);
                    }
                    r.push(old[o]);
                },
                None => {
                    proof {
                        assert(!exists|c: int| first_entry_at(old@, pid, c));
                    }
                    r.push(ParamEntry { param_id: pid, index: start + j, value: None });
                },
            }
            j += 1;
        }
        i += 1;
    }
    assert(r@ =~= rebuilt(ids, old@));
    r
}

/// A table rebuilt for a longer parameter list keeps each old entry at its
/// position and adds new entries with default values after them.
pub proof fn lemma_rebuilt_keeps_values<V>(ids_old: Seq<ParamId>, ids: Seq<ParamId>, old: Seq<ParamEntry<V>>)
    requires
        table_ok(ids_old, old),
        ids_old.len() <= ids.len(),
        forall|k: int| 0 <= k < ids_old.len() ==> #[trigger] ids_old[k] == ids[k],
        ids.no_duplicates(),
        ids.len() <= usize::MAX,
    ensures
        table_ok(ids, rebuilt(ids, old)),
        forall|k: int| 0 <= k < ids.len() ==> #[trigger] rebuilt(ids, old)[k] == (ParamEntry {
            param_id: ids[k],
            index: k as usize,
            value: if k < old.len() { old[k].value } else { None },
        }),
{
    let r = rebuilt(ids, old);
    assert forall|k: int| 0 <= k < ids.len() implies #[trigger] r[k] == (ParamEntry {
        param_id: ids[k],
        index: k as usize,
        value: if k < old.len() { old[k].value } else { None },
    }) by {
        if k < old.len() {
            assert(old[k].param_id == ids[k]);
            assert(first_entry_at(old, ids[k], k)) by {
                assert forall|j: int| 0 <= j < k implies old[j].param_id != ids[k] by {
                    assert(old[j].param_id == ids[j]);
                }
            }
            let c = choose|c: int| first_entry_at(old, ids[k], c);
            if c < k {
            } else if c > k {
            }
            assert(old[k] == (ParamEntry { param_id: ids[k], index: k as usize, value: old[k].value }));
        } else {
            assert(!exists|c: int| first_entry_at(old, ids[k], c)) by {
                if exists|c: int| first_entry_at(old, ids[k], c) {
                    let c = choose|c: int| first_entry_at(old, ids[k], c);
                    assert(old[c].param_id == ids[c]);
                }
            }
        }
    }
}

/// Sets the values of a vector from a table whose entries sit at their own
/// positions.
pub fn fill_values<V: Copy>(vals: &mut Vec<Option<V>>, t: &Vec<ParamEntry<V>>)
    requires
        old(vals)@.len() == t@.len(),
        forall|k: int| 0 <= k < t@.len() ==> (#[trigger] t@[k]).index == k,
    ensures
        final(vals)@ == table_values(t@),
{
    let n = t.len();
    let mut k: usize = 0;
    while k < n
        invariant
            n == t@.len(),
            vals@.len() == n,
            k <= n,
            forall|j: int| 0 <= j < t@.len() ==> (#[trigger] t@[j]).index == j,
            forall|j: int| 0 <= j < k ==> vals@[j] == t@[j].value,
        decreases n - k,
    {
        let e = t[k];
        vals.set(e.index, e.value);
        k += 1;
    }
    assert(vals@ =~= table_values(t@));
}

} // verus!
