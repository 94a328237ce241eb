//! The document form written for a graph: nodes in id order and cables in
//! `(from, output, to, input)` order.
use vstd::prelude::*;
use vstd::seq_lib::{to_multiset_build, to_multiset_insert};

use crate::float_bits::FloatBits;
use crate::graph::{EdgeModel, ModuleGraph, NodeId};
use crate::graph_doc::{encode_port, encode_port_spec, CableDoc};
use crate::modules::{str_equal, ParameterValue, ValueModel};
use crate::order::{id_names, ids_sorted, lemma_text_lt_asym, lemma_text_lt_trans, sort_node_ids, str_less, text_lt};
use crate::planner::graph_names;

verus! {

/// The content of a cable document.
pub type CableModel = (Seq<char>, Seq<char>, Seq<char>, Seq<char>, FloatBits);

/// The content of `c`.
pub open spec fn cable_model(c: CableDoc) -> CableModel {
    (c.from@, c.output@, c.to@, c.input@, c.scale)
}

/// The cable document written for edge `e`.
pub open spec fn edge_cable(e: EdgeModel) -> CableModel {
    (e.from, encode_port_spec(e.output_name, e.output_index), e.to, encode_port_spec(e.input_name, e.input_index), e.scale)
}

/// Cable `a` sorts before cable `b`: by source, then output, then
/// destination, then input, each compared as text.
pub open spec fn cable_lt(a: CableModel, b: CableModel) -> bool {
    ||| text_lt(a.0, b.0)
    ||| a.0 == b.0 && text_lt(a.1, b.1)
    ||| a.0 == b.0 && a.1 == b.1 && text_lt(a.2, b.2)
    ||| a.0 == b.0 && a.1 == b.1 && a.2 == b.2 && text_lt(a.3, b.3)
}

/// `cable_lt` is asymmetric.
proof fn lemma_cable_lt_asym(a: CableModel, b: CableModel)
    ensures
        cable_lt(a, b) ==> !cable_lt(b, a),
{
    lemma_text_lt_asym(a.0, b.0);
    lemma_text_lt_asym(a.1, b.1);
    lemma_text_lt_asym(a.2, b.2);
    lemma_text_lt_asym(a.3, b.3);
    lemma_text_lt_asym(a.0, a.0);
    lemma_text_lt_asym(a.1, a.1);
    lemma_text_lt_asym(a.2, a.2);
    lemma_text_lt_asym(a.3, a.3);
}

/// `cable_lt` is transitive.
proof fn lemma_cable_lt_trans(a: CableModel, b: CableModel, c: CableModel)
    requires
        cable_lt(a, b),
        cable_lt(b, c),
    ensures
        cable_lt(a, c),
{
    if text_lt(a.0, b.0) && text_lt(b.0, c.0) {
        lemma_text_lt_trans(a.0, b.0, c.0);
    }
    if a.0 == b.0 && b.0 == c.0 {
        if text_lt(a.1, b.1) && text_lt(b.1, c.1) {
            lemma_text_lt_trans(a.1, b.1, c.1);
        }
        if a.1 == b.1 && b.1 == c.1 {
            if text_lt(a.2, b.2) && text_lt(b.2, c.2) {
                lemma_text_lt_trans(a.2, b.2, c.2);
            }
            if a.2 == b.2 && b.2 == c.2 && text_lt(a.3, b.3) && text_lt(b.3, c.3) {
                lemma_text_lt_trans(a.3, b.3, c.3);
            }
        }
    }
}

/// No later cable sorts before an earlier one.
pub open spec fn cables_sorted(s: Seq<CableModel>) -> bool {
    forall|i: int, j: int| 0 <= i < j < s.len() ==> !cable_lt(s[j], s[i])
}

/// The contents of a list of cable documents.
pub open spec fn cable_models(v: Seq<CableDoc>) -> Seq<CableModel> {
    v.map_values(|c: CableDoc| cable_model(c))
}

/// Compares two cables in [`cable_lt`] order.
fn cable_less(a: &CableDoc, b: &CableDoc) -> (r: bool)
    ensures
        r == cable_lt(cable_model(*a), cable_model(*b)),
{
    proof {
        lemma_text_lt_asym(a.from@, a.from@);
        lemma_text_lt_asym(a.output@, a.output@);
        lemma_text_lt_asym(a.to@, a.to@);
    }
    if !str_equal(a.from.as_str(), b.from.as_str()) {
        return str_less(a.from.as_str(), b.from.as_str());
    }
    if !str_equal(a.output.as_str(), b.output.as_str()) {
        return str_less(a.output.as_str(), b.output.as_str());
    }
    if !str_equal(a.to.as_str(), b.to.as_str()) {
        return str_less(a.to.as_str(), b.to.as_str());
    }
    str_less(a.input.as_str(), b.input.as_str())
}

/// Sorts cables into [`cable_lt`] order, keeping the order of equal ones.
pub fn sort_cables(v: Vec<CableDoc>) -> (r: Vec<CableDoc>)
    ensures
        cables_sorted(cable_models(r@)),
        cable_models(r@).to_multiset() == cable_models(v@).to_multiset(),
{
    let mut out: Vec<CableDoc> = Vec::new();
    let mut rest = v;
    let ghost orig = cable_models(rest@);
    let n0 = rest.len();
    let mut taken: usize = 0;
    proof {
        assert(cable_models(out@) =~= orig.take(0));
    }
    while rest.len() > 0
        invariant
            taken + rest@.len() == orig.len(),
            orig.len() == n0,
            cable_models(rest@) == orig.skip(taken as int),
            cables_sorted(cable_models(out@)),
            cable_models(out@).to_multiset() == orig.take(taken as int).to_multiset(),
        decreases rest@.len(),
    {
        let ghost old_rest = rest@;
        let x = rest.remove(0);
        let ghost xm = cable_model(x);
        proof {
            assert(cable_models(old_rest)[0] == xm);
            assert(orig.skip(taken as int)[0] == xm);
            assert(rest@ =~= old_rest.subrange(1, old_rest.len() as int));
            assert forall|t: int| 0 <= t < cable_models(rest@).len() implies cable_models(rest@)[t] == orig.skip(taken as int + 1)[t] by {
                assert(cable_models(rest@)[t] == cable_model(rest@[t]));
                assert(rest@[t] == old_rest[t + 1]);
                assert(cable_models(old_rest)[t + 1] == orig.skip(taken as int)[t + 1]);
            }
            assert(cable_models(rest@) =~= orig.skip(taken as int + 1));
        }
        let mut p: usize = 0;
        while p < out.len() && !cable_less(&x, &out[p])
            invariant
                p <= out@.len(),
                xm == cable_model(x),
                forall|j: int| 0 <= j < p ==> !cable_lt(xm, cable_model(out@[j])),
            decreases out@.len() - p,
        {
            p = p + 1;
        }
        let ghost before = cable_models(out@);
        out.insert(p, x);
        proof {
            let after = cable_models(out@);
            assert(after =~= before.insert(p as int, xm));
            assert forall|i: int, j: int| 0 <= i < j < after.len() implies !cable_lt(after[j], after[i]) by {
                if j < p {
                    assert(after[i] == before[i] && after[j] == before[j]);
                } else if j == p {
                    assert(after[i] == before[i]);
                } else if i == p {
                    assert(after[j] == before[j - 1]);
                    assert(cable_lt(xm, before[p as int]));
                    lemma_cable_lt_asym(xm, before[p as int]);
                    if j - 1 > p {
                        if cable_lt(before[j - 1], xm) {
                            lemma_cable_lt_trans(before[j - 1], xm, before[p as int]);
                        }
                    }
                } else if i < p {
                    assert(after[i] == before[i] && after[j] == before[j - 1]);
                } else {
                    assert(after[i] == before[i - 1] && after[j] == before[j - 1]);
                }
            }
            to_multiset_insert(before, p as int, xm);
            assert(orig.take(taken as int + 1) =~= orig.take(taken as int).push(xm));
            to_multiset_build(orig.take(taken as int), xm);
        }
        taken = taken + 1;
    }
    proof {
        assert(orig.take(taken as int) =~= orig);
    }
    out
}

/// A node of the document written for a graph.
pub struct NodeRecord {
    pub module: String,
    pub channels: usize,
    pub length: usize,
    /// The parameters, in the node's map order.
    pub params: Vec<(String, ParameterValue)>,
}

/// The document written for a graph.
pub struct GraphRecord {
    /// Nodes in increasing id order.
    pub nodes: Vec<(String, NodeRecord)>,
    /// Cables in [`cable_lt`] order.
    pub cables: Vec<CableDoc>,
}

/// The content of a parameter list.
pub open spec fn param_models(v: Seq<(String, ParameterValue)>) -> Seq<(Seq<char>, ValueModel)> {
    v.map_values(|e: (String, ParameterValue)| (e.0@, e.1@))
}

/// `rec` is the document of `g`: its nodes in increasing id order, one per
/// node of `g`, with the node's module, shape and parameters; its cables
/// those of `g`'s edges, with ports written `name` or `name/index`, sorted
/// by `(from, output, to, input)`.
pub open spec fn documents(rec: GraphRecord, g: ModuleGraph) -> bool {
    &&& rec.nodes@.len() == g.node_entries().len()
    &&& forall|i: int, j: int| 0 <= i < j < rec.nodes@.len() ==> text_lt(rec.nodes@[i].0@, rec.nodes@[j].0@)
    &&& rec.nodes@.map_values(|e: (String, NodeRecord)| e.0@).to_set() == graph_names(g).to_set()
    &&& forall|i: int|
        #![trigger rec.nodes@[i]]
        0 <= i < rec.nodes@.len() ==> {
            let name = rec.nodes@[i].0@;
            let node = g.node_spec(name);
            &&& g.has_node(name)
            &&& rec.nodes@[i].1.module@ == node.module_descriptor.module_name@
            &&& rec.nodes@[i].1.channels == node.module_descriptor.shape.channels
            &&& rec.nodes@[i].1.length == node.module_descriptor.shape.length
            &&& param_models(rec.nodes@[i].1.params@) == node.parameter_map@
        }
    &&& cables_sorted(cable_models(rec.cables@))
    &&& cable_models(rec.cables@).to_multiset() == g.edge_models().map_values(|e: EdgeModel| edge_cable(e)).to_multiset()
}

/// The document for `graph`: nodes in increasing id order with their
/// module, shape and parameters; cables with their ports written
/// `name` or `name/index`, sorted by `(from, output, to, input)`.
pub fn graph_to_doc(graph: &ModuleGraph) -> (r: GraphRecord)
    ensures
        documents(r, *graph),
{
    proof {
        use_type_invariant(graph);
    }
    let node_ids = graph.node_ids();
    assert(id_names(node_ids@) =~= graph_names(*graph));
    proof {
        assert forall|i: int, j: int| 0 <= i < graph_names(*graph).len() && 0 <= j < graph_names(*graph).len() && i != j
            implies graph_names(*graph)[i] != graph_names(*graph)[j] by {
            assert(graph.node_entries()[i].0@ != graph.node_entries()[j].0@);
        }
    }
    let ids = sort_node_ids(&node_ids);
    let mut nodes: Vec<(String, NodeRecord)> = Vec::new();
    let mut i: usize = 0;
    while i < ids.len()
        invariant
            i <= ids@.len(),
            ids_sorted(ids@),
            id_names(ids@).to_set() == graph_names(*graph).to_set(),
            nodes@.len() == i,
            forall|k: int| #![trigger nodes@[k]] 0 <= k < i ==> nodes@[k].0@ == ids@[k]@ && {
                let name = nodes@[k].0@;
                let node = graph.node_spec(name);
                &&& graph.has_node(name)
                &&& nodes@[k].1.module@ == node.module_descriptor.module_name@
                &&& nodes@[k].1.channels == node.module_descriptor.shape.channels
                &&& nodes@[k].1.length == node.module_descriptor.shape.length
                &&& param_models(nodes@[k].1.params@) == node.parameter_map@
            },
        decreases ids@.len() - i,
    {
        proof {
            assert(id_names(ids@)[i as int] == ids@[i as int]@);
            assert(id_names(ids@).to_set().contains(ids@[i as int]@));
            assert(graph_names(*graph).to_set().contains(ids@[i as int]@));
            let w = choose|w: int| 0 <= w < graph_names(*graph).len() && graph_names(*graph)[w] == ids@[i as int]@;
            assert(graph.node_entries()[w].0@ == ids@[i as int]@);
        }
        match graph.get_node(&ids[i]) {
            Some(node) => {
                let desc = &node.module_descriptor;
                let mut params: Vec<(String, ParameterValue)> = Vec::new();
                let mut q: usize = 0;
                while q < node.parameter_map.len()
                    invariant
                        q <= node.parameter_map@.len(),
                        params@.len() == q,
                        forall|t: int| 0 <= t < q ==> #[trigger] param_models(params@)[t] == node.parameter_map@[t],
                    decreases node.parameter_map@.len() - q,
                {
                    let (k, v) = node.parameter_map.entry(q);
                    let ghost before = params@;
                    params.push((k.clone(), v.duplicate()));
                    proof {
                        assert forall|t: int| 0 <= t < q + 1 implies #[trigger] param_models(params@)[t] == node.parameter_map@[t] by {
                            assert(param_models(params@)[t] == (params@[t].0@, params@[t].1@));
                            if t < q {
                                assert(params@[t] == before[t]);
                                assert(param_models(before)[t] == (before[t].0@, before[t].1@));
                            }
                        }
                    }
                    q = q + 1;
                }
                assert(param_models(params@) =~= node.parameter_map@);
                nodes.push(
                    (
                        ids[i].as_str().to_owned(),
                        NodeRecord {
                            module: desc.module_name.to_owned(),
                            channels: desc.shape.channels,
                            length: desc.shape.length,
                            params,
                        },
                    ),
                );
            },
            None => {},
        }
        i = i + 1;
    }
    proof {
        assert(nodes@.map_values(|e: (String, NodeRecord)| e.0@) =~= id_names(ids@));
        assert forall|a: int, b: int| 0 <= a < b < nodes@.len() implies text_lt(nodes@[a].0@, nodes@[b].0@) by {
            assert(text_lt(ids@[a]@, ids@[b]@));
        }
    }
    let edges = graph.edge_list();
    let mut cables: Vec<CableDoc> = Vec::new();
    let mut k: usize = 0;
    while k < edges.len()
        invariant
            k <= edges@.len(),
            edges@.len() == graph.edge_models().len(),
            forall|i: int|
                0 <= i < edges@.len() ==> {
                    let m = #[trigger] graph.edge_models()[i];
                    &&& edges@[i].0@ == m.from
                    &&& edges@[i].1@ == m.output_name
                    &&& edges@[i].2 == m.output_index
                    &&& edges@[i].3@ == m.to
                    &&& edges@[i].4@ == m.input_name
                    &&& edges@[i].5 == m.input_index
                    &&& edges@[i].6 == m.scale
                },
            cables@.len() == k,
            forall|i: int| 0 <= i < k ==> #[trigger] cable_model(cables@[i]) == edge_cable(graph.edge_models()[i]),
        decreases edges@.len() - k,
    {
        let e = &edges[k];
        let ghost m = graph.edge_models()[k as int];
        cables.push(
            CableDoc {
                from: e.0.as_str().to_owned(),
                output: encode_port(e.1.as_str(), e.2),
                to: e.3.as_str().to_owned(),
                input: encode_port(e.4.as_str(), e.5),
                scale: e.6,
            },
        );
        k = k + 1;
    }
    proof {
        assert(cable_models(cables@) =~= graph.edge_models().map_values(|e: EdgeModel| edge_cable(e)));
    }
    let sorted = sort_cables(cables);
    GraphRecord { nodes, cables: sorted }
}

} // verus!
