//! Reading back the document written for a graph gives the graph back.
use vstd::prelude::*;

use crate::graph::{has_port, input_taken, inputs_driven_once, lemma_edges_anchored, port_kind, EdgeModel, ModuleGraph};
use crate::graph_doc::{
    cable_edge, cable_edges, cable_verdict, coerce_spec, decode_port_spec, declared_kind, described_models,
    first_cable_fault, first_node_fault, first_non_string, graph_built, built_as_described,
    lemma_port_reference_round_trip, model_desc, model_has, node_built, node_fault, params_outcome, slash_free,
    CableDoc, CableVerdict, GraphDoc, GraphYamlError, ParamFailure, YamlScalar,
};
use crate::graph_record::{
    cable_lt, cable_model, cable_models, cables_sorted, documents, edge_cable, param_models, CableModel, GraphRecord,
    NodeRecord,
};
use crate::planner::graph_names;
use crate::order::{lemma_names_sorted_unique, lemma_text_lt_asym, lemma_text_lt_total, names_sorted, text_lt};
use crate::modules::{ModuleDescriptor, ParameterKind, ValueModel};
use crate::parameter_map::{insert_model, names_distinct, position_of};

verus! {

/// Sequences with the same elements keep the same elements under a map.
proof fn lemma_map_multiset<A, B>(s1: Seq<A>, s2: Seq<A>, f: spec_fn(A) -> B)
    requires
        s1.to_multiset() == s2.to_multiset(),
    ensures
        s1.map_values(f).to_multiset() == s2.map_values(f).to_multiset(),
    decreases s1.len(),
{
    broadcast use vstd::seq_lib::group_to_multiset_ensures;

    if s1.len() == 0 {
        vstd::seq_lib::to_multiset_len(s1);
        vstd::seq_lib::to_multiset_len(s2);
        assert(s2.len() == 0);
        assert(s1.map_values(f) =~= Seq::<B>::empty());
        assert(s2.map_values(f) =~= Seq::<B>::empty());
    } else {
        let a = s1.last();
        assert(s1.to_multiset().count(a) > 0);
        assert(s2.contains(a));
        let i = s2.index_of(a);
        assert(s1.drop_last() == s1.remove(s1.len() - 1));
        vstd::seq_lib::to_multiset_remove(s1, s1.len() - 1);
        vstd::seq_lib::to_multiset_remove(s2, i);
        lemma_map_multiset(s1.drop_last(), s2.remove(i), f);
        let m1 = s1.map_values(f);
        let m2 = s2.map_values(f);
        assert(m1 =~= s1.drop_last().map_values(f).push(f(a)));
        assert(m1.to_multiset() == s1.drop_last().map_values(f).to_multiset().insert(f(a)));
        assert(m2.remove(i) =~= s2.remove(i).map_values(f));
        vstd::seq_lib::to_multiset_remove(m2, i);
        assert(m2[i] == f(a));
        assert(m2.to_multiset().count(f(a)) > 0);
        assert(m2.to_multiset() =~= m2.to_multiset().remove(f(a)).insert(f(a)));
    }
}

/// A sequence with the same elements as one without duplicates has none.
proof fn lemma_no_duplicates_by_multiset<A>(s1: Seq<A>, s2: Seq<A>)
    requires
        s1.to_multiset() == s2.to_multiset(),
        s1.no_duplicates(),
    ensures
        s2.no_duplicates(),
{
    s1.lemma_multiset_has_no_duplicates();
    s2.lemma_multiset_has_no_duplicates_conv();
}

// ── parameters ───────────────────────────────────────────────────────────────

/// `v` is a value that a parameter of kind `k` can hold: of the declared
/// type and, for an enum, one of its variants.
pub open spec fn value_fits(v: ValueModel, k: ParameterKind) -> bool {
    match k {
        ParameterKind::Float { .. } => v is Float,
        ParameterKind::Int { .. } => v is Int,
        ParameterKind::Bool { .. } => v is Bool,
        ParameterKind::Enum { variants, .. } => v matches ValueModel::Enum(t) && variants@.map_values(
            |x: &str| x@,
        ).contains(t),
        ParameterKind::Array { .. } => v is Array,
    }
}

/// Every parameter of `m` is declared by `desc` and fits its kind.
pub open spec fn params_fit(desc: ModuleDescriptor, m: Seq<(Seq<char>, ValueModel)>) -> bool {
    forall|j: int|
        0 <= j < m.len() ==> (declared_kind(desc, (#[trigger] m[j]).0) matches Some(k) && value_fits(m[j].1, k))
}

/// A document value that reads as `v`: the reading of its kind is `v`.
pub open spec fn scalar_reads(s: YamlScalar, v: ValueModel) -> bool {
    match v {
        ValueModel::Float(f) => s.float == Some(f),
        ValueModel::Int(i) => s.int == Some(i),
        ValueModel::Bool(b) => s.boolean == Some(b),
        ValueModel::Enum(t) => s.text matches Some(x) && x@ == t,
        ValueModel::Array(a) => s.items matches Some(items) && items@.len() == a.len() && forall|i: int|
            0 <= i < a.len() ==> (#[trigger] items@[i] matches Some(x) && x@ == a[i]),
    }
}

/// Document parameters `ps` read as the parameters `m`, in order.
pub open spec fn params_read(ps: Seq<(String, YamlScalar)>, m: Seq<(Seq<char>, ValueModel)>) -> bool {
    &&& ps.len() == m.len()
    &&& forall|j: int| 0 <= j < m.len() ==> (#[trigger] ps[j]).0@ == m[j].0 && scalar_reads(ps[j].1, m[j].1)
}

/// A value that reads as a value fitting its kind is coerced to it.
proof fn lemma_coerce_reads_back(s: YamlScalar, k: ParameterKind, name: Seq<char>, v: ValueModel)
    requires
        value_fits(v, k),
        scalar_reads(s, v),
    ensures
        coerce_spec(s, k, name) == Ok::<ValueModel, (Seq<char>, Seq<char>)>(v),
{
    match v {
        ValueModel::Array(a) => {
            let items = s.items->Some_0;
            assert(first_non_string(items@) is None) by {
                if exists|i: int| 0 <= i < items@.len() && items@[i] is None {
                    let i = choose|i: int| 0 <= i < items@.len() && items@[i] is None;
                    assert(items@[i] matches Some(x) && x@ == a[i]);
                }
            }
            assert(items@.map_values(|o: Option<String>| o->Some_0@) =~= a) by {
                assert forall|i: int| 0 <= i < a.len() implies items@.map_values(|o: Option<String>| o->Some_0@)[i]
                    == a[i] by {
                    assert(items@[i] matches Some(x) && x@ == a[i]);
                }
            }
        },
        _ => {},
    }
}

/// Reading back parameters that fit their declared kinds gives them back.
proof fn lemma_params_read_back(
    desc: ModuleDescriptor,
    ps: Seq<(String, YamlScalar)>,
    m: Seq<(Seq<char>, ValueModel)>,
    n: int,
)
    requires
        0 <= n <= m.len(),
        names_distinct(m),
        params_fit(desc, m),
        params_read(ps, m),
    ensures
        params_outcome(desc, ps, n) == Ok::<Seq<(Seq<char>, ValueModel)>, ParamFailure>(m.take(n)),
    decreases n,
{
    if n == 0 {
        assert(m.take(0) =~= Seq::<(Seq<char>, ValueModel)>::empty());
    } else {
        lemma_params_read_back(desc, ps, m, n - 1);
        let name = ps[n - 1].0@;
        assert(name == m[n - 1].0);
        let k = declared_kind(desc, m[n - 1].0)->Some_0;
        assert(declared_kind(desc, m[n - 1].0) matches Some(kk) && value_fits(m[n - 1].1, kk));
        lemma_coerce_reads_back(ps[n - 1].1, k, name, m[n - 1].1);
        let prefix = m.take(n - 1);
        assert(position_of(prefix, name) is None) by {
            if exists|i: int| 0 <= i < prefix.len() && prefix[i].0 == name {
                let i = choose|i: int| 0 <= i < prefix.len() && prefix[i].0 == name;
                assert(m[i].0 == m[n - 1].0);
            }
        }
        assert(insert_model(prefix, name, m[n - 1].1) =~= m.take(n));
    }
}

// ── nodes ────────────────────────────────────────────────────────────────────

/// Document `doc` reads as record `rec`: the same nodes, in order, with the
/// same modules, shapes and parameters, and the same cables.
pub open spec fn doc_reads(doc: GraphDoc, rec: GraphRecord) -> bool {
    &&& doc.nodes@.len() == rec.nodes@.len()
    &&& forall|i: int|
        0 <= i < rec.nodes@.len() ==> {
            let d = #[trigger] doc.nodes@[i];
            let r = rec.nodes@[i];
            &&& d.0@ == r.0@
            &&& d.1.module@ == r.1.module@
            &&& d.1.channels == r.1.channels
            &&& d.1.length == r.1.length
            &&& params_read(d.1.params@, param_models(r.1.params@))
        }
    &&& cable_models(doc.cables@) == cable_models(rec.cables@)
}

/// The descriptors that `g` holds for the nodes of `rec`, in order.
pub open spec fn record_descs(g: ModuleGraph, rec: GraphRecord) -> Seq<Option<ModuleDescriptor>> {
    Seq::new(rec.nodes@.len(), |i: int| Some(g.node_spec(rec.nodes@[i].0@).module_descriptor))
}

/// Every node's parameter map names each parameter once, and every
/// parameter is declared by the node's descriptor and fits its kind.
pub open spec fn graph_params_fit(g: ModuleGraph) -> bool {
    forall|i: int|
        0 <= i < g.node_entries().len() ==> {
            let node = (#[trigger] g.node_entries()[i]).1;
            &&& names_distinct(node.parameter_map@)
            &&& params_fit(node.module_descriptor, node.parameter_map@)
        }
}

/// Node `i` of a document that reads as the record of `g` can be added,
/// with the parameters the node has in `g`.
proof fn lemma_node_reads_back(g: ModuleGraph, rec: GraphRecord, doc: GraphDoc, i: int)
    requires
        g.wf(),
        documents(rec, g),
        doc_reads(doc, rec),
        graph_params_fit(g),
        0 <= i < doc.nodes@.len(),
    ensures
        node_fault(doc.nodes@, record_descs(g, rec), i) is None,
        params_outcome(
            g.node_spec(rec.nodes@[i].0@).module_descriptor,
            doc.nodes@[i].1.params@,
            doc.nodes@[i].1.params@.len() as int,
        ) == Ok::<Seq<(Seq<char>, ValueModel)>, ParamFailure>(g.node_spec(rec.nodes@[i].0@).parameter_map@),
{
    let name = rec.nodes@[i].0@;
    let node = g.node_spec(name);
    let d = doc.nodes@[i];
    assert(g.has_node(name));
    let t = g.node_index(name);
    assert(g.node_entries()[t].1 == node);
    let m = node.parameter_map@;
    assert(param_models(rec.nodes@[i].1.params@) == m);
    assert(params_read(d.1.params@, m));
    lemma_params_read_back(node.module_descriptor, d.1.params@, m, m.len() as int);
    assert(m.take(m.len() as int) =~= m);
    assert forall|j: int| 0 <= j < i implies doc.nodes@[j].0@ != doc.nodes@[i].0@ by {
        assert(text_lt(rec.nodes@[j].0@, rec.nodes@[i].0@));
        lemma_text_lt_asym(rec.nodes@[i].0@, rec.nodes@[i].0@);
        assert(doc.nodes@[j].0@ == rec.nodes@[j].0@);
    }
}

/// No node of a document that reads as the record of `g` has a fault.
proof fn lemma_no_node_fault(g: ModuleGraph, rec: GraphRecord, doc: GraphDoc, n: int)
    requires
        g.wf(),
        documents(rec, g),
        doc_reads(doc, rec),
        graph_params_fit(g),
        0 <= n <= doc.nodes@.len(),
    ensures
        first_node_fault(doc.nodes@, record_descs(g, rec), n) is None,
    decreases n,
{
    if n > 0 {
        lemma_no_node_fault(g, rec, doc, n - 1);
        lemma_node_reads_back(g, rec, doc, n - 1);
    }
}

// ── cables ───────────────────────────────────────────────────────────────────

/// Every edge's port references read back as written: a port name holds no
/// `/` wherever its index is 0.
pub open spec fn ports_encodable(g: ModuleGraph) -> bool {
    forall|k: int|
        0 <= k < g.edge_models().len() ==> {
            let e = #[trigger] g.edge_models()[k];
            &&& e.output_index != 0 || slash_free(e.output_name)
            &&& e.input_index != 0 || slash_free(e.input_name)
        }
}

/// The edge that a cable with content `c` becomes.
pub open spec fn model_edge(c: CableModel) -> EdgeModel {
    let (on, oi) = decode_port_spec(c.1)->Some_0;
    let (inn, ii) = decode_port_spec(c.3)->Some_0;
    EdgeModel { from: c.0, output_name: on, output_index: oi, to: c.2, input_name: inn, input_index: ii, scale: c.4 }
}

/// Some edge of `ge` is written as the cable with content `c`.
pub open spec fn written_by(ge: Seq<EdgeModel>, c: CableModel) -> bool {
    exists|t: int| 0 <= t < ge.len() && edge_cable(ge[t]) == c
}

/// The input an edge drives.
pub open spec fn input_key(e: EdgeModel) -> (Seq<char>, Seq<char>, u32) {
    (e.to, e.input_name, e.input_index)
}

/// The cables of a document that reads as the record of `g` become `g`'s
/// edges, in some order, and drive distinct inputs.
proof fn lemma_cable_edges_permute(g: ModuleGraph, rec: GraphRecord, doc: GraphDoc)
    requires
        g.wf(),
        documents(rec, g),
        doc_reads(doc, rec),
        ports_encodable(g),
    ensures
        cable_edges(doc.cables@).to_multiset() == g.edge_models().to_multiset(),
        cable_edges(doc.cables@).map_values(|e: EdgeModel| input_key(e)).no_duplicates(),
        forall|k: int| 0 <= k < doc.cables@.len() ==> written_by(g.edge_models(), cable_model(#[trigger] doc.cables@[k])),
{
    broadcast use vstd::seq_lib::group_to_multiset_ensures;

    let ge = g.edge_models();
    let written = ge.map_values(|e: EdgeModel| edge_cable(e));
    let models = cable_models(doc.cables@);
    assert(models.to_multiset() == written.to_multiset());
    lemma_map_multiset(models, written, |c: CableModel| model_edge(c));
    assert(models.map_values(|c: CableModel| model_edge(c)) =~= cable_edges(doc.cables@));
    assert(written.map_values(|c: CableModel| model_edge(c)) =~= ge) by {
        assert forall|t: int| 0 <= t < ge.len() implies written.map_values(|c: CableModel| model_edge(c))[t]
            == ge[t] by {
            let e = ge[t];
            assert(e.output_index != 0 || slash_free(e.output_name));
            assert(e.input_index != 0 || slash_free(e.input_name));
            lemma_port_reference_round_trip(e.output_name, e.output_index);
            lemma_port_reference_round_trip(e.input_name, e.input_index);
        }
    }
    lemma_map_multiset(cable_edges(doc.cables@), ge, |e: EdgeModel| input_key(e));
    assert(ge.map_values(|e: EdgeModel| input_key(e)).no_duplicates()) by {
        let keys = ge.map_values(|e: EdgeModel| input_key(e));
        assert forall|a: int, b: int| 0 <= a < keys.len() && 0 <= b < keys.len() && a != b implies keys[a]
            != keys[b] by {
            assert(inputs_driven_once(ge));
        }
    }
    lemma_no_duplicates_by_multiset(
        ge.map_values(|e: EdgeModel| input_key(e)),
        cable_edges(doc.cables@).map_values(|e: EdgeModel| input_key(e)),
    );
    assert forall|k: int| 0 <= k < doc.cables@.len() implies written_by(ge, cable_model(#[trigger] doc.cables@[k])) by {
        assert(models[k] == cable_model(doc.cables@[k]));
        assert(models.to_multiset().count(models[k]) > 0);
        assert(written.contains(models[k]));
        let t = choose|t: int| 0 <= t < written.len() && written[t] == models[k];
        assert(written[t] == edge_cable(ge[t]));
    }
}

/// The node models of a document that reads as the record of `g`, with the
/// descriptors `g` holds, are `g`'s nodes.
proof fn lemma_record_models(g: ModuleGraph, rec: GraphRecord, doc: GraphDoc)
    requires
        documents(rec, g),
        doc_reads(doc, rec),
    ensures
        forall|id: Seq<char>|
            #[trigger] model_has(described_models(doc.nodes@, record_descs(g, rec)), id) == g.has_node(id),
        forall|id: Seq<char>|
            g.has_node(id) ==> #[trigger] model_desc(described_models(doc.nodes@, record_descs(g, rec)), id)
                == g.node_spec(id).module_descriptor,
{
    let m = described_models(doc.nodes@, record_descs(g, rec));
    let ids = rec.nodes@.map_values(|e: (String, NodeRecord)| e.0@);
    assert forall|id: Seq<char>| #[trigger] model_has(m, id) == g.has_node(id) by {
        if g.has_node(id) {
            let t = g.node_index(id);
            assert(graph_names(g)[t] == id);
            assert(graph_names(g).to_set().contains(id));
            assert(ids.to_set().contains(id));
            let i = choose|i: int| 0 <= i < ids.len() && ids[i] == id;
            assert(doc.nodes@[i].0@ == rec.nodes@[i].0@);
            assert(m[i].0 == id);
        }
        if model_has(m, id) {
            let i = choose|i: int| 0 <= i < m.len() && m[i].0 == id;
            assert(doc.nodes@[i].0@ == rec.nodes@[i].0@);
            assert(g.has_node(rec.nodes@[i].0@));
        }
    }
    assert forall|id: Seq<char>| g.has_node(id) implies #[trigger] model_desc(m, id) == g.node_spec(id).module_descriptor by {
        assert(model_has(m, id));
        let j = choose|j: int| 0 <= j < m.len() && m[j].0 == id;
        assert(doc.nodes@[j].0@ == rec.nodes@[j].0@);
    }
}

/// Each cable of a document that reads as the record of `g` connects, after
/// the cables before it.
#[verifier::spinoff_prover]
proof fn lemma_cable_connects(g: ModuleGraph, rec: GraphRecord, doc: GraphDoc, k: int)
    requires
        g.wf(),
        documents(rec, g),
        doc_reads(doc, rec),
        ports_encodable(g),
        0 <= k < doc.cables@.len(),
    ensures
        cable_verdict(
            described_models(doc.nodes@, record_descs(g, rec)),
            cable_edges(doc.cables@.take(k)),
            doc.cables@[k],
        ) == CableVerdict::Connects,
{
    let m = described_models(doc.nodes@, record_descs(g, rec));
    let ge = g.edge_models();
    let cable = doc.cables@[k];
    let t = lemma_cable_source_edge(g, rec, doc, k);
    let e = ge[t];
    lemma_cable_is_edge(g, cable, t);
    lemma_edge_fits_models(g, rec, doc, t);
    lemma_input_free(g, rec, doc, k, e);
    let before = cable_edges(doc.cables@.take(k));
    assert(cable_verdict(m, before, cable) == CableVerdict::Connects) by {
        reveal(cable_verdict);
    }
}

/// The edge of `g` that cable `k` of a document reading as `g`'s record was
/// written for.
proof fn lemma_cable_source_edge(g: ModuleGraph, rec: GraphRecord, doc: GraphDoc, k: int) -> (t: int)
    requires
        g.wf(),
        documents(rec, g),
        doc_reads(doc, rec),
        ports_encodable(g),
        0 <= k < doc.cables@.len(),
    ensures
        0 <= t < g.edge_models().len(),
        edge_cable(g.edge_models()[t]) == cable_model(doc.cables@[k]),
{
    lemma_cable_edges_permute(g, rec, doc);
    assert(written_by(g.edge_models(), cable_model(doc.cables@[k])));
    choose|t: int| 0 <= t < g.edge_models().len() && edge_cable(g.edge_models()[t]) == cable_model(doc.cables@[k])
}

/// Edge `t` of `g` fits the node models of a document reading as `g`'s
/// record.
proof fn lemma_edge_fits_models(g: ModuleGraph, rec: GraphRecord, doc: GraphDoc, t: int)
    requires
        g.wf(),
        documents(rec, g),
        doc_reads(doc, rec),
        0 <= t < g.edge_models().len(),
    ensures
        ({
            let m = described_models(doc.nodes@, record_descs(g, rec));
            let e = g.edge_models()[t];
            &&& model_has(m, e.from)
            &&& model_has(m, e.to)
            &&& has_port(model_desc(m, e.from).outputs@, e.output_name, e.output_index)
            &&& has_port(model_desc(m, e.to).inputs@, e.input_name, e.input_index)
            &&& port_kind(model_desc(m, e.from).outputs@, e.output_name, e.output_index) == port_kind(
                model_desc(m, e.to).inputs@,
                e.input_name,
                e.input_index,
            )
            &&& e.scale.is_unit_scale()
        }),
{
    lemma_edges_anchored(g);
    lemma_record_models(g, rec, doc);
    let e = g.edge_models()[t];
    assert(g.has_node(e.from));
    assert(g.has_node(e.to));
}

/// No earlier cable of a document reading as `g`'s record drives the input
/// of cable `k`, which is edge `e`.
proof fn lemma_input_free(g: ModuleGraph, rec: GraphRecord, doc: GraphDoc, k: int, e: EdgeModel)
    requires
        g.wf(),
        documents(rec, g),
        doc_reads(doc, rec),
        ports_encodable(g),
        0 <= k < doc.cables@.len(),
        cable_edge(doc.cables@[k]) == e,
    ensures
        !input_taken(cable_edges(doc.cables@.take(k)), e.to, e.input_name, e.input_index),
{
    let ce = cable_edges(doc.cables@);
    lemma_cable_edges_permute(g, rec, doc);
    let before = cable_edges(doc.cables@.take(k));
    assert(before =~= ce.take(k));
    assert(ce[k] == e);
    if input_taken(before, e.to, e.input_name, e.input_index) {
        let j = choose|j: int|
            0 <= j < before.len() && before[j].to == e.to && before[j].input_name == e.input_name
                && before[j].input_index == e.input_index;
        let keys = ce.map_values(|x: EdgeModel| input_key(x));
        assert(keys[j] == input_key(ce[j]));
        assert(keys[k] == input_key(ce[k]));
        assert(keys[j] == keys[k]);
    }
}

/// A cable written for edge `t` of `g` reads back as that edge.
proof fn lemma_cable_is_edge(g: ModuleGraph, cable: CableDoc, t: int)
    requires
        ports_encodable(g),
        0 <= t < g.edge_models().len(),
        edge_cable(g.edge_models()[t]) == cable_model(cable),
    ensures
        decode_port_spec(cable.output@) == Some((g.edge_models()[t].output_name, g.edge_models()[t].output_index)),
        decode_port_spec(cable.input@) == Some((g.edge_models()[t].input_name, g.edge_models()[t].input_index)),
        cable_edge(cable) == g.edge_models()[t],
{
    let e = g.edge_models()[t];
    assert(e.output_index != 0 || slash_free(e.output_name));
    assert(e.input_index != 0 || slash_free(e.input_name));
    lemma_port_reference_round_trip(e.output_name, e.output_index);
    lemma_port_reference_round_trip(e.input_name, e.input_index);
}

/// No cable of a document that reads as the record of `g` has a fault.
proof fn lemma_no_cable_fault(g: ModuleGraph, rec: GraphRecord, doc: GraphDoc, n: int)
    requires
        g.wf(),
        documents(rec, g),
        doc_reads(doc, rec),
        ports_encodable(g),
        0 <= n <= doc.cables@.len(),
    ensures
        first_cable_fault(described_models(doc.nodes@, record_descs(g, rec)), doc.cables@, n) is None,
    decreases n,
{
    if n > 0 {
        lemma_no_cable_fault(g, rec, doc, n - 1);
        lemma_cable_connects(g, rec, doc, n - 1);
    }
}

// ── the round trip ───────────────────────────────────────────────────────────

/// `h` has the nodes of `g`, each with the same descriptor and parameters,
/// and the same edges, in some order.
pub open spec fn same_graph(h: ModuleGraph, g: ModuleGraph) -> bool {
    &&& forall|id: Seq<char>| #[trigger] h.has_node(id) == g.has_node(id)
    &&& forall|id: Seq<char>|
        g.has_node(id) ==> {
            &&& (#[trigger] h.node_spec(id)).module_descriptor == g.node_spec(id).module_descriptor
            &&& h.node_spec(id).parameter_map@ == g.node_spec(id).parameter_map@
        }
    &&& h.edge_models().to_multiset() == g.edge_models().to_multiset()
}

/// Reading back the document written for a graph gives the graph back.
///
/// Let `rec` be the document [`graph_to_doc`](crate::graph_record::graph_to_doc)
/// writes for `g`, and `doc` a document that reads as `rec` (same nodes,
/// modules, shapes and cables, each parameter value readable as the value
/// written). Building `doc` as [`graph_from_described`](crate::graph_doc::graph_from_described)
/// does, with the descriptors `g` holds for its nodes, succeeds and gives a
/// graph with `g`'s nodes, descriptors and parameters and `g`'s edges. This
/// holds when every parameter is declared by its node's descriptor and fits
/// its kind, and when no port name with index 0 contains `/`.
pub proof fn lemma_document_round_trip(
    g: ModuleGraph,
    rec: GraphRecord,
    doc: GraphDoc,
    r: Result<ModuleGraph, GraphYamlError>,
)
    requires
        g.wf(),
        graph_params_fit(g),
        ports_encodable(g),
        documents(rec, g),
        doc_reads(doc, rec),
        built_as_described(doc, record_descs(g, rec), r),
    ensures
        r matches Ok(h) && same_graph(h, g),
{
    let descs = record_descs(g, rec);
    let m = described_models(doc.nodes@, descs);
    lemma_no_node_fault(g, rec, doc, doc.nodes@.len() as int);
    lemma_no_cable_fault(g, rec, doc, doc.cables@.len() as int);
    lemma_record_models(g, rec, doc);
    lemma_cable_edges_permute(g, rec, doc);
    let h = r->Ok_0;
    assert(graph_built(h, doc, descs));
    assert forall|id: Seq<char>| #[trigger] h.has_node(id) == g.has_node(id) by {
        assert(model_has(m, id) == g.has_node(id));
        if h.has_node(id) {
            let i = choose|i: int| 0 <= i < h.node_entries().len() && h.node_entries()[i].0@ == id;
            assert(node_built(h, doc.nodes@, i, descs[i]->Some_0));
            assert(m[i].0 == id);
        }
        if model_has(m, id) {
            let i = choose|i: int| 0 <= i < m.len() && m[i].0 == id;
            assert(node_built(h, doc.nodes@, i, descs[i]->Some_0));
            assert(h.node_entries()[i].0@ == id);
        }
    }
    assert forall|id: Seq<char>| g.has_node(id) implies {
        &&& (#[trigger] h.node_spec(id)).module_descriptor == g.node_spec(id).module_descriptor
        &&& h.node_spec(id).parameter_map@ == g.node_spec(id).parameter_map@
    } by {
        assert(h.has_node(id));
        let j = h.node_index(id);
        assert(node_built(h, doc.nodes@, j, descs[j]->Some_0));
        assert(doc.nodes@[j].0@ == rec.nodes@[j].0@);
        assert(rec.nodes@[j].0@ == id);
        lemma_node_reads_back(g, rec, doc, j);
    }
}

// ── equal graphs, equal documents ────────────────────────────────────────────

/// The destination and input port of a cable.
pub open spec fn cable_input(c: CableModel) -> (Seq<char>, Seq<char>) {
    (c.2, c.3)
}

/// Two cables neither of which sorts before the other have the same
/// source, output, destination and input.
proof fn lemma_cable_lt_total(a: CableModel, b: CableModel)
    requires
        !cable_lt(a, b),
        !cable_lt(b, a),
    ensures
        a.0 == b.0 && a.1 == b.1 && a.2 == b.2 && a.3 == b.3,
{
    if a.0 != b.0 {
        lemma_text_lt_total(a.0, b.0);
    } else if a.1 != b.1 {
        lemma_text_lt_total(a.1, b.1);
    } else if a.2 != b.2 {
        lemma_text_lt_total(a.2, b.2);
    } else if a.3 != b.3 {
        lemma_text_lt_total(a.3, b.3);
    }
}

/// Sorted cable lists with the same cables, driving distinct inputs, are
/// equal.
proof fn lemma_cables_sorted_unique(s1: Seq<CableModel>, s2: Seq<CableModel>)
    requires
        cables_sorted(s1),
        cables_sorted(s2),
        s1.to_multiset() == s2.to_multiset(),
        s1.map_values(|c: CableModel| cable_input(c)).no_duplicates(),
    ensures
        s1 == s2,
    decreases s1.len(),
{
    broadcast use vstd::seq_lib::group_to_multiset_ensures;

    vstd::seq_lib::to_multiset_len(s1);
    vstd::seq_lib::to_multiset_len(s2);
    if s1.len() == 0 {
        assert(s1 =~= s2);
    } else {
        let n = s1.len() - 1;
        let x = s1[n];
        let y = s2[n];
        assert(s1.to_multiset().count(x) > 0);
        assert(s2.contains(x));
        assert(s2.to_multiset().count(y) > 0);
        assert(s1.contains(y));
        if x != y {
            let i = choose|i: int| 0 <= i < s1.len() && s1[i] == y;
            let j = choose|j: int| 0 <= j < s2.len() && s2[j] == x;
            assert(i != n && j != n);
            assert(!cable_lt(x, y));
            assert(!cable_lt(y, x));
            lemma_cable_lt_total(x, y);
            let m = s1.map_values(|c: CableModel| cable_input(c));
            assert(m[i] == m[n]);
            assert(false);
        }
        vstd::seq_lib::to_multiset_remove(s1, n);
        vstd::seq_lib::to_multiset_remove(s2, n);
        assert(s1.remove(n) =~= s1.drop_last());
        assert(s2.remove(n) =~= s2.drop_last());
        let m1 = s1.drop_last().map_values(|c: CableModel| cable_input(c));
        let m = s1.map_values(|c: CableModel| cable_input(c));
        assert forall|a: int, b: int| 0 <= a < m1.len() && 0 <= b < m1.len() && a != b implies m1[a] != m1[b] by {
            assert(m1[a] == m[a] && m1[b] == m[b]);
        }
        lemma_cables_sorted_unique(s1.drop_last(), s2.drop_last());
        assert(s1 =~= s2.drop_last().push(y));
        assert(s2 =~= s2.drop_last().push(y));
    }
}

/// The names of a document's nodes, in order.
pub open spec fn record_names(rec: GraphRecord) -> Seq<Seq<char>> {
    rec.nodes@.map_values(|e: (String, NodeRecord)| e.0@)
}

/// Equal graphs give equal documents: when `g1` and `g2` have the same
/// nodes, each with the same descriptor and parameters, and the same edges
/// in any order, the documents written for them list the same nodes with
/// the same modules, shapes and parameters, and the same cables in the same
/// order. This holds when no port name with index 0 contains `/` (else two
/// inputs of a node could be written alike and their cables sorted either
/// way).
pub proof fn lemma_equal_graphs_equal_documents(g1: ModuleGraph, g2: ModuleGraph, r1: GraphRecord, r2: GraphRecord)
    requires
        g1.wf(),
        ports_encodable(g1),
        same_graph(g2, g1),
        documents(r1, g1),
        documents(r2, g2),
    ensures
        record_names(r1) == record_names(r2),
        forall|i: int|
            0 <= i < r1.nodes@.len() ==> {
                &&& (#[trigger] r1.nodes@[i]).1.module@ == r2.nodes@[i].1.module@
                &&& r1.nodes@[i].1.channels == r2.nodes@[i].1.channels
                &&& r1.nodes@[i].1.length == r2.nodes@[i].1.length
                &&& param_models(r1.nodes@[i].1.params@) == param_models(r2.nodes@[i].1.params@)
            },
        cable_models(r1.cables@) == cable_models(r2.cables@),
{
    // nodes: the same names, sorted
    let n1 = record_names(r1);
    let n2 = record_names(r2);
    assert(graph_names(g1).to_set() =~= graph_names(g2).to_set()) by {
        assert forall|id: Seq<char>| graph_names(g1).to_set().contains(id) <==> graph_names(g2).to_set().contains(id) by {
            if graph_names(g1).contains(id) {
                let e = choose|e: int| 0 <= e < graph_names(g1).len() && graph_names(g1)[e] == id;
                assert(g1.node_entries()[e].0@ == id);
                assert(g1.has_node(id));
                assert(g2.has_node(id));
                let f = choose|f: int| 0 <= f < g2.node_entries().len() && g2.node_entries()[f].0@ == id;
                assert(graph_names(g2)[f] == id);
            }
            if graph_names(g2).contains(id) {
                let e = choose|e: int| 0 <= e < graph_names(g2).len() && graph_names(g2)[e] == id;
                assert(g2.node_entries()[e].0@ == id);
                assert(g2.has_node(id));
                assert(g1.has_node(id));
                let f = choose|f: int| 0 <= f < g1.node_entries().len() && g1.node_entries()[f].0@ == id;
                assert(graph_names(g1)[f] == id);
            }
        }
    }
    assert(names_sorted(n1)) by {
        assert forall|i: int, j: int| 0 <= i < j < n1.len() implies text_lt(n1[i], n1[j]) by {
            assert(text_lt(r1.nodes@[i].0@, r1.nodes@[j].0@));
        }
    }
    assert(names_sorted(n2)) by {
        assert forall|i: int, j: int| 0 <= i < j < n2.len() implies text_lt(n2[i], n2[j]) by {
            assert(text_lt(r2.nodes@[i].0@, r2.nodes@[j].0@));
        }
    }
    lemma_names_sorted_unique(n1, n2);
    assert forall|i: int| 0 <= i < r1.nodes@.len() implies {
        &&& (#[trigger] r1.nodes@[i]).1.module@ == r2.nodes@[i].1.module@
        &&& r1.nodes@[i].1.channels == r2.nodes@[i].1.channels
        &&& r1.nodes@[i].1.length == r2.nodes@[i].1.length
        &&& param_models(r1.nodes@[i].1.params@) == param_models(r2.nodes@[i].1.params@)
    } by {
        assert(n1[i] == n2[i]);
        let id = r1.nodes@[i].0@;
        assert(r2.nodes@[i].0@ == id);
        assert(g1.has_node(id));
        assert(g2.node_spec(id).module_descriptor == g1.node_spec(id).module_descriptor);
    }
    // cables: the same cables, sorted, each input driven once
    let ge1 = g1.edge_models();
    let ge2 = g2.edge_models();
    let w1 = ge1.map_values(|e: EdgeModel| edge_cable(e));
    let w2 = ge2.map_values(|e: EdgeModel| edge_cable(e));
    let s1 = cable_models(r1.cables@);
    let s2 = cable_models(r2.cables@);
    lemma_map_multiset(ge2, ge1, |e: EdgeModel| edge_cable(e));
    assert(s1.to_multiset() == s2.to_multiset());
    let wi = w1.map_values(|c: CableModel| cable_input(c));
    assert(wi.no_duplicates()) by {
        assert forall|a: int, b: int| 0 <= a < wi.len() && 0 <= b < wi.len() && a != b implies wi[a] != wi[b] by {
            let ea = ge1[a];
            let eb = ge1[b];
            assert(ea.input_index != 0 || slash_free(ea.input_name));
            assert(eb.input_index != 0 || slash_free(eb.input_name));
            lemma_port_reference_round_trip(ea.input_name, ea.input_index);
            lemma_port_reference_round_trip(eb.input_name, eb.input_index);
            assert(inputs_driven_once(ge1));
        }
    }
    lemma_map_multiset(w1, s1, |c: CableModel| cable_input(c));
    lemma_no_duplicates_by_multiset(wi, s1.map_values(|c: CableModel| cable_input(c)));
    lemma_cables_sorted_unique(s1, s2);
}

} // verus!
