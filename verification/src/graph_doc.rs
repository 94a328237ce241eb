//! The document form of a module graph, as written to and read from YAML:
//! port references, parameter coercion, and conversion between graphs and
//! documents.
use vstd::prelude::*;
use vstd::string::{StrSliceExecFns, StringExecFns};

use crate::float_bits::FloatBits;
use crate::graph::{
    find_port, has_port, input_taken, port_kind, ConnectOutcome, EdgeModel, GraphError, ModuleGraph, Node, NodeId,
};
use crate::modules::PortRef;
use crate::modules::{ModuleDescriptor, ModuleShape, ParameterKind, ParameterValue, ValueModel};
use crate::parameter_map::{insert_model, ParameterMap};
use crate::text::{decimal, decimal_text, port_label, port_label_spec};

verus! {

/// Errors from turning a graph document into a graph.
#[derive(Debug)]
pub enum GraphYamlError {
    /// No module builder is known for the named module type.
    UnknownModule { name: String },
    /// A cable references a node id that is not among the nodes.
    UnknownNode { id: String },
    /// A parameter name is not declared by the module's descriptor.
    UnknownParameter { node: String, param: String },
    /// A parameter value cannot be coerced to the declared type.
    ParameterTypeMismatch { node: String, param: String, expected: &'static str },
    /// A port reference is malformed (e.g. `"in/abc"`).
    InvalidPortRef { port: String },
    /// A graph construction operation failed.
    Graph(GraphError),
}

// ── port references ──────────────────────────────────────────────────────────

/// The text of port `(name, index)`: `name` when the index is 0, otherwise
/// `name/index`.
pub open spec fn encode_port_spec(name: Seq<char>, index: u32) -> Seq<char> {
    if index == 0 {
        name
    } else {
        port_label_spec(name, index)
    }
}

/// Encodes `(name, index)` as `"name"` when index is 0, or `"name/index"`
/// otherwise.
pub fn encode_port(name: &str, index: u32) -> (r: String)
    ensures
        r@ == encode_port_spec(name@, index),
{
    if index == 0 {
        name.to_owned()
    } else {
        port_label(name, index)
    }
}

/// The position of the last `/` in `s`.
pub open spec fn last_slash(s: Seq<char>) -> Option<int>
    decreases s.len(),
{
    if s.len() == 0 {
        None
    } else if s.last() == '/' {
        Some(s.len() - 1)
    } else {
        last_slash(s.drop_last())
    }
}

/// `c` is an ASCII decimal digit.
pub open spec fn is_digit(c: char) -> bool {
    '0' <= c <= '9'
}

/// The value of the decimal digits `t`.
pub open spec fn digits_value(t: Seq<char>) -> int
    decreases t.len(),
{
    if t.len() == 0 {
        0
    } else {
        digits_value(t.drop_last()) * 10 + (t.last() as int - '0' as int)
    }
}

/// `t` without a leading `+`.
pub open spec fn number_body(t: Seq<char>) -> Seq<char> {
    if t.len() > 0 && t[0] == '+' {
        t.drop_first()
    } else {
        t
    }
}

/// How `u32`'s `FromStr` reads `t`: an optional `+`, then one or more
/// decimal digits whose value fits in a `u32`.
pub open spec fn parse_u32_spec(t: Seq<char>) -> Option<u32> {
    let body = number_body(t);
    if body.len() > 0 && (forall|i: int| 0 <= i < body.len() ==> is_digit(#[trigger] body[i])) && digits_value(body)
        <= u32::MAX {
        Some(digits_value(body) as u32)
    } else {
        None
    }
}

/// A longer run of digits is worth at least as much as its prefix.
proof fn lemma_digits_monotone(t: Seq<char>, k: int)
    requires
        0 <= k <= t.len(),
        forall|i: int| 0 <= i < t.len() ==> is_digit(#[trigger] t[i]),
    ensures
        0 <= digits_value(t.take(k)) <= digits_value(t),
    decreases t.len() - k,
{
    if k < t.len() {
        lemma_digits_monotone(t, k + 1);
        assert(t.take(k + 1).drop_last() =~= t.take(k));
        assert(t.take(k + 1).last() == t[k]);
    } else {
        assert(t.take(k) =~= t);
    }
    lemma_digits_nonneg(t);
}

proof fn lemma_digits_nonneg(t: Seq<char>)
    requires
        forall|i: int| 0 <= i < t.len() ==> is_digit(#[trigger] t[i]),
    ensures
        digits_value(t) >= 0,
    decreases t.len(),
{
    if t.len() > 0 {
        let d = t.drop_last();
        assert forall|i: int| 0 <= i < d.len() implies is_digit(#[trigger] d[i]) by {
            assert(d[i] == t[i]);
        }
        lemma_digits_nonneg(d);
        assert(is_digit(t[t.len() - 1]));
    }
}

/// Parses `t` as `u32`'s `FromStr` does.
pub fn parse_u32(t: &str) -> (r: Option<u32>)
    ensures
        r == parse_u32_spec(t@),
{
    let n = t.unicode_len();
    let mut start: usize = 0;
    if n > 0 && t.get_char(0) == '+' {
        start = 1;
    }
    let ghost body = number_body(t@);
    assert(body =~= t@.subrange(start as int, n as int));
    if start == n {
        return None;
    }
    let mut acc: u64 = 0;
    let mut i: usize = start;
    while i < n
        invariant
            start <= i <= n,
            n == t@.len(),
            start < n,
            body == t@.subrange(start as int, n as int),
            body == number_body(t@),
            forall|k: int| 0 <= k < i - start ==> is_digit(#[trigger] body[k]),
            acc == digits_value(body.take(i - start)),
            acc <= u32::MAX,
        decreases n - i,
    {
        let c = t.get_char(i);
        if !('0' <= c && c <= '9') {
            proof {
                assert(body[i - start] == c);
                assert(!is_digit(body[i - start]));
            }
            return None;
        }
        let d = (c as u32 - '0' as u32) as u64;
        proof {
            assert(body[i - start] == c);
            assert(body.take(i - start + 1).drop_last() =~= body.take(i - start));
            assert(body.take(i - start + 1).last() == c);
        }
        let next = acc * 10 + d;
        if next > 0xffff_ffffu64 {
            proof {
                assert(next == digits_value(body.take(i - start + 1)));
                assert(parse_u32_spec(t@) is None) by {
                    if forall|k: int| 0 <= k < body.len() ==> is_digit(#[trigger] body[k]) {
                        lemma_digits_monotone(body, i - start + 1);
                        assert(digits_value(body) > u32::MAX);
                    }
                }
            }
            return None;
        }
        acc = next;
        i = i + 1;
    }
    proof {
        assert(body.take(n - start) =~= body);
    }
    Some(acc as u32)
}

/// Decodes `"name"` as `("name", 0)` and `"name/n"` (split at the last `/`)
/// as `("name", n)`; [`GraphYamlError::InvalidPortRef`] when `n` is not a
/// `u32`.
pub fn decode_port(s: &str) -> (r: Result<(&str, u32), GraphYamlError>)
    ensures
        match last_slash(s@) {
            None => r matches Ok((name, index)) && name@ == s@ && index == 0,
            Some(p) => match parse_u32_spec(s@.subrange(p + 1, s@.len() as int)) {
                Some(n) => r matches Ok((name, index)) && name@ == s@.subrange(0, p) && index == n,
                None => r matches Err(GraphYamlError::InvalidPortRef { port }) && port@ == s@,
            },
        },
{
    let n = s.unicode_len();
    let mut i: usize = n;
    proof {
        assert(s@.take(n as int) =~= s@);
    }
    while i > 0
        invariant
            i <= n,
            n == s@.len(),
            last_slash(s@) == last_slash(s@.take(i as int)),
        decreases i,
    {
        let c = s.get_char(i - 1);
        if c == '/' {
            proof {
                assert(s@.take(i as int).last() == '/');
            }
            let rest = s.substring_char(i, n);
            let name = s.substring_char(0, i - 1);
            return match parse_u32(rest) {
                Some(index) => Ok((name, index)),
                None => Err(GraphYamlError::InvalidPortRef { port: s.to_owned() }),
            };
        }
        proof {
            assert(s@.take(i as int).drop_last() =~= s@.take(i - 1));
        }
        i = i - 1;
    }
    proof {
        assert(s@.take(0) =~= Seq::<char>::empty());
    }
    Ok((s, 0))
}

// ── parameter values ─────────────────────────────────────────────────────────

/// What a YAML value offers to parameter coercion: its reading as each kind
/// of scalar, and its items when it is a sequence.
pub struct YamlScalar {
    /// The value as a float, when it is a number.
    pub float: Option<FloatBits>,
    /// The value as an integer, when it is an integer that fits an `i64`.
    pub int: Option<i64>,
    /// The value, when it is a boolean.
    pub boolean: Option<bool>,
    /// The value, when it is a string.
    pub text: Option<String>,
    /// When the value is a sequence: each item's text, `None` for an item
    /// that is not a string.
    pub items: Option<Vec<Option<String>>>,
}

/// The position of the first item that is not a string.
pub open spec fn first_non_string(items: Seq<Option<String>>) -> Option<int> {
    if exists|i: int| 0 <= i < items.len() && items[i] is None {
        Some(choose|i: int| 0 <= i < items.len() && items[i] is None && forall|k: int| 0 <= k < i ==> items[k] is Some)
    } else {
        None
    }
}

/// The name under which an array item is reported: `param[i]`.
pub open spec fn item_name(param: Seq<char>, i: int) -> Seq<char> {
    param + "["@ + decimal(i as nat) + "]"@
}

/// `e` reports that parameter `param` of node `node` is not of the
/// `expected` type.
pub open spec fn is_mismatch(e: GraphYamlError, node: Seq<char>, param: Seq<char>, expected: Seq<char>) -> bool {
    e matches GraphYamlError::ParameterTypeMismatch { node: n, param: p, expected: x } && n@ == node && p@ == param
        && x@ == expected
}

/// The error reporting that `param` of `node` is not of the `expected` type.
pub fn mismatch(node: &str, param: &str, expected: &'static str) -> (r: GraphYamlError)
    ensures
        is_mismatch(r, node@, param@, expected@),
{
    GraphYamlError::ParameterTypeMismatch { node: node.to_owned(), param: param.to_owned(), expected }
}

/// The value that coercion gives `value` for a parameter of kind `k` named
/// `param`, or the name to report and the expected type.
pub open spec fn coerce_spec(value: YamlScalar, k: ParameterKind, param: Seq<char>) -> Result<
    ValueModel,
    (Seq<char>, Seq<char>),
> {
    match k {
        ParameterKind::Float { .. } => match value.float {
            Some(f) => Ok(ValueModel::Float(f)),
            None => Err((param, "float"@)),
        },
        ParameterKind::Int { .. } => match value.int {
            Some(i) => Ok(ValueModel::Int(i)),
            None => Err((param, "int"@)),
        },
        ParameterKind::Bool { .. } => match value.boolean {
            Some(b) => Ok(ValueModel::Bool(b)),
            None => Err((param, "bool"@)),
        },
        ParameterKind::Enum { variants, .. } => match value.text {
            Some(t) => if variants@.map_values(|s: &str| s@).contains(t@) {
                Ok(ValueModel::Enum(t@))
            } else {
                Err((param, "known enum variant"@))
            },
            None => Err((param, "string"@)),
        },
        ParameterKind::Array { .. } => match value.items {
            Some(items) => match first_non_string(items@) {
                Some(i) => Err((item_name(param, i), "string"@)),
                None => Ok(ValueModel::Array(items@.map_values(|o: Option<String>| o->Some_0@))),
            },
            None => Err((param, "sequence"@)),
        },
    }
}

/// Coerces a YAML value to the parameter type declared by `kind`:
///
/// - floats and integers take the value's numeric reading;
/// - booleans must be booleans;
/// - enums must be strings naming a declared variant;
/// - arrays must be sequences of strings (the first item that is not a
///   string is reported as `param[i]`).
///
/// A value of the wrong shape gives [`GraphYamlError::ParameterTypeMismatch`]
/// naming the expected type.
pub fn coerce_param(value: &YamlScalar, kind: &ParameterKind, node_id: &str, param_name: &str) -> (r: Result<
    ParameterValue,
    GraphYamlError,
>)
    ensures
        match coerce_spec(*value, *kind, param_name@) {
            Ok(v) => r matches Ok(x) && x@ == v,
            Err((p, x)) => r matches Err(e) && is_mismatch(e, node_id@, p, x),
        },
{
    proof {
        reveal_strlit("float");
        reveal_strlit("int");
        reveal_strlit("bool");
        reveal_strlit("string");
        reveal_strlit("known enum variant");
        reveal_strlit("sequence");
    }
    match kind {
        ParameterKind::Float { .. } => match value.float {
            Some(f) => Ok(ParameterValue::Float(f)),
            None => Err(mismatch(node_id, param_name, "float")),
        },
        ParameterKind::Int { .. } => match value.int {
            Some(i) => Ok(ParameterValue::Int(i)),
            None => Err(mismatch(node_id, param_name, "int")),
        },
        ParameterKind::Bool { .. } => match value.boolean {
            Some(b) => Ok(ParameterValue::Bool(b)),
            None => Err(mismatch(node_id, param_name, "bool")),
        },
        ParameterKind::Enum { variants, .. } => match &value.text {
            Some(t) => {
                let mut k: usize = 0;
                while k < variants.len()
                    invariant
                        k <= variants@.len(),
                        *kind matches ParameterKind::Enum { variants: vs, .. } && vs == *variants,
                        value.text matches Some(tt) && tt@ == t@,
                        forall|q: int| 0 <= q < k ==> variants@[q]@ != t@,
                    decreases variants@.len() - k,
                {
                    if crate::modules::str_equal(variants[k], t.as_str()) {
                        proof {
                            assert(variants@.map_values(|s: &str| s@)[k as int] == t@);
                        }
                        return Ok(ParameterValue::Enum(variants[k]));
                    }
                    k = k + 1;
                }
                proof {
                    let names = variants@.map_values(|s: &str| s@);
                    assert forall|q: int| 0 <= q < names.len() implies #[trigger] names[q] != t@ by {
                        assert(names[q] == variants@[q]@);
                    }
                }
                Err(mismatch(node_id, param_name, "known enum variant"))
            },
            None => Err(mismatch(node_id, param_name, "string")),
        },
        ParameterKind::Array { .. } => match &value.items {
            Some(items) => {
                let mut out: Vec<String> = Vec::new();
                let mut i: usize = 0;
                while i < items.len()
                    invariant
                        i <= items@.len(),
                        *kind is Array,
                        value.items matches Some(its) && its@ == items@,
                        out@.len() == i,
                        forall|k: int| 0 <= k < i ==> items@[k] is Some && out@[k]@ == items@[k]->Some_0@,
                    decreases items@.len() - i,
                {
                    match &items[i] {
                        Some(s) => {
                            out.push(s.clone());
                        },
                        None => {
                            let mut name = param_name.to_owned();
                            name.append("[");
                            let digits = decimal_text(i);
                            name.append(digits.as_str());
                            name.append("]");
                            proof {
                                reveal_strlit("string");
                                reveal_strlit("[");
                                reveal_strlit("]");
                                assert(name@ =~= item_name(param_name@, i as int));
                                let w = choose|w: int| 0 <= w < items@.len() && items@[w] is None && forall|k: int| 0 <= k < w ==> items@[k] is Some;
                                assert(w == i) by {
                                    if w < i {
                                        assert(items@[w] is Some);
                                    } else if w > i {
                                        assert(items@[i as int] is Some);
                                    }
                                }
                            }
                            return Err(mismatch(node_id, name.as_str(), "string"));
                        },
                    }
                    i = i + 1;
                }
                proof {
                    assert(crate::modules::texts(out@) =~= items@.map_values(|o: Option<String>| o->Some_0@));
                }
                Ok(ParameterValue::Array(out))
            },
            None => Err(mismatch(node_id, param_name, "sequence")),
        },
    }
}

// ── documents ────────────────────────────────────────────────────────────────

/// How `decode_port` reads a port reference: `(name, index)`, or `None`
/// when the text after the last `/` is not a `u32`.
pub open spec fn decode_port_spec(s: Seq<char>) -> Option<(Seq<char>, u32)> {
    match last_slash(s) {
        None => Some((s, 0)),
        Some(p) => match parse_u32_spec(s.subrange(p + 1, s.len() as int)) {
            Some(n) => Some((s.subrange(0, p), n)),
            None => None,
        },
    }
}

/// A cable of a graph document. Ports are written `"name"` (index 0) or
/// `"name/n"`.
pub struct CableDoc {
    pub from: String,
    pub output: String,
    pub to: String,
    pub input: String,
    /// The scale; a document that omits it means `1.0`.
    pub scale: FloatBits,
}

/// The ids and descriptors of a graph's nodes, in order.
pub open spec fn node_models(entries: Seq<(NodeId, Node)>) -> Seq<(Seq<char>, ModuleDescriptor)> {
    entries.map_values(|e: (NodeId, Node)| (e.0@, e.1.module_descriptor))
}

/// Some node of `m` has id `id`.
pub open spec fn model_has(m: Seq<(Seq<char>, ModuleDescriptor)>, id: Seq<char>) -> bool {
    exists|i: int| 0 <= i < m.len() && m[i].0 == id
}

/// The descriptor of the node of `m` with id `id` (meaningful when
/// `model_has`).
pub open spec fn model_desc(m: Seq<(Seq<char>, ModuleDescriptor)>, id: Seq<char>) -> ModuleDescriptor {
    m[choose|i: int| 0 <= i < m.len() && m[i].0 == id].1
}

/// What connecting a document cable does, in the order its steps are
/// taken.
pub ghost enum CableVerdict {
    /// The output reference is malformed.
    OutputRef,
    /// The input reference is malformed.
    InputRef,
    /// The source node does not exist.
    NoSource,
    /// The source node has no such output port.
    NoOutput,
    /// The destination node does not exist.
    NoDestination,
    /// The destination node has no such input port.
    NoInput,
    /// The scale is not finite or not in `[-1.0, 1.0]`.
    Scale,
    /// The output and the input carry different kinds of cable.
    Kind,
    /// The input already has a driver.
    Taken,
    /// The cable is connected.
    Connects,
}

/// The verdict on connecting `cable` where the nodes are `m` and the edges
/// `edges`.
#[verifier::opaque]
pub open spec fn cable_verdict(m: Seq<(Seq<char>, ModuleDescriptor)>, edges: Seq<EdgeModel>, cable: CableDoc) -> CableVerdict {
    match (decode_port_spec(cable.output@), decode_port_spec(cable.input@)) {
        (None, _) => CableVerdict::OutputRef,
        (Some(_), None) => CableVerdict::InputRef,
        (Some((on, oi)), Some((inn, ii))) => if !model_has(m, cable.from@) {
            CableVerdict::NoSource
        } else if !has_port(model_desc(m, cable.from@).outputs@, on, oi) {
            CableVerdict::NoOutput
        } else if !model_has(m, cable.to@) {
            CableVerdict::NoDestination
        } else if !has_port(model_desc(m, cable.to@).inputs@, inn, ii) {
            CableVerdict::NoInput
        } else if !cable.scale.is_unit_scale() {
            CableVerdict::Scale
        } else if port_kind(model_desc(m, cable.from@).outputs@, on, oi) != port_kind(
            model_desc(m, cable.to@).inputs@,
            inn,
            ii,
        ) {
            CableVerdict::Kind
        } else if input_taken(edges, cable.to@, inn, ii) {
            CableVerdict::Taken
        } else {
            CableVerdict::Connects
        },
    }
}

/// `e` is the error reported for `cable` when the verdict is `v`.
#[verifier::opaque]
pub open spec fn reports_cable(e: GraphYamlError, cable: CableDoc, v: CableVerdict) -> bool {
    let (on, oi) = decode_port_spec(cable.output@)->Some_0;
    let (inn, ii) = decode_port_spec(cable.input@)->Some_0;
    match v {
        CableVerdict::OutputRef => e matches GraphYamlError::InvalidPortRef { port } && port@ == cable.output@,
        CableVerdict::InputRef => e matches GraphYamlError::InvalidPortRef { port } && port@ == cable.input@,
        CableVerdict::NoSource => e matches GraphYamlError::UnknownNode { id } && id@ == cable.from@,
        CableVerdict::NoOutput => e matches GraphYamlError::Graph(GraphError::OutputPortNotFound { node, port })
            && node@ == cable.from@ && port@ == cable.output@,
        CableVerdict::NoDestination => e matches GraphYamlError::UnknownNode { id } && id@ == cable.to@,
        CableVerdict::NoInput => e matches GraphYamlError::Graph(GraphError::InputPortNotFound { node, port })
            && node@ == cable.to@ && port@ == cable.input@,
        CableVerdict::Scale => e matches GraphYamlError::Graph(GraphError::ScaleOutOfRange(s)) && s == cable.scale,
        CableVerdict::Kind => e matches GraphYamlError::Graph(
            GraphError::CableKindMismatch { from: f, output: o, to: t, input: i },
        ) && f@ == cable.from@ && o@ == port_label_spec(on, oi) && t@ == cable.to@ && i@ == port_label_spec(inn, ii),
        CableVerdict::Taken => e matches GraphYamlError::Graph(GraphError::InputAlreadyConnected { node, port })
            && node@ == cable.to@ && port@ == port_label_spec(inn, ii),
        CableVerdict::Connects => false,
    }
}

/// In a graph, looking a node up in its models agrees with looking it up
/// in the graph.
proof fn lemma_models_lookup(g: ModuleGraph, id: Seq<char>)
    requires
        g.wf(),
    ensures
        model_has(node_models(g.node_entries()), id) == g.has_node(id),
        g.has_node(id) ==> model_desc(node_models(g.node_entries()), id) == g.node_spec(id).module_descriptor,
{
    let m = node_models(g.node_entries());
    if g.has_node(id) {
        let i = g.node_index(id);
        assert(m[i].0 == id);
        let j = choose|j: int| 0 <= j < m.len() && m[j].0 == id;
        assert(g.node_entries()[j].0@ == id);
        assert(i == j);
    }
    if model_has(m, id) {
        let j = choose|j: int| 0 <= j < m.len() && m[j].0 == id;
        assert(g.node_entries()[j].0@ == id);
    }
}

/// Connects `cable` in `graph`.
///
/// Both port references are decoded first; then the source node and its
/// output port, and the destination node and its input port, are looked
/// up; finally the connection is made as [`ModuleGraph::connect`] makes it
/// (scale, then the cable kinds, then the input's driver). The first
/// failing step determines the error; on success the cable's edge is
/// appended.
#[verifier::spinoff_prover]
pub fn connect_cable(graph: &mut ModuleGraph, cable: &CableDoc) -> (r: Result<(), GraphYamlError>)
    ensures
        final(graph).node_entries() == old(graph).node_entries(),
        ({
            let v = cable_verdict(node_models(old(graph).node_entries()), old(graph).edge_models(), *cable);
            if v == CableVerdict::Connects {
                r is Ok && final(graph).edge_models() == old(graph).edge_models().push(cable_edge(*cable))
            } else {
                (r matches Err(e) && reports_cable(e, *cable, v)) && final(graph).edge_models()
                    == old(graph).edge_models()
            }
        }),
{
    proof {
        use_type_invariant(&*graph);
    }
    let ghost g = *graph;
    let (output, input) = match resolve_cable_ports(graph, cable) {
        Ok(x) => x,
        Err(e) => {
            return Err(e);
        },
    };
    proof {
        lemma_connect_agrees(g, *cable, output, input);
    }
    match graph.connect(&NodeId::new(cable.from.as_str()), output, &NodeId::new(cable.to.as_str()), input, cable.scale) {
        Ok(()) => Ok(()),
        Err(e) => {
            proof {
                reveal(reports_cable);
            }
            Err(GraphYamlError::Graph(e))
        },
    }
}

/// Decodes a cable's port references and finds its ports in the graph: the
/// ports to connect, or the error of the first step that fails.
fn resolve_cable_ports(graph: &ModuleGraph, cable: &CableDoc) -> (r: Result<(PortRef, PortRef), GraphYamlError>)
    ensures
        ({
            let v = cable_verdict(node_models(graph.node_entries()), graph.edge_models(), *cable);
            r matches Err(e) ==> v != CableVerdict::Connects && reports_cable(e, *cable, v)
        }),
        r matches Err(_) ==> {
            let v = cable_verdict(node_models(graph.node_entries()), graph.edge_models(), *cable);
            &&& v != CableVerdict::Scale
            &&& v != CableVerdict::Kind
            &&& v != CableVerdict::Taken
        },
        r matches Ok((output, input)) ==> {
            &&& decode_port_spec(cable.output@) == Some((output.name@, output.index))
            &&& decode_port_spec(cable.input@) == Some((input.name@, input.index))
            &&& graph.has_node(cable.from@)
            &&& has_port(graph.node_spec(cable.from@).module_descriptor.outputs@, output.name@, output.index)
            &&& graph.has_node(cable.to@)
            &&& has_port(graph.node_spec(cable.to@).module_descriptor.inputs@, input.name@, input.index)
        },
{
    proof {
        use_type_invariant(graph);
        lemma_models_lookup(*graph, cable.from@);
        lemma_models_lookup(*graph, cable.to@);
    }
    let (out_name, out_idx) = match decode_port(cable.output.as_str()) {
        Ok(x) => x,
        Err(e) => {
            proof {
                reveal(cable_verdict);
                reveal(reports_cable);
            }
            return Err(e);
        },
    };
    let (in_name, in_idx) = match decode_port(cable.input.as_str()) {
        Ok(x) => x,
        Err(e) => {
            proof {
                reveal(cable_verdict);
                reveal(reports_cable);
            }
            return Err(e);
        },
    };
    let from_id = NodeId::new(cable.from.as_str());
    let to_id = NodeId::new(cable.to.as_str());
    let output_port_name = match graph.get_node(&from_id) {
        None => {
            proof {
                reveal(cable_verdict);
                reveal(reports_cable);
            }
            return Err(GraphYamlError::UnknownNode { id: cable.from.clone() });
        },
        Some(node) => match find_port(&node.module_descriptor.outputs, out_name, out_idx) {
            Some(p) => node.module_descriptor.outputs[p].name,
            None => {
                proof {
                    reveal(cable_verdict);
                    reveal(reports_cable);
                }
                return Err(
                    GraphYamlError::Graph(GraphError::OutputPortNotFound { node: from_id, port: cable.output.clone() }),
                );
            },
        },
    };
    let input_port_name = match graph.get_node(&to_id) {
        None => {
            proof {
                reveal(cable_verdict);
                reveal(reports_cable);
            }
            return Err(GraphYamlError::UnknownNode { id: cable.to.clone() });
        },
        Some(node) => match find_port(&node.module_descriptor.inputs, in_name, in_idx) {
            Some(p) => node.module_descriptor.inputs[p].name,
            None => {
                proof {
                    reveal(cable_verdict);
                    reveal(reports_cable);
                }
                return Err(
                    GraphYamlError::Graph(GraphError::InputPortNotFound { node: to_id, port: cable.input.clone() }),
                );
            },
        },
    };
    Ok((PortRef { name: output_port_name, index: out_idx }, PortRef { name: input_port_name, index: in_idx }))
}

/// Once both ports are found, the verdict on a cable is what connecting
/// them in the graph decides.
proof fn lemma_connect_agrees(g: ModuleGraph, cable: CableDoc, output: PortRef, input: PortRef)
    requires
        g.wf(),
        decode_port_spec(cable.output@) == Some((output.name@, output.index)),
        decode_port_spec(cable.input@) == Some((input.name@, input.index)),
        g.has_node(cable.from@),
        has_port(g.node_spec(cable.from@).module_descriptor.outputs@, output.name@, output.index),
        g.has_node(cable.to@),
        has_port(g.node_spec(cable.to@).module_descriptor.inputs@, input.name@, input.index),
    ensures
        ({
            let v = cable_verdict(node_models(g.node_entries()), g.edge_models(), cable);
            let o = g.connect_outcome(cable.from@, output, cable.to@, input, cable.scale);
            &&& (o == ConnectOutcome::ScaleOutOfRange) == (v == CableVerdict::Scale)
            &&& (o == ConnectOutcome::KindMismatch) == (v == CableVerdict::Kind)
            &&& (o == ConnectOutcome::InputTaken) == (v == CableVerdict::Taken)
            &&& (o == ConnectOutcome::Connected) == (v == CableVerdict::Connects)
            &&& cable_edge(cable) == EdgeModel {
                from: cable.from@,
                output_name: output.name@,
                output_index: output.index,
                to: cable.to@,
                input_name: input.name@,
                input_index: input.index,
                scale: cable.scale,
            }
        }),
{
    reveal(cable_verdict);
    lemma_models_lookup(g, cable.from@);
    lemma_models_lookup(g, cable.to@);
}

/// The kind of the first parameter of `desc` named `name`.
pub open spec fn declared_kind(desc: ModuleDescriptor, name: Seq<char>) -> Option<ParameterKind> {
    if exists|j: int| 0 <= j < desc.parameters@.len() && desc.parameters@[j].name@ == name {
        Some(
            desc.parameters@[choose|j: int|
                0 <= j < desc.parameters@.len() && desc.parameters@[j].name@ == name && forall|q: int|
                    0 <= q < j ==> desc.parameters@[q].name@ != name].parameter_type,
        )
    } else {
        None
    }
}

/// Why a document node's parameters could not be read.
pub ghost enum ParamFailure {
    /// A parameter name that the descriptor does not declare.
    Unknown(Seq<char>),
    /// A value of the wrong shape: the name reported and the expected type.
    Mismatch(Seq<char>, Seq<char>),
}

/// The parameter map read from the first `n` document parameters `ps`
/// against `desc`, or the first failure.
pub open spec fn params_outcome(desc: ModuleDescriptor, ps: Seq<(String, YamlScalar)>, n: int) -> Result<
    Seq<(Seq<char>, ValueModel)>,
    ParamFailure,
>
    decreases n,
{
    if n <= 0 {
        Ok(Seq::empty())
    } else {
        match params_outcome(desc, ps, n - 1) {
            Err(f) => Err(f),
            Ok(m) => {
                let name = ps[n - 1].0@;
                match declared_kind(desc, name) {
                    None => Err(ParamFailure::Unknown(name)),
                    Some(k) => match coerce_spec(ps[n - 1].1, k, name) {
                        Err((p, x)) => Err(ParamFailure::Mismatch(p, x)),
                        Ok(v) => Ok(insert_model(m, name, v)),
                    },
                }
            },
        }
    }
}

proof fn lemma_params_failure_stable(desc: ModuleDescriptor, ps: Seq<(String, YamlScalar)>, k: int, n: int)
    requires
        k <= n,
        params_outcome(desc, ps, k) is Err,
    ensures
        params_outcome(desc, ps, n) == params_outcome(desc, ps, k),
    decreases n - k,
{
    if k < n {
        lemma_params_failure_stable(desc, ps, k, n - 1);
    }
}

/// `e` reports failure `f` for node `node`.
pub open spec fn reports_param_failure(e: GraphYamlError, node: Seq<char>, f: ParamFailure) -> bool {
    match f {
        ParamFailure::Unknown(name) => e matches GraphYamlError::UnknownParameter { node: n, param } && n@ == node
            && param@ == name,
        ParamFailure::Mismatch(p, x) => is_mismatch(e, node, p, x),
    }
}

/// Reads the parameters of document node `node_id` against `desc`, in
/// order: each name must be declared, and its value is coerced to the
/// declared type. The first failure is reported.
pub fn read_params(desc: &ModuleDescriptor, node_id: &str, params: &Vec<(String, YamlScalar)>) -> (r: Result<
    ParameterMap,
    GraphYamlError,
>)
    ensures
        match params_outcome(*desc, params@, params@.len() as int) {
            Ok(m) => r matches Ok(pm) && pm@ == m,
            Err(f) => r matches Err(e) && reports_param_failure(e, node_id@, f),
        },
{
    let mut out = ParameterMap::new();
    let mut i: usize = 0;
    while i < params.len()
        invariant
            i <= params@.len(),
            params_outcome(*desc, params@, i as int) == Ok::<Seq<(Seq<char>, ValueModel)>, ParamFailure>(out@),
        decreases params@.len() - i,
    {
        let name = &params[i].0;
        let mut j: usize = 0;
        let mut found: Option<usize> = None;
        while j < desc.parameters.len() && found.is_none()
            invariant
                j <= desc.parameters@.len(),
                found is None ==> forall|q: int| 0 <= q < j ==> desc.parameters@[q].name@ != name@,
                found matches Some(f) ==> f < desc.parameters@.len() && desc.parameters@[f as int].name@ == name@
                    && forall|q: int| 0 <= q < f ==> desc.parameters@[q].name@ != name@,
            decreases desc.parameters@.len() - j,
        {
            if crate::modules::str_equal(desc.parameters[j].name, name.as_str()) {
                found = Some(j);
            }
            j = j + 1;
        }
        match found {
            None => {
                proof {
                    assert(declared_kind(*desc, name@) is None);
                    lemma_params_failure_stable(*desc, params@, i as int + 1, params@.len() as int);
                }
                return Err(GraphYamlError::UnknownParameter { node: node_id.to_owned(), param: name.clone() });
            },
            Some(f) => {
                proof {
                    let c = choose|q: int|
                        0 <= q < desc.parameters@.len() && desc.parameters@[q].name@ == name@ && forall|w: int|
                            0 <= w < q ==> desc.parameters@[w].name@ != name@;
                    assert(c == f as int) by {
                        if c < f {
                        } else if c > f {
                        }
                    }
                    assert(declared_kind(*desc, name@) == Some(desc.parameters@[f as int].parameter_type));
                }
                let kind = &desc.parameters[f].parameter_type;
                match coerce_param(&params[i].1, kind, node_id, name.as_str()) {
                    Ok(v) => {
                        out.insert(name.clone(), v);
                    },
                    Err(e) => {
                        proof {
                            lemma_params_failure_stable(*desc, params@, i as int + 1, params@.len() as int);
                        }
                        return Err(e);
                    },
                }
            },
        }
        i = i + 1;
    }
    Ok(out)
}

/// A node of a graph document.
pub struct NodeDoc {
    /// The module type name.
    pub module: String,
    /// The shape's channel count (a document that omits it means `0`).
    pub channels: usize,
    /// The shape's length (a document that omits it means `0`).
    pub length: usize,
    /// The parameters, in document order.
    pub params: Vec<(String, YamlScalar)>,
}

/// A graph document: nodes under their ids, and cables.
pub struct GraphDoc {
    pub nodes: Vec<(String, NodeDoc)>,
    pub cables: Vec<CableDoc>,
}

/// The edge that `cable` becomes when connected.
pub open spec fn cable_edge(cable: CableDoc) -> EdgeModel {
    let (on, oi) = decode_port_spec(cable.output@)->Some_0;
    let (inn, ii) = decode_port_spec(cable.input@)->Some_0;
    EdgeModel {
        from: cable.from@,
        output_name: on,
        output_index: oi,
        to: cable.to@,
        input_name: inn,
        input_index: ii,
        scale: cable.scale,
    }
}

/// Why a document node cannot be added.
pub ghost enum NodeFault {
    /// No descriptor was found for its module and shape.
    NoModule,
    /// Its parameters could not be read.
    Params(ParamFailure),
    /// An earlier node has the same id.
    Duplicate,
}

/// The fault of node `i` of `nodes`, whose descriptor lookup gave
/// `descs[i]`; `None` when it can be added.
pub open spec fn node_fault(nodes: Seq<(String, NodeDoc)>, descs: Seq<Option<ModuleDescriptor>>, i: int) -> Option<
    NodeFault,
> {
    match descs[i] {
        None => Some(NodeFault::NoModule),
        Some(d) => match params_outcome(d, nodes[i].1.params@, nodes[i].1.params@.len() as int) {
            Err(f) => Some(NodeFault::Params(f)),
            Ok(_) => if exists|j: int| 0 <= j < i && nodes[j].0@ == nodes[i].0@ {
                Some(NodeFault::Duplicate)
            } else {
                None
            },
        },
    }
}

/// The first of the first `n` nodes that cannot be added, with its fault.
pub open spec fn first_node_fault(nodes: Seq<(String, NodeDoc)>, descs: Seq<Option<ModuleDescriptor>>, n: int) -> Option<
    (int, NodeFault),
>
    decreases n,
{
    if n <= 0 {
        None
    } else {
        match first_node_fault(nodes, descs, n - 1) {
            Some(x) => Some(x),
            None => match node_fault(nodes, descs, n - 1) {
                Some(f) => Some((n - 1, f)),
                None => None,
            },
        }
    }
}

/// `e` is the error reported for `node` with fault `f`.
pub open spec fn reports_node_fault(e: GraphYamlError, node: (String, NodeDoc), f: NodeFault) -> bool {
    match f {
        NodeFault::NoModule => e matches GraphYamlError::UnknownModule { name } && name@ == node.1.module@,
        NodeFault::Params(pf) => reports_param_failure(e, node.0@, pf),
        NodeFault::Duplicate => e matches GraphYamlError::Graph(GraphError::DuplicateNodeId(d)) && d@ == node.0@,
    }
}

/// The ids and descriptors of document nodes, with their looked-up
/// descriptors.
pub open spec fn described_models(nodes: Seq<(String, NodeDoc)>, descs: Seq<Option<ModuleDescriptor>>) -> Seq<
    (Seq<char>, ModuleDescriptor),
> {
    Seq::new(nodes.len(), |i: int| (nodes[i].0@, descs[i]->Some_0))
}

/// The edges that `cables` become.
pub open spec fn cable_edges(cables: Seq<CableDoc>) -> Seq<EdgeModel> {
    cables.map_values(|c: CableDoc| cable_edge(c))
}

/// The first of the first `n` cables that cannot be connected, where the
/// nodes are `m` and the cables before it are connected, with its verdict.
pub open spec fn first_cable_fault(m: Seq<(Seq<char>, ModuleDescriptor)>, cables: Seq<CableDoc>, n: int) -> Option<
    (int, CableVerdict),
>
    decreases n,
{
    if n <= 0 {
        None
    } else {
        match first_cable_fault(m, cables, n - 1) {
            Some(x) => Some(x),
            None => {
                let v = cable_verdict(m, cable_edges(cables.take(n - 1)), cables[n - 1]);
                if v == CableVerdict::Connects {
                    None
                } else {
                    Some((n - 1, v))
                }
            },
        }
    }
}

proof fn lemma_first_node_fault_stable(
    nodes: Seq<(String, NodeDoc)>,
    descs: Seq<Option<ModuleDescriptor>>,
    k: int,
    n: int,
)
    requires
        k <= n,
        first_node_fault(nodes, descs, k) is Some,
    ensures
        first_node_fault(nodes, descs, n) == first_node_fault(nodes, descs, k),
    decreases n - k,
{
    if k < n {
        lemma_first_node_fault_stable(nodes, descs, k, n - 1);
    }
}

proof fn lemma_first_cable_fault_stable(m: Seq<(Seq<char>, ModuleDescriptor)>, cables: Seq<CableDoc>, k: int, n: int)
    requires
        k <= n,
        first_cable_fault(m, cables, k) is Some,
    ensures
        first_cable_fault(m, cables, n) == first_cable_fault(m, cables, k),
    decreases n - k,
{
    if k < n {
        lemma_first_cable_fault_stable(m, cables, k, n - 1);
    }
}

/// Node `i` of `g` is node `i` of the document, added with descriptor `d`
/// and its parameters read against `d`.
pub open spec fn node_built(g: ModuleGraph, nodes: Seq<(String, NodeDoc)>, i: int, d: ModuleDescriptor) -> bool {
    let nd = nodes[i].1;
    let e = g.node_entries()[i];
    &&& e.0@ == nodes[i].0@
    &&& e.1.module_descriptor == d
    &&& params_outcome(d, nd.params@, nd.params@.len() as int) == Ok::<Seq<(Seq<char>, ValueModel)>, ParamFailure>(
        e.1.parameter_map@,
    )
}

/// `g` has the document's nodes, in order, each added with its looked-up
/// descriptor and its parameters read against it, and the edges of all its
/// cables, in order.
pub open spec fn graph_built(g: ModuleGraph, doc: GraphDoc, descs: Seq<Option<ModuleDescriptor>>) -> bool {
    &&& g.node_entries().len() == doc.nodes@.len()
    &&& forall|i: int| 0 <= i < doc.nodes@.len() ==> #[trigger] node_built(g, doc.nodes@, i, descs[i]->Some_0)
    &&& g.edge_models() == cable_edges(doc.cables@)
}

/// `r` is what building `doc` with looked-up descriptors `descs` gives: the
/// error of the first node that cannot be added, else that of the first
/// cable that cannot be connected, else the built graph.
pub open spec fn built_as_described(
    doc: GraphDoc,
    descs: Seq<Option<ModuleDescriptor>>,
    r: Result<ModuleGraph, GraphYamlError>,
) -> bool {
    match first_node_fault(doc.nodes@, descs, doc.nodes@.len() as int) {
        Some((i, f)) => r matches Err(e) && reports_node_fault(e, doc.nodes@[i], f),
        None => match first_cable_fault(described_models(doc.nodes@, descs), doc.cables@, doc.cables@.len() as int) {
            Some((k, v)) => r matches Err(e) && reports_cable(e, doc.cables@[k], v),
            None => r matches Ok(g) && graph_built(g, doc, descs),
        },
    }
}

/// The fault of a node after faultless ones is the first fault.
proof fn lemma_first_fault_at(doc: GraphDoc, ds: Seq<Option<ModuleDescriptor>>, i: int, f: NodeFault)
    requires
        0 <= i < doc.nodes@.len(),
        first_node_fault(doc.nodes@, ds, i) is None,
        node_fault(doc.nodes@, ds, i) == Some(f),
    ensures
        first_node_fault(doc.nodes@, ds, doc.nodes@.len() as int) == Some((i, f)),
{
    assert(first_node_fault(doc.nodes@, ds, i + 1) == Some((i, f)));
    lemma_first_node_fault_stable(doc.nodes@, ds, i + 1, doc.nodes@.len() as int);
}

/// One more connected cable extends the edges by its edge.
proof fn lemma_cable_connected(m: Seq<(Seq<char>, ModuleDescriptor)>, cables: Seq<CableDoc>, k: int)
    requires
        0 <= k < cables.len(),
        first_cable_fault(m, cables, k) is None,
        cable_verdict(m, cable_edges(cables.take(k)), cables[k]) == CableVerdict::Connects,
    ensures
        first_cable_fault(m, cables, k + 1) is None,
        cable_edges(cables.take(k + 1)) == cable_edges(cables.take(k)).push(cable_edge(cables[k])),
{
    assert(cable_edges(cables.take(k + 1)) =~= cable_edges(cables.take(k)).push(cable_edge(cables[k])));
}

/// Adds the document's nodes, in order, with the looked-up descriptors: the
/// first node that cannot be added ends it with its error.
#[verifier::spinoff_prover]
fn add_doc_nodes(doc: &GraphDoc, descs: Vec<Option<ModuleDescriptor>>) -> (r: Result<ModuleGraph, GraphYamlError>)
    requires
        descs@.len() == doc.nodes@.len(),
    ensures
        match first_node_fault(doc.nodes@, descs@, doc.nodes@.len() as int) {
            Some((i, f)) => r matches Err(e) && reports_node_fault(e, doc.nodes@[i], f),
            None => r matches Ok(g) && {
                &&& g.node_entries().len() == doc.nodes@.len()
                &&& forall|k: int| 0 <= k < doc.nodes@.len() ==> #[trigger] node_built(g, doc.nodes@, k, descs@[k]->Some_0)
                &&& g.edge_models().len() == 0
            },
        },
{
    let ghost nodes = doc.nodes@;
    let ghost n = doc.nodes@.len() as int;
    let ghost ds = descs@;
    let mut slots = descs;
    let mut graph = ModuleGraph::new();
    let mut i: usize = 0;
    while i < doc.nodes.len()
        invariant
            i <= nodes.len(),
            nodes == doc.nodes@,
            n == nodes.len(),
            ds == descs@,
            ds.len() == nodes.len(),
            slots@.len() == nodes.len(),
            forall|k: int| i <= k < ds.len() ==> slots@[k] == ds[k],
            first_node_fault(nodes, ds, i as int) is None,
            graph.node_entries().len() == i,
            graph.edge_models().len() == 0,
            forall|k: int| 0 <= k < i ==> #[trigger] node_built(graph, nodes, k, ds[k]->Some_0),
        decreases nodes.len() - i,
    {
        let id = &doc.nodes[i].0;
        let nd = &doc.nodes[i].1;
        let ghost all = ds;
        let mut taken: Option<ModuleDescriptor> = None;
        std::mem::swap(&mut taken, &mut slots[i]);
        let desc = match taken {
            Some(d) => d,
            None => {
                let e = GraphYamlError::UnknownModule { name: nd.module.clone() };
                proof {
                    lemma_first_fault_at(*doc, all, i as int, NodeFault::NoModule);
                }
                return Err(e);
            },
        };
        let ghost d0 = desc;
        let params = match read_params(&desc, id.as_str(), &nd.params) {
            Ok(p) => p,
            Err(e) => {
                proof {
                    let f = params_outcome(d0, nd.params@, nd.params@.len() as int)->Err_0;
                    lemma_first_fault_at(*doc, all, i as int, NodeFault::Params(f));
                }
                return Err(e);
            },
        };
        let ghost before = graph;
        match graph.add_module(NodeId::from_string(id.clone()), desc, &params) {
            Ok(()) => {},
            Err(e) => {
                proof {
                    let j = choose|j: int| 0 <= j < before.node_entries().len() && before.node_entries()[j].0@ == id@;
                    assert(node_built(before, nodes, j, all[j]->Some_0));
                    assert(nodes[j].0@ == nodes[i as int].0@);
                    assert(node_fault(nodes, all, i as int) == Some(NodeFault::Duplicate));
                    lemma_first_fault_at(*doc, all, i as int, NodeFault::Duplicate);
                }
                return Err(GraphYamlError::Graph(e));
            },
        }
        proof {
            assert forall|j: int| 0 <= j < i implies nodes[j].0@ != nodes[i as int].0@ by {
                assert(node_built(before, nodes, j, all[j]->Some_0));
                assert(before.node_entries()[j].0@ == nodes[j].0@);
            }
            assert(node_fault(nodes, all, i as int) is None);
            assert(first_node_fault(nodes, all, i as int + 1) is None);
        }
        proof {
            assert forall|k: int| 0 <= k < i + 1 implies #[trigger] node_built(graph, nodes, k, ds[k]->Some_0) by {
                if k < i {
                    assert(node_built(before, nodes, k, all[k]->Some_0));
                    assert(graph.node_entries()[k] == before.node_entries()[k]);
                }
            }
        }
        i = i + 1;
    }
    Ok(graph)
}

/// Connects the document's cables, in order, in a graph without edges: the
/// first cable that cannot be connected ends it with its error.
#[verifier::spinoff_prover]
fn connect_doc_cables(graph: &mut ModuleGraph, doc: &GraphDoc) -> (r: Result<(), GraphYamlError>)
    requires
        old(graph).edge_models().len() == 0,
    ensures
        final(graph).node_entries() == old(graph).node_entries(),
        match first_cable_fault(node_models(old(graph).node_entries()), doc.cables@, doc.cables@.len() as int) {
            Some((k, v)) => r matches Err(e) && reports_cable(e, doc.cables@[k], v),
            None => r is Ok && final(graph).edge_models() == cable_edges(doc.cables@),
        },
{
    let ghost m = node_models(graph.node_entries());
    let ghost nodes_done = graph.node_entries();
    proof {
        assert(graph.edge_models() =~= cable_edges(doc.cables@.take(0)));
    }
    let mut k: usize = 0;
    while k < doc.cables.len()
        invariant
            k <= doc.cables@.len(),
            graph.node_entries() == nodes_done,
            node_models(nodes_done) == m,
            m == node_models(old(graph).node_entries()),
            nodes_done == old(graph).node_entries(),
            graph.edge_models() == cable_edges(doc.cables@.take(k as int)),
            first_cable_fault(m, doc.cables@, k as int) is None,
        decreases doc.cables@.len() - k,
    {
        let ghost before = graph.edge_models();
        let ghost v = cable_verdict(m, before, doc.cables@[k as int]);
        match connect_cable(graph, &doc.cables[k]) {
            Ok(()) => {},
            Err(e) => {
                proof {
                    assert(first_cable_fault(m, doc.cables@, k as int + 1) == Some((k as int, v)));
                    lemma_first_cable_fault_stable(m, doc.cables@, k as int + 1, doc.cables@.len() as int);
                }
                return Err(e);
            },
        }
        proof {
            lemma_cable_connected(m, doc.cables@, k as int);
        }
        k = k + 1;
    }
    proof {
        assert(doc.cables@.take(doc.cables@.len() as int) =~= doc.cables@);
    }
    Ok(())
}

/// Builds a graph from a document whose nodes' descriptors were looked up
/// as `descs` (`None` where no module was found): each node in order
/// ([`GraphYamlError::UnknownModule`] for a missing descriptor, then its
/// parameters, then [`GraphError::DuplicateNodeId`] for a repeated id), then
/// each cable in order, as [`connect_cable`] connects it. The first failure
/// is reported.
pub fn graph_from_described(doc: &GraphDoc, descs: Vec<Option<ModuleDescriptor>>) -> (r: Result<
    ModuleGraph,
    GraphYamlError,
>)
    requires
        descs@.len() == doc.nodes@.len(),
    ensures
        built_as_described(*doc, descs@, r),
{
    let ghost ds = descs@;
    let ghost n = doc.nodes@.len() as int;
    let mut graph = match add_doc_nodes(doc, descs) {
        Ok(g) => g,
        Err(e) => {
            return Err(e);
        },
    };
    let ghost m = described_models(doc.nodes@, ds);
    let ghost g0 = graph;
    proof {
        assert(node_models(graph.node_entries()) =~= m) by {
            assert forall|k: int| 0 <= k < n implies node_models(graph.node_entries())[k] == m[k] by {
                assert(node_built(graph, doc.nodes@, k, ds[k]->Some_0));
            }
        }
    }
    match connect_doc_cables(&mut graph, doc) {
        Ok(()) => {},
        Err(e) => {
            return Err(e);
        },
    }
    proof {
        assert forall|q: int| 0 <= q < n implies #[trigger] node_built(graph, doc.nodes@, q, ds[q]->Some_0) by {
            assert(node_built(g0, doc.nodes@, q, ds[q]->Some_0));
            assert(graph.node_entries()[q] == g0.node_entries()[q]);
        }
    }
    Ok(graph)
}

/// `d` is a result that `describe` may give for the module name and shape
/// of document node `nd`.
pub open spec fn described_by<F: Fn(&str, ModuleShape) -> Option<ModuleDescriptor>>(
    describe: F,
    nd: NodeDoc,
    d: Option<ModuleDescriptor>,
) -> bool {
    exists|m: &str|
        m@ == nd.module@ && #[trigger] describe.ensures((m, ModuleShape { channels: nd.channels, length: nd.length }), d)
}

/// Builds a graph from a document, looking each node's descriptor up with
/// `describe` (by module name and shape) and then building as
/// [`graph_from_described`] does with those descriptors.
pub fn graph_from_doc<F>(doc: &GraphDoc, describe: &F) -> (r: Result<ModuleGraph, GraphYamlError>) where
    F: Fn(&str, ModuleShape) -> Option<ModuleDescriptor>,
    requires
        forall|m: &str, s: ModuleShape| #[trigger] describe.requires((m, s)),
    ensures
        exists|descs: Seq<Option<ModuleDescriptor>>|
            {
                &&& descs.len() == doc.nodes@.len()
                &&& forall|i: int|
                    0 <= i < doc.nodes@.len() ==> #[trigger] described_by(*describe, doc.nodes@[i].1, descs[i])
                &&& built_as_described(*doc, descs, r)
            },
{
    let mut descs: Vec<Option<ModuleDescriptor>> = Vec::new();
    let mut i: usize = 0;
    while i < doc.nodes.len()
        invariant
            i <= doc.nodes@.len(),
            descs@.len() == i,
            forall|m: &str, s: ModuleShape| #[trigger] describe.requires((m, s)),
            forall|k: int| 0 <= k < i ==> #[trigger] described_by(*describe, doc.nodes@[k].1, descs@[k]),
        decreases doc.nodes@.len() - i,
    {
        let nd = &doc.nodes[i].1;
        let module = nd.module.as_str();
        let d = describe(module, ModuleShape { channels: nd.channels, length: nd.length });
        let ghost before = descs@;
        descs.push(d);
        proof {
            assert forall|k: int| 0 <= k < i + 1 implies #[trigger] described_by(*describe, doc.nodes@[k].1, descs@[k]) by {
                if k < i {
                    assert(descs@[k] == before[k]);
                } else {
                    assert(module@ == nd.module@);
                    assert(describe.ensures(
                        (module, ModuleShape { channels: nd.channels, length: nd.length }),
                        descs@[k],
                    ));
                }
            }
        }
        i = i + 1;
    }
    let ghost ds = descs@;
    let r = graph_from_described(doc, descs);
    proof {
        assert(ds.len() == doc.nodes@.len());
    }
    r
}

// ── the port reference round trip ───────────────────────────────────────────

/// The decimal text of `n` is made of digits and reads back as `n`.
proof fn lemma_decimal_reads_back(n: nat)
    ensures
        decimal(n).len() > 0,
        forall|i: int| 0 <= i < decimal(n).len() ==> is_digit(#[trigger] decimal(n)[i]),
        digits_value(decimal(n)) == n,
    decreases n,
{
    assert(crate::text::digit_char(n % 10) as int == n % 10 + 48);
    assert('0' as int == 48);
    if n < 10 {
        assert(n % 10 == n);
        assert(decimal(n).drop_last() =~= Seq::<char>::empty());
        assert(decimal(n).last() == crate::text::digit_char(n));
        assert(digits_value(Seq::<char>::empty()) == 0);
        assert(digits_value(decimal(n)) == digits_value(decimal(n).drop_last()) * 10 + (decimal(n).last() as int
            - '0' as int));
    } else {
        lemma_decimal_reads_back(n / 10);
        let d = decimal(n / 10);
        let s = decimal(n);
        assert(s == d.push(crate::text::digit_char(n % 10)));
        assert(s.drop_last() =~= d);
        assert(s.last() == crate::text::digit_char(n % 10));
        assert(digits_value(s) == digits_value(s.drop_last()) * 10 + (s.last() as int - '0' as int));
        assert(digits_value(s) == (n / 10) * 10 + n % 10);
        vstd::arithmetic::div_mod::lemma_fundamental_div_mod(n as int, 10);
        assert forall|i: int| 0 <= i < s.len() implies is_digit(#[trigger] s[i]) by {
            if i < d.len() {
                assert(s[i] == d[i]);
            }
        }
    }
}

/// A decimal text contains no `/`.
proof fn lemma_decimal_has_no_slash(n: nat)
    ensures
        forall|i: int| 0 <= i < decimal(n).len() ==> #[trigger] decimal(n)[i] != '/',
{
    lemma_decimal_reads_back(n);
    assert forall|i: int| 0 <= i < decimal(n).len() implies #[trigger] decimal(n)[i] != '/' by {
        assert(is_digit(decimal(n)[i]));
    }
}

/// The last `/` of `a + b`, when `b` has none, is the last of `a`.
proof fn lemma_last_slash_append(a: Seq<char>, b: Seq<char>)
    requires
        forall|i: int| 0 <= i < b.len() ==> #[trigger] b[i] != '/',
    ensures
        last_slash(a + b) == last_slash(a),
    decreases b.len(),
{
    if b.len() > 0 {
        assert((a + b).drop_last() =~= a + b.drop_last());
        assert((a + b).last() == b.last());
        assert(b.last() == b[b.len() - 1]);
        lemma_last_slash_append(a, b.drop_last());
    } else {
        assert(a + b =~= a);
    }
}

/// `s` contains no `/`.
pub open spec fn slash_free(s: Seq<char>) -> bool {
    forall|i: int| 0 <= i < s.len() ==> #[trigger] s[i] != '/'
}

/// A text without `/` has no last `/`.
proof fn lemma_no_slash(s: Seq<char>)
    requires
        slash_free(s),
    ensures
        last_slash(s) is None,
    decreases s.len(),
{
    if s.len() > 0 {
        assert(s.last() == s[s.len() - 1]);
        assert(slash_free(s.drop_last())) by {
            assert forall|i: int| 0 <= i < s.drop_last().len() implies #[trigger] s.drop_last()[i] != '/' by {
                assert(s.drop_last()[i] == s[i]);
            }
        }
        lemma_no_slash(s.drop_last());
    }
}

/// Decoding an encoded port reference gives the port back, provided the
/// port name itself contains no `/` or the index is not 0. (A name such
/// as `a/b` with index 0 is written `a/b` and read back as port `a` with
/// an invalid index.)
pub proof fn lemma_port_reference_round_trip(name: Seq<char>, index: u32)
    requires
        index != 0 || slash_free(name),
    ensures
        decode_port_spec(encode_port_spec(name, index)) == Some((name, index)),
{
    if index == 0 {
        lemma_no_slash(name);
    } else {
        let digits = decimal(index as nat);
        let text = port_label_spec(name, index);
        lemma_decimal_has_no_slash(index as nat);
        lemma_decimal_reads_back(index as nat);
        assert(text == (name + seq!['/']) + digits);
        lemma_last_slash_append(name + seq!['/'], digits);
        assert((name + seq!['/']).last() == '/');
        assert(last_slash(name + seq!['/']) == Some(name.len() as int));
        assert(text.subrange(name.len() as int + 1, text.len() as int) =~= digits);
        assert(text.subrange(0, name.len() as int) =~= name);
        assert(number_body(digits) == digits) by {
            assert(is_digit(digits[0]));
        }
    }
}

} // verus!
