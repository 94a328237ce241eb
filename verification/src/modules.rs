//! Module descriptors, parameters and parameter maps.
use vstd::prelude::*;

use crate::float_bits::FloatBits;

verus! {

/// The arity of a cable: mono (one channel) or poly (sixteen channels).
#[derive(Clone, Copy, Debug, PartialEq, Eq, Structural)]
pub enum CableKind {
    Mono,
    Poly,
}

/// Describes a single port on a module by name and index.
///
/// `index` is the user-visible number in a multi-port group (`in/2` has
/// `name = "in"` and `index = 2`); the position of a descriptor in
/// `ModuleDescriptor::inputs` / `outputs` is its slot in `process`.
#[derive(Debug, Clone, Copy)]
pub struct PortDescriptor {
    pub name: &'static str,
    pub index: u32,
    pub kind: CableKind,
}

/// A reference to a named, indexed port, as used by `ModuleGraph::connect`.
#[derive(Debug, Clone, Copy)]
pub struct PortRef {
    pub name: &'static str,
    pub index: u32,
}

/// The shape a module instance was created with.
#[derive(Debug, Clone, Copy, PartialEq, Eq, Structural)]
pub struct ModuleShape {
    pub channels: usize,
    /// Pre-allocated step/slot count for sequencer-style modules (`0` when
    /// the module has no array parameters).
    pub length: usize,
}

/// The declared type, bounds and default of a parameter.
#[derive(Debug, Clone, Copy)]
pub enum ParameterKind {
    Float { min: FloatBits, max: FloatBits, default: FloatBits },
    Int { min: i64, max: i64, default: i64 },
    Bool { default: bool },
    Enum { variants: &'static [&'static str], default: &'static str },
    /// Variable-length array of strings; `length` is the largest accepted
    /// element count.
    Array { default: &'static [&'static str], length: usize },
}

/// A parameter value.
#[derive(Debug, Clone, PartialEq)]
pub enum ParameterValue {
    Float(FloatBits),
    Int(i64),
    Bool(bool),
    Enum(&'static str),
    Array(Vec<String>),
}

/// The mathematical content of a [`ParameterValue`].
pub ghost enum ValueModel {
    Float(FloatBits),
    Int(i64),
    Bool(bool),
    Enum(Seq<char>),
    Array(Seq<Seq<char>>),
}

/// The text of each string in `v`.
pub open spec fn texts(v: Seq<String>) -> Seq<Seq<char>> {
    v.map_values(|s: String| s@)
}

impl View for ParameterValue {
    type V = ValueModel;

    open spec fn view(&self) -> ValueModel {
        match self {
            ParameterValue::Float(f) => ValueModel::Float(*f),
            ParameterValue::Int(i) => ValueModel::Int(*i),
            ParameterValue::Bool(b) => ValueModel::Bool(*b),
            ParameterValue::Enum(s) => ValueModel::Enum(s@),
            ParameterValue::Array(v) => ValueModel::Array(texts(v@)),
        }
    }
}

/// Equality of parameter values as the derived `==` of the value type
/// defines it: floats compare by IEEE `==`, everything else structurally.
pub open spec fn value_equal(a: ValueModel, b: ValueModel) -> bool {
    match (a, b) {
        (ValueModel::Float(x), ValueModel::Float(y)) => x.eq_spec_ieee(y),
        (ValueModel::Int(x), ValueModel::Int(y)) => x == y,
        (ValueModel::Bool(x), ValueModel::Bool(y)) => x == y,
        (ValueModel::Enum(x), ValueModel::Enum(y)) => x == y,
        (ValueModel::Array(x), ValueModel::Array(y)) => x == y,
        _ => false,
    }
}

/// Short type name of a value.
pub open spec fn value_kind_name(v: ValueModel) -> Seq<char> {
    match v {
        ValueModel::Float(_) => "float"@,
        ValueModel::Int(_) => "int"@,
        ValueModel::Bool(_) => "bool"@,
        ValueModel::Enum(_) => "enum"@,
        ValueModel::Array(_) => "array"@,
    }
}

/// Copies a list of strings.
pub fn copy_strings(v: &Vec<String>) -> (r: Vec<String>)
    ensures
        texts(r@) == texts(v@),
{
    let mut out: Vec<String> = Vec::new();
    let mut i: usize = 0;
    while i < v.len()
        invariant
            i <= v@.len(),
            out@.len() == i,
            forall|k: int| 0 <= k < i ==> out@[k]@ == v@[k]@,
        decreases v@.len() - i,
    {
        out.push(v[i].clone());
        i = i + 1;
    }
    assert(texts(out@) =~= texts(v@));
    out
}

/// Copies a list of string literals into owned strings.
pub fn owned_strings(v: &[&'static str]) -> (r: Vec<String>)
    ensures
        r@.len() == v@.len(),
        forall|k: int| 0 <= k < v@.len() ==> r@[k]@ == v@[k]@,
{
    let mut out: Vec<String> = Vec::new();
    let mut i: usize = 0;
    while i < v.len()
        invariant
            i <= v@.len(),
            out@.len() == i,
            forall|k: int| 0 <= k < i ==> out@[k]@ == v@[k]@,
        decreases v@.len() - i,
    {
        out.push(v[i].to_owned());
        i = i + 1;
    }
    out
}

/// Equality of two strings by their text.
pub fn str_equal(a: &str, b: &str) -> (r: bool)
    ensures
        r == (a@ == b@),
{
    a.to_owned() == b.to_owned()
}

/// Equality of two lists of strings by their text.
pub fn strings_equal(a: &Vec<String>, b: &Vec<String>) -> (r: bool)
    ensures
        r == (texts(a@) == texts(b@)),
{
    if a.len() != b.len() {
        proof {
            assert(texts(a@).len() != texts(b@).len());
        }
        return false;
    }
    let mut i: usize = 0;
    while i < a.len()
        invariant
            a@.len() == b@.len(),
            i <= a@.len(),
            forall|k: int| 0 <= k < i ==> a@[k]@ == b@[k]@,
        decreases a@.len() - i,
    {
        if !(a[i] == b[i]) {
            proof {
                assert(texts(a@)[i as int] != texts(b@)[i as int]);
            }
            return false;
        }
        i = i + 1;
    }
    assert(texts(a@) =~= texts(b@));
    true
}

impl ParameterValue {
    /// Returns a short type name suitable for error messages.
    pub fn kind_name(&self) -> (r: &'static str)
        ensures
            r@ == value_kind_name(self@),
    {
        proof {
            reveal_strlit("float");
            reveal_strlit("int");
            reveal_strlit("bool");
            reveal_strlit("enum");
            reveal_strlit("array");
        }
        match self {
            ParameterValue::Float(_) => "float",
            ParameterValue::Int(_) => "int",
            ParameterValue::Bool(_) => "bool",
            ParameterValue::Enum(_) => "enum",
            ParameterValue::Array(_) => "array",
        }
    }

    /// A copy of this value.
    pub fn duplicate(&self) -> (r: ParameterValue)
        ensures
            r@ == self@,
    {
        match self {
            ParameterValue::Float(f) => ParameterValue::Float(*f),
            ParameterValue::Int(i) => ParameterValue::Int(*i),
            ParameterValue::Bool(b) => ParameterValue::Bool(*b),
            ParameterValue::Enum(s) => ParameterValue::Enum(*s),
            ParameterValue::Array(v) => ParameterValue::Array(copy_strings(v)),
        }
    }

    /// Equality as the derived `==` of the value type defines it (IEEE
    /// equality for floats).
    pub fn same_as(&self, other: &ParameterValue) -> (r: bool)
        ensures
            r == value_equal(self@, other@),
    {
        match (self, other) {
            (ParameterValue::Float(x), ParameterValue::Float(y)) => x.eq_ieee(y),
            (ParameterValue::Int(x), ParameterValue::Int(y)) => *x == *y,
            (ParameterValue::Bool(x), ParameterValue::Bool(y)) => *x == *y,
            (ParameterValue::Enum(x), ParameterValue::Enum(y)) => str_equal(x, y),
            (ParameterValue::Array(x), ParameterValue::Array(y)) => strings_equal(x, y),
            _ => false,
        }
    }
}

/// The default value and short type name declared by a parameter kind.
pub open spec fn kind_default(k: ParameterKind) -> ValueModel {
    match k {
        ParameterKind::Float { default, .. } => ValueModel::Float(default),
        ParameterKind::Int { default, .. } => ValueModel::Int(default),
        ParameterKind::Bool { default } => ValueModel::Bool(default),
        ParameterKind::Enum { default, .. } => ValueModel::Enum(default@),
        ParameterKind::Array { default, .. } => ValueModel::Array(default@.map_values(|s: &str| s@)),
    }
}

/// Short type name of a parameter kind.
pub open spec fn kind_name_spec(k: ParameterKind) -> Seq<char> {
    match k {
        ParameterKind::Float { .. } => "float"@,
        ParameterKind::Int { .. } => "int"@,
        ParameterKind::Bool { .. } => "bool"@,
        ParameterKind::Enum { .. } => "enum"@,
        ParameterKind::Array { .. } => "array"@,
    }
}

impl ParameterKind {
    /// Returns the default value for this parameter kind.
    pub fn default_value(&self) -> (r: ParameterValue)
        ensures
            r@ == kind_default(*self),
    {
        match self {
            ParameterKind::Float { default, .. } => ParameterValue::Float(*default),
            ParameterKind::Int { default, .. } => ParameterValue::Int(*default),
            ParameterKind::Bool { default } => ParameterValue::Bool(*default),
            ParameterKind::Enum { default, .. } => ParameterValue::Enum(*default),
            ParameterKind::Array { default, .. } => {
                let v = owned_strings(default);
                proof {
                    assert(texts(v@) =~= default@.map_values(|s: &str| s@));
                }
                ParameterValue::Array(v)
            },
        }
    }

    /// Returns a short type name suitable for error messages.
    pub fn kind_name(&self) -> (r: &'static str)
        ensures
            r@ == kind_name_spec(*self),
    {
        proof {
            reveal_strlit("float");
            reveal_strlit("int");
            reveal_strlit("bool");
            reveal_strlit("enum");
            reveal_strlit("array");
        }
        match self {
            ParameterKind::Float { .. } => "float",
            ParameterKind::Int { .. } => "int",
            ParameterKind::Bool { .. } => "bool",
            ParameterKind::Enum { .. } => "enum",
            ParameterKind::Array { .. } => "array",
        }
    }
}

/// A named parameter kind.
pub struct ParameterSpec {
    pub name: &'static str,
    pub kind: ParameterKind,
}

/// A declared parameter of a module.
#[derive(Debug, Clone, Copy)]
pub struct ParameterDescriptor {
    pub name: &'static str,
    pub index: usize,
    pub parameter_type: ParameterKind,
}

/// Describes the full layout of a module: its name, shape, ports and
/// parameters. The position of a port in `inputs` / `outputs` is its slot in
/// the buffers handed to the module's `process`.
#[derive(Debug, Clone)]
pub struct ModuleDescriptor {
    pub module_name: &'static str,
    pub shape: ModuleShape,
    pub inputs: Vec<PortDescriptor>,
    pub outputs: Vec<PortDescriptor>,
    pub parameters: Vec<ParameterDescriptor>,
    pub is_sink: bool,
}

} // verus!

verus! {

/// Which input and output ports of a module are connected in the current
/// patch: `inputs[i]` is `true` if the `i`-th input port (as listed in the
/// descriptor) has an incoming cable, and `outputs[i]` likewise for
/// outgoing cables.
#[derive(Debug, Clone, PartialEq)]
pub struct PortConnectivity {
    pub inputs: Vec<bool>,
    pub outputs: Vec<bool>,
}

impl PortConnectivity {
    /// An all-`false` connectivity for `n_inputs` inputs and `n_outputs`
    /// outputs.
    pub fn new(n_inputs: usize, n_outputs: usize) -> (r: PortConnectivity)
        ensures
            r.inputs@ == Seq::new(n_inputs as nat, |i: int| false),
            r.outputs@ == Seq::new(n_outputs as nat, |i: int| false),
    {
        let inputs = vec![false; n_inputs];
        let outputs = vec![false; n_outputs];
        proof {
            assert(inputs@ =~= Seq::new(n_inputs as nat, |i: int| false));
            assert(outputs@ =~= Seq::new(n_outputs as nat, |i: int| false));
        }
        PortConnectivity { inputs, outputs }
    }

    /// Equality of both port lists.
    pub fn same_as(&self, other: &PortConnectivity) -> (r: bool)
        ensures
            r == (self.inputs@ == other.inputs@ && self.outputs@ == other.outputs@),
    {
        bools_equal(&self.inputs, &other.inputs) && bools_equal(&self.outputs, &other.outputs)
    }

    /// A copy of this connectivity.
    pub fn duplicate(&self) -> (r: PortConnectivity)
        ensures
            r.inputs@ == self.inputs@,
            r.outputs@ == self.outputs@,
    {
        let inputs = self.inputs.clone();
        let outputs = self.outputs.clone();
        proof {
            assert(inputs@ =~= self.inputs@);
            assert(outputs@ =~= self.outputs@);
        }
        PortConnectivity { inputs, outputs }
    }
}

/// Element-wise equality of two lists of booleans.
pub fn bools_equal(a: &Vec<bool>, b: &Vec<bool>) -> (r: bool)
    ensures
        r == (a@ == b@),
{
    if a.len() != b.len() {
        return false;
    }
    let mut i: usize = 0;
    while i < a.len()
        invariant
            a@.len() == b@.len(),
            i <= a@.len(),
            forall|k: int| 0 <= k < i ==> a@[k] == b@[k],
        decreases a@.len() - i,
    {
        if a[i] != b[i] {
            return false;
        }
        i = i + 1;
    }
    assert(a@ =~= b@);
    true
}

} // verus!
