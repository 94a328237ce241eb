//! Validation of parameter maps against module descriptors.
use vstd::prelude::*;
use vstd::string::StringExecFns;

use crate::float_bits::FloatBits;
use crate::modules::{ModuleDescriptor, ParameterKind, ParameterValue, ValueModel};
use crate::modules::kind_default;
use crate::parameter_map::{insert_model, lookup, ParameterMap};
use crate::text::{decimal, decimal_text};

verus! {

/// A bound or a value reported by [`BuildError::ParameterOutOfRange`]: float
/// parameters report floats, integer parameters integers.
#[derive(Debug, Clone, Copy, PartialEq)]
pub enum RangeValue {
    Float(FloatBits),
    Int(i64),
}

/// Errors from building a module or validating its parameters.
#[derive(Debug)]
pub enum BuildError {
    UnknownModule { name: String },
    InvalidShape { module: &'static str, reason: String },
    MissingParameter { module: &'static str, parameter: &'static str },
    InvalidParameterType { module: &'static str, parameter: &'static str, expected: &'static str, found: &'static str },
    ParameterOutOfRange {
        module: &'static str,
        parameter: &'static str,
        min: RangeValue,
        max: RangeValue,
        found: RangeValue,
    },
    Custom { module: &'static str, message: String },
}

/// What validation finds of one supplied value against its declared kind.
pub ghost enum Verdict {
    Fine,
    WrongType,
    OutOfRange(RangeValue, RangeValue, RangeValue),
    UnknownVariant,
    TooLong(nat, usize),
}

/// The verdict on value `v` supplied for a parameter of kind `k`.
pub open spec fn verdict(k: ParameterKind, v: ValueModel) -> Verdict {
    match (k, v) {
        (ParameterKind::Float { min, max, .. }, ValueModel::Float(x)) => if x.lt_spec(min) || max.lt_spec(x) {
            Verdict::OutOfRange(RangeValue::Float(min), RangeValue::Float(max), RangeValue::Float(x))
        } else {
            Verdict::Fine
        },
        (ParameterKind::Int { min, max, .. }, ValueModel::Int(x)) => if x < min || x > max {
            Verdict::OutOfRange(RangeValue::Int(min), RangeValue::Int(max), RangeValue::Int(x))
        } else {
            Verdict::Fine
        },
        (ParameterKind::Bool { .. }, ValueModel::Bool(_)) => Verdict::Fine,
        (ParameterKind::Enum { variants, .. }, ValueModel::Enum(x)) => if variants@.map_values(|s: &str| s@).contains(x) {
            Verdict::Fine
        } else {
            Verdict::UnknownVariant
        },
        (ParameterKind::Array { length, .. }, ValueModel::Array(x)) => if x.len() > length {
            Verdict::TooLong(x.len(), length)
        } else {
            Verdict::Fine
        },
        _ => Verdict::WrongType,
    }
}

/// `desc` declares a parameter named `name`.
pub open spec fn declares(desc: ModuleDescriptor, name: Seq<char>) -> bool {
    exists|j: int| 0 <= j < desc.parameters@.len() && desc.parameters@[j].name@ == name
}

/// The position of the first of the first `n` entries of `m` whose name
/// `desc` does not declare.
pub open spec fn first_undeclared(m: Seq<(Seq<char>, ValueModel)>, desc: ModuleDescriptor, n: int) -> Option<int>
    decreases n,
{
    if n <= 0 {
        None
    } else {
        match first_undeclared(m, desc, n - 1) {
            Some(i) => Some(i),
            None => if declares(desc, m[n - 1].0) {
                None
            } else {
                Some(n - 1)
            },
        }
    }
}

/// The verdict on the `j`-th declared parameter of `desc` in `m` (fine when
/// `m` does not supply it).
pub open spec fn verdict_at(m: Seq<(Seq<char>, ValueModel)>, desc: ModuleDescriptor, j: int) -> Verdict {
    match lookup(m, desc.parameters@[j].name@) {
        Some(v) => verdict(desc.parameters@[j].parameter_type, v),
        None => Verdict::Fine,
    }
}

/// The position of the first of the first `n` declared parameters whose
/// supplied value is not fine.
pub open spec fn first_violation(m: Seq<(Seq<char>, ValueModel)>, desc: ModuleDescriptor, n: int) -> Option<int>
    decreases n,
{
    if n <= 0 {
        None
    } else {
        match first_violation(m, desc, n - 1) {
            Some(j) => Some(j),
            None => if verdict_at(m, desc, n - 1) is Fine {
                None
            } else {
                Some(n - 1)
            },
        }
    }
}

/// The message for a parameter name that the descriptor does not declare.
pub open spec fn unknown_message(name: Seq<char>) -> Seq<char> {
    "unknown parameter '"@ + name + "'"@
}

/// The message for an enum value that is not among the declared variants.
pub open spec fn variant_message(parameter: Seq<char>, value: Seq<char>) -> Seq<char> {
    "parameter '"@ + parameter + "' has unrecognised value '"@ + value + "'"@
}

/// The message for an array longer than its declared capacity.
pub open spec fn capacity_message(parameter: Seq<char>, len: nat, capacity: usize) -> Seq<char> {
    "parameter '"@ + parameter + "' has "@ + decimal(len) + " elements but capacity is "@ + decimal(capacity as nat)
}

/// The short type name of a parameter kind.
pub open spec fn kind_label(k: ParameterKind) -> Seq<char> {
    crate::modules::kind_name_spec(k)
}

/// `e` is the error reported for the `j`-th declared parameter of `desc`,
/// whose supplied value in `m` is not fine.
pub open spec fn violation_error(e: BuildError, m: Seq<(Seq<char>, ValueModel)>, desc: ModuleDescriptor, j: int) -> bool {
    let pd = desc.parameters@[j];
    let v = lookup(m, pd.name@)->Some_0;
    match verdict(pd.parameter_type, v) {
        Verdict::OutOfRange(min, max, found) => e == BuildError::ParameterOutOfRange {
            module: desc.module_name,
            parameter: pd.name,
            min,
            max,
            found,
        },
        Verdict::WrongType => e matches BuildError::InvalidParameterType { module, parameter, expected, found }
            && module == desc.module_name && parameter == pd.name && expected@ == kind_label(pd.parameter_type)
            && found@ == crate::modules::value_kind_name(v),
        Verdict::UnknownVariant => e matches BuildError::Custom { module, message } && module == desc.module_name
            && message@ == variant_message(pd.name@, v->Enum_0),
        Verdict::TooLong(len, cap) => e matches BuildError::Custom { module, message } && module == desc.module_name
            && message@ == capacity_message(pd.name@, len, cap),
        Verdict::Fine => false,
    }
}

/// Once found, the first undeclared entry stays the first over longer
/// prefixes.
proof fn lemma_first_undeclared_stable(m: Seq<(Seq<char>, ValueModel)>, desc: ModuleDescriptor, k: int, n: int)
    requires
        k <= n,
        first_undeclared(m, desc, k) is Some,
    ensures
        first_undeclared(m, desc, n) == first_undeclared(m, desc, k),
    decreases n - k,
{
    if k < n {
        lemma_first_undeclared_stable(m, desc, k, n - 1);
    }
}

/// Once found, the first violation stays the first over longer prefixes.
proof fn lemma_first_violation_stable(m: Seq<(Seq<char>, ValueModel)>, desc: ModuleDescriptor, k: int, n: int)
    requires
        k <= n,
        first_violation(m, desc, k) is Some,
    ensures
        first_violation(m, desc, n) == first_violation(m, desc, k),
    decreases n - k,
{
    if k < n {
        lemma_first_violation_stable(m, desc, k, n - 1);
    }
}

/// `r` is the result of validating the parameter list `m` against `desc`:
/// the first undeclared name is reported, else the first declared
/// parameter whose supplied value is not fine, else `Ok`.
pub open spec fn validation_result(m: Seq<(Seq<char>, ValueModel)>, desc: ModuleDescriptor, r: Result<(), BuildError>) -> bool {
    match first_undeclared(m, desc, m.len() as int) {
        Some(i) => r matches Err(BuildError::Custom { module, message }) && module == desc.module_name
            && message@ == unknown_message(m[i].0),
        None => match first_violation(m, desc, desc.parameters@.len() as int) {
            None => r is Ok,
            Some(j) => r matches Err(e) && violation_error(e, m, desc, j),
        },
    }
}

/// With no violation among the first `n` declared parameters, each of them
/// is fine.
proof fn lemma_no_violation(m: Seq<(Seq<char>, ValueModel)>, desc: ModuleDescriptor, n: int)
    requires
        first_violation(m, desc, n) is None,
    ensures
        forall|j: int| 0 <= j < n ==> #[trigger] verdict_at(m, desc, j) is Fine,
    decreases n,
{
    if n > 0 {
        lemma_no_violation(m, desc, n - 1);
    }
}

/// The first violation, when there is one, is a declared parameter whose
/// verdict is not fine.
proof fn lemma_violation_found(m: Seq<(Seq<char>, ValueModel)>, desc: ModuleDescriptor, n: int)
    requires
        first_violation(m, desc, n) is Some,
    ensures
        0 <= first_violation(m, desc, n)->Some_0 < n,
        !(verdict_at(m, desc, first_violation(m, desc, n)->Some_0) is Fine),
    decreases n,
{
    if n > 0 && first_violation(m, desc, n - 1) is Some {
        lemma_violation_found(m, desc, n - 1);
    }
}

/// Accepted parameters respect their declarations: when validation of `m`
/// against `desc` succeeds, every name in `m` is declared, and each declared
/// parameter that `m` supplies has a value of its declared type that lies
/// within its bounds: a float is neither below `min` nor above `max` (IEEE
/// comparison, so a NaN passes as the original's comparisons let it), an
/// integer lies in `[min, max]`, an enum value is one of the variants, and
/// an array has at most `length` elements.
pub proof fn lemma_accepted_values_fit(m: Seq<(Seq<char>, ValueModel)>, desc: ModuleDescriptor, r: Result<(), BuildError>)
    requires
        validation_result(m, desc, r),
        r is Ok,
    ensures
        forall|i: int| 0 <= i < m.len() ==> declares(desc, #[trigger] m[i].0),
        forall|j: int|
            0 <= j < desc.parameters@.len() && #[trigger] lookup(m, desc.parameters@[j].name@) is Some ==> {
                let v = lookup(m, desc.parameters@[j].name@)->Some_0;
                match desc.parameters@[j].parameter_type {
                    ParameterKind::Float { min, max, .. } => v matches ValueModel::Float(x) && !x.lt_spec(min)
                        && !max.lt_spec(x),
                    ParameterKind::Int { min, max, .. } => v matches ValueModel::Int(x) && min <= x <= max,
                    ParameterKind::Bool { .. } => v is Bool,
                    ParameterKind::Enum { variants, .. } => v matches ValueModel::Enum(x) && variants@.map_values(
                        |s: &str| s@,
                    ).contains(x),
                    ParameterKind::Array { length, .. } => v matches ValueModel::Array(x) && x.len() <= length,
                }
            },
{
    assert(first_undeclared(m, desc, m.len() as int) is None);
    lemma_all_declared(m, desc, m.len() as int);
    assert(first_violation(m, desc, desc.parameters@.len() as int) is None);
    lemma_no_violation(m, desc, desc.parameters@.len() as int);
    assert forall|j: int|
        0 <= j < desc.parameters@.len() && #[trigger] lookup(m, desc.parameters@[j].name@) is Some implies {
            let v = lookup(m, desc.parameters@[j].name@)->Some_0;
            match desc.parameters@[j].parameter_type {
                ParameterKind::Float { min, max, .. } => v matches ValueModel::Float(x) && !x.lt_spec(min)
                    && !max.lt_spec(x),
                ParameterKind::Int { min, max, .. } => v matches ValueModel::Int(x) && min <= x <= max,
                ParameterKind::Bool { .. } => v is Bool,
                ParameterKind::Enum { variants, .. } => v matches ValueModel::Enum(x) && variants@.map_values(
                    |s: &str| s@,
                ).contains(x),
                ParameterKind::Array { length, .. } => v matches ValueModel::Array(x) && x.len() <= length,
            }
        } by {
        assert(verdict_at(m, desc, j) is Fine);
    }
}

/// Parameters that respect their declarations are accepted: when every
/// name in `m` is declared by `desc` and each declared parameter that `m`
/// supplies has a value of its declared type within its bounds (a float
/// neither below `min` nor above `max`, an integer in `[min, max]`, an enum
/// value among the variants, an array of at most `length` elements),
/// validation succeeds.
pub proof fn lemma_fitting_values_accepted(m: Seq<(Seq<char>, ValueModel)>, desc: ModuleDescriptor, r: Result<(), BuildError>)
    requires
        validation_result(m, desc, r),
        forall|i: int| 0 <= i < m.len() ==> declares(desc, #[trigger] m[i].0),
        forall|j: int|
            0 <= j < desc.parameters@.len() && #[trigger] lookup(m, desc.parameters@[j].name@) is Some ==> {
                let v = lookup(m, desc.parameters@[j].name@)->Some_0;
                match desc.parameters@[j].parameter_type {
                    ParameterKind::Float { min, max, .. } => v matches ValueModel::Float(x) && !x.lt_spec(min)
                        && !max.lt_spec(x),
                    ParameterKind::Int { min, max, .. } => v matches ValueModel::Int(x) && min <= x <= max,
                    ParameterKind::Bool { .. } => v is Bool,
                    ParameterKind::Enum { variants, .. } => v matches ValueModel::Enum(x) && variants@.map_values(
                        |s: &str| s@,
                    ).contains(x),
                    ParameterKind::Array { length, .. } => v matches ValueModel::Array(x) && x.len() <= length,
                }
            },
    ensures
        r is Ok,
{
    if first_undeclared(m, desc, m.len() as int) is Some {
        lemma_undeclared_found(m, desc, m.len() as int);
    }
    let n = desc.parameters@.len() as int;
    if first_violation(m, desc, n) is Some {
        lemma_violation_found(m, desc, n);
        let j = first_violation(m, desc, n)->Some_0;
        assert(lookup(m, desc.parameters@[j].name@) is Some);
    }
}

/// The first undeclared entry, when there is one, is an entry whose name
/// `desc` does not declare.
proof fn lemma_undeclared_found(m: Seq<(Seq<char>, ValueModel)>, desc: ModuleDescriptor, n: int)
    requires
        first_undeclared(m, desc, n) is Some,
    ensures
        0 <= first_undeclared(m, desc, n)->Some_0 < n,
        !declares(desc, m[first_undeclared(m, desc, n)->Some_0].0),
    decreases n,
{
    if n > 0 && first_undeclared(m, desc, n - 1) is Some {
        lemma_undeclared_found(m, desc, n - 1);
    }
}

/// With no undeclared name among the first `n` entries, each is declared.
proof fn lemma_all_declared(m: Seq<(Seq<char>, ValueModel)>, desc: ModuleDescriptor, n: int)
    requires
        first_undeclared(m, desc, n) is None,
    ensures
        forall|i: int| 0 <= i < n ==> declares(desc, #[trigger] m[i].0),
    decreases n,
{
    if n > 0 {
        lemma_all_declared(m, desc, n - 1);
    }
}

/// A reported range error names a declared parameter whose supplied value
/// really lies outside its declared bounds: below `min` or above `max`.
pub proof fn lemma_range_error_is_real(
    m: Seq<(Seq<char>, ValueModel)>,
    desc: ModuleDescriptor,
    r: Result<(), BuildError>,
)
    requires
        validation_result(m, desc, r),
        r matches Err(BuildError::ParameterOutOfRange { .. }),
    ensures
        r matches Err(BuildError::ParameterOutOfRange { module, parameter, min: emin, max: emax, found })
            && module == desc.module_name && exists|j: int|
            0 <= j < desc.parameters@.len() && #[trigger] desc.parameters@[j].name == parameter && lookup(
                m,
                desc.parameters@[j].name@,
            ) is Some && match (desc.parameters@[j].parameter_type, lookup(m, desc.parameters@[j].name@)->Some_0) {
                (ParameterKind::Float { min, max, .. }, ValueModel::Float(x)) => (x.lt_spec(min) || max.lt_spec(x))
                    && emin == RangeValue::Float(min) && emax == RangeValue::Float(max) && found == RangeValue::Float(x),
                (ParameterKind::Int { min, max, .. }, ValueModel::Int(x)) => (x < min || x > max) && emin
                    == RangeValue::Int(min) && emax == RangeValue::Int(max) && found == RangeValue::Int(x),
                _ => false,
            },
{
    assert(first_undeclared(m, desc, m.len() as int) is None);
    let n = desc.parameters@.len() as int;
    assert(first_violation(m, desc, n) is Some);
    lemma_violation_found(m, desc, n);
    let j = first_violation(m, desc, n)->Some_0;
    assert(violation_error(r->Err_0, m, desc, j));
    assert(lookup(m, desc.parameters@[j].name@) is Some);
}

/// Validate `params` against `descriptor`.
///
/// Returns an error if some supplied name is not declared (the first such
/// entry is reported), or else for the first declared parameter (in
/// declaration order) whose supplied value has the wrong type, lies outside
/// the declared bounds, is not a declared enum variant, or has more array
/// elements than the declared capacity. Parameters that are not supplied are
/// not an error.
pub fn validate_parameters(params: &ParameterMap, descriptor: &ModuleDescriptor) -> (r: Result<(), BuildError>)
    ensures
        validation_result(params@, *descriptor, r),
{
    let mut i: usize = 0;
    while i < params.len()
        invariant
            i <= params@.len(),
            first_undeclared(params@, *descriptor, i as int) is None,
        decreases params@.len() - i,
    {
        let (name, _) = params.entry(i);
        let mut j: usize = 0;
        let mut found = false;
        while j < descriptor.parameters.len() && !found
            invariant
                j <= descriptor.parameters@.len(),
                found ==> declares(*descriptor, name@),
                !found ==> forall|q: int| 0 <= q < j ==> descriptor.parameters@[q].name@ != name@,
            decreases descriptor.parameters@.len() - j,
        {
            if crate::modules::str_equal(descriptor.parameters[j].name, name.as_str()) {
                found = true;
            }
            j = j + 1;
        }
        if !found {
            let mut message = String::from_str("unknown parameter '");
            message.append(name.as_str());
            message.append("'");
            proof {
                reveal_strlit("unknown parameter '");
                reveal_strlit("'");
                assert(message@ =~= unknown_message(params@[i as int].0));
                assert(!declares(*descriptor, params@[i as int].0));
                assert(first_undeclared(params@, *descriptor, i as int + 1) == Some(i as int));
                lemma_first_undeclared_stable(params@, *descriptor, i as int + 1, params@.len() as int);
            }
            return Err(BuildError::Custom { module: descriptor.module_name, message });
        }
        i = i + 1;
    }
    let mut j: usize = 0;
    while j < descriptor.parameters.len()
        invariant
            j <= descriptor.parameters@.len(),
            first_undeclared(params@, *descriptor, params@.len() as int) is None,
            first_violation(params@, *descriptor, j as int) is None,
        decreases descriptor.parameters@.len() - j,
    {
        let pd = &descriptor.parameters[j];
        match params.get(pd.name) {
            None => {},
            Some(value) => {
                match check_value(descriptor, j, value) {
                    Some(e) => {
                        proof {
                            assert(verdict_at(params@, *descriptor, j as int) == verdict(pd.parameter_type, value@));
                            assert(first_violation(params@, *descriptor, j as int + 1) == Some(j as int));
                            lemma_first_violation_stable(params@, *descriptor, j as int + 1, descriptor.parameters@.len() as int);
                        }
                        return Err(e);
                    },
                    None => {},
                }
            },
        }
        j = j + 1;
    }
    Ok(())
}

/// The error for `value` supplied for the `j`-th declared parameter, if
/// its verdict is not fine.
fn check_value(descriptor: &ModuleDescriptor, j: usize, value: &ParameterValue) -> (r: Option<BuildError>)
    requires
        j < descriptor.parameters@.len(),
    ensures
        r is None <==> verdict(descriptor.parameters@[j as int].parameter_type, value@) is Fine,
        r matches Some(e) ==> {
            let pd = descriptor.parameters@[j as int];
            match verdict(pd.parameter_type, value@) {
                Verdict::OutOfRange(min, max, found) => e == BuildError::ParameterOutOfRange {
                    module: descriptor.module_name,
                    parameter: pd.name,
                    min,
                    max,
                    found,
                },
                Verdict::WrongType => e matches BuildError::InvalidParameterType { module, parameter, expected, found }
                    && module == descriptor.module_name && parameter == pd.name && expected@ == kind_label(
                    pd.parameter_type,
                ) && found@ == crate::modules::value_kind_name(value@),
                Verdict::UnknownVariant => e matches BuildError::Custom { module, message } && module
                    == descriptor.module_name && message@ == variant_message(pd.name@, value@->Enum_0),
                Verdict::TooLong(len, cap) => e matches BuildError::Custom { module, message } && module
                    == descriptor.module_name && message@ == capacity_message(pd.name@, len, cap),
                Verdict::Fine => false,
            }
        },
{
    let pd = &descriptor.parameters[j];
    let module = descriptor.module_name;
    match (&pd.parameter_type, value) {
        (ParameterKind::Float { min, max, .. }, ParameterValue::Float(v)) => {
            if v.lt(min) || max.lt(v) {
                Some(
                    BuildError::ParameterOutOfRange {
                        module,
                        parameter: pd.name,
                        min: RangeValue::Float(*min),
                        max: RangeValue::Float(*max),
                        found: RangeValue::Float(*v),
                    },
                )
            } else {
                None
            }
        },
        (ParameterKind::Int { min, max, .. }, ParameterValue::Int(v)) => {
            if *v < *min || *v > *max {
                Some(
                    BuildError::ParameterOutOfRange {
                        module,
                        parameter: pd.name,
                        min: RangeValue::Int(*min),
                        max: RangeValue::Int(*max),
                        found: RangeValue::Int(*v),
                    },
                )
            } else {
                None
            }
        },
        (ParameterKind::Bool { .. }, ParameterValue::Bool(_)) => None,
        (ParameterKind::Enum { variants, .. }, ParameterValue::Enum(v)) => {
            let mut k: usize = 0;
            let mut known = false;
            while k < variants.len() && !known
                invariant
                    k <= variants@.len(),
                    known ==> variants@.map_values(|s: &str| s@).contains(v@),
                    !known ==> forall|q: int| 0 <= q < k ==> variants@[q]@ != v@,
                decreases variants@.len() - k,
            {
                if crate::modules::str_equal(variants[k], v) {
                    known = true;
                    proof {
                        assert(variants@.map_values(|s: &str| s@)[k as int] == v@);
                    }
                }
                k = k + 1;
            }
            if known {
                None
            } else {
                proof {
                    let names = variants@.map_values(|s: &str| s@);
                    assert forall|q: int| 0 <= q < names.len() implies #[trigger] names[q] != v@ by {
                        assert(names[q] == variants@[q]@);
                    }
                }
                let mut message = String::from_str("parameter '");
                message.append(pd.name);
                message.append("' has unrecognised value '");
                message.append(v);
                message.append("'");
                proof {
                    reveal_strlit("parameter '");
                    reveal_strlit("' has unrecognised value '");
                    reveal_strlit("'");
                    assert(message@ =~= variant_message(pd.name@, v@));
                }
                Some(BuildError::Custom { module, message })
            }
        },
        (ParameterKind::Array { length, .. }, ParameterValue::Array(v)) => {
            if v.len() > *length {
                let mut message = String::from_str("parameter '");
                message.append(pd.name);
                message.append("' has ");
                let n = decimal_text(v.len());
                message.append(n.as_str());
                message.append(" elements but capacity is ");
                let c = decimal_text(*length);
                message.append(c.as_str());
                proof {
                    reveal_strlit("parameter '");
                    reveal_strlit("' has ");
                    reveal_strlit(" elements but capacity is ");
                    assert(crate::modules::texts(v@).len() == v@.len());
                    assert(message@ =~= capacity_message(pd.name@, crate::modules::texts(v@).len(), *length));
                }
                Some(BuildError::Custom { module, message })
            } else {
                None
            }
        },
        _ => Some(
            BuildError::InvalidParameterType {
                module,
                parameter: pd.name,
                expected: pd.parameter_type.kind_name(),
                found: value.kind_name(),
            },
        ),
    }
}

/// The parameter model after filling in the defaults of the first `n`
/// declared parameters of `desc` that `m` does not supply.
pub open spec fn filled_spec(m: Seq<(Seq<char>, ValueModel)>, desc: ModuleDescriptor, n: int) -> Seq<
    (Seq<char>, ValueModel),
>
    decreases n,
{
    if n <= 0 {
        m
    } else {
        let before = filled_spec(m, desc, n - 1);
        let pd = desc.parameters@[n - 1];
        if lookup(before, pd.name@) is Some {
            before
        } else {
            insert_model(before, pd.name@, kind_default(pd.parameter_type))
        }
    }
}

/// `params` with every declared parameter that it does not supply set to
/// the default its kind declares, in declaration order; supplied values are
/// kept.
pub fn fill_defaults(params: &ParameterMap, descriptor: &ModuleDescriptor) -> (r: ParameterMap)
    ensures
        r@ == filled_spec(params@, *descriptor, descriptor.parameters@.len() as int),
{
    let mut filled = params.duplicate();
    let mut j: usize = 0;
    while j < descriptor.parameters.len()
        invariant
            j <= descriptor.parameters@.len(),
            filled@ == filled_spec(params@, *descriptor, j as int),
        decreases descriptor.parameters@.len() - j,
    {
        let pd = &descriptor.parameters[j];
        if !filled.contains_key(pd.name) {
            filled.insert(pd.name.to_owned(), pd.parameter_type.default_value());
        }
        j = j + 1;
    }
    filled
}

} // verus!
