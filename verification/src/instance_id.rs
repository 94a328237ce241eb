//! Stable identities of module instances.
use vstd::prelude::*;

verus! {

/// A stable, unique identifier assigned to a module instance at construction
/// time.
///
/// `InstanceId` is immutable for the lifetime of the module and survives
/// across plan rebuilds, allowing the planner to match surviving modules to
/// their pool slots in a new plan. Fresh identifiers are minted by the
/// counter, an [`IdSource`], which the surrounding application keeps for the
/// whole process.
#[derive(Debug, Clone, Copy, PartialEq, Eq, Structural, Hash, PartialOrd, Ord)]
pub struct InstanceId(u64);

impl InstanceId {
    /// The identifier whose raw value is `raw`.
    pub fn from_raw(raw: u64) -> (r: InstanceId)
        ensures
            r.raw_spec() == raw,
    {
        InstanceId(raw)
    }

    /// The raw counter value of this identifier.
    pub closed spec fn raw_spec(self) -> u64 {
        self.0
    }

    /// The raw counter value of this identifier.
    pub fn raw(&self) -> (r: u64)
        ensures
            r == self.raw_spec(),
    {
        self.0
    }

    /// The identifier whose raw value is `raw`.
    pub closed spec fn from_raw_spec(raw: u64) -> InstanceId {
        InstanceId(raw)
    }

    /// Draws a fresh identifier from `source`: the counter's current value,
    /// after which the counter advances by one (wrapping at `u64::MAX`).
    pub fn next(source: &mut IdSource) -> (r: InstanceId)
        ensures
            r == InstanceId::from_raw_spec(old(source).next_raw()),
            final(source).next_raw() == raw_after(old(source).next_raw(), 1),
    {
        let r = InstanceId(source.next);
        source.next = source.next.wrapping_add(1);
        r
    }
}

/// An identifier is determined by its raw value, and vice versa.
pub proof fn lemma_raw_identifies(a: InstanceId, b: InstanceId, x: u64, y: u64)
    ensures
        a == b <==> a.raw_spec() == b.raw_spec(),
        InstanceId::from_raw_spec(x) == InstanceId::from_raw_spec(y) <==> x == y,
        InstanceId::from_raw_spec(x).raw_spec() == x,
{
}

/// The counter value `k` draws after `raw`, wrapping at `u64::MAX`.
pub open spec fn raw_after(raw: u64, k: nat) -> u64 {
    ((raw as int + k) % 0x1_0000_0000_0000_0000int) as u64
}

/// Drawing `k` and then one more identifier advances the counter by `k + 1`.
pub proof fn lemma_raw_after_step(raw: u64, k: nat)
    ensures
        raw_after(raw_after(raw, k), 1) == raw_after(raw, k + 1),
        raw_after(raw, 0) == raw,
{
    vstd::arithmetic::div_mod::lemma_add_mod_noop(raw as int + k, 1, 0x1_0000_0000_0000_0000int);
    vstd::arithmetic::div_mod::lemma_small_mod(raw as nat, 0x1_0000_0000_0000_0000nat);
    vstd::arithmetic::div_mod::lemma_small_mod(1nat, 0x1_0000_0000_0000_0000nat);
    vstd::arithmetic::div_mod::lemma_mod_bound(raw as int + k, 0x1_0000_0000_0000_0000int);
}

/// Two successive draws from one source give distinct identifiers.
pub proof fn lemma_successive_draws_distinct(raw: u64)
    ensures
        InstanceId::from_raw_spec(raw) != InstanceId::from_raw_spec(raw_after(raw, 1)),
{
    vstd::arithmetic::div_mod::lemma_mod_bound(raw as int + 1, 0x1_0000_0000_0000_0000int);
    if raw < u64::MAX {
        vstd::arithmetic::div_mod::lemma_small_mod((raw + 1) as nat, 0x1_0000_0000_0000_0000nat);
    } else {
        vstd::arithmetic::div_mod::lemma_mod_self_0(0x1_0000_0000_0000_0000int);
    }
}

/// The counter value `k` draws after `raw`, written without the wrap: `raw
/// + k` itself below `2^64`, `raw + k - 2^64` above.
proof fn lemma_raw_after_value(raw: u64, k: nat)
    requires
        k < 0x1_0000_0000_0000_0000,
    ensures
        raw + k < 0x1_0000_0000_0000_0000 ==> raw_after(raw, k) == raw + k,
        raw + k >= 0x1_0000_0000_0000_0000 ==> raw_after(raw, k) == raw + k - 0x1_0000_0000_0000_0000,
{
    let m: int = 0x1_0000_0000_0000_0000int;
    let a: int = raw + k;
    if a < m {
        vstd::arithmetic::div_mod::lemma_small_mod(a as nat, m as nat);
    } else {
        vstd::arithmetic::div_mod::lemma_mod_sub_multiples_vanish(a, m);
        vstd::arithmetic::div_mod::lemma_small_mod((a - m) as nat, m as nat);
        assert(-m + a == a - m);
    }
}

/// Draws from one source never repeat before the counter wraps: the
/// identifiers drawn `j` and `k` draws after the counter stood at `raw`
/// differ whenever `j < k < 2^64`. With [`InstanceId::next`] advancing the
/// counter by one per draw, every draw differs from all earlier ones of the
/// same source until `2^64` draws have been made.
pub proof fn lemma_draws_distinct(raw: u64, j: nat, k: nat)
    requires
        j < k < 0x1_0000_0000_0000_0000,
    ensures
        InstanceId::from_raw_spec(raw_after(raw, j)) != InstanceId::from_raw_spec(raw_after(raw, k)),
{
    lemma_raw_after_value(raw, j);
    lemma_raw_after_value(raw, k);
}

/// The counter from which fresh [`InstanceId`]s are drawn. Each draw returns
/// a distinct value until the counter wraps after `2^64` draws.
pub struct IdSource {
    next: u64,
}

impl IdSource {
    /// The raw value of the next identifier to be drawn.
    pub closed spec fn next_raw(&self) -> u64 {
        self.next
    }

    /// A source whose first identifier has raw value `0`.
    pub fn new() -> (r: IdSource)
        ensures
            r.next_raw() == 0,
    {
        IdSource { next: 0 }
    }

    /// A source whose first identifier has raw value `raw`.
    pub fn starting_at(raw: u64) -> (r: IdSource)
        ensures
            r.next_raw() == raw,
    {
        IdSource { next: raw }
    }
}

/// Returns `true` when `ids` contains `id`.
pub fn contains_id(ids: &Vec<InstanceId>, id: InstanceId) -> (r: bool)
    ensures
        r == ids@.contains(id),
{
    let mut i: usize = 0;
    while i < ids.len()
        invariant
            i <= ids@.len(),
            forall|k: int| 0 <= k < i ==> ids@[k] != id,
        decreases ids@.len() - i,
    {
        if ids[i] == id {
            return true;
        }
        i = i + 1;
    }
    false
}

} // verus!
