//! Which module pool slots receive MIDI events in a newly built plan.
use vstd::prelude::*;
use vstd::seq_lib::{to_multiset_build, to_multiset_insert};

use crate::allocation::{find_slot, has_id, ids_distinct, slot_of};
use crate::instance_id::{contains_id, InstanceId};

verus! {

/// `s` is in non-decreasing order.
pub open spec fn nondecreasing(s: Seq<usize>) -> bool {
    forall|i: int, j: int| 0 <= i < j < s.len() ==> s[i] <= s[j]
}

/// Sorts slot indices into non-decreasing order.
pub fn sort_slots(v: &Vec<usize>) -> (r: Vec<usize>)
    ensures
        nondecreasing(r@),
        r@.to_multiset() == v@.to_multiset(),
{
    let mut out: Vec<usize> = Vec::new();
    let mut k: usize = 0;
    proof {
        assert(out@ =~= v@.take(0));
    }
    while k < v.len()
        invariant
            k <= v@.len(),
            nondecreasing(out@),
            out@.to_multiset() == v@.take(k as int).to_multiset(),
        decreases v@.len() - k,
    {
        let x = v[k];
        let mut p: usize = 0;
        while p < out.len() && out[p] <= x
            invariant
                p <= out@.len(),
                forall|j: int| 0 <= j < p ==> out@[j] <= x,
            decreases out@.len() - p,
        {
            p = p + 1;
        }
        let ghost before = out@;
        out.insert(p, x);
        proof {
            assert forall|i: int, j: int| 0 <= i < j < out@.len() implies out@[i] <= out@[j] by {
                if j < p {
                    assert(out@[i] == before[i] && out@[j] == before[j]);
                } else if j == p {
                    assert(out@[i] == before[i]);
                } else if i == p {
                    assert(out@[j] == before[j - 1]);
                    assert(before[p as int] > x);
                } else if i < p {
                    assert(out@[i] == before[i] && out@[j] == before[j - 1]);
                } else {
                    assert(out@[i] == before[i - 1] && out@[j] == before[j - 1]);
                }
            }
            to_multiset_insert(before, p as int, x);
            assert(v@.take(k as int + 1) =~= v@.take(k as int).push(x));
            to_multiset_build(v@.take(k as int), x);
        }
        k = k + 1;
    }
    proof {
        assert(v@.take(v@.len() as int) =~= v@);
    }
    out
}

/// The pool slots of `ids`, in order.
pub open spec fn slots_of(ids: Seq<InstanceId>, pool_map: Seq<(InstanceId, usize)>) -> Seq<usize> {
    ids.map_values(|x: InstanceId| slot_of(pool_map, x))
}

/// The MIDI receivers of a new plan: those of the previous plan that still
/// have a pool slot, together with the freshly installed modules that
/// receive MIDI. Returns them (each once) and their pool slots in
/// increasing order.
pub fn midi_receivers(
    previous: &Vec<InstanceId>,
    fresh: &Vec<InstanceId>,
    pool_map: &Vec<(InstanceId, usize)>,
) -> (r: (Vec<InstanceId>, Vec<usize>))
    requires
        ids_distinct(pool_map@),
        forall|k: int| 0 <= k < fresh@.len() ==> has_id(pool_map@, #[trigger] fresh@[k]),
    ensures
        r.0@.no_duplicates(),
        forall|x: InstanceId| #[trigger] r.0@.contains(x) <==> (previous@.contains(x) && has_id(pool_map@, x)) || fresh@.contains(x),
        nondecreasing(r.1@),
        r.1@.to_multiset() == slots_of(r.0@, pool_map@).to_multiset(),
{
    let mut ids: Vec<InstanceId> = Vec::new();
    let mut i: usize = 0;
    while i < previous.len()
        invariant
            i <= previous@.len(),
            ids_distinct(pool_map@),
            ids@.no_duplicates(),
            forall|k: int| 0 <= k < ids@.len() ==> has_id(pool_map@, #[trigger] ids@[k]),
            forall|x: InstanceId| #[trigger] ids@.contains(x) <==> previous@.take(i as int).contains(x) && has_id(pool_map@, x),
        decreases previous@.len() - i,
    {
        let x = previous[i];
        let placed = find_slot(pool_map, x).is_some();
        let ghost before = ids@;
        if placed && !contains_id(&ids, x) {
            ids.push(x);
        }
        proof {
            assert(previous@.take(i as int + 1) =~= previous@.take(i as int).push(x));
            lemma_push_membership(before, ids@, x, placed && !before.contains(x));
            assert forall|y: InstanceId| #[trigger] ids@.contains(y) <==> previous@.take(i as int + 1).contains(y) && has_id(pool_map@, y) by {
                if y != x {
                    assert(previous@.take(i as int + 1).contains(y) <==> previous@.take(i as int).contains(y)) by {
                        if previous@.take(i as int).contains(y) {
                            let t = previous@.take(i as int);
                            let w = choose|w: int| 0 <= w < t.len() && t[w] == y;
                            assert(previous@.take(i as int + 1)[w] == y);
                        }
                        if previous@.take(i as int + 1).contains(y) {
                            let t = previous@.take(i as int + 1);
                            let w = choose|w: int| 0 <= w < t.len() && t[w] == y;
                            assert(w != i);
                            assert(previous@.take(i as int)[w] == y);
                        }
                    }
                } else {
                    assert(previous@.take(i as int + 1)[i as int] == x);
                }
            }
        }
        i = i + 1;
    }
    proof {
        assert(previous@.take(previous@.len() as int) =~= previous@);
    }
    let mut j: usize = 0;
    while j < fresh.len()
        invariant
            j <= fresh@.len(),
            ids@.no_duplicates(),
            forall|k: int| 0 <= k < fresh@.len() ==> has_id(pool_map@, #[trigger] fresh@[k]),
            forall|k: int| 0 <= k < ids@.len() ==> has_id(pool_map@, #[trigger] ids@[k]),
            forall|x: InstanceId| #[trigger] ids@.contains(x) <==> (previous@.contains(x) && has_id(pool_map@, x)) || fresh@.take(j as int).contains(x),
        decreases fresh@.len() - j,
    {
        let x = fresh[j];
        let ghost before = ids@;
        let present = contains_id(&ids, x);
        if !present {
            ids.push(x);
        }
        proof {
            assert(has_id(pool_map@, fresh@[j as int]));
            assert(fresh@.take(j as int + 1) =~= fresh@.take(j as int).push(x));
            lemma_push_membership(before, ids@, x, !present);
            assert forall|y: InstanceId| #[trigger] ids@.contains(y) <==> (previous@.contains(y) && has_id(pool_map@, y)) || fresh@.take(j as int + 1).contains(y) by {
                if y != x {
                    assert(fresh@.take(j as int + 1).contains(y) <==> fresh@.take(j as int).contains(y)) by {
                        if fresh@.take(j as int).contains(y) {
                            let t = fresh@.take(j as int);
                            let w = choose|w: int| 0 <= w < t.len() && t[w] == y;
                            assert(fresh@.take(j as int + 1)[w] == y);
                        }
                        if fresh@.take(j as int + 1).contains(y) {
                            let t = fresh@.take(j as int + 1);
                            let w = choose|w: int| 0 <= w < t.len() && t[w] == y;
                            assert(w != j);
                            assert(fresh@.take(j as int)[w] == y);
                        }
                    }
                } else {
                    assert(fresh@.take(j as int + 1)[j as int] == x);
                }
            }
        }
        j = j + 1;
    }
    proof {
        assert(fresh@.take(fresh@.len() as int) =~= fresh@);
    }
    let mut slots: Vec<usize> = Vec::new();
    let mut k: usize = 0;
    while k < ids.len()
        invariant
            k <= ids@.len(),
            ids_distinct(pool_map@),
            forall|q: int| 0 <= q < ids@.len() ==> has_id(pool_map@, #[trigger] ids@[q]),
            slots@ == slots_of(ids@.take(k as int), pool_map@),
        decreases ids@.len() - k,
    {
        let s = match find_slot(pool_map, ids[k]) {
            Some(s) => s,
            None => 0,
        };
        proof {
            assert(has_id(pool_map@, ids@[k as int]));
            assert(ids@.take(k as int + 1) =~= ids@.take(k as int).push(ids@[k as int]));
        }
        slots.push(s);
        proof {
            assert(slots@ =~= slots_of(ids@.take(k as int + 1), pool_map@));
        }
        k = k + 1;
    }
    proof {
        assert(ids@.take(ids@.len() as int) =~= ids@);
    }
    let sorted = sort_slots(&slots);
    (ids, sorted)
}

/// Membership after possibly pushing `x` onto a list without duplicates.
proof fn lemma_push_membership(before: Seq<InstanceId>, after: Seq<InstanceId>, x: InstanceId, pushed: bool)
    requires
        before.no_duplicates(),
        pushed ==> after == before.push(x) && !before.contains(x),
        !pushed ==> after == before,
    ensures
        after.no_duplicates(),
        forall|y: InstanceId| y != x ==> (after.contains(y) <==> before.contains(y)),
        pushed ==> after.contains(x),
{
    if pushed {
        assert(after[before.len() as int] == x);
        assert forall|y: InstanceId| y != x implies (after.contains(y) <==> before.contains(y)) by {
            if after.contains(y) {
                let w = choose|w: int| 0 <= w < after.len() && after[w] == y;
                assert(before[w] == y);
            }
            if before.contains(y) {
                let w = choose|w: int| 0 <= w < before.len() && before[w] == y;
                assert(after[w] == y);
            }
        }
    }
}

} // verus!
