//! Facts about the cable buffer keys of an execution order.
use vstd::prelude::*;

use crate::buffers::{has_key, key_map, keys_distinct, output_keys, KeyModel};
use crate::graph::ModuleGraph;

verus! {

/// Every key among the first `n` nodes' output keys belongs to one of those
/// nodes and one of its output ports, and every such port has a key.
pub proof fn lemma_output_keys_cover(g: ModuleGraph, ord: Seq<Seq<char>>, n: int)
    requires
        0 <= n <= ord.len(),
    ensures
        forall|t: int|
            0 <= t < output_keys(g, ord, n).len() ==> exists|i: int|
                0 <= i < n && (#[trigger] output_keys(g, ord, n)[t]).0 == ord[i]
                    && output_keys(g, ord, n)[t].1 < g.node_spec(ord[i]).module_descriptor.outputs@.len(),
        forall|i: int, p: int|
            0 <= i < n && 0 <= p < g.node_spec(ord[i]).module_descriptor.outputs@.len() ==> #[trigger] output_keys(
                g,
                ord,
                n,
            ).contains((ord[i], p as usize)),
    decreases n,
{
    if n > 0 {
        lemma_output_keys_cover(g, ord, n - 1);
        let prev = output_keys(g, ord, n - 1);
        let keys = output_keys(g, ord, n);
        let len = g.node_spec(ord[n - 1]).module_descriptor.outputs@.len();
        assert(keys == prev + Seq::new(len, |p: int| (ord[n - 1], p as usize)));
        assert forall|t: int| 0 <= t < keys.len() implies exists|i: int|
            0 <= i < n && (#[trigger] keys[t]).0 == ord[i] && keys[t].1 < g.node_spec(ord[i]).module_descriptor.outputs@.len() by {
            if t < prev.len() {
                assert(keys[t] == prev[t]);
                let i = choose|i: int| 0 <= i < n - 1 && (#[trigger] prev[t]).0 == ord[i] && prev[t].1 < g.node_spec(ord[i]).module_descriptor.outputs@.len();
                assert(0 <= i < n);
            } else {
                assert(keys[t] == (ord[n - 1], (t - prev.len()) as usize));
            }
        }
        assert forall|i: int, p: int|
            0 <= i < n && 0 <= p < g.node_spec(ord[i]).module_descriptor.outputs@.len() implies #[trigger] output_keys(
                g,
                ord,
                n,
            ).contains((ord[i], p as usize)) by {
            if i < n - 1 {
                assert(prev.contains((ord[i], p as usize)));
                let t = choose|t: int| 0 <= t < prev.len() && prev[t] == (ord[i], p as usize);
                assert(keys[t] == prev[t]);
            } else {
                assert(keys[prev.len() + p] == (ord[n - 1], p as usize));
            }
        }
    }
}

/// The output keys of distinct nodes are distinct.
pub proof fn lemma_output_keys_distinct(g: ModuleGraph, ord: Seq<Seq<char>>, n: int)
    requires
        0 <= n <= ord.len(),
        ord.no_duplicates(),
    ensures
        output_keys(g, ord, n).no_duplicates(),
    decreases n,
{
    if n > 0 {
        lemma_output_keys_distinct(g, ord, n - 1);
        lemma_output_keys_cover(g, ord, n - 1);
        let prev = output_keys(g, ord, n - 1);
        let keys = output_keys(g, ord, n);
        let len = g.node_spec(ord[n - 1]).module_descriptor.outputs@.len();
        assert(keys == prev + Seq::new(len, |p: int| (ord[n - 1], p as usize)));
        assert forall|a: int, b: int| 0 <= a < keys.len() && 0 <= b < keys.len() && a != b implies keys[a] != keys[b] by {
            if a < prev.len() && b < prev.len() {
                assert(keys[a] == prev[a] && keys[b] == prev[b]);
            } else if a < prev.len() {
                assert(keys[a] == prev[a]);
                let i = choose|i: int| 0 <= i < n - 1 && (#[trigger] prev[a]).0 == ord[i] && prev[a].1 < g.node_spec(ord[i]).module_descriptor.outputs@.len();
                assert(keys[b].0 == ord[n - 1]);
            } else if b < prev.len() {
                assert(keys[b] == prev[b]);
                let i = choose|i: int| 0 <= i < n - 1 && (#[trigger] prev[b]).0 == ord[i] && prev[b].1 < g.node_spec(ord[i]).module_descriptor.outputs@.len();
                assert(keys[a].0 == ord[n - 1]);
            } else {
                let v = g.node_spec(ord[n - 1]).module_descriptor.outputs;
                assert(v.len() == v@.len());
                assert(keys[a].1 == (a - prev.len()) as usize);
                assert(keys[b].1 == (b - prev.len()) as usize);
            }
        }
    }
}

/// A key map over distinct keys has distinct keys, and has an entry for
/// each of them.
pub proof fn lemma_key_map_keys(prev: Seq<(KeyModel, usize)>, free: Seq<usize>, hwm: int, keys: Seq<KeyModel>)
    ensures
        keys.no_duplicates() ==> keys_distinct(key_map(prev, free, hwm, keys)),
        forall|k: KeyModel| keys.contains(k) ==> #[trigger] has_key(key_map(prev, free, hwm, keys), k),
{
    let m = key_map(prev, free, hwm, keys);
    assert forall|k: KeyModel| keys.contains(k) implies #[trigger] has_key(m, k) by {
        let t = choose|t: int| 0 <= t < keys.len() && keys[t] == k;
        assert(m[t].0 == k);
    }
    if keys.no_duplicates() {
        assert forall|i: int, j: int| 0 <= i < m.len() && 0 <= j < m.len() && i != j implies m[i].0 != m[j].0 by {
            assert(m[i].0 == keys[i] && m[j].0 == keys[j]);
        }
    }
}

} // verus!
