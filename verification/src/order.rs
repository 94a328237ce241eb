//! Lexicographic order on names, and sorting of node ids.
use vstd::prelude::*;
use vstd::string::StrSliceExecFns;

use crate::graph::NodeId;

verus! {

/// Strict lexicographic order on texts, comparing characters by code point.
/// (For UTF-8 strings this is the same order as comparing their bytes, which
/// is how `str` and `String` order themselves.)
pub open spec fn text_lt(a: Seq<char>, b: Seq<char>) -> bool
    decreases a.len(),
{
    if a.len() == 0 {
        b.len() > 0
    } else if b.len() == 0 {
        false
    } else if a[0] != b[0] {
        a[0] < b[0]
    } else {
        text_lt(a.drop_first(), b.drop_first())
    }
}

/// `text_lt` is irreflexive and asymmetric.
pub proof fn lemma_text_lt_asym(a: Seq<char>, b: Seq<char>)
    ensures
        text_lt(a, b) ==> !text_lt(b, a),
        !text_lt(a, a),
    decreases a.len(),
{
    if a.len() > 0 && b.len() > 0 {
        lemma_text_lt_asym(a.drop_first(), b.drop_first());
    }
    if a.len() > 0 {
        lemma_text_lt_asym(a.drop_first(), a.drop_first());
    }
}

/// `text_lt` is transitive.
pub proof fn lemma_text_lt_trans(a: Seq<char>, b: Seq<char>, c: Seq<char>)
    requires
        text_lt(a, b),
        text_lt(b, c),
    ensures
        text_lt(a, c),
    decreases a.len(),
{
    if a.len() > 0 && b.len() > 0 && c.len() > 0 {
        if a[0] == b[0] && b[0] == c[0] {
            lemma_text_lt_trans(a.drop_first(), b.drop_first(), c.drop_first());
        }
    }
}

/// Distinct texts are ordered one way or the other.
pub proof fn lemma_text_lt_total(a: Seq<char>, b: Seq<char>)
    requires
        a != b,
    ensures
        text_lt(a, b) || text_lt(b, a),
    decreases a.len(),
{
    if a.len() > 0 && b.len() > 0 && a[0] == b[0] {
        if a.drop_first() == b.drop_first() {
            assert(a =~= seq![a[0]] + a.drop_first());
            assert(b =~= seq![b[0]] + b.drop_first());
        }
        lemma_text_lt_total(a.drop_first(), b.drop_first());
    } else if a.len() > 0 && b.len() > 0 {

    } else if a.len() == 0 && b.len() == 0 {
        assert(a =~= b);
    }
}

/// Compares two strings in [`text_lt`] order.
pub fn str_less(a: &str, b: &str) -> (r: bool)
    ensures
        r == text_lt(a@, b@),
{
    let la = a.unicode_len();
    let lb = b.unicode_len();
    let mut i: usize = 0;
    proof {
        assert(a@.skip(0) =~= a@);
        assert(b@.skip(0) =~= b@);
    }
    while i < la && i < lb
        invariant
            la == a@.len(),
            lb == b@.len(),
            i <= la && i <= lb,
            text_lt(a@, b@) == text_lt(a@.skip(i as int), b@.skip(i as int)),
        decreases la - i,
    {
        let ca = a.get_char(i);
        let cb = b.get_char(i);
        if ca != cb {
            proof {
                assert(a@.skip(i as int)[0] == ca);
                assert(b@.skip(i as int)[0] == cb);
            }
            return ca < cb;
        }
        proof {
            assert(a@.skip(i as int).drop_first() =~= a@.skip(i as int + 1));
            assert(b@.skip(i as int).drop_first() =~= b@.skip(i as int + 1));
        }
        i = i + 1;
    }
    proof {
        if i == la {
            assert(a@.skip(i as int).len() == 0);
        } else {
            assert(b@.skip(i as int).len() == 0);
        }
    }
    i == la && i < lb
}

/// Every earlier id precedes every later one in [`text_lt`] order.
pub open spec fn ids_sorted(s: Seq<NodeId>) -> bool {
    forall|i: int, j: int| 0 <= i < j < s.len() ==> text_lt(s[i]@, s[j]@)
}

/// The names of a list of ids.
pub open spec fn id_names(s: Seq<NodeId>) -> Seq<Seq<char>> {
    s.map_values(|n: NodeId| n@)
}

/// Sorts distinct node ids by name.
///
/// The result holds the same names as `ids`, each once, in strictly
/// increasing [`text_lt`] order.
pub fn sort_node_ids(ids: &Vec<NodeId>) -> (r: Vec<NodeId>)
    requires
        id_names(ids@).no_duplicates(),
    ensures
        r@.len() == ids@.len(),
        ids_sorted(r@),
        id_names(r@).to_set() == id_names(ids@).to_set(),
{
    let mut out: Vec<NodeId> = Vec::new();
    let mut k: usize = 0;
    while k < ids.len()
        invariant
            k <= ids@.len(),
            id_names(ids@).no_duplicates(),
            out@.len() == k,
            ids_sorted(out@),
            id_names(out@).to_set() == id_names(ids@.take(k as int)).to_set(),
        decreases ids@.len() - k,
    {
        let x = ids[k].duplicate();
        let ghost xv = x@;
        // Everything in `out` is an earlier id, so differs from `x`.
        proof {
            assert forall|j: int| 0 <= j < out@.len() implies out@[j]@ != xv by {
                assert(id_names(out@).to_set().contains(out@[j]@)) by {
                    assert(id_names(out@)[j] == out@[j]@);
                }
                let w = choose|w: int| 0 <= w < k && id_names(ids@.take(k as int))[w] == out@[j]@;
                assert(id_names(ids@)[w] == ids@[w]@);
                assert(id_names(ids@)[k as int] == ids@[k as int]@);
            }
        }
        let mut p: usize = 0;
        while p < out.len() && str_less(out[p].as_str(), x.as_str())
            invariant
                p <= out@.len(),
                xv == x@,
                forall|j: int| 0 <= j < p ==> text_lt(out@[j]@, xv),
            decreases out@.len() - p,
        {
            p = p + 1;
        }
        let ghost before = out@;
        out.insert(p, x);
        proof {
            if p < before.len() {
                assert(!text_lt(before[p as int]@, xv));
                lemma_text_lt_total(before[p as int]@, xv);
            }
            assert forall|i: int, j: int| 0 <= i < j < out@.len() implies text_lt(out@[i]@, out@[j]@) by {
                if j < p {
                    assert(out@[i] == before[i] && out@[j] == before[j]);
                } else if j == p {
                    assert(out@[i] == before[i]);
                } else if i == p {
                    assert(out@[j] == before[j - 1]);
                    if j - 1 > p {
                        lemma_text_lt_trans(xv, before[p as int]@, before[j - 1]@);
                    }
                } else if i < p {
                    assert(out@[i] == before[i] && out@[j] == before[j - 1]);
                } else {
                    assert(out@[i] == before[i - 1] && out@[j] == before[j - 1]);
                }
            }
            assert(ids@.take(k as int + 1) =~= ids@.take(k as int).push(ids@[k as int]));
            assert(id_names(ids@.take(k as int + 1)) =~= id_names(ids@.take(k as int)).push(xv));
            assert(id_names(out@) =~= id_names(before).insert(p as int, xv));

            assert(id_names(out@).to_set() =~= id_names(before).to_set().insert(xv)) by {
                assert forall|y: Seq<char>| id_names(out@).to_set().contains(y) <==> id_names(before).to_set().insert(xv).contains(y) by {
                    if id_names(out@).contains(y) {
                        let w = choose|w: int| 0 <= w < id_names(out@).len() && id_names(out@)[w] == y;
                        if w < p {
                            assert(id_names(before)[w] == y);
                        } else if w > p {
                            assert(id_names(before)[w - 1] == y);
                        }
                    }
                    if id_names(before).contains(y) {
                        let w = choose|w: int| 0 <= w < id_names(before).len() && id_names(before)[w] == y;
                        if w < p {
                            assert(id_names(out@)[w] == y);
                        } else {
                            assert(id_names(out@)[w + 1] == y);
                        }
                    }
                    if y == xv {
                        assert(id_names(out@)[p as int] == y);
                    }
                }
            }
            assert(id_names(ids@.take(k as int + 1)).to_set() =~= id_names(ids@.take(k as int)).to_set().insert(xv)) by {
                id_names(ids@.take(k as int)).lemma_push_to_set_commute(xv);
            }
        }
        k = k + 1;
    }
    proof {
        assert(ids@.take(ids@.len() as int) =~= ids@);
    }
    out
}

/// Every earlier name precedes every later one in [`text_lt`] order.
pub open spec fn names_sorted(s: Seq<Seq<char>>) -> bool {
    forall|i: int, j: int| 0 <= i < j < s.len() ==> text_lt(s[i], s[j])
}

/// Two strictly increasing lists of the same names are equal.
pub proof fn lemma_names_sorted_unique(x: Seq<Seq<char>>, y: Seq<Seq<char>>)
    requires
        names_sorted(x),
        names_sorted(y),
        x.to_set() == y.to_set(),
    ensures
        x == y,
    decreases x.len(),
{
    if x.len() == 0 {
        if y.len() > 0 {
            assert(y.to_set().contains(y[0]));
        }
        assert(x =~= y);
    } else {
        assert(x.to_set().contains(x[0]));
        assert(y.to_set().contains(x[0]));
        let j = choose|j: int| 0 <= j < y.len() && y[j] == x[0];
        assert(y.to_set().contains(y[0]));
        assert(x.to_set().contains(y[0]));
        let i = choose|i: int| 0 <= i < x.len() && x[i] == y[0];
        lemma_text_lt_asym(x[0], y[0]);
        if j > 0 {
            assert(text_lt(y[0], y[j]));
            if i > 0 {
                assert(text_lt(x[0], x[i]));
            }
        }
        assert(y[0] == x[0]);
        let xs = x.drop_first();
        let ys = y.drop_first();
        assert(xs.to_set() =~= ys.to_set()) by {
            assert forall|n: Seq<char>| xs.to_set().contains(n) <==> ys.to_set().contains(n) by {
                if xs.contains(n) {
                    let k = choose|k: int| 0 <= k < xs.len() && xs[k] == n;
                    assert(x[k + 1] == n);
                    assert(text_lt(x[0], x[k + 1]));
                    lemma_text_lt_asym(n, n);
                    assert(y.to_set().contains(n));
                    let m = choose|m: int| 0 <= m < y.len() && y[m] == n;
                    assert(m != 0);
                    assert(ys[m - 1] == n);
                }
                if ys.contains(n) {
                    let k = choose|k: int| 0 <= k < ys.len() && ys[k] == n;
                    assert(y[k + 1] == n);
                    assert(text_lt(y[0], y[k + 1]));
                    lemma_text_lt_asym(n, n);
                    assert(x.to_set().contains(n));
                    let m = choose|m: int| 0 <= m < x.len() && x[m] == n;
                    assert(m != 0);
                    assert(xs[m - 1] == n);
                }
            }
        }
        lemma_names_sorted_unique(xs, ys);
        assert(x =~= seq![x[0]] + xs);
        assert(y =~= seq![y[0]] + ys);
    }
}

/// Execution order does not depend on the order in which nodes were added:
/// two sorted id lists over the same names list the names identically.
pub proof fn lemma_sorted_order_unique(a: Seq<NodeId>, b: Seq<NodeId>)
    requires
        ids_sorted(a),
        ids_sorted(b),
        id_names(a).to_set() == id_names(b).to_set(),
    ensures
        id_names(a) == id_names(b),
{
    assert(names_sorted(id_names(a))) by {
        assert forall|i: int, j: int| 0 <= i < j < id_names(a).len() implies text_lt(id_names(a)[i], id_names(a)[j]) by {
            assert(text_lt(a[i]@, a[j]@));
        }
    }
    assert(names_sorted(id_names(b))) by {
        assert forall|i: int, j: int| 0 <= i < j < id_names(b).len() implies text_lt(id_names(b)[i], id_names(b)[j]) by {
            assert(text_lt(b[i]@, b[j]@));
        }
    }
    lemma_names_sorted_unique(id_names(a), id_names(b));
}

} // verus!
