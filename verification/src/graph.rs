//! Depth/path analysis, first half: root discovery and the enumeration,
//! per root, of every simple call path.
//!
//! A path follows caller-to-callee edges and never revisits an item
//! (by identity), so enumeration terminates even on recursive call
//! cycles. Every distinct simple path from every root is produced
//! exactly once.

use vstd::prelude::*;
use vstd::set_lib::lemma_len_subset;

use crate::indexer::bytes_starts_with;

use crate::item::CallItem;
use crate::item::ItemKey;
use crate::item::same_item;

verus! {

broadcast use vstd::seq_lib::seq_to_set_is_finite;

/// One directed call: the first item calls the second.
pub type Edge = (CallItem, CallItem);

/// The identity keys of a path's hops, in order.
pub open spec fn path_keys(p: Seq<CallItem>) -> Seq<ItemKey> {
    p.map_values(|it: CallItem| it@.key())
}

/// The edge set links `a` to `b`: some edge has caller key `a` and
/// callee key `b`.
pub open spec fn has_edge(edges: Seq<Edge>, a: ItemKey, b: ItemKey) -> bool {
    exists|i: int|
        0 <= i < edges.len() && edges[i].0@.key() == a && edges[i].1@.key() == b
}

/// `k` occurs as a callee somewhere in the edge set.
pub open spec fn is_callee_key(edges: Seq<Edge>, k: ItemKey) -> bool {
    exists|i: int| 0 <= i < edges.len() && edges[i].1@.key() == k
}

/// `k` occurs as a caller somewhere in the edge set.
pub open spec fn is_caller_key(edges: Seq<Edge>, k: ItemKey) -> bool {
    exists|i: int| 0 <= i < edges.len() && edges[i].0@.key() == k
}

/// An entry point: an item of the graph that nothing in the graph
/// calls — it occurs as a caller and never as a callee.
pub open spec fn is_root_key(edges: Seq<Edge>, k: ItemKey) -> bool {
    is_caller_key(edges, k) && !is_callee_key(edges, k)
}

/// Consecutive hops of `ks` are all linked by edges.
pub open spec fn is_chain(edges: Seq<Edge>, ks: Seq<ItemKey>) -> bool {
    forall|i: int| 0 <= i < ks.len() - 1 ==> has_edge(edges, #[trigger] ks[i], ks[i + 1])
}

/// A non-empty chain of edges that never revisits an item.
pub open spec fn is_simple_path(edges: Seq<Edge>, ks: Seq<ItemKey>) -> bool {
    ks.len() >= 1 && is_chain(edges, ks) && ks.no_duplicates()
}

/// A simple path that starts at an entry point.
pub open spec fn is_root_path(edges: Seq<Edge>, ks: Seq<ItemKey>) -> bool {
    is_simple_path(edges, ks) && is_root_key(edges, ks[0])
}

/// Every hop after the first occurs as a callee in the edge set.
pub open spec fn tail_all_callees(edges: Seq<Edge>, ks: Seq<ItemKey>) -> bool {
    forall|i: int| 1 <= i < ks.len() ==> is_callee_key(edges, ks[i])
}

/// Two edges carry the same (caller, callee) key pair.
pub open spec fn pair_key_eq(x: Edge, y: Edge) -> bool {
    x.0@.key() == y.0@.key() && x.1@.key() == y.1@.key()
}

/// No earlier edge carries the key pair of edge `w`.
pub open spec fn first_occurrence(edges: Seq<Edge>, w: int) -> bool {
    forall|v: int| 0 <= v < w ==> !pair_key_eq(edges[v], edges[w])
}

/// A copy of a path whose hops have the same mathematical values.
pub fn clone_path(p: &Vec<CallItem>) -> (r: Vec<CallItem>)
    ensures
        r@.len() == p@.len(),
        forall|i: int| 0 <= i < p@.len() ==> r@[i]@ == p@[i]@,
        path_keys(r@) == path_keys(p@),
{
    let mut out: Vec<CallItem> = Vec::new();
    let mut i: usize = 0;
    while i < p.len()
        invariant
            i <= p@.len(),
            out@.len() == i,
            forall|j: int| 0 <= j < i ==> out@[j]@ == p@[j]@,
        decreases p@.len() - i,
    {
        out.push(p[i].clone());
        i += 1;
    }
    proof {
        assert(path_keys(out@) =~= path_keys(p@));
    }
    out
}

/// Whether some hop of `path` is the same symbol as `item`.
pub fn key_in_path(path: &Vec<CallItem>, item: &CallItem) -> (r: bool)
    ensures
        r == path_keys(path@).contains(item@.key()),
{
    let mut i: usize = 0;
    while i < path.len()
        invariant
            i <= path@.len(),
            forall|j: int| 0 <= j < i ==> path@[j]@.key() != item@.key(),
        decreases path@.len() - i,
    {
        if same_item(&path[i], item) {
            proof {
                assert(path_keys(path@)[i as int] == item@.key());
            }
            return true;
        }
        i += 1;
    }
    proof {
        assert forall|j: int| 0 <= j < path_keys(path@).len() implies path_keys(path@)[j]
            != item@.key() by {
            assert(path_keys(path@)[j] == path@[j]@.key());
        }
    }
    false
}

/// A family of pairwise distinct keys that all occur as callees cannot
/// outnumber the edges.
proof fn lemma_distinct_callee_keys_bound(edges: Seq<Edge>, ks: Seq<ItemKey>)
    requires
        ks.no_duplicates(),
        forall|i: int| 0 <= i < ks.len() ==> is_callee_key(edges, ks[i]),
    ensures
        ks.len() <= edges.len(),
{
    let callee_keys = edges.map_values(|e: Edge| e.1@.key());
    assert forall|k: ItemKey| ks.to_set().contains(k) implies callee_keys.to_set().contains(
        k,
    ) by {
        let i = choose|i: int| 0 <= i < ks.len() && ks[i] == k;
        let w = choose|w: int| 0 <= w < edges.len() && edges[w].1@.key() == k;
        assert(callee_keys[w] == k);
    }
    ks.unique_seq_to_set();
    callee_keys.lemma_cardinality_of_set();
    lemma_len_subset(ks.to_set(), callee_keys.to_set());
}

/// Appends to `out` every simple path of the edge set that extends
/// `path`, including `path` itself, each exactly once (by hop keys).
///
/// This is the traversal core: it terminates because a simple path can
/// hold at most one hop per edge beyond its start, and it records a
/// path for every item it reaches.
fn extend_paths(edges: &Vec<Edge>, path: &Vec<CallItem>, out: &mut Vec<Vec<CallItem>>)
    requires
        1 <= path@.len() <= edges@.len() + 1,
        path_keys(path@).no_duplicates(),
        is_chain(edges@, path_keys(path@)),
        tail_all_callees(edges@, path_keys(path@)),
    ensures
        final(out)@.len() > old(out)@.len(),
        forall|j: int| 0 <= j < old(out)@.len() ==> final(out)@[j] == old(out)@[j],
        forall|j: int|
            old(out)@.len() <= j < final(out)@.len() ==> is_simple_path(
                edges@,
                path_keys(final(out)@[j]@),
            ) && path_keys(path@).is_prefix_of(path_keys(final(out)@[j]@)),
        forall|ks: Seq<ItemKey>|
            is_simple_path(edges@, ks) && path_keys(path@).is_prefix_of(ks) ==> exists|j: int|
                old(out)@.len() <= j < final(out)@.len() && path_keys(final(out)@[j]@) == ks,
        forall|j1: int, j2: int|
            old(out)@.len() <= j1 < final(out)@.len() && old(out)@.len() <= j2
                < final(out)@.len() && j1 != j2 ==> path_keys(final(out)@[j1]@) != path_keys(
                final(out)@[j2]@,
            ),
    decreases edges@.len() + 1 - path@.len(),
{
    let ghost base = out@.len() as int;
    let ghost pks = path_keys(path@);
    let copy = clone_path(path);
    out.push(copy);
    proof {
        assert(out@[base]@ =~= out@[base]@);
        assert(path_keys(out@[base]@) == pks);
        assert(pks.is_prefix_of(pks));
    }
    let last = &path[path.len() - 1];
    let ghost last_key = last@.key();
    proof {
        assert(pks[pks.len() - 1] == last_key);
    }
    let mut e: usize = 0;
    while e < edges.len()
        invariant
            1 <= path@.len() <= edges@.len() + 1,
            pks == path_keys(path@),
            pks.no_duplicates(),
            is_chain(edges@, pks),
            tail_all_callees(edges@, pks),
            last_key == path@[path@.len() - 1]@.key(),
            last_key == last@.key(),
            e <= edges@.len(),
            base == old(out)@.len(),
            out@.len() > base,
            forall|j: int| 0 <= j < base ==> out@[j] == old(out)@[j],
            path_keys(out@[base]@) == pks,
            // soundness of everything recorded so far
            forall|j: int|
                base <= j < out@.len() ==> is_simple_path(edges@, path_keys(out@[j]@))
                    && pks.is_prefix_of(path_keys(out@[j]@)),
            // every proper extension recorded so far steps through a
            // processed first-occurrence edge
            forall|j: int|
                base + 1 <= j < out@.len() ==> path_keys(out@[j]@).len() > pks.len() && (
                exists|w: int|
                    0 <= w < e && edges@[w].0@.key() == last_key && edges@[w].1@.key()
                        == path_keys(out@[j]@)[pks.len() as int] && first_occurrence(edges@, w)),
            // completeness over the edges already processed
            forall|ks: Seq<ItemKey>|
                is_simple_path(edges@, ks) && pks.is_prefix_of(ks) && ks.len() > pks.len() && (
                exists|w: int|
                    0 <= w < e && edges@[w].0@.key() == last_key && edges@[w].1@.key()
                        == ks[pks.len() as int]) ==> exists|j: int|
                    base <= j < out@.len() && path_keys(out@[j]@) == ks,
            // no path recorded twice
            forall|j1: int, j2: int|
                base <= j1 < out@.len() && base <= j2 < out@.len() && j1 != j2 ==> path_keys(
                    out@[j1]@,
                ) != path_keys(out@[j2]@),
        decreases edges@.len() - e,
    {
        let caller_matches = same_item(&edges[e].0, last);
        let mut seen_before = false;
        let mut v: usize = 0;
        while v < e
            invariant
                v <= e < edges@.len(),
                seen_before == exists|u: int| 0 <= u < v && pair_key_eq(edges@[u], edges@[e as int]),
            decreases e - v,
        {
            if same_item(&edges[v].0, &edges[e].0) && same_item(&edges[v].1, &edges[e].1) {
                seen_before = true;
            }
            v += 1;
        }
        if caller_matches && !seen_before && !key_in_path(path, &edges[e].1) {
            let ghost bkey = edges@[e as int].1@.key();
            let mut p2 = clone_path(path);
            p2.push(edges[e].1.clone());
            proof {
                assert(path_keys(p2@) =~= pks.push(bkey));
                assert(forall|i: int| 0 <= i < pks.len() ==> path_keys(p2@)[i] == pks[i]);
                // the new hop key is fresh, so the path stays duplicate-free
                assert(path_keys(p2@).no_duplicates()) by {
                    assert(forall|i: int| 0 <= i < pks.len() ==> pks[i] != bkey);
                }
                // the new last hop is reached by edge e
                assert(is_chain(edges@, path_keys(p2@))) by {
                    assert(path_keys(p2@)[pks.len() - 1] == last_key);
                    assert(path_keys(p2@)[pks.len() as int] == bkey);
                    assert(has_edge(edges@, last_key, bkey));
                    assert(forall|i: int|
                        0 <= i < pks.len() - 1 ==> has_edge(
                            edges@,
                            #[trigger] path_keys(p2@)[i],
                            path_keys(p2@)[i + 1],
                        ));
                }
                assert(tail_all_callees(edges@, path_keys(p2@)));
                // a simple path cannot hold more distinct callees than edges
                assert(p2@.len() <= edges@.len() + 1) by {
                    lemma_distinct_callee_keys_bound(edges@, path_keys(p2@).drop_first());
                    assert(path_keys(p2@).drop_first().no_duplicates());
                }
            }
            let ghost mark = out@.len() as int;
            extend_paths(edges, &p2, out);
            proof {
                let p2ks = path_keys(p2@);
                // entries of this batch extend pks through edge e
                assert forall|j: int| mark <= j < out@.len() implies path_keys(out@[j]@).len()
                    > pks.len() && pks.is_prefix_of(path_keys(out@[j]@)) && path_keys(
                    out@[j]@,
                )[pks.len() as int] == bkey by {
                    assert(p2ks.is_prefix_of(path_keys(out@[j]@)));
                    assert(path_keys(out@[j]@).len() >= p2ks.len());
                    assert(p2ks[pks.len() as int] == bkey);
                    assert(forall|i: int| 0 <= i < pks.len() ==> p2ks[i] == pks[i]);
                }
                // the batch is disjoint from earlier batches: an earlier
                // batch went through a first-occurrence edge with a
                // different callee key
                assert forall|j1: int, j2: int|
                    base + 1 <= j1 < mark && mark <= j2 < out@.len() implies path_keys(out@[j1]@)
                    != path_keys(out@[j2]@) by {
                    let w = choose|w: int|
                        0 <= w < e && edges@[w].0@.key() == last_key && edges@[w].1@.key()
                            == path_keys(out@[j1]@)[pks.len() as int] && first_occurrence(
                            edges@,
                            w,
                        );
                    if path_keys(out@[j1]@)[pks.len() as int] == bkey {
                        assert(pair_key_eq(edges@[w], edges@[e as int]));
                        assert(!first_occurrence(edges@, e as int));
                        assert(false);
                    }
                }
                // edge e itself is the first-occurrence witness for the
                // new batch
                assert(first_occurrence(edges@, e as int));
                assert(edges@[e as int].0@.key() == last_key);
                assert forall|j: int| mark <= j < out@.len() implies exists|w: int|
                    0 <= w < e + 1 && edges@[w].0@.key() == last_key && edges@[w].1@.key()
                        == path_keys(#[trigger] out@[j]@)[pks.len() as int] && first_occurrence(
                        edges@,
                        w,
                    ) by {
                    assert(edges@[e as int].0@.key() == last_key && edges@[e as int].1@.key()
                        == path_keys(out@[j]@)[pks.len() as int] && first_occurrence(
                        edges@,
                        e as int,
                    ));
                }
            }
        } else {
            proof {
                // nothing new is owed for edge e:
                // - if the caller does not match, no extension of the
                //   path steps through it;
                // - if its key pair occurred earlier, that occurrence
                //   already covered the step;
                // - if its callee is already a hop, any path stepping
                //   through it would repeat an item.
                assert forall|ks: Seq<ItemKey>|
                    is_simple_path(edges@, ks) && pks.is_prefix_of(ks) && ks.len() > pks.len() && (
                    exists|w: int|
                        0 <= w < e + 1 && edges@[w].0@.key() == last_key && edges@[w].1@.key()
                            == ks[pks.len() as int]) implies exists|j: int|
                    base <= j < out@.len() && path_keys(out@[j]@) == ks by {
                    let w = choose|w: int|
                        0 <= w < e + 1 && edges@[w].0@.key() == last_key && edges@[w].1@.key()
                            == ks[pks.len() as int];
                    if w == e {
                        if !caller_matches {
                            assert(false);
                        } else if seen_before {
                            let u = choose|u: int|
                                0 <= u < e && pair_key_eq(edges@[u], edges@[e as int]);
                            assert(edges@[u].0@.key() == last_key && edges@[u].1@.key()
                                == ks[pks.len() as int]);
                        } else {
                            // the callee is already a hop of the path
                            let h = choose|h: int|
                                0 <= h < pks.len() && pks[h] == edges@[e as int].1@.key();
                            assert(ks[h] == ks[pks.len() as int]);
                            assert(!ks.no_duplicates());
                            assert(false);
                        }
                    }
                }
            }
        }
        e += 1;
    }
    proof {
        // every simple extension either is the path itself or steps
        // through some edge, and all edges were processed
        assert forall|ks: Seq<ItemKey>|
            is_simple_path(edges@, ks) && pks.is_prefix_of(ks) implies exists|j: int|
            base <= j < out@.len() && path_keys(out@[j]@) == ks by {
            if ks.len() == pks.len() {
                assert(ks =~= pks);
                assert(path_keys(out@[base]@) == ks);
            } else {
                assert(ks.len() > pks.len());
                assert(ks[pks.len() - 1] == last_key);
                assert(has_edge(edges@, ks[pks.len() - 1], ks[pks.len() as int]));
                let w = choose|w: int|
                    0 <= w < edges@.len() && edges@[w].0@.key() == last_key && edges@[w].1@.key()
                        == ks[pks.len() as int];
                assert(0 <= w < edges@.len());
            }
        }
    }
}

/// Root self-path law: every entry point is reached by the one-hop
/// path holding exactly itself, so a root always has a path of length
/// one whose only hop is the root. Together with the completeness of
/// the traversal, this puts every root in the output with that path.
pub proof fn lemma_root_self_path(edges: Seq<Edge>, k: ItemKey)
    requires
        is_root_key(edges, k),
    ensures
        is_root_path(edges, seq![k]),
        seq![k].len() == 1,
        seq![k].last() == k,
{
    assert(seq![k].no_duplicates());
}

/// Builds the edges contributed by one definition: every reported
/// caller inside the project root becomes one (caller, target) edge,
/// and a caller outside the root is never included — calls from
/// external or library code are out of scope.
pub fn edges_for_target(
    callers: &Vec<CallItem>,
    target: &CallItem,
    project_root: &Vec<u8>,
) -> (r: Vec<Edge>)
    ensures
        forall|j: int|
            0 <= j < r@.len() ==> project_root@.is_prefix_of((#[trigger] r@[j]).0@.uri) && (
            exists|c: int| 0 <= c < callers@.len() && r@[j].0@ == (#[trigger] callers@[c])@) && r@[
                j
            ].1@ == target@,
        forall|c: int|
            0 <= c < callers@.len() && project_root@.is_prefix_of((#[trigger] callers@[c])@.uri)
                ==> exists|j: int| 0 <= j < r@.len() && (#[trigger] r@[j]).0@ == callers@[c]@,
{
    let mut out: Vec<Edge> = Vec::new();
    let mut c: usize = 0;
    while c < callers.len()
        invariant
            c <= callers@.len(),
            forall|j: int|
                0 <= j < out@.len() ==> project_root@.is_prefix_of((#[trigger] out@[j]).0@.uri) && (
                exists|c9: int| 0 <= c9 < callers@.len() && out@[j].0@ == (
                #[trigger] callers@[c9])@) && out@[j].1@ == target@,
            forall|c9: int|
                0 <= c9 < c && project_root@.is_prefix_of((#[trigger] callers@[c9])@.uri)
                    ==> exists|j: int| 0 <= j < out@.len() && (#[trigger] out@[j]).0@ == callers@[
                    c9
                ]@,
        decreases callers@.len() - c,
    {
        if bytes_starts_with(&callers[c].uri, project_root) {
            let ghost prev = out@;
            let edge = (callers[c].clone(), target.clone());
            out.push(edge);
            proof {
                assert(out@[prev.len() as int].0@ == callers@[c as int]@);
                assert forall|c9: int|
                    0 <= c9 < c + 1 && project_root@.is_prefix_of((#[trigger] callers@[c9])@.uri)
                        implies exists|j: int|
                    0 <= j < out@.len() && (#[trigger] out@[j]).0@ == callers@[c9]@ by {
                    if c9 < c {
                        let j = choose|j: int|
                            0 <= j < prev.len() && (#[trigger] prev[j]).0@ == callers@[c9]@;
                        assert(out@[j].0@ == callers@[c9]@);
                    } else {
                        assert(out@[prev.len() as int].0@ == callers@[c9]@);
                    }
                }
            }
        }
        c += 1;
    }
    out
}

/// Whether `item`'s key occurs as a callee in the edge set.
pub fn appears_as_callee(edges: &Vec<Edge>, item: &CallItem) -> (r: bool)
    ensures
        r == is_callee_key(edges@, item@.key()),
{
    let mut i: usize = 0;
    while i < edges.len()
        invariant
            i <= edges@.len(),
            forall|j: int| 0 <= j < i ==> edges@[j].1@.key() != item@.key(),
        decreases edges@.len() - i,
    {
        if same_item(&edges[i].1, item) {
            return true;
        }
        i += 1;
    }
    false
}

/// Discovers the entry points of the edge set: one item per key that
/// occurs as a caller and never as a callee. Roots are discovered, not
/// declared.
pub fn find_roots(edges: &Vec<Edge>) -> (r: Vec<CallItem>)
    ensures
        forall|j: int| 0 <= j < r@.len() ==> is_root_key(edges@, r@[j]@.key()),
        forall|k: ItemKey| is_root_key(edges@, k) ==> path_keys(r@).contains(k),
        path_keys(r@).no_duplicates(),
{
    let mut out: Vec<CallItem> = Vec::new();
    let mut i: usize = 0;
    while i < edges.len()
        invariant
            i <= edges@.len(),
            forall|j: int| 0 <= j < out@.len() ==> is_root_key(edges@, out@[j]@.key()),
            forall|c: int|
                0 <= c < i && is_root_key(edges@, edges@[c].0@.key()) ==> path_keys(out@).contains(
                    edges@[c].0@.key(),
                ),
            path_keys(out@).no_duplicates(),
        decreases edges@.len() - i,
    {
        let caller = &edges[i].0;
        if !appears_as_callee(edges, caller) && !key_in_path(&out, caller) {
            let ghost prev = path_keys(out@);
            out.push(caller.clone());
            proof {
                assert(path_keys(out@) =~= prev.push(caller@.key()));
                assert(is_caller_key(edges@, caller@.key()));
                assert forall|k: ItemKey| prev.contains(k) implies path_keys(out@).contains(
                    k,
                ) by {
                    let j = choose|j: int| 0 <= j < prev.len() && prev[j] == k;
                    assert(path_keys(out@)[j] == k);
                }
                assert(path_keys(out@)[prev.len() as int] == caller@.key());
            }
        }
        i += 1;
    }
    proof {
        assert forall|k: ItemKey| is_root_key(edges@, k) implies path_keys(out@).contains(k) by {
            let c = choose|c: int| 0 <= c < edges@.len() && edges@[c].0@.key() == k;
            assert(is_root_key(edges@, edges@[c].0@.key()));
        }
    }
    out
}

/// Enumerates, for every entry point of the edge set, every simple path
/// that starts there: the complete set of root-to-item call chains, each
/// exactly once. A root itself is reached by its own one-hop path.
pub fn get_depths(edges: &Vec<Edge>) -> (r: Vec<Vec<CallItem>>)
    ensures
        forall|j: int| 0 <= j < r@.len() ==> is_root_path(edges@, path_keys(r@[j]@)),
        forall|ks: Seq<ItemKey>|
            is_root_path(edges@, ks) ==> exists|j: int|
                0 <= j < r@.len() && path_keys(r@[j]@) == ks,
        forall|j1: int, j2: int|
            0 <= j1 < r@.len() && 0 <= j2 < r@.len() && j1 != j2 ==> path_keys(r@[j1]@)
                != path_keys(r@[j2]@),
{
    let roots = find_roots(edges);
    let mut out: Vec<Vec<CallItem>> = Vec::new();
    let mut t: usize = 0;
    while t < roots.len()
        invariant
            t <= roots@.len(),
            forall|j: int| 0 <= j < roots@.len() ==> is_root_key(edges@, roots@[j]@.key()),
            forall|k: ItemKey| is_root_key(edges@, k) ==> path_keys(roots@).contains(k),
            path_keys(roots@).no_duplicates(),
            forall|j: int| 0 <= j < out@.len() ==> is_root_path(edges@, path_keys(out@[j]@)),
            forall|j: int|
                0 <= j < out@.len() ==> exists|u: int|
                    0 <= u < t && path_keys(#[trigger] out@[j]@)[0] == roots@[u]@.key(),
            forall|ks: Seq<ItemKey>|
                is_root_path(edges@, ks) && (exists|u: int|
                    0 <= u < t && ks[0] == roots@[u]@.key()) ==> exists|j: int|
                    0 <= j < out@.len() && path_keys(out@[j]@) == ks,
            forall|j1: int, j2: int|
                0 <= j1 < out@.len() && 0 <= j2 < out@.len() && j1 != j2 ==> path_keys(out@[j1]@)
                    != path_keys(out@[j2]@),
        decreases roots@.len() - t,
    {
        let root = &roots[t];
        let mut start: Vec<CallItem> = Vec::new();
        start.push(root.clone());
        proof {
            assert(path_keys(start@) =~= seq![root@.key()]);
            assert(is_caller_key(edges@, root@.key()));
            let c = choose|c: int| 0 <= c < edges@.len() && edges@[c].0@.key() == root@.key();
            assert(edges@.len() >= 1);
        }
        let ghost mark = out@.len() as int;
        extend_paths(edges, &start, &mut out);
        proof {
            let rk = root@.key();
            // paths of this batch start at this root; earlier batches
            // start at earlier roots, whose keys differ
            assert forall|j: int| mark <= j < out@.len() implies path_keys(out@[j]@)[0] == rk by {
                assert(path_keys(start@).is_prefix_of(path_keys(out@[j]@)));
                assert(path_keys(start@)[0] == rk);
            }
            assert forall|j1: int, j2: int|
                0 <= j1 < mark && mark <= j2 < out@.len() implies path_keys(out@[j1]@)
                != path_keys(out@[j2]@) by {
                let u = choose|u: int| 0 <= u < t && path_keys(out@[j1]@)[0] == roots@[u]@.key();
                if path_keys(out@[j1]@)[0] == rk {
                    assert(path_keys(roots@)[u] == path_keys(roots@)[t as int]);
                    assert(false);
                }
            }
            assert forall|ks: Seq<ItemKey>|
                is_root_path(edges@, ks) && (exists|u: int|
                    0 <= u < t + 1 && ks[0] == roots@[u]@.key()) implies exists|j: int|
                0 <= j < out@.len() && path_keys(out@[j]@) == ks by {
                let u = choose|u: int| 0 <= u < t + 1 && ks[0] == roots@[u]@.key();
                if u == t {
                    assert(path_keys(start@).is_prefix_of(ks)) by {
                        assert(path_keys(start@) =~= seq![rk]);
                        assert(ks.take(1) =~= seq![rk]);
                    }
                }
            }
        }
        t += 1;
    }
    proof {
        assert forall|ks: Seq<ItemKey>| is_root_path(edges@, ks) implies exists|j: int|
            0 <= j < out@.len() && path_keys(out@[j]@) == ks by {
            assert(path_keys(roots@).contains(ks[0]));
            let u = choose|u: int| 0 <= u < roots@.len() && path_keys(roots@)[u] == ks[0];
            assert(roots@[u]@.key() == ks[0]);
        }
    }
    out
}

} // verus!
