//! Depth/path analysis, second half: aggregation of paths per item
//! across all roots, and the layering-inconsistency decision.
//!
//! An item is flagged when it is reached by paths of more than one
//! length and those paths share no intermediate hop — apparent depth
//! variance caused by one call chain being revisited is not flagged.

use vstd::prelude::*;

use crate::graph::Edge;
use crate::graph::clone_path;
use crate::graph::get_depths;
use crate::graph::is_root_path;
use crate::graph::path_keys;
use crate::item::CallItem;
use crate::item::CallItemView;
use crate::item::ItemKey;
use crate::item::same_item;

verus! {

/// An item together with every root-to-item path that reaches it.
pub type Depths<T> = Vec<(T, Vec<Vec<T>>)>;

/// The identity key of the item a path ends at.
pub open spec fn end_key(p: Seq<CallItem>) -> ItemKey {
    p[p.len() - 1]@.key()
}

/// Whether the aggregation already has an entry for this item.
fn has_entry_with_key(out: &Depths<CallItem>, item: &CallItem) -> (r: bool)
    ensures
        r == exists|u: int| 0 <= u < out@.len() && (#[trigger] out@[u].0@).key() == item@.key(),
{
    let mut j: usize = 0;
    while j < out.len()
        invariant
            j <= out@.len(),
            forall|u: int| 0 <= u < j ==> (#[trigger] out@[u].0@).key() != item@.key(),
        decreases out@.len() - j,
    {
        if same_item(&out[j].0, item) {
            return true;
        }
        j += 1;
    }
    false
}

/// The positions, in ascending order, of the paths that end at
/// `endpoint`.
fn indices_ending_at(paths: &Vec<Vec<CallItem>>, endpoint: &CallItem) -> (idx: Vec<usize>)
    requires
        forall|p: int| 0 <= p < paths@.len() ==> (#[trigger] paths@[p]@).len() >= 1,
    ensures
        forall|g: int|
            0 <= g < idx@.len() ==> (#[trigger] idx@[g]) < paths@.len() && end_key(
                paths@[idx@[g] as int]@,
            ) == endpoint@.key(),
        forall|p: int|
            0 <= p < paths@.len() && end_key(#[trigger] paths@[p]@) == endpoint@.key()
                ==> exists|g: int| 0 <= g < idx@.len() && (#[trigger] idx@[g]) as int == p,
        forall|g1: int, g2: int| 0 <= g1 < g2 < idx@.len() ==> idx@[g1] < idx@[g2],
{
    let mut idx: Vec<usize> = Vec::new();
    let mut q: usize = 0;
    while q < paths.len()
        invariant
            q <= paths@.len(),
            forall|p: int| 0 <= p < paths@.len() ==> (#[trigger] paths@[p]@).len() >= 1,
            forall|g: int|
                0 <= g < idx@.len() ==> (#[trigger] idx@[g]) < q && end_key(
                    paths@[idx@[g] as int]@,
                ) == endpoint@.key(),
            forall|p: int|
                0 <= p < q && end_key(#[trigger] paths@[p]@) == endpoint@.key() ==> exists|g: int|
                    0 <= g < idx@.len() && (#[trigger] idx@[g]) as int == p,
            forall|g1: int, g2: int| 0 <= g1 < g2 < idx@.len() ==> idx@[g1] < idx@[g2],
        decreases paths@.len() - q,
    {
        let pq = &paths[q];
        let hit = same_item(&pq[pq.len() - 1], endpoint);
        proof {
            assert(end_key(paths@[q as int]@) == paths@[q as int]@[paths@[q as int]@.len()
                - 1]@.key());
        }
        if hit {
            let ghost prev = idx@;
            idx.push(q);
            proof {
                assert forall|p: int|
                    0 <= p < q + 1 && end_key(#[trigger] paths@[p]@) == endpoint@.key()
                        implies exists|g: int|
                    0 <= g < idx@.len() && (#[trigger] idx@[g]) as int == p by {
                    if p < q {
                        let g = choose|g: int| 0 <= g < prev.len() && (#[trigger] prev[g]) as int == p;
                        assert(idx@[g] as int == p);
                    } else {
                        assert(idx@[idx@.len() - 1] as int == p);
                    }
                }
            }
        }
        q += 1;
    }
    idx
}

/// Groups, per reachable item, the complete set of root-to-item paths,
/// unioned across every entry point that reaches the item: one entry
/// per item key, whose path list holds exactly the simple paths from
/// any root that end at that item, each exactly once.
#[verifier::rlimit(50)]
pub fn get_function_depths(calls: &Vec<Edge>) -> (r: Depths<CallItem>)
    ensures
        forall|j: int| 0 <= j < r@.len() ==> r@[j].1@.len() >= 1,
        forall|j: int, q: int|
            0 <= j < r@.len() && 0 <= q < r@[j].1@.len() ==> is_root_path(
                calls@,
                path_keys(#[trigger] r@[j].1@[q]@),
            ) && end_key(r@[j].1@[q]@) == r@[j].0@.key(),
        forall|j1: int, j2: int|
            0 <= j1 < r@.len() && 0 <= j2 < r@.len() && j1 != j2 ==> r@[j1].0@.key()
                != r@[j2].0@.key(),
        forall|j: int, q1: int, q2: int|
            0 <= j < r@.len() && 0 <= q1 < r@[j].1@.len() && 0 <= q2 < r@[j].1@.len() && q1 != q2
                ==> path_keys(#[trigger] r@[j].1@[q1]@) != path_keys(#[trigger] r@[j].1@[q2]@),
        forall|ks: Seq<ItemKey>|
            is_root_path(calls@, ks) ==> exists|j: int, q: int|
                0 <= j < r@.len() && 0 <= q < r@[j].1@.len() && path_keys(#[trigger] r@[j].1@[q]@)
                    == ks,
{
    let paths = get_depths(calls);
    proof {
        assert forall|p: int| 0 <= p < paths@.len() implies (#[trigger] paths@[p]@).len() >= 1 by {
            assert(path_keys(paths@[p]@).len() >= 1);
        }
    }
    let mut out: Depths<CallItem> = Vec::new();
    let mut i: usize = 0;
    while i < paths.len()
        invariant
            i <= paths@.len(),
            forall|p: int| 0 <= p < paths@.len() ==> (#[trigger] paths@[p]@).len() >= 1,
            forall|p: int|
                0 <= p < paths@.len() ==> is_root_path(calls@, path_keys(#[trigger] paths@[p]@)),
            forall|p1: int, p2: int|
                0 <= p1 < paths@.len() && 0 <= p2 < paths@.len() && p1 != p2 ==> path_keys(
                    paths@[p1]@,
                ) != path_keys(paths@[p2]@),
            forall|j: int| 0 <= j < out@.len() ==> (#[trigger] out@[j].1@).len() >= 1,
            forall|j: int, q: int|
                0 <= j < out@.len() && 0 <= q < out@[j].1@.len() ==> is_root_path(
                    calls@,
                    path_keys(#[trigger] out@[j].1@[q]@),
                ) && end_key(out@[j].1@[q]@) == out@[j].0@.key(),
            forall|j1: int, j2: int|
                0 <= j1 < out@.len() && 0 <= j2 < out@.len() && j1 != j2 ==> out@[j1].0@.key()
                    != out@[j2].0@.key(),
            forall|j: int, q1: int, q2: int|
                0 <= j < out@.len() && 0 <= q1 < out@[j].1@.len() && 0 <= q2 < out@[j].1@.len()
                    && q1 != q2 ==> path_keys(#[trigger] out@[j].1@[q1]@) != path_keys(
                    #[trigger] out@[j].1@[q2]@,
                ),
            // each entry's group holds every path that ends at its item
            forall|j: int, p: int|
                0 <= j < out@.len() && 0 <= p < paths@.len() && end_key(#[trigger] paths@[p]@) == (
                #[trigger] out@[j].0@.key()) ==> exists|q: int|
                    0 <= q < out@[j].1@.len() && path_keys(#[trigger] out@[j].1@[q]@) == path_keys(
                        paths@[p]@,
                    ),
            // every path handled so far has an entry for its endpoint
            forall|p: int|
                0 <= p < i ==> exists|j: int|
                    0 <= j < out@.len() && (#[trigger] out@[j].0@).key() == end_key(
                        #[trigger] paths@[p]@,
                    ),
        decreases paths@.len() - i,
    {
        let pi = &paths[i];
        let endpoint = &pi[pi.len() - 1];
        proof {
            assert(endpoint@.key() == end_key(paths@[i as int]@));
        }
        if has_entry_with_key(&out, endpoint) {
            proof {
                let u = choose|u: int|
                    0 <= u < out@.len() && (#[trigger] out@[u].0@).key() == endpoint@.key();
                assert((out@[u].0@).key() == end_key(paths@[i as int]@));
            }
        } else {
            let idxs = indices_ending_at(&paths, endpoint);
            proof {
                assert(exists|g: int|
                    0 <= g < idxs@.len() && (#[trigger] idxs@[g]) as int == i as int) by {
                    assert(end_key(paths@[i as int]@) == endpoint@.key());
                }
            }
            let mut group: Vec<Vec<CallItem>> = Vec::new();
            let mut g: usize = 0;
            while g < idxs.len()
                invariant
                    g <= idxs@.len(),
                    group@.len() == g,
                    forall|p: int| 0 <= p < paths@.len() ==> (#[trigger] paths@[p]@).len() >= 1,
                    forall|g9: int|
                        0 <= g9 < idxs@.len() ==> (#[trigger] idxs@[g9]) < paths@.len(),
                    forall|g9: int|
                        0 <= g9 < g ==> path_keys(#[trigger] group@[g9]@) == path_keys(
                            paths@[idxs@[g9] as int]@,
                        ),
                decreases idxs@.len() - g,
            {
                let copy = clone_path(&paths[idxs[g]]);
                group.push(copy);
                g += 1;
            }
            let ghost gview = group@;
            proof {
                // transfer the index facts to the copied group
                assert forall|g9: int|
                    0 <= g9 < gview.len() implies (#[trigger] gview[g9]@).len() >= 1 && end_key(
                    gview[g9]@,
                ) == endpoint@.key() && is_root_path(calls@, path_keys(gview[g9]@)) && (
                exists|p: int|
                    0 <= p < paths@.len() && path_keys(gview[g9]@) == path_keys(
                        #[trigger] paths@[p]@,
                    )) by {
                    let p = idxs@[g9] as int;
                    assert(path_keys(gview[g9]@) == path_keys(paths@[p]@));
                    assert(path_keys(gview[g9]@).len() == gview[g9]@.len());
                    assert(end_key(gview[g9]@) == path_keys(gview[g9]@).last());
                    assert(end_key(paths@[p]@) == path_keys(paths@[p]@).last());
                    assert(path_keys(gview[g9]@)[gview[g9]@.len() - 1] == gview[g9]@[gview[g9]@.len() - 1]@.key());
                    assert(path_keys(paths@[p]@)[paths@[p]@.len() - 1] == paths@[p]@[paths@[p]@.len() - 1]@.key());
                }
                assert forall|p: int|
                    0 <= p < paths@.len() && end_key(#[trigger] paths@[p]@) == endpoint@.key()
                        implies exists|g9: int|
                    0 <= g9 < gview.len() && path_keys(#[trigger] gview[g9]@) == path_keys(
                        paths@[p]@,
                    ) by {
                    let g9 = choose|g9: int|
                        0 <= g9 < idxs@.len() && (#[trigger] idxs@[g9]) as int == p;
                    assert(path_keys(gview[g9]@) == path_keys(paths@[p]@));
                }
                assert forall|g1: int, g2: int|
                    0 <= g1 < gview.len() && 0 <= g2 < gview.len() && g1 != g2 implies path_keys(
                    #[trigger] gview[g1]@,
                ) != path_keys(#[trigger] gview[g2]@) by {
                    assert(idxs@[g1] != idxs@[g2]);
                    assert(path_keys(gview[g1]@) == path_keys(paths@[idxs@[g1] as int]@));
                    assert(path_keys(gview[g2]@) == path_keys(paths@[idxs@[g2] as int]@));
                }
            }
            let ghost prev_out = out@;
            let entry_item = endpoint.clone();
            out.push((entry_item, group));
            proof {
                let last = out@.len() - 1;
                assert forall|p: int| 0 <= p < i + 1 implies exists|j: int|
                    0 <= j < out@.len() && (#[trigger] out@[j].0@).key() == end_key(
                        #[trigger] paths@[p]@,
                    ) by {
                    if p < i {
                        let j = choose|j: int|
                            0 <= j < prev_out.len() && (#[trigger] prev_out[j].0@).key()
                                == end_key(paths@[p]@);
                        assert(out@[j] == prev_out[j]);
                        assert((out@[j].0@).key() == end_key(paths@[p]@));
                    } else {
                        assert((out@[last].0@).key() == end_key(paths@[i as int]@));
                    }
                }
                assert forall|j: int, p: int|
                    0 <= j < out@.len() && 0 <= p < paths@.len() && end_key(#[trigger] paths@[p]@)
                        == (#[trigger] out@[j].0@.key()) implies exists|q: int|
                    0 <= q < out@[j].1@.len() && path_keys(#[trigger] out@[j].1@[q]@) == path_keys(
                        paths@[p]@,
                    ) by {
                    if j < last {
                        assert(out@[j] == prev_out[j]);
                        let q = choose|q: int|
                            0 <= q < prev_out[j].1@.len() && path_keys(
                                #[trigger] prev_out[j].1@[q]@,
                            ) == path_keys(paths@[p]@);
                        assert(path_keys(out@[j].1@[q]@) == path_keys(paths@[p]@));
                    } else {
                        let g = choose|g: int|
                            0 <= g < gview.len() && path_keys(#[trigger] gview[g]@) == path_keys(
                                paths@[p]@,
                            );
                        assert(path_keys(out@[last].1@[g]@) == path_keys(paths@[p]@));
                    }
                }
                assert(out@[last].0@ == endpoint@);
                assert(out@[last].1@ == gview);
                assert(out@[last].1@.len() >= 1) by {
                    assert(end_key(paths@[i as int]@) == endpoint@.key());
                }
                // the new entry answers for every path ending at its item
                assert forall|p: int|
                    0 <= p < paths@.len() && end_key(#[trigger] paths@[p]@) == out@[last].0@.key()
                        implies exists|q: int|
                    0 <= q < out@[last].1@.len() && path_keys(#[trigger] out@[last].1@[q]@)
                        == path_keys(paths@[p]@) by {
                    let g = choose|g: int|
                        0 <= g < gview.len() && path_keys(#[trigger] gview[g]@) == path_keys(
                            paths@[p]@,
                        );
                    assert(path_keys(out@[last].1@[g]@) == path_keys(paths@[p]@));
                }
                assert(exists|j: int|
                    0 <= j < out@.len() && (#[trigger] out@[j].0@).key() == end_key(
                        paths@[i as int]@,
                    )) by {
                    assert((out@[last].0@).key() == end_key(paths@[i as int]@));
                }
            }
        }
        i += 1;
    }
    proof {
        assert forall|ks: Seq<ItemKey>| is_root_path(calls@, ks) implies exists|j: int, q: int|
            0 <= j < out@.len() && 0 <= q < out@[j].1@.len() && path_keys(#[trigger] out@[j].1@[q]@)
                == ks by {
            let p = choose|p: int| 0 <= p < paths@.len() && path_keys(paths@[p]@) == ks;
            let j = choose|j: int|
                0 <= j < out@.len() && (#[trigger] out@[j].0@).key() == end_key(paths@[p]@);
            let q = choose|q: int|
                0 <= q < out@[j].1@.len() && path_keys(#[trigger] out@[j].1@[q]@) == path_keys(
                    paths@[p]@,
                );
            assert(0 <= j < out@.len() && 0 <= q < out@[j].1@.len() && path_keys(out@[j].1@[q]@)
                == ks);
        }
    }
    out
}

/// Position (q, h) names a hop of `paths` whose key differs from the
/// terminal item's: a hop that can make the item's paths dependent.
pub open spec fn foreign_hop(
    item: CallItemView,
    paths: Seq<Vec<CallItem>>,
    q: int,
    h: int,
) -> bool {
    0 <= q < paths.len() && 0 <= h < paths[q]@.len() && paths[q]@[h]@.key() != item.key()
}

/// The key of the hop at position (q, h).
pub open spec fn hop_key(paths: Seq<Vec<CallItem>>, q: int, h: int) -> ItemKey {
    paths[q]@[h]@.key()
}

/// The paths reach the item at more than one distinct depth.
pub open spec fn lengths_vary(paths: Seq<Vec<CallItem>>) -> bool {
    exists|q1: int, q2: int|
        0 <= q1 < paths.len() && 0 <= q2 < paths.len() && (#[trigger] paths[q1]@.len()) != (
        #[trigger] paths[q2]@.len())
}

/// No intermediate hop other than the item itself occurs twice across
/// the whole collection of paths: the chains are genuinely distinct
/// routes, not one chain revisited.
pub open spec fn hops_independent(item: CallItemView, paths: Seq<Vec<CallItem>>) -> bool {
    forall|q1: int, h1: int, q2: int, h2: int|
        foreign_hop(item, paths, q1, h1) && foreign_hop(item, paths, q2, h2) && (q1 != q2 || h1
            != h2) ==> (#[trigger] hop_key(paths, q1, h1)) != (#[trigger] hop_key(paths, q2, h2))
}

/// The layering-inconsistency decision for one item: reached at more
/// than one depth, via pairwise hop-independent chains.
pub open spec fn flagged(item: CallItemView, paths: Seq<Vec<CallItem>>) -> bool {
    lengths_vary(paths) && hops_independent(item, paths)
}

/// Position (q9, h9) comes strictly before position (q, h) in the scan
/// order over paths and hops.
pub open spec fn scanned_before(q9: int, h9: int, q: int, h: int) -> bool {
    q9 < q || (q9 == q && h9 < h)
}

/// Decides `flagged` for one item and its aggregated paths.
#[verifier::rlimit(50)]
pub fn entry_flagged(item: &CallItem, paths: &Vec<Vec<CallItem>>) -> (r: bool)
    ensures
        r == flagged(item@, paths@),
{
    if paths.len() == 0 {
        return false;
    }
    let first_len = paths[0].len();
    let mut vary = false;
    let mut q: usize = 0;
    while q < paths.len()
        invariant
            q <= paths@.len(),
            paths@.len() > 0,
            first_len == paths@[0]@.len(),
            vary == exists|u: int| 0 <= u < q && (#[trigger] paths@[u]@.len()) != first_len,
        decreases paths@.len() - q,
    {
        if paths[q].len() != first_len {
            vary = true;
        }
        q += 1;
    }
    if !vary {
        proof {
            assert(forall|u: int| 0 <= u < paths@.len() ==> (#[trigger] paths@[u]@.len())
                == first_len);
        }
        return false;
    }
    // scan every hop once; `seen` records the positions of the foreign
    // hops met so far
    let mut seen: Vec<(usize, usize)> = Vec::new();
    let mut q: usize = 0;
    while q < paths.len()
        invariant
            q <= paths@.len(),
            lengths_vary(paths@),
            forall|s: int|
                0 <= s < seen@.len() ==> foreign_hop(
                    item@,
                    paths@,
                    (#[trigger] seen@[s]).0 as int,
                    seen@[s].1 as int,
                ) && scanned_before(seen@[s].0 as int, seen@[s].1 as int, q as int, 0),
            forall|q9: int, h9: int|
                #[trigger] foreign_hop(item@, paths@, q9, h9) && scanned_before(q9, h9, q as int, 0)
                    ==> exists|s: int|
                    0 <= s < seen@.len() && (#[trigger] seen@[s]).0 == q9 && seen@[s].1 == h9,
            forall|q1: int, h1: int, q2: int, h2: int|
                foreign_hop(item@, paths@, q1, h1) && foreign_hop(item@, paths@, q2, h2)
                    && scanned_before(q1, h1, q as int, 0) && scanned_before(q2, h2, q as int, 0)
                    && (q1 != q2 || h1 != h2) ==> (#[trigger] hop_key(paths@, q1, h1)) != (
                #[trigger] hop_key(paths@, q2, h2)),
        decreases paths@.len() - q,
    {
        let mut h: usize = 0;
        while h < paths[q].len()
            invariant
                q < paths@.len(),
                h <= paths@[q as int]@.len(),
                forall|s: int|
                    0 <= s < seen@.len() ==> foreign_hop(
                        item@,
                        paths@,
                        (#[trigger] seen@[s]).0 as int,
                        seen@[s].1 as int,
                    ) && scanned_before(seen@[s].0 as int, seen@[s].1 as int, q as int, h as int),
                forall|q9: int, h9: int|
                    #[trigger] foreign_hop(item@, paths@, q9, h9) && scanned_before(
                        q9,
                        h9,
                        q as int,
                        h as int,
                    ) ==> exists|s: int|
                        0 <= s < seen@.len() && (#[trigger] seen@[s]).0 == q9 && seen@[s].1 == h9,
                forall|q1: int, h1: int, q2: int, h2: int|
                    foreign_hop(item@, paths@, q1, h1) && foreign_hop(item@, paths@, q2, h2)
                        && scanned_before(q1, h1, q as int, h as int) && scanned_before(
                        q2,
                        h2,
                        q as int,
                        h as int,
                    ) && (q1 != q2 || h1 != h2) ==> (#[trigger] hop_key(paths@, q1, h1)) != (
                    #[trigger] hop_key(paths@, q2, h2)),
            decreases paths@[q as int]@.len() - h,
        {
            let hop = &paths[q][h];
            let is_item = same_item(hop, item);
            if is_item {
                proof {
                    assert(!foreign_hop(item@, paths@, q as int, h as int));
                }
            } else {
                proof {
                    assert(foreign_hop(item@, paths@, q as int, h as int));
                    assert(hop@.key() == hop_key(paths@, q as int, h as int));
                }
                // is this key already among the seen foreign hops?
                let mut s: usize = 0;
                while s < seen.len()
                    invariant
                        q < paths@.len(),
                        h < paths@[q as int]@.len(),
                        s <= seen@.len(),
                        hop@ == paths@[q as int]@[h as int]@,
                        forall|s9: int|
                            0 <= s9 < seen@.len() ==> foreign_hop(
                                item@,
                                paths@,
                                (#[trigger] seen@[s9]).0 as int,
                                seen@[s9].1 as int,
                            ) && scanned_before(
                                seen@[s9].0 as int,
                                seen@[s9].1 as int,
                                q as int,
                                h as int,
                            ),
                        forall|s9: int|
                            0 <= s9 < s ==> hop_key(
                                paths@,
                                (#[trigger] seen@[s9]).0 as int,
                                seen@[s9].1 as int,
                            ) != hop@.key(),
                    decreases seen@.len() - s,
                {
                    let (sq, sh) = seen[s];
                    if same_item(&paths[sq][sh], hop) {
                        proof {
                            let q9 = seen@[s as int].0 as int;
                            let h9 = seen@[s as int].1 as int;
                            assert(hop_key(paths@, q9, h9) == hop_key(paths@, q as int, h as int));
                            assert(q9 != q || h9 != h);
                            assert(!hops_independent(item@, paths@));
                        }
                        return false;
                    }
                    s += 1;
                }
                let ghost prev = seen@;
                seen.push((q, h));
                proof {
                    assert(seen@ == prev.push((q, h)));
                    // the fresh key differs from every scanned foreign hop
                    assert forall|q1: int, h1: int|
                        foreign_hop(item@, paths@, q1, h1) && scanned_before(
                            q1,
                            h1,
                            q as int,
                            h as int,
                        ) implies (#[trigger] hop_key(paths@, q1, h1)) != hop_key(
                        paths@,
                        q as int,
                        h as int,
                    ) by {
                        let s9 = choose|s9: int|
                            0 <= s9 < prev.len() && (#[trigger] prev[s9]).0 == q1 && prev[s9].1
                                == h1;
                        assert(hop_key(paths@, prev[s9].0 as int, prev[s9].1 as int)
                            != hop@.key());
                    }
                    // every scanned position up to and including this one
                    // is recorded
                    assert forall|q9: int, h9: int|
                        foreign_hop(item@, paths@, q9, h9) && scanned_before(
                            q9,
                            h9,
                            q as int,
                            h + 1,
                        ) implies exists|s: int|
                        0 <= s < seen@.len() && (#[trigger] seen@[s]).0 == q9 && seen@[s].1
                            == h9 by {
                        if q9 == q && h9 == h {
                            assert(seen@[prev.len() as int] == (q, h));
                        } else {
                            assert(scanned_before(q9, h9, q as int, h as int));
                            let s = choose|s: int|
                                0 <= s < prev.len() && (#[trigger] prev[s]).0 == q9 && prev[s].1
                                    == h9;
                            assert(seen@[s] == prev[s]);
                        }
                    }
                }
            }
            h += 1;
        }
        q += 1;
    }
    proof {
        assert(hops_independent(item@, paths@));
    }
    true
}

/// The views of a sequence of items.
pub open spec fn item_views(s: Seq<CallItem>) -> Seq<CallItemView> {
    s.map_values(|it: CallItem| it@)
}

/// The in-order filter of `ds` down to its flagged items.
pub open spec fn flagged_views(ds: Seq<(CallItem, Vec<Vec<CallItem>>)>) -> Seq<CallItemView>
    decreases ds.len(),
{
    if ds.len() == 0 {
        Seq::empty()
    } else {
        let rest = flagged_views(ds.drop_last());
        if flagged(ds.last().0@, ds.last().1@) {
            rest.push(ds.last().0@)
        } else {
            rest
        }
    }
}

/// Selects, from the aggregated per-item paths, exactly the items whose
/// paths disagree in length via genuinely distinct chains — the
/// layering problems — in order of first appearance.
pub fn find_items_with_different_depths(depths: &Depths<CallItem>) -> (r: Vec<CallItem>)
    ensures
        item_views(r@) == flagged_views(depths@),
{
    let mut out: Vec<CallItem> = Vec::new();
    let mut i: usize = 0;
    while i < depths.len()
        invariant
            i <= depths@.len(),
            item_views(out@) == flagged_views(depths@.take(i as int)),
        decreases depths@.len() - i,
    {
        let ghost prefix = depths@.take(i as int);
        proof {
            assert(depths@.take(i + 1).drop_last() =~= prefix);
            assert(depths@.take(i + 1).last() == depths@[i as int]);
        }
        let entry = &depths[i];
        if entry_flagged(&entry.0, &entry.1) {
            let ghost prev = out@;
            out.push(entry.0.clone());
            proof {
                assert(item_views(out@) =~= item_views(prev).push(depths@[i as int].0@));
            }
        }
        i += 1;
    }
    proof {
        assert(depths@.take(depths@.len() as int) =~= depths@);
    }
    out
}

} // verus!
