//! Name projection for presentation: an item reduces to a short key,
//! the file path relative to the project root joined to the symbol's
//! bare name (any parameter-list suffix is cut at the first open
//! parenthesis).

use vstd::prelude::*;

use crate::analyze::Depths;
use crate::indexer::bytes_starts_with;
use crate::item::CallItem;

verus! {

/// `s` with the prefix `p` removed, where it is a prefix.
pub open spec fn strip_prefix_sp(s: Seq<u8>, p: Seq<u8>) -> Seq<u8> {
    if p.is_prefix_of(s) {
        s.skip(p.len() as int)
    } else {
        s
    }
}

/// The position of the first open parenthesis, or the length when
/// there is none.
pub open spec fn first_open(s: Seq<u8>) -> int
    decreases s.len(),
{
    if s.len() == 0 {
        0
    } else if s[0] == 40 {
        0
    } else {
        1 + first_open(s.skip(1))
    }
}

/// A position with no open parenthesis before it, and one (or the end)
/// at it, is the first open parenthesis.
proof fn lemma_first_open_at(s: Seq<u8>, i: int)
    requires
        0 <= i <= s.len(),
        i == s.len() || s[i] == 40,
        forall|j: int| 0 <= j < i ==> s[j] != 40,
    ensures
        first_open(s) == i,
    decreases s.len(),
{
    if s.len() != 0 && s[0] != 40 {
        lemma_first_open_at(s.skip(1), i - 1);
    }
}

/// The short key of an item: its file relative to the root, a colon,
/// and its name up to the first open parenthesis.
pub open spec fn short_name_sp(uri: Seq<u8>, name: Seq<u8>, root: Seq<u8>) -> Seq<u8> {
    strip_prefix_sp(uri, root) + seq![58u8] + name.take(first_open(name))
}

/// Builds an item's short presentation key: the owning file's URI with
/// the project-root prefix trimmed, a colon, and the bare symbol name,
/// cut at the first open parenthesis.
pub fn build_call_hierarchy_item_name(item: &CallItem, root: &Vec<u8>) -> (r: Vec<u8>)
    ensures
        r@ == short_name_sp(item.uri@, item.name@, root@),
{
    let mut out: Vec<u8> = Vec::new();
    let start: usize = if bytes_starts_with(&item.uri, root) {
        root.len()
    } else {
        0
    };
    proof {
        assert(strip_prefix_sp(item.uri@, root@) =~= item.uri@.skip(start as int));
    }
    let mut i: usize = start;
    while i < item.uri.len()
        invariant
            start <= i <= item.uri@.len(),
            out@ == item.uri@.subrange(start as int, i as int),
        decreases item.uri@.len() - i,
    {
        out.push(item.uri[i]);
        i += 1;
        proof {
            assert(item.uri@.subrange(start as int, i as int) =~= item.uri@.subrange(
                start as int,
                i - 1,
            ).push(item.uri@[i - 1]));
        }
    }
    proof {
        assert(out@ =~= item.uri@.skip(start as int));
    }
    out.push(58);
    let ghost head = item.uri@.skip(start as int).push(58u8);
    proof {
        assert(out@ =~= head);
    }
    let mut stem: usize = 0;
    while stem < item.name.len() && item.name[stem] != 40
        invariant
            stem <= item.name@.len(),
            forall|j: int| 0 <= j < stem ==> item.name@[j] != 40,
            out@ == head,
        decreases item.name@.len() - stem,
    {
        stem += 1;
    }
    proof {
        lemma_first_open_at(item.name@, stem as int);
    }
    let mut k: usize = 0;
    while k < stem
        invariant
            k <= stem <= item.name@.len(),
            out@ == head + item.name@.subrange(0, k as int),
        decreases stem - k,
    {
        out.push(item.name[k]);
        k += 1;
        proof {
            assert(head + item.name@.subrange(0, k as int) =~= (head + item.name@.subrange(
                0,
                k - 1,
            )).push(item.name@[k - 1]));
        }
    }
    proof {
        assert(out@ =~= short_name_sp(item.uri@, item.name@, root@));
    }
    out
}

/// The short key of one item under a root.
pub open spec fn item_short_name(it: CallItem, root: Seq<u8>) -> Seq<u8> {
    short_name_sp(it.uri@, it.name@, root)
}

/// Projects the aggregated depths onto short presentation keys: each
/// item and each hop of each of its paths becomes its short name, with
/// shapes and order kept.
pub fn build_short_fn_depths(root: &Vec<u8>, depths: &Depths<CallItem>) -> (r: Depths<Vec<u8>>)
    ensures
        r@.len() == depths@.len(),
        forall|j: int|
            0 <= j < r@.len() ==> (#[trigger] r@[j].0@) == item_short_name(depths@[j].0, root@)
                && r@[j].1@.len() == depths@[j].1@.len(),
        forall|j: int, q: int|
            0 <= j < r@.len() && 0 <= q < r@[j].1@.len() ==> (#[trigger] r@[j].1@[q]@).len()
                == depths@[j].1@[q]@.len(),
        forall|j: int, q: int, m: int|
            0 <= j < r@.len() && 0 <= q < r@[j].1@.len() && 0 <= m < r@[j].1@[q]@.len() ==> (
            #[trigger] r@[j].1@[q]@[m]@) == item_short_name(depths@[j].1@[q]@[m], root@),
{
    let mut out: Depths<Vec<u8>> = Vec::new();
    let mut j: usize = 0;
    while j < depths.len()
        invariant
            j <= depths@.len(),
            out@.len() == j,
            forall|j9: int|
                0 <= j9 < j ==> (#[trigger] out@[j9].0@) == item_short_name(
                    depths@[j9].0,
                    root@,
                ) && out@[j9].1@.len() == depths@[j9].1@.len(),
            forall|j9: int, q: int|
                0 <= j9 < j && 0 <= q < out@[j9].1@.len() ==> (#[trigger] out@[j9].1@[q]@).len()
                    == depths@[j9].1@[q]@.len(),
            forall|j9: int, q: int, m: int|
                0 <= j9 < j && 0 <= q < out@[j9].1@.len() && 0 <= m < out@[j9].1@[q]@.len() ==> (
                #[trigger] out@[j9].1@[q]@[m]@) == item_short_name(depths@[j9].1@[q]@[m], root@),
        decreases depths@.len() - j,
    {
        let entry = &depths[j];
        let item_name = build_call_hierarchy_item_name(&entry.0, root);
        let mut short_paths: Vec<Vec<Vec<u8>>> = Vec::new();
        let mut q: usize = 0;
        while q < entry.1.len()
            invariant
                q <= entry.1@.len(),
                entry == depths@[j as int],
                j < depths@.len(),
                short_paths@.len() == q,
                forall|q9: int|
                    0 <= q9 < q ==> (#[trigger] short_paths@[q9]@).len()
                        == depths@[j as int].1@[q9]@.len(),
                forall|q9: int, m: int|
                    0 <= q9 < q && 0 <= m < short_paths@[q9]@.len() ==> (
                    #[trigger] short_paths@[q9]@[m]@) == item_short_name(
                        depths@[j as int].1@[q9]@[m],
                        root@,
                    ),
            decreases entry.1@.len() - q,
        {
            let path = &entry.1[q];
            let mut short_path: Vec<Vec<u8>> = Vec::new();
            let mut m: usize = 0;
            while m < path.len()
                invariant
                    m <= path@.len(),
                    path@ == depths@[j as int].1@[q as int]@,
                    j < depths@.len(),
                    q < depths@[j as int].1@.len(),
                    short_path@.len() == m,
                    forall|m9: int|
                        0 <= m9 < m ==> (#[trigger] short_path@[m9]@) == item_short_name(
                            depths@[j as int].1@[q as int]@[m9],
                            root@,
                        ),
                decreases path@.len() - m,
            {
                let hop_name = build_call_hierarchy_item_name(&path[m], root);
                short_path.push(hop_name);
                m += 1;
            }
            short_paths.push(short_path);
            q += 1;
        }
        proof {
            assert((*entry).0 == depths@[j as int].0);
            assert(q == (*entry).1@.len());
            assert(item_name@ == item_short_name(depths@[j as int].0, root@));
            assert(short_paths@.len() == depths@[j as int].1@.len());
        }
        let ghost spv = short_paths@;
        let ghost inv = item_name@;
        let ghost prev_out = out@;
        out.push((item_name, short_paths));
        proof {
            assert(out@ == prev_out.push((out@[j as int].0, out@[j as int].1)));
            assert(out@[j as int].0@ == inv);
            assert(out@[j as int].1@ == spv);
            assert(forall|j9: int| 0 <= j9 < j ==> out@[j9] == prev_out[j9]);
            assert forall|j9: int| 0 <= j9 < j + 1 implies (#[trigger] out@[j9].0@)
                == item_short_name(depths@[j9].0, root@) && out@[j9].1@.len()
                == depths@[j9].1@.len() by {
                if j9 < j {
                    assert(out@[j9] == prev_out[j9]);
                    assert(prev_out[j9].0@ == item_short_name(depths@[j9].0, root@));
                } else {
                    assert(out@[j9].0@ == inv);
                }
            }
        }
        j += 1;
    }
    out
}

} // verus!
