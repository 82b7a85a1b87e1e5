//! Grouping of SegLink nodes: a union-find forest in a parent array (`-1`
//! marks a root, every other entry the index of an earlier node), its find
//! and join operations, and the numbering of the connected groups.

use vstd::prelude::*;
use std::collections::HashMap;
use crate::seglink_grid::{
    coord_defined, coord_of, get_coord, get_neighbours, neighbour_candidates, neighbour_entries,
    coord_is_defined, neighbour_offsets_fit, neighbours_defined,
};

verus! {

broadcast use vstd::std_specs::hash::group_hash_axioms;

/// Whether the parent array is a forest in which every parent has a
/// smaller index than its child: each entry is `-1` (a root) or the index
/// of an earlier entry.
pub open spec fn is_forest(mask: Seq<i32>) -> bool {
    forall|i: int| 0 <= i < mask.len() ==> #[trigger] mask[i] == -1 || 0 <= mask[i] < i
}

/// Root of the tree that holds `i`: follow parent entries while they point
/// to an earlier entry.
pub open spec fn root_of(mask: Seq<i32>, i: int) -> int
    decreases i,
{
    if 0 <= i < mask.len() && 0 <= mask[i] < i {
        root_of(mask, mask[i] as int)
    } else {
        i
    }
}

/// Root that `x` has after `join` of `p1` and `p2`: when `x` shares a tree
/// with either point, the smaller of the two points' roots, else its own
/// root.
pub open spec fn merged_root(mask: Seq<i32>, p1: int, p2: int, x: int) -> int {
    let r1 = root_of(mask, p1);
    let r2 = root_of(mask, p2);
    let r = root_of(mask, x);
    if r == r1 || r == r2 {
        if r1 <= r2 { r1 } else { r2 }
    } else {
        r
    }
}

proof fn lemma_root_of(mask: Seq<i32>, i: int)
    requires
        is_forest(mask),
        0 <= i < mask.len(),
    ensures
        0 <= root_of(mask, i) <= i,
        mask[root_of(mask, i)] == -1,
        mask[i] != -1 ==> root_of(mask, i) <= mask[i],
    decreases i,
{
    assert(mask[i] == -1 || 0 <= mask[i] < i);
    if mask[i] != -1 {
        lemma_root_of(mask, mask[i] as int);
    }
}

proof fn lemma_compress_keeps_roots(mask: Seq<i32>, p: int, x: int)
    requires
        is_forest(mask),
        0 <= p < mask.len(),
        mask[p] != -1,
        0 <= x < mask.len(),
    ensures
        root_of(mask.update(p, root_of(mask, p) as i32), x) == root_of(mask, x),
    decreases x,
{
    let r = root_of(mask, p);
    lemma_root_of(mask, p);
    assert(mask[p] == -1 || 0 <= mask[p] < p);
    let m2 = mask.update(p, r as i32);
    assert(0 <= r < p);
    assert(r as i32 as int == r);
    if x == p {
        assert(m2[r] == -1);
        assert(root_of(m2, r) == r);
        assert(root_of(m2, p) == root_of(m2, r));
    } else {
        assert(m2[x] == mask[x]);
        assert(mask[x] == -1 || 0 <= mask[x] < x);
        if mask[x] != -1 {
            lemma_compress_keeps_roots(mask, p, mask[x] as int);
        }
    }
}

proof fn lemma_link_roots(mask: Seq<i32>, lo: int, hi: int, x: int)
    requires
        is_forest(mask),
        0 <= lo < hi < mask.len(),
        lo <= i32::MAX,
        mask[lo] == -1,
        mask[hi] == -1,
        0 <= x < mask.len(),
    ensures
        root_of(mask.update(hi, lo as i32), x) == if root_of(mask, x) == hi { lo } else { root_of(mask, x) },
    decreases x,
{
    let m2 = mask.update(hi, lo as i32);
    if x == hi {
        assert(m2[lo] == -1);
        assert(root_of(m2, lo) == lo);
        assert(root_of(m2, hi) == root_of(m2, lo));
    } else {
        assert(m2[x] == mask[x]);
        assert(mask[x] == -1 || 0 <= mask[x] < x);
        if mask[x] != -1 {
            lemma_link_roots(mask, lo, hi, mask[x] as int);
        }
    }
}

/// Parent entry of `point`.
pub fn find_parent(group_mask: &Vec<i32>, point: usize) -> (parent: i32)
    requires
        point < group_mask.len(),
    ensures
        parent == group_mask@[point as int],
{
    group_mask[point]
}

/// Sets the parent entry of `point`.
pub fn set_parent(group_mask: &mut Vec<i32>, point: usize, parent: i32)
    requires
        point < old(group_mask).len(),
    ensures
        final(group_mask)@ == old(group_mask)@.update(point as int, parent),
{
    group_mask.set(point, parent);
}

/// Whether `point` is a root.
pub fn is_root(group_mask: &Vec<i32>, point: usize) -> (r: bool)
    requires
        point < group_mask.len(),
    ensures
        r == (group_mask@[point as int] == -1),
{
    find_parent(group_mask, point) == -1
}

/// Root of `point`'s tree. When `point` is not itself a root, its entry is
/// then pointed straight at the root (path compression), which leaves the
/// root of every entry as it was.
pub fn find_root(group_mask: &mut Vec<i32>, point: usize) -> (root: usize)
    requires
        point < old(group_mask).len(),
        is_forest(old(group_mask)@),
    ensures
        root == root_of(old(group_mask)@, point as int),
        root <= point,
        old(group_mask)@[root as int] == -1,
        final(group_mask)@ == if old(group_mask)@[point as int] == -1 {
            old(group_mask)@
        } else {
            old(group_mask)@.update(point as int, root as i32)
        },
        is_forest(final(group_mask)@),
        forall|x: int|
            0 <= x < old(group_mask).len() ==> #[trigger] root_of(final(group_mask)@, x) == root_of(
                old(group_mask)@,
                x,
            ),
{
    let ghost orig = group_mask@;
    proof {
        lemma_root_of(orig, point as int);
    }
    let mut root = point;
    let mut root_entry: i32 = -1;
    let mut update_parent = false;
    while !is_root(group_mask, root)
        invariant
            group_mask@ == orig,
            is_forest(orig),
            point < orig.len(),
            root <= point,
            root_of(orig, root as int) == root_of(orig, point as int),
            !update_parent ==> root == point,
            update_parent ==> orig[point as int] != -1 && root_entry as int == root as int,
        decreases root,
    {
        let parent = find_parent(group_mask, root);
        proof {
            assert(orig[root as int] == -1 || 0 <= orig[root as int] < root);
        }
        root = parent as usize;
        root_entry = parent;
        update_parent = true;
    }
    proof {
        assert(root_of(orig, root as int) == root as int);
    }
    if update_parent {
        set_parent(group_mask, point, root_entry);
        proof {
            assert(root_entry == root as i32);
            assert forall|x: int| 0 <= x < orig.len() implies #[trigger] root_of(group_mask@, x) == root_of(
                orig,
                x,
            ) by {
                lemma_compress_keeps_roots(orig, point as int, x);
            }
            assert forall|i: int| 0 <= i < group_mask@.len() implies #[trigger] group_mask@[i] == -1 || 0
                <= group_mask@[i] < i by {
                assert(orig[i] == -1 || 0 <= orig[i] < i);
            }
        }
    }
    root
}

/// Joins the trees of `p1` and `p2`: their roots are found (each point
/// then pointing straight at its root) and, when they differ, the root
/// with the larger index is hung under the other, so that one tree holds
/// both points and every other entry keeps its root. Parent entries are
/// `i32`, so the forest holds at most 2^31 entries.
pub fn join(group_mask: &mut Vec<i32>, p1: usize, p2: usize)
    requires
        p1 < old(group_mask).len(),
        p2 < old(group_mask).len(),
        old(group_mask).len() <= 0x8000_0000,
        is_forest(old(group_mask)@),
    ensures
        final(group_mask).len() == old(group_mask).len(),
        is_forest(final(group_mask)@),
        forall|x: int|
            0 <= x < old(group_mask).len() ==> #[trigger] root_of(final(group_mask)@, x) == merged_root(
                old(group_mask)@,
                p1 as int,
                p2 as int,
                x,
            ),
{
    let ghost m0 = group_mask@;
    let root1 = find_root(group_mask, p1);
    let root2 = find_root(group_mask, p2);
    let ghost m2 = group_mask@;
    proof {
        assert(root_of(m2, root1 as int) == root_of(m0, root1 as int));
        assert(root_of(m0, root1 as int) == root1) by {
            assert(m0[root1 as int] == -1);
        }
        lemma_root_of(m2, root1 as int);
        lemma_root_of(m2, root2 as int);
        assert(root_of(m2, root2 as int) == root2) by {
            assert(m2[root2 as int] == -1);
        }
        assert(m2[root1 as int] == -1);
    }
    if root1 != root2 {
        if root1 < root2 {
            set_parent(group_mask, root2, root1 as i32);
            proof {
                assert forall|x: int| 0 <= x < m0.len() implies #[trigger] root_of(group_mask@, x) == merged_root(
                    m0,
                    p1 as int,
                    p2 as int,
                    x,
                ) by {
                    lemma_link_roots(m2, root1 as int, root2 as int, x);
                }
            }
        } else {
            set_parent(group_mask, root1, root2 as i32);
            proof {
                assert forall|x: int| 0 <= x < m0.len() implies #[trigger] root_of(group_mask@, x) == merged_root(
                    m0,
                    p1 as int,
                    p2 as int,
                    x,
                ) by {
                    lemma_link_roots(m2, root2 as int, root1 as int, x);
                }
            }
        }
        proof {
            assert forall|i: int| 0 <= i < group_mask@.len() implies #[trigger] group_mask@[i] == -1 || 0
                <= group_mask@[i] < i by {
                assert(m2[i] == -1 || 0 <= m2[i] < i);
            }
        }
    } else {
        proof {
            assert forall|x: int| 0 <= x < m0.len() implies #[trigger] root_of(group_mask@, x) == merged_root(
                m0,
                p1 as int,
                p2 as int,
                x,
            ) by {
                assert(root_of(m2, x) == root_of(m0, x));
            }
        }
    }
}

/// Numbering by first appearance: the ids that the first `k` entries of
/// `roots` get, a new root taking the next id after those given so far.
pub open spec fn first_appearance_ids(roots: Seq<usize>, k: nat) -> Map<usize, usize>
    decreases k,
{
    if k == 0 {
        Map::empty()
    } else {
        let m = first_appearance_ids(roots, (k - 1) as nat);
        if m.contains_key(roots[k - 1]) {
            m
        } else {
            m.insert(roots[k - 1], (m.len() + 1) as usize)
        }
    }
}

proof fn lemma_first_appearance_ids_finite(roots: Seq<usize>, k: nat)
    ensures
        first_appearance_ids(roots, k).dom().finite(),
        first_appearance_ids(roots, k).len() <= k,
    decreases k,
{
    if k > 0 {
        lemma_first_appearance_ids_finite(roots, (k - 1) as nat);
    }
}

/// Id of group root `root`: the one it already has, else the next one,
/// which is then recorded.
pub fn get_index(root_map: &mut HashMap<usize, usize>, root: usize) -> (id: usize)
    requires
        old(root_map)@.len() < usize::MAX,
    ensures
        old(root_map)@.contains_key(root) ==> id == old(root_map)@[root] && final(root_map)@ == old(root_map)@,
        !old(root_map)@.contains_key(root) ==> id == old(root_map)@.len() + 1 && final(root_map)@
            == old(root_map)@.insert(root, id),
{
    let fresh = root_map.len() + 1;
    let entry = root_map.entry(root).or_insert(fresh);
    *entry
}

/// Roots of the trees that hold the points of `offsets_pos`.
pub open spec fn roots_of(mask: Seq<i32>, offsets_pos: Seq<usize>) -> Seq<usize> {
    offsets_pos.map_values(|p: usize| root_of(mask, p as int) as usize)
}

/// Group labels after the first `k` points: the labels start at zero and
/// each point gets the id of its root in first-appearance order.
pub open spec fn group_labels(mask: Seq<i32>, offsets_pos: Seq<usize>, k: nat) -> Seq<i32>
    decreases k,
{
    if k == 0 {
        Seq::new(mask.len(), |i: int| 0i32)
    } else {
        let ids = first_appearance_ids(roots_of(mask, offsets_pos), k);
        group_labels(mask, offsets_pos, (k - 1) as nat).update(
            offsets_pos[k - 1] as int,
            ids[roots_of(mask, offsets_pos)[k - 1]] as i32,
        )
    }
}

/// Labels the points of `offsets_pos` by group: each gets the id, counted
/// from 1 in order of first appearance, of its tree's root; every other
/// entry is 0.
pub fn get_all(group_mask: &Vec<i32>, offsets_pos: &Vec<usize>) -> (labels: Vec<i32>)
    requires
        is_forest(group_mask@),
        offsets_pos.len() < usize::MAX,
        forall|k: int| 0 <= k < offsets_pos.len() ==> #[trigger] offsets_pos@[k] < group_mask.len(),
    ensures
        labels@ == group_labels(group_mask@, offsets_pos@, offsets_pos.len() as nat),
{
    let mut root_map: HashMap<usize, usize> = HashMap::new();
    let mut mask: Vec<i32> = Vec::new();
    let len = group_mask.len();
    while mask.len() < len
        invariant
            len == group_mask.len(),
            mask.len() <= len,
            forall|i: int| 0 <= i < mask.len() ==> mask@[i] == 0i32,
        decreases len - mask.len(),
    {
        mask.push(0);
    }
    proof {
        assert(mask@ =~= group_labels(group_mask@, offsets_pos@, 0));
    }
    let ghost roots = roots_of(group_mask@, offsets_pos@);
    let mut i: usize = 0;
    while i < offsets_pos.len()
        invariant
            i <= offsets_pos.len(),
            offsets_pos.len() < usize::MAX,
            is_forest(group_mask@),
            forall|k: int| 0 <= k < offsets_pos.len() ==> #[trigger] offsets_pos@[k] < group_mask.len(),
            roots == roots_of(group_mask@, offsets_pos@),
            root_map@ == first_appearance_ids(roots, i as nat),
            mask.len() == group_mask.len(),
            mask@ == group_labels(group_mask@, offsets_pos@, i as nat),
        decreases offsets_pos.len() - i,
    {
        let point = offsets_pos[i];
        let mut scratch = group_mask.clone();
        proof {
            assert(scratch@ =~= group_mask@);
        }
        let point_root = find_root(&mut scratch, point);
        proof {
            lemma_first_appearance_ids_finite(roots, i as nat);
            assert(roots[i as int] == point_root);
        }
        let bbox_idx = get_index(&mut root_map, point_root);
        mask.set(point, #[verifier::truncate] (bbox_idx as i32));
        i += 1;
    }
    mask
}

/// Number of entries equal to 1 among the first `i` of `s`.
pub open spec fn count_ones(s: Seq<i32>, i: nat) -> nat
    decreases i,
{
    if i == 0 {
        0
    } else {
        count_ones(s, (i - 1) as nat) + if s[i - 1] == 1 { 1nat } else { 0nat }
    }
}

/// Whether every neighbour entry's node offset is below `node_count` and
/// its link offset below `link_count`.
pub open spec fn entries_in_bounds(entries: Seq<(usize, usize, usize)>, node_count: nat, link_count: nat) -> bool {
    forall|k: int| 0 <= k < entries.len() ==> (#[trigger] entries[k]).0 < node_count && entries[k].1 < link_count
}

/// Whether node `i` can be visited: it has a position, its neighbours are
/// defined, and every neighbour's node and link offsets index the masks.
pub open spec fn node_joinable(
    i: usize,
    node_count: nat,
    link_count: nat,
    map_size: Seq<(usize, usize)>,
    offsets_defaults: Seq<(usize, usize)>,
) -> bool {
    &&& coord_defined(i, map_size, offsets_defaults)
    &&& {
        let c = coord_of(i, map_size, offsets_defaults);
        let (l, x, y) = (c.0 as usize, c.1 as usize, c.2 as usize);
        &&& neighbours_defined(l, x, y, map_size, offsets_defaults)
        &&& entries_in_bounds(
            neighbour_entries(l, x, y, map_size, offsets_defaults, neighbour_candidates(l, x, y).len()),
            node_count,
            link_count,
        )
    }
}

proof fn lemma_first_appearance_ids(roots: Seq<usize>, k: nat)
    requires
        k <= roots.len(),
        k < usize::MAX,
    ensures
        first_appearance_ids(roots, k).dom().finite(),
        first_appearance_ids(roots, k).len() <= k,
        forall|j: int| 0 <= j < k ==> #[trigger] first_appearance_ids(roots, k).contains_key(roots[j]),
        forall|r: usize|
            #[trigger] first_appearance_ids(roots, k).contains_key(r) ==> exists|j: int| 0 <= j < k && roots[j] == r,
        forall|r: usize|
            #[trigger] first_appearance_ids(roots, k).contains_key(r) ==> 1 <= first_appearance_ids(roots, k)[r]
                <= first_appearance_ids(roots, k).len(),
        forall|r1: usize, r2: usize|
            first_appearance_ids(roots, k).contains_key(r1) && first_appearance_ids(roots, k).contains_key(r2)
                && r1 != r2 ==> #[trigger] first_appearance_ids(roots, k)[r1]
                != #[trigger] first_appearance_ids(roots, k)[r2],
    decreases k,
{
    if k > 0 {
        lemma_first_appearance_ids(roots, (k - 1) as nat);
        let m = first_appearance_ids(roots, (k - 1) as nat);
        let m2 = first_appearance_ids(roots, k);
        assert forall|r: usize| #[trigger] m2.contains_key(r) implies exists|j: int| 0 <= j < k && roots[j] == r by {
            if r != roots[k - 1] {
                assert(m.contains_key(r));
                let j = choose|j: int| 0 <= j < k - 1 && roots[j] == r;
                assert(0 <= j < k && roots[j] == r);
            } else {
                assert(0 <= k - 1 < k && roots[k - 1] == r);
            }
        }
        if !m.contains_key(roots[k - 1]) {
            assert(m2 == m.insert(roots[k - 1], (m.len() + 1) as usize));
            assert(m2.len() == m.len() + 1);
            assert forall|r: usize| #[trigger] m2.contains_key(r) implies 1 <= m2[r] <= m2.len() by {
                if r != roots[k - 1] {
                    assert(m.contains_key(r));
                }
            }
            assert forall|r1: usize, r2: usize|
                m2.contains_key(r1) && m2.contains_key(r2) && r1 != r2 implies #[trigger] m2[r1]
                != #[trigger] m2[r2] by {
                if r1 != roots[k - 1] {
                    assert(m.contains_key(r1));
                }
                if r2 != roots[k - 1] {
                    assert(m.contains_key(r2));
                }
            }
        }
    }
}

proof fn lemma_first_appearance_ids_grow(roots: Seq<usize>, k: nat, k2: nat)
    requires
        k <= k2 <= roots.len(),
        k2 < usize::MAX,
    ensures
        forall|r: usize|
            #[trigger] first_appearance_ids(roots, k).contains_key(r) ==> first_appearance_ids(roots, k2).contains_key(r)
                && first_appearance_ids(roots, k2)[r] == first_appearance_ids(roots, k)[r],
    decreases k2,
{
    if k < k2 {
        lemma_first_appearance_ids_grow(roots, k, (k2 - 1) as nat);
        let m = first_appearance_ids(roots, (k2 - 1) as nat);
        if !m.contains_key(roots[k2 - 1]) {
            assert(first_appearance_ids(roots, k2) == m.insert(roots[k2 - 1], (m.len() + 1) as usize));
        }
    }
}

proof fn lemma_first_appearance_ids_last(roots: Seq<usize>, k: nat)
    requires
        k <= roots.len(),
        k < usize::MAX,
        first_appearance_ids(roots, k).len() > 0,
    ensures
        exists|j: int|
            0 <= j < k && first_appearance_ids(roots, k).contains_key(#[trigger] roots[j])
                && first_appearance_ids(roots, k)[roots[j]] == first_appearance_ids(roots, k).len(),
    decreases k,
{
    lemma_first_appearance_ids(roots, k);
    if k > 0 {
        let m = first_appearance_ids(roots, (k - 1) as nat);
        lemma_first_appearance_ids(roots, (k - 1) as nat);
        if m.contains_key(roots[k - 1]) {
            lemma_first_appearance_ids_last(roots, (k - 1) as nat);
            let j = choose|j: int|
                0 <= j < k - 1 && m.contains_key(#[trigger] roots[j]) && m[roots[j]] == m.len();
            assert(first_appearance_ids(roots, k)[roots[j]] == first_appearance_ids(roots, k).len());
        } else {
            let m2 = first_appearance_ids(roots, k);
            assert(m2 == m.insert(roots[k - 1], (m.len() + 1) as usize));
            assert(m2.len() == m.len() + 1);
            assert(m2.contains_key(roots[k - 1]) && m2[roots[k - 1]] == m2.len());
        }
    }
}

/// Largest of 0 and the first `i` entries of `s`.
pub open spec fn prefix_max(s: Seq<i32>, i: nat) -> int
    decreases i,
{
    if i == 0 {
        0
    } else {
        let m = prefix_max(s, (i - 1) as nat);
        if s[i - 1] > m { s[i - 1] as int } else { m }
    }
}

proof fn lemma_prefix_max_bound(s: Seq<i32>, i: nat, b: int)
    requires
        i <= s.len(),
        b >= 0,
        forall|t: int| 0 <= t < i ==> #[trigger] s[t] <= b,
    ensures
        prefix_max(s, i) <= b,
    decreases i,
{
    if i > 0 {
        lemma_prefix_max_bound(s, (i - 1) as nat, b);
    }
}

proof fn lemma_prefix_max(s: Seq<i32>, i: nat)
    requires
        i <= s.len(),
    ensures
        prefix_max(s, i) >= 0,
        forall|t: int| 0 <= t < i ==> #[trigger] s[t] <= prefix_max(s, i),
    decreases i,
{
    if i > 0 {
        lemma_prefix_max(s, (i - 1) as nat);
    }
}

proof fn lemma_group_labels(mask: Seq<i32>, pos: Seq<usize>, k: nat)
    requires
        k <= pos.len(),
        pos.len() < usize::MAX,
        forall|a: int, b: int| 0 <= a < b < pos.len() ==> pos[a] < pos[b],
        forall|j: int| 0 <= j < pos.len() ==> #[trigger] pos[j] < mask.len(),
    ensures
        group_labels(mask, pos, k).len() == mask.len(),
        forall|j: int|
            0 <= j < k ==> group_labels(mask, pos, k)[#[trigger] pos[j] as int] == first_appearance_ids(
                roots_of(mask, pos),
                k,
            )[roots_of(mask, pos)[j]] as i32,
        forall|i: int|
            0 <= i < mask.len() && (forall|j: int| 0 <= j < k ==> #[trigger] pos[j] != i) ==> group_labels(
                mask,
                pos,
                k,
            )[i] == 0,
    decreases k,
{
    if k > 0 {
        lemma_group_labels(mask, pos, (k - 1) as nat);
        let roots = roots_of(mask, pos);
        lemma_first_appearance_ids(roots, (k - 1) as nat);
        let m = first_appearance_ids(roots, (k - 1) as nat);
        let m2 = first_appearance_ids(roots, k);
        let labels = group_labels(mask, pos, k);
        let prev = group_labels(mask, pos, (k - 1) as nat);
        assert forall|j: int| 0 <= j < k implies labels[#[trigger] pos[j] as int] == m2[roots[j]] as i32 by {
            if j < k - 1 {
                assert(pos[j] != pos[k - 1]);
                assert(m.contains_key(roots[j]));
                if !m.contains_key(roots[k - 1]) {
                    assert(m2 == m.insert(roots[k - 1], (m.len() + 1) as usize));
                    assert(roots[j] != roots[k - 1]);
                }
            }
        }
        assert forall|i: int|
            0 <= i < mask.len() && (forall|j: int| 0 <= j < k ==> #[trigger] pos[j] != i) implies labels[i] == 0 by {
            assert(pos[k - 1] != i);
            assert forall|j: int| 0 <= j < k - 1 implies #[trigger] pos[j] != i by {
                assert(pos[j] != i);
            }
        }
    }
}

/// Neighbour entries of node `i`, as `get_neighbours` lists them at the
/// node's position.
pub open spec fn node_neighbours(i: usize, map_size: Seq<(usize, usize)>, offsets_defaults: Seq<(usize, usize)>) -> Seq<
    (usize, usize, usize),
> {
    let c = coord_of(i, map_size, offsets_defaults);
    let (l, x, y) = (c.0 as usize, c.1 as usize, c.2 as usize);
    neighbour_entries(l, x, y, map_size, offsets_defaults, neighbour_candidates(l, x, y).len())
}

/// Whether neighbour entry `k` of node `a` is a positive link: its link's
/// mask entry and its node's mask entry are both 1.
pub open spec fn positive_entry(
    node_mask: Seq<i32>,
    link_mask: Seq<i32>,
    map_size: Seq<(usize, usize)>,
    offsets_defaults: Seq<(usize, usize)>,
    a: int,
    k: int,
) -> bool {
    let e = node_neighbours(a as usize, map_size, offsets_defaults)[k];
    &&& 0 <= k < node_neighbours(a as usize, map_size, offsets_defaults).len()
    &&& e.0 < node_mask.len()
    &&& e.1 < link_mask.len()
    &&& link_mask[e.1 as int] == 1
    &&& node_mask[e.0 as int] == 1
}

/// Whether node `a`, marked 1, has marked node `b` among its neighbours
/// through a link whose mask entry is 1.
pub open spec fn links_to(
    node_mask: Seq<i32>,
    link_mask: Seq<i32>,
    map_size: Seq<(usize, usize)>,
    offsets_defaults: Seq<(usize, usize)>,
    a: int,
    b: int,
) -> bool {
    &&& 0 <= a < node_mask.len()
    &&& node_mask[a] == 1
    &&& exists|k: int|
        #[trigger] positive_entry(node_mask, link_mask, map_size, offsets_defaults, a, k)
            && node_neighbours(a as usize, map_size, offsets_defaults)[k].0 == b
}

/// Whether one of the nodes `a` and `b` links to the other.
pub open spec fn linked(
    node_mask: Seq<i32>,
    link_mask: Seq<i32>,
    map_size: Seq<(usize, usize)>,
    offsets_defaults: Seq<(usize, usize)>,
    a: int,
    b: int,
) -> bool {
    links_to(node_mask, link_mask, map_size, offsets_defaults, a, b) || links_to(
        node_mask,
        link_mask,
        map_size,
        offsets_defaults,
        b,
        a,
    )
}

/// Whether `p` is a walk through marked nodes, each step between linked
/// nodes.
pub open spec fn is_link_path(
    node_mask: Seq<i32>,
    link_mask: Seq<i32>,
    map_size: Seq<(usize, usize)>,
    offsets_defaults: Seq<(usize, usize)>,
    p: Seq<int>,
) -> bool {
    &&& p.len() > 0
    &&& forall|k: int| 0 <= k < p.len() ==> 0 <= #[trigger] p[k] < node_mask.len() && node_mask[p[k]] == 1
    &&& forall|k: int|
        0 <= k < p.len() - 1 ==> #[trigger] linked(node_mask, link_mask, map_size, offsets_defaults, p[k], p[k + 1])
}

/// Whether marked nodes `a` and `b` are connected: a walk through marked
/// nodes, each step along a positive link, leads from `a` to `b`.
pub open spec fn connected(
    node_mask: Seq<i32>,
    link_mask: Seq<i32>,
    map_size: Seq<(usize, usize)>,
    offsets_defaults: Seq<(usize, usize)>,
    a: int,
    b: int,
) -> bool {
    exists|p: Seq<int>|
        #[trigger] is_link_path(node_mask, link_mask, map_size, offsets_defaults, p) && p[0] == a && p[p.len() - 1]
            == b
}

proof fn lemma_connected_refl(
    nm: Seq<i32>,
    lm: Seq<i32>,
    ms: Seq<(usize, usize)>,
    od: Seq<(usize, usize)>,
    a: int,
)
    requires
        0 <= a < nm.len(),
        nm[a] == 1,
    ensures
        connected(nm, lm, ms, od, a, a),
{
    let p = seq![a];
    assert(is_link_path(nm, lm, ms, od, p));
}

proof fn lemma_connected_ends(
    nm: Seq<i32>,
    lm: Seq<i32>,
    ms: Seq<(usize, usize)>,
    od: Seq<(usize, usize)>,
    a: int,
    b: int,
)
    requires
        connected(nm, lm, ms, od, a, b),
    ensures
        0 <= a < nm.len(),
        nm[a] == 1,
        0 <= b < nm.len(),
        nm[b] == 1,
{
    let p = choose|p: Seq<int>| #[trigger] is_link_path(nm, lm, ms, od, p) && p[0] == a && p[p.len() - 1] == b;
    assert(0 <= p[0] < nm.len() && nm[p[0]] == 1);
    assert(0 <= p[p.len() - 1] < nm.len() && nm[p[p.len() - 1]] == 1);
}

proof fn lemma_connected_sym(
    nm: Seq<i32>,
    lm: Seq<i32>,
    ms: Seq<(usize, usize)>,
    od: Seq<(usize, usize)>,
    a: int,
    b: int,
)
    requires
        connected(nm, lm, ms, od, a, b),
    ensures
        connected(nm, lm, ms, od, b, a),
{
    let p = choose|p: Seq<int>| #[trigger] is_link_path(nm, lm, ms, od, p) && p[0] == a && p[p.len() - 1] == b;
    let n = p.len();
    let q = Seq::new(n, |i: int| p[n - 1 - i]);
    assert forall|k: int| 0 <= k < q.len() implies 0 <= #[trigger] q[k] < nm.len() && nm[q[k]] == 1 by {
        assert(q[k] == p[n - 1 - k]);
    }
    assert forall|k: int| 0 <= k < q.len() - 1 implies #[trigger] linked(nm, lm, ms, od, q[k], q[k + 1]) by {
        assert(q[k] == p[n - 1 - k]);
        assert(q[k + 1] == p[n - 2 - k]);
        assert(linked(nm, lm, ms, od, p[n - 2 - k], p[(n - 2 - k) + 1]));
    }
    assert(is_link_path(nm, lm, ms, od, q));
}

proof fn lemma_connected_trans(
    nm: Seq<i32>,
    lm: Seq<i32>,
    ms: Seq<(usize, usize)>,
    od: Seq<(usize, usize)>,
    a: int,
    b: int,
    c: int,
)
    requires
        connected(nm, lm, ms, od, a, b),
        connected(nm, lm, ms, od, b, c),
    ensures
        connected(nm, lm, ms, od, a, c),
{
    let p1 = choose|p: Seq<int>| #[trigger] is_link_path(nm, lm, ms, od, p) && p[0] == a && p[p.len() - 1] == b;
    let p2 = choose|p: Seq<int>| #[trigger] is_link_path(nm, lm, ms, od, p) && p[0] == b && p[p.len() - 1] == c;
    let n1 = p1.len();
    let q = p1 + p2.skip(1);
    assert forall|k: int| 0 <= k < q.len() implies 0 <= #[trigger] q[k] < nm.len() && nm[q[k]] == 1 by {
        if k < n1 {
            assert(q[k] == p1[k]);
        } else {
            assert(q[k] == p2[k - n1 + 1]);
        }
    }
    assert forall|k: int| 0 <= k < q.len() - 1 implies #[trigger] linked(nm, lm, ms, od, q[k], q[k + 1]) by {
        if k < n1 - 1 {
            assert(q[k] == p1[k] && q[k + 1] == p1[k + 1]);
        } else if k == n1 - 1 {
            assert(q[k] == p2[0]);
            assert(q[k + 1] == p2[1]);
            assert(linked(nm, lm, ms, od, p2[0], p2[0int + 1]));
        } else {
            let j = k - n1 + 1;
            assert(q[k] == p2[j]);
            assert(q[k + 1] == p2[j + 1]);
        }
    }
    assert(is_link_path(nm, lm, ms, od, q));
    assert(q[q.len() - 1] == c) by {
        if p2.len() == 1 {
            assert(q =~= p1);
        } else {
            assert(q[q.len() - 1] == p2[p2.len() - 1]);
        }
    }
}

proof fn lemma_linked_connected(
    nm: Seq<i32>,
    lm: Seq<i32>,
    ms: Seq<(usize, usize)>,
    od: Seq<(usize, usize)>,
    a: int,
    b: int,
)
    requires
        0 <= a < nm.len(),
        nm[a] == 1,
        0 <= b < nm.len(),
        nm[b] == 1,
        linked(nm, lm, ms, od, a, b),
    ensures
        connected(nm, lm, ms, od, a, b),
{
    let p = seq![a, b];
    assert(linked(nm, lm, ms, od, p[0int], p[0int + 1]));
    assert(is_link_path(nm, lm, ms, od, p));
}

proof fn lemma_path_keeps_root(
    gm: Seq<i32>,
    nm: Seq<i32>,
    lm: Seq<i32>,
    ms: Seq<(usize, usize)>,
    od: Seq<(usize, usize)>,
    p: Seq<int>,
    i: int,
)
    requires
        is_link_path(nm, lm, ms, od, p),
        0 <= i < p.len(),
        forall|a: int, b: int| #[trigger] links_to(nm, lm, ms, od, a, b) ==> root_of(gm, a) == root_of(gm, b),
    ensures
        root_of(gm, p[i]) == root_of(gm, p[0]),
    decreases i,
{
    if i > 0 {
        lemma_path_keeps_root(gm, nm, lm, ms, od, p, i - 1);
        assert(linked(nm, lm, ms, od, p[i - 1], p[(i - 1) + 1]));
    }
}

/// Whether the first `m` neighbour entries of node `a` that are positive
/// links join trees: each such neighbour shares `a`'s root.
pub open spec fn entries_joined(
    gm: Seq<i32>,
    nm: Seq<i32>,
    lm: Seq<i32>,
    ms: Seq<(usize, usize)>,
    od: Seq<(usize, usize)>,
    a: int,
    m: int,
) -> bool {
    forall|k: int|
        0 <= k < m && #[trigger] positive_entry(nm, lm, ms, od, a, k) ==> root_of(gm, a) == root_of(
            gm,
            node_neighbours(a as usize, ms, od)[k].0 as int,
        )
}

/// What the trees of the forest say of the marked nodes: every unmarked
/// node is a root of its own, and every marked node is connected to its
/// root.
pub open spec fn trees_connected(
    gm: Seq<i32>,
    nm: Seq<i32>,
    lm: Seq<i32>,
    ms: Seq<(usize, usize)>,
    od: Seq<(usize, usize)>,
) -> bool {
    &&& forall|x: int| 0 <= x < nm.len() && nm[x] != 1 ==> #[trigger] root_of(gm, x) == x
    &&& forall|x: int| 0 <= x < nm.len() && nm[x] == 1 ==> connected(nm, lm, ms, od, x, #[trigger] root_of(gm, x))
}

proof fn lemma_join_keeps_trees(
    old_gm: Seq<i32>,
    new_gm: Seq<i32>,
    nm: Seq<i32>,
    lm: Seq<i32>,
    ms: Seq<(usize, usize)>,
    od: Seq<(usize, usize)>,
    p1: int,
    p2: int,
)
    requires
        old_gm.len() == nm.len(),
        trees_connected(old_gm, nm, lm, ms, od),
        0 <= p1 < nm.len(),
        0 <= p2 < nm.len(),
        nm[p1] == 1,
        nm[p2] == 1,
        linked(nm, lm, ms, od, p1, p2),
        forall|x: int| 0 <= x < nm.len() ==> #[trigger] root_of(new_gm, x) == merged_root(old_gm, p1, p2, x),
    ensures
        trees_connected(new_gm, nm, lm, ms, od),
{
    let r1 = root_of(old_gm, p1);
    let r2 = root_of(old_gm, p2);
    assert(connected(nm, lm, ms, od, p1, r1));
    assert(connected(nm, lm, ms, od, p2, r2));
    lemma_connected_ends(nm, lm, ms, od, p1, r1);
    lemma_connected_ends(nm, lm, ms, od, p2, r2);
    lemma_linked_connected(nm, lm, ms, od, p1, p2);
    lemma_connected_sym(nm, lm, ms, od, p1, r1);
    lemma_connected_trans(nm, lm, ms, od, r1, p1, p2);
    lemma_connected_trans(nm, lm, ms, od, r1, p2, r2);
    lemma_connected_sym(nm, lm, ms, od, r1, r2);
    assert forall|x: int| 0 <= x < nm.len() && nm[x] != 1 implies #[trigger] root_of(new_gm, x) == x by {
        assert(root_of(old_gm, x) == x);
        assert(root_of(new_gm, x) == merged_root(old_gm, p1, p2, x));
    }
    assert forall|x: int| 0 <= x < nm.len() && nm[x] == 1 implies connected(
        nm,
        lm,
        ms,
        od,
        x,
        #[trigger] root_of(new_gm, x),
    ) by {
        let r = root_of(old_gm, x);
        assert(connected(nm, lm, ms, od, x, r));
        assert(root_of(new_gm, x) == merged_root(old_gm, p1, p2, x));
        if r == r1 {
            lemma_connected_trans(nm, lm, ms, od, x, r1, r2);
        } else if r == r2 {
            lemma_connected_trans(nm, lm, ms, od, x, r2, r1);
        }
    }
}

proof fn lemma_labels_partition(
    gm: Seq<i32>,
    nm: Seq<i32>,
    lm: Seq<i32>,
    ms: Seq<(usize, usize)>,
    od: Seq<(usize, usize)>,
    pos: Seq<usize>,
    labels: Seq<i32>,
)
    requires
        nm.len() == gm.len(),
        nm.len() <= i32::MAX,
        is_forest(gm),
        pos.len() <= nm.len(),
        forall|a: int, b: int| 0 <= a < b < pos.len() ==> pos[a] < pos[b],
        forall|j: int| 0 <= j < pos.len() ==> #[trigger] pos[j] < nm.len(),
        forall|j: int| 0 <= j < pos.len() ==> nm[#[trigger] pos[j] as int] == 1,
        forall|m: int| 0 <= m < nm.len() && nm[m] == 1 ==> exists|j: int| 0 <= j < pos.len() && #[trigger] pos[j] == m,
        trees_connected(gm, nm, lm, ms, od),
        forall|a: int, b: int| #[trigger] links_to(nm, lm, ms, od, a, b) ==> root_of(gm, a) == root_of(gm, b),
        labels == group_labels(gm, pos, pos.len() as nat),
    ensures
        labels.len() == nm.len(),
        forall|i: int| 0 <= i < nm.len() ==> (#[trigger] labels[i] == 0) == (nm[i] != 1),
        forall|i: int, j: int|
            0 <= i < nm.len() && 0 <= j < nm.len() && nm[i] == 1 && nm[j] == 1 ==> (#[trigger] labels[i]
                == #[trigger] labels[j]) == connected(nm, lm, ms, od, i, j),
{
    let n = nm.len();
    let roots = roots_of(gm, pos);
    lemma_group_labels(gm, pos, pos.len() as nat);
    lemma_first_appearance_ids(roots, pos.len() as nat);
    let ids = first_appearance_ids(roots, pos.len() as nat);
    assert forall|j: int| 0 <= j < pos.len() implies labels[#[trigger] pos[j] as int] as int == ids[roots[j]] as int
        && 1 <= ids[roots[j]] <= n by {
        assert(ids.contains_key(roots[j]));
    }
    assert forall|i: int| 0 <= i < nm.len() implies (#[trigger] labels[i] == 0) == (nm[i] != 1) by {
        if nm[i] == 1 {
            let j = choose|j: int| 0 <= j < pos.len() && #[trigger] pos[j] == i;
            assert(labels[pos[j] as int] as int == ids[roots[j]] as int);
        } else {
            assert forall|j: int| 0 <= j < pos.len() implies #[trigger] pos[j] != i by {
                assert(nm[pos[j] as int] == 1);
            }
        }
    }
    assert forall|i: int, j: int|
        0 <= i < nm.len() && 0 <= j < nm.len() && nm[i] == 1 && nm[j] == 1 implies (
        #[trigger] labels[i] == #[trigger] labels[j]) == connected(nm, lm, ms, od, i, j) by {
        let a = choose|a: int| 0 <= a < pos.len() && #[trigger] pos[a] == i;
        let b = choose|b: int| 0 <= b < pos.len() && #[trigger] pos[b] == j;
        assert(labels[pos[a] as int] as int == ids[roots[a]] as int);
        assert(labels[pos[b] as int] as int == ids[roots[b]] as int);
        assert(ids.contains_key(roots[a]) && ids.contains_key(roots[b]));
        assert(roots[a] == root_of(gm, i) as usize);
        assert(roots[b] == root_of(gm, j) as usize);
        lemma_root_of(gm, i);
        lemma_root_of(gm, j);
        if connected(nm, lm, ms, od, i, j) {
            let path = choose|path: Seq<int>|
                #[trigger] is_link_path(nm, lm, ms, od, path) && path[0] == i && path[path.len() - 1] == j;
            lemma_path_keeps_root(gm, nm, lm, ms, od, path, path.len() - 1);
        }
        if labels[i] == labels[j] {
            assert(roots[a] == roots[b]);
            assert(connected(nm, lm, ms, od, i, root_of(gm, i)));
            assert(connected(nm, lm, ms, od, j, root_of(gm, j)));
            lemma_connected_sym(nm, lm, ms, od, j, root_of(gm, j));
            lemma_connected_trans(nm, lm, ms, od, i, root_of(gm, i), j);
        }
    }
}

proof fn lemma_label_order_at(
    nm: Seq<i32>,
    lm: Seq<i32>,
    ms: Seq<(usize, usize)>,
    od: Seq<(usize, usize)>,
    pos: Seq<usize>,
    roots: Seq<usize>,
    labels: Seq<i32>,
    j: int,
)
    requires
        pos.len() <= nm.len(),
        nm.len() <= i32::MAX,
        roots.len() == pos.len(),
        forall|a: int, b: int| 0 <= a < b < pos.len() ==> pos[a] < pos[b],
        forall|k: int| 0 <= k < pos.len() ==> #[trigger] pos[k] < nm.len(),
        forall|k: int| 0 <= k < pos.len() ==> nm[#[trigger] pos[k] as int] == 1,
        forall|m: int| 0 <= m < nm.len() && nm[m] == 1 ==> exists|k: int| 0 <= k < pos.len() && #[trigger] pos[k] == m,
        labels.len() == nm.len(),
        forall|k: int|
            0 <= k < pos.len() ==> labels[#[trigger] pos[k] as int] as int == first_appearance_ids(
                roots,
                pos.len() as nat,
            )[roots[k]] as int,
        forall|t: int| 0 <= t < nm.len() ==> (#[trigger] labels[t] == 0) == (nm[t] != 1),
        forall|t1: int, t2: int|
            0 <= t1 < nm.len() && 0 <= t2 < nm.len() && nm[t1] == 1 && nm[t2] == 1 ==> (#[trigger] labels[t1]
                == #[trigger] labels[t2]) == connected(nm, lm, ms, od, t1, t2),
        0 <= j < pos.len(),
    ensures
        labels[pos[j] as int] <= prefix_max(labels, pos[j] as nat) + 1,
        (forall|t: int| 0 <= t < pos[j] && nm[t] == 1 ==> !connected(nm, lm, ms, od, t, pos[j] as int))
            ==> labels[pos[j] as int] == prefix_max(labels, pos[j] as nat) + 1,
{
    let i = pos[j] as int;
    let ids = first_appearance_ids(roots, pos.len() as nat);
    let mj = first_appearance_ids(roots, j as nat);
    lemma_first_appearance_ids(roots, pos.len() as nat);
    lemma_first_appearance_ids(roots, j as nat);
    lemma_first_appearance_ids(roots, (j + 1) as nat);
    lemma_first_appearance_ids_grow(roots, (j + 1) as nat, pos.len() as nat);
    lemma_first_appearance_ids_grow(roots, j as nat, pos.len() as nat);
    lemma_prefix_max(labels, i as nat);
    assert(ids.contains_key(roots[j]));
    assert(labels[i] as int == ids[roots[j]] as int);
    assert(first_appearance_ids(roots, (j + 1) as nat).contains_key(roots[j]));
    if mj.contains_key(roots[j]) {
        assert(ids[roots[j]] == mj[roots[j]]);
    } else {
        assert(first_appearance_ids(roots, (j + 1) as nat) == mj.insert(roots[j], (mj.len() + 1) as usize));
        assert(labels[i] as int == mj.len() + 1);
    }
    if mj.len() > 0 {
        // The label given last before node `i` is the largest so far.
        lemma_first_appearance_ids_last(roots, j as nat);
        let j2 = choose|j2: int| 0 <= j2 < j && mj.contains_key(#[trigger] roots[j2]) && mj[roots[j2]] == mj.len();
        assert(ids[roots[j2]] == mj.len());
        assert(labels[pos[j2] as int] as int == ids[roots[j2]] as int);
        assert(pos[j2] < pos[j]);
        assert(labels[pos[j2] as int] <= prefix_max(labels, i as nat));
    }
    if forall|t: int| 0 <= t < pos[j] && nm[t] == 1 ==> !connected(nm, lm, ms, od, t, pos[j] as int) {
        if mj.contains_key(roots[j]) {
            // An earlier node with the same root would carry the same label.
            let j2 = choose|j2: int| 0 <= j2 < j && roots[j2] == roots[j];
            let t = pos[j2] as int;
            assert(t < i);
            assert(labels[t] == labels[i]) by {
                assert(labels[pos[j2] as int] as int == ids[roots[j2]] as int);
            }
            assert(nm[t] == 1);
            assert(connected(nm, lm, ms, od, t, i));
            assert(false);
        }
        assert forall|t: int| 0 <= t < i implies #[trigger] labels[t] <= mj.len() by {
            if nm[t] == 1 {
                let j2 = choose|j2: int| 0 <= j2 < pos.len() && #[trigger] pos[j2] == t;
                assert(j2 < j) by {
                    if j2 > j {
                        assert(pos[j] < pos[j2]);
                    }
                }
                assert(mj.contains_key(roots[j2]));
                assert(ids[roots[j2]] == mj[roots[j2]]);
                assert(labels[pos[j2] as int] as int == ids[roots[j2]] as int);
            } else {
                assert(labels[t] == 0);
            }
        }
        lemma_prefix_max_bound(labels, i as nat, mj.len() as int);
    }
}

proof fn lemma_labels_order(
    gm: Seq<i32>,
    nm: Seq<i32>,
    lm: Seq<i32>,
    ms: Seq<(usize, usize)>,
    od: Seq<(usize, usize)>,
    pos: Seq<usize>,
    labels: Seq<i32>,
)
    requires
        nm.len() == gm.len(),
        nm.len() <= i32::MAX,
        is_forest(gm),
        pos.len() <= nm.len(),
        forall|a: int, b: int| 0 <= a < b < pos.len() ==> pos[a] < pos[b],
        forall|j: int| 0 <= j < pos.len() ==> #[trigger] pos[j] < nm.len(),
        forall|j: int| 0 <= j < pos.len() ==> nm[#[trigger] pos[j] as int] == 1,
        forall|m: int| 0 <= m < nm.len() && nm[m] == 1 ==> exists|j: int| 0 <= j < pos.len() && #[trigger] pos[j] == m,
        labels == group_labels(gm, pos, pos.len() as nat),
        labels.len() == nm.len(),
        forall|i: int| 0 <= i < nm.len() ==> (#[trigger] labels[i] == 0) == (nm[i] != 1),
        forall|i: int, j: int|
            0 <= i < nm.len() && 0 <= j < nm.len() && nm[i] == 1 && nm[j] == 1 ==> (#[trigger] labels[i]
                == #[trigger] labels[j]) == connected(nm, lm, ms, od, i, j),
    ensures
        forall|i: int| 0 <= i < nm.len() && nm[i] == 1 ==> #[trigger] labels[i] <= prefix_max(labels, i as nat) + 1,
        forall|i: int|
            0 <= i < nm.len() && nm[i] == 1 && (forall|j: int| 0 <= j < i && nm[j] == 1 ==> !connected(nm, lm, ms, od, j, i))
                ==> #[trigger] labels[i] == prefix_max(labels, i as nat) + 1,
{
    let roots = roots_of(gm, pos);
    lemma_group_labels(gm, pos, pos.len() as nat);
    lemma_first_appearance_ids(roots, pos.len() as nat);
    let ids = first_appearance_ids(roots, pos.len() as nat);
    assert forall|k: int| 0 <= k < pos.len() implies labels[#[trigger] pos[k] as int] as int == ids[roots[k]] as int by {
        assert(ids.contains_key(roots[k]));
    }
    assert forall|i: int| 0 <= i < nm.len() && nm[i] == 1 implies #[trigger] labels[i] <= prefix_max(labels, i as nat)
        + 1 && ((forall|j: int| 0 <= j < i && nm[j] == 1 ==> !connected(nm, lm, ms, od, j, i)) ==> labels[i]
        == prefix_max(labels, i as nat) + 1) by {
        let j = choose|j: int| 0 <= j < pos.len() && #[trigger] pos[j] == i;
        lemma_label_order_at(nm, lm, ms, od, pos, roots, labels, j);
    }
}

/// Group labels of the SegLink nodes whose mask entry is 1. Starting from a
/// forest where every node is its own root, each such node is joined with
/// each neighbour (as `get_neighbours` lists them) whose link and node mask
/// entries are both 1; the labels are then read from the forest: 0 for
/// every unmarked node, and for marked nodes the same label exactly when
/// they are connected through marked nodes by positive links. A marked
/// node's label is at most one more than the largest label before it, and
/// exactly that when no earlier node is connected to it: the groups are
/// numbered 1, 2, ... in order of their first nodes. Parent entries and
/// labels are `i32`, so the node count must fit in an `i32`.
pub fn join_node_groups(
    node_mask: &Vec<i32>,
    link_mask: &Vec<i32>,
    map_size: &Vec<(usize, usize)>,
    offsets_defaults: &Vec<(usize, usize)>,
) -> (labels: Vec<i32>)
    requires
        node_mask.len() <= i32::MAX,
        forall|i: usize|
            i < node_mask.len() && node_mask@[i as int] == 1 ==> #[trigger] node_joinable(
                i,
                node_mask.len() as nat,
                link_mask.len() as nat,
                map_size@,
                offsets_defaults@,
            ),
    ensures
        labels.len() == node_mask.len(),
        forall|i: int| 0 <= i < node_mask.len() ==> (#[trigger] labels@[i] == 0) == (node_mask@[i] != 1),
        forall|i: int, j: int|
            0 <= i < node_mask.len() && 0 <= j < node_mask.len() && node_mask@[i] == 1 && node_mask@[j] == 1 ==> (
            #[trigger] labels@[i] == #[trigger] labels@[j]) == connected(
                node_mask@,
                link_mask@,
                map_size@,
                offsets_defaults@,
                i,
                j,
            ),
        forall|i: int|
            0 <= i < node_mask.len() && node_mask@[i] == 1 ==> #[trigger] labels@[i] <= prefix_max(labels@, i as nat)
                + 1,
        forall|i: int|
            0 <= i < node_mask.len() && node_mask@[i] == 1 && (forall|j: int|
                0 <= j < i && node_mask@[j] == 1 ==> !connected(
                    node_mask@,
                    link_mask@,
                    map_size@,
                    offsets_defaults@,
                    j,
                    i,
                )) ==> #[trigger] labels@[i] == prefix_max(labels@, i as nat) + 1,
{
    let ghost nm = node_mask@;
    let ghost lm = link_mask@;
    let ghost ms = map_size@;
    let ghost od = offsets_defaults@;
    let n = node_mask.len();
    let mut group_mask: Vec<i32> = Vec::new();
    while group_mask.len() < n
        invariant
            n == node_mask.len(),
            group_mask.len() <= n,
            forall|i: int| 0 <= i < group_mask.len() ==> group_mask@[i] == -1i32,
        decreases n - group_mask.len(),
    {
        group_mask.push(-1);
    }
    proof {
        assert forall|x: int| 0 <= x < n implies #[trigger] root_of(group_mask@, x) == x by {
            assert(group_mask@[x] == -1);
        }
        assert forall|x: int| 0 <= x < nm.len() && nm[x] == 1 implies connected(
            nm,
            lm,
            ms,
            od,
            x,
            #[trigger] root_of(group_mask@, x),
        ) by {
            lemma_connected_refl(nm, lm, ms, od, x);
        }
    }

    let mut offsets_pos: Vec<usize> = Vec::new();
    let mut i: usize = 0;
    while i < n
        invariant
            n == node_mask.len(),
            i <= n,
            offsets_pos.len() == count_ones(node_mask@, i as nat),
            forall|j: int| 0 <= j < offsets_pos.len() ==> #[trigger] offsets_pos@[j] < i,
            forall|a: int, b: int| 0 <= a < b < offsets_pos.len() ==> offsets_pos@[a] < offsets_pos@[b],
            forall|j: int| 0 <= j < offsets_pos.len() ==> node_mask@[#[trigger] offsets_pos@[j] as int] == 1,
            forall|m: int|
                0 <= m < i && node_mask@[m] == 1 ==> exists|j: int|
                    0 <= j < offsets_pos.len() && #[trigger] offsets_pos@[j] == m,
        decreases n - i,
    {
        let ghost before = offsets_pos@;
        if node_mask[i] == 1 {
            offsets_pos.push(i);
            proof {
                assert(offsets_pos@[before.len() as int] == i);
            }
        }
        proof {
            assert forall|m: int| 0 <= m < i + 1 && node_mask@[m] == 1 implies exists|j: int|
                0 <= j < offsets_pos.len() && #[trigger] offsets_pos@[j] == m by {
                if m < i {
                    let j = choose|j: int| 0 <= j < before.len() && #[trigger] before[j] == m;
                    assert(offsets_pos@[j] == m);
                } else {
                    assert(offsets_pos@[before.len() as int] == m);
                }
            }
        }
        i += 1;
    }
    proof {
        lemma_count_ones_bound(node_mask@, n as nat);
    }

    let mut p: usize = 0;
    while p < offsets_pos.len()
        invariant
            n == node_mask.len(),
            n <= i32::MAX,
            nm == node_mask@,
            lm == link_mask@,
            ms == map_size@,
            od == offsets_defaults@,
            group_mask.len() == n,
            is_forest(group_mask@),
            trees_connected(group_mask@, nm, lm, ms, od),
            forall|j: int| 0 <= j < offsets_pos.len() ==> #[trigger] offsets_pos@[j] < n,
            forall|j: int| 0 <= j < offsets_pos.len() ==> node_mask@[#[trigger] offsets_pos@[j] as int] == 1,
            forall|i: usize|
                i < node_mask.len() && node_mask@[i as int] == 1 ==> #[trigger] node_joinable(
                    i,
                    node_mask.len() as nat,
                    link_mask.len() as nat,
                    map_size@,
                    offsets_defaults@,
                ),
            p <= offsets_pos.len(),
            forall|q: int|
                0 <= q < p ==> #[trigger] entries_joined(
                    group_mask@,
                    nm,
                    lm,
                    ms,
                    od,
                    offsets_pos@[q] as int,
                    node_neighbours(offsets_pos@[q], ms, od).len() as int,
                ),
        decreases offsets_pos.len() - p,
    {
        let offsets = offsets_pos[p];
        assert(node_joinable(offsets, n as nat, link_mask.len() as nat, map_size@, offsets_defaults@));
        let (l_idx, x, y) = get_coord(offsets, map_size, offsets_defaults);
        let neighbours = get_neighbours(l_idx, x, y, map_size, offsets_defaults);
        proof {
            assert(neighbours@ == node_neighbours(offsets, ms, od));
        }
        let ghost gm_start = group_mask@;
        let mut n_idx: usize = 0;
        while n_idx < neighbours.len()
            invariant
                n == node_mask.len(),
                n <= i32::MAX,
                nm == node_mask@,
                lm == link_mask@,
                group_mask.len() == n,
                is_forest(group_mask@),
                trees_connected(group_mask@, nm, lm, ms, od),
                offsets < n,
                nm[offsets as int] == 1,
                n_idx <= neighbours.len(),
                neighbours@ == node_neighbours(offsets, ms, od),
                forall|k: int|
                    0 <= k < neighbours.len() ==> (#[trigger] neighbours@[k]).0 < n && neighbours@[k].1
                        < link_mask.len(),
                forall|a: int, b: int|
                    0 <= a < n && 0 <= b < n && root_of(gm_start, a) == root_of(gm_start, b) ==> #[trigger] root_of(
                        group_mask@,
                        a,
                    ) == #[trigger] root_of(group_mask@, b),
                entries_joined(group_mask@, nm, lm, ms, od, offsets as int, n_idx as int),
            decreases neighbours.len() - n_idx,
        {
            let noffsets = neighbours[n_idx];
            let link_value = link_mask[noffsets.1];
            let node_cls = node_mask[noffsets.0];
            if link_value == 1 && node_cls == 1 {
                let ghost before = group_mask@;
                proof {
                    assert(positive_entry(nm, lm, ms, od, offsets as int, n_idx as int));
                    assert(links_to(nm, lm, ms, od, offsets as int, noffsets.0 as int));
                    assert(linked(nm, lm, ms, od, offsets as int, noffsets.0 as int));
                }
                join(&mut group_mask, offsets, noffsets.0);
                proof {
                    lemma_join_keeps_trees(
                        before,
                        group_mask@,
                        nm,
                        lm,
                        ms,
                        od,
                        offsets as int,
                        noffsets.0 as int,
                    );
                    assert forall|a: int, b: int|
                        0 <= a < n && 0 <= b < n && root_of(gm_start, a) == root_of(gm_start, b) implies #[trigger] root_of(
                            group_mask@,
                            a,
                        ) == #[trigger] root_of(group_mask@, b) by {
                        assert(root_of(before, a) == root_of(before, b));
                        assert(root_of(group_mask@, a) == merged_root(before, offsets as int, noffsets.0 as int, a));
                        assert(root_of(group_mask@, b) == merged_root(before, offsets as int, noffsets.0 as int, b));
                    }
                    assert forall|k: int|
                        0 <= k < n_idx + 1 && #[trigger] positive_entry(nm, lm, ms, od, offsets as int, k) implies root_of(
                            group_mask@,
                            offsets as int,
                        ) == root_of(group_mask@, node_neighbours(offsets, ms, od)[k].0 as int) by {
                        let b = node_neighbours(offsets, ms, od)[k].0 as int;
                        assert(root_of(group_mask@, offsets as int) == merged_root(
                            before,
                            offsets as int,
                            noffsets.0 as int,
                            offsets as int,
                        ));
                        assert(root_of(group_mask@, b) == merged_root(before, offsets as int, noffsets.0 as int, b));
                        if k < n_idx {
                            assert(root_of(before, offsets as int) == root_of(before, b));
                        }
                    }
                }
            }
            n_idx += 1;
        }
        proof {
            assert forall|q: int|
                0 <= q < p + 1 implies #[trigger] entries_joined(
                group_mask@,
                nm,
                lm,
                ms,
                od,
                offsets_pos@[q] as int,
                node_neighbours(offsets_pos@[q], ms, od).len() as int,
            ) by {
                if q < p {
                    let a = offsets_pos@[q] as int;
                    assert(entries_joined(gm_start, nm, lm, ms, od, a, node_neighbours(offsets_pos@[q], ms, od).len() as int));
                    assert(node_joinable(offsets_pos@[q], n as nat, link_mask.len() as nat, map_size@, offsets_defaults@));
                    assert forall|k: int|
                        0 <= k < node_neighbours(offsets_pos@[q], ms, od).len() && #[trigger] positive_entry(nm, lm, ms, od, a, k) implies root_of(
                            group_mask@,
                            a,
                        ) == root_of(group_mask@, node_neighbours(a as usize, ms, od)[k].0 as int) by {
                        let b = node_neighbours(a as usize, ms, od)[k].0 as int;
                        assert(root_of(gm_start, a) == root_of(gm_start, b));
                    }
                }
            }
        }
        p += 1;
    }

    let ghost gm = group_mask@;
    let ghost pos = offsets_pos@;
    proof {
        assert forall|a: int, b: int| #[trigger] links_to(nm, lm, ms, od, a, b) implies root_of(gm, a) == root_of(gm, b) by {
            let m = a;
            assert(0 <= m < n && nm[m] == 1);
            let q = choose|j: int| 0 <= j < pos.len() && #[trigger] pos[j] == m;
            let k = choose|k: int|
                #[trigger] positive_entry(nm, lm, ms, od, a, k) && node_neighbours(a as usize, ms, od)[k].0 == b;
            assert(entries_joined(gm, nm, lm, ms, od, pos[q] as int, node_neighbours(pos[q], ms, od).len() as int));
        }
    }
    let labels = get_all(&group_mask, &offsets_pos);
    proof {
        lemma_labels_partition(gm, nm, lm, ms, od, pos, labels@);
        lemma_labels_order(gm, nm, lm, ms, od, pos, labels@);
    }
    labels
}

/// Group indices of an image from the node labels: every label minus one
/// (so unlabelled nodes get -1), and, in order, those that are not -1.
pub fn split_group_indices(labels: &Vec<i32>) -> (r: (Vec<i32>, Vec<i32>))
    requires
        forall|i: int| 0 <= i < labels.len() ==> #[trigger] labels@[i] > i32::MIN,
    ensures
        r.0@ == labels@.map_values(|x: i32| (x - 1) as i32),
        r.1@ == r.0@.filter(|x: i32| x != -1),
{
    let mut all: Vec<i32> = Vec::new();
    let mut valid: Vec<i32> = Vec::new();
    let mut i: usize = 0;
    while i < labels.len()
        invariant
            i <= labels.len(),
            forall|k: int| 0 <= k < labels.len() ==> #[trigger] labels@[k] > i32::MIN,
            all@ == labels@.subrange(0, i as int).map_values(|x: i32| (x - 1) as i32),
            valid@ == all@.filter(|x: i32| x != -1),
        decreases labels.len() - i,
    {
        let v = labels[i] - 1;
        let ghost before = all@;
        all.push(v);
        proof {
            reveal_with_fuel(Seq::filter, 1);
            assert(all@.drop_last() =~= before);
        }
        if v != -1 {
            valid.push(v);
        }
        i += 1;
        proof {
            assert(all@ =~= labels@.subrange(0, i as int).map_values(|x: i32| (x - 1) as i32));
        }
    }
    proof {
        assert(labels@.subrange(0, i as int) =~= labels@);
    }
    (all, valid)
}

/// Largest entry of a non-empty sequence.
pub open spec fn seq_max(s: Seq<i32>) -> int
    decreases s.len(),
{
    if s.len() <= 1 {
        s[0] as int
    } else {
        let m = seq_max(s.drop_last());
        if s.last() > m { s.last() as int } else { m }
    }
}

/// The group indices of the first `k` images, each followed by `-1`
/// entries up to the common count `m`: image `i` gets `m - counts[i]` of
/// them.
pub open spec fn padded_groups(groups: Seq<Vec<i32>>, counts: Seq<i32>, m: int, k: nat) -> Seq<i32>
    decreases k,
{
    if k == 0 {
        seq![]
    } else {
        padded_groups(groups, counts, m, (k - 1) as nat) + groups[k - 1]@ + Seq::new(
            (m - counts[k - 1]) as nat,
            |i: int| -1i32,
        )
    }
}

proof fn lemma_seq_max(s: Seq<i32>)
    requires
        s.len() >= 1,
    ensures
        forall|i: int| 0 <= i < s.len() ==> #[trigger] s[i] <= seq_max(s),
    decreases s.len(),
{
    if s.len() > 1 {
        lemma_seq_max(s.drop_last());
        assert forall|i: int| 0 <= i < s.len() implies #[trigger] s[i] <= seq_max(s) by {
            if i < s.len() - 1 {
                assert(s[i] == s.drop_last()[i]);
            }
        }
    }
}

/// Pads the group indices of a batch of images to a common segment count:
/// the count is the largest of `counts`, and each image's indices are
/// followed by `-1` entries up to it; the images' padded indices are
/// joined in order.
pub fn pad_group_indices(groups: &Vec<Vec<i32>>, counts: &Vec<i32>) -> (r: (Vec<i32>, i32))
    requires
        counts.len() == groups.len(),
        counts.len() >= 1,
        forall|i: int| 0 <= i < counts.len() ==> seq_max(counts@) - #[trigger] counts@[i] <= i32::MAX,
    ensures
        r.1 == seq_max(counts@),
        r.0@ == padded_groups(groups@, counts@, seq_max(counts@), groups.len() as nat),
{
    proof {
        lemma_seq_max(counts@);
    }
    let mut max_count: i32 = counts[0];
    let mut i: usize = 1;
    while i < counts.len()
        invariant
            1 <= i <= counts.len(),
            max_count == seq_max(counts@.subrange(0, i as int)),
        decreases counts.len() - i,
    {
        proof {
            assert(counts@.subrange(0, i + 1).drop_last() =~= counts@.subrange(0, i as int));
        }
        if counts[i] > max_count {
            max_count = counts[i];
        }
        i += 1;
    }
    proof {
        assert(counts@.subrange(0, i as int) =~= counts@);
    }
    let mut out: Vec<i32> = Vec::new();
    let mut k: usize = 0;
    while k < groups.len()
        invariant
            counts.len() == groups.len(),
            k <= groups.len(),
            max_count == seq_max(counts@),
            forall|i: int| 0 <= i < counts.len() ==> #[trigger] counts@[i] <= max_count,
            forall|i: int| 0 <= i < counts.len() ==> seq_max(counts@) - #[trigger] counts@[i] <= i32::MAX,
            out@ == padded_groups(groups@, counts@, seq_max(counts@), k as nat),
        decreases groups.len() - k,
    {
        let g = &groups[k];
        let mut j: usize = 0;
        while j < g.len()
            invariant
                k < groups.len(),
                g@ == groups@[k as int]@,
                j <= g.len(),
                out@ == padded_groups(groups@, counts@, seq_max(counts@), k as nat) + g@.subrange(0, j as int),
            decreases g.len() - j,
        {
            out.push(g[j]);
            j += 1;
            proof {
                assert(g@.subrange(0, j as int) =~= g@.subrange(0, j - 1).push(g@[j - 1]));
            }
        }
        let ghost base = out@;
        let pad_size: usize = (max_count - counts[k]) as usize;
        let mut t: usize = 0;
        while t < pad_size
            invariant
                t <= pad_size,
                base == padded_groups(groups@, counts@, seq_max(counts@), k as nat) + g@.subrange(0, g.len() as int),
                out@ == base + Seq::new(t as nat, |i: int| -1i32),
            decreases pad_size - t,
        {
            out.push(-1);
            t += 1;
            proof {
                assert(out@ =~= base + Seq::new(t as nat, |i: int| -1i32));
            }
        }
        proof {
            assert(g@.subrange(0, g.len() as int) =~= g@);
            assert(pad_size as nat == (seq_max(counts@) - counts@[k as int]) as nat);
            assert(out@ =~= padded_groups(groups@, counts@, seq_max(counts@), (k + 1) as nat));
        }
        k += 1;
    }
    (out, max_count)
}

/// Positions of `s`, in order, that hold `v`.
pub open spec fn positions_of(s: Seq<i32>, v: i32) -> Seq<usize>
    decreases s.len(),
{
    if s.len() == 0 {
        seq![]
    } else {
        positions_of(s.drop_last(), v) + if s.last() == v {
            seq![(s.len() - 1) as usize]
        } else {
            seq![]
        }
    }
}

/// Indices of the segments that belong to group `group`, in order.
pub fn group_members(group_indices: &Vec<i32>, group: i32) -> (r: Vec<usize>)
    ensures
        r@ == positions_of(group_indices@, group),
{
    let mut res: Vec<usize> = Vec::new();
    let mut i: usize = 0;
    while i < group_indices.len()
        invariant
            i <= group_indices.len(),
            res@ == positions_of(group_indices@.subrange(0, i as int), group),
        decreases group_indices.len() - i,
    {
        proof {
            assert(group_indices@.subrange(0, i + 1).drop_last() =~= group_indices@.subrange(0, i as int));
        }
        if group_indices[i] == group {
            res.push(i);
        }
        i += 1;
        proof {
            assert(res@ =~= positions_of(group_indices@.subrange(0, i as int), group));
        }
    }
    proof {
        assert(group_indices@.subrange(0, i as int) =~= group_indices@);
    }
    res
}

/// Whether `join_node_groups` can visit node `i` with masks of
/// `node_count` nodes and `link_count` links: see `node_joinable`.
pub fn can_visit_node(
    i: usize,
    node_count: usize,
    link_count: usize,
    map_size: &Vec<(usize, usize)>,
    offsets_defaults: &Vec<(usize, usize)>,
) -> (r: bool)
    ensures
        r == node_joinable(i, node_count as nat, link_count as nat, map_size@, offsets_defaults@),
{
    if !coord_is_defined(i, map_size, offsets_defaults) {
        return false;
    }
    let (cl, cx, cy) = get_coord(i, map_size, offsets_defaults);
    if cl > 0 {
        let x_ok = match cx.checked_mul(2) {
            Some(d) => d.checked_add(1).is_some(),
            None => false,
        };
        let y_ok = match cy.checked_mul(2) {
            Some(d) => d.checked_add(1).is_some(),
            None => false,
        };
        if !x_ok || !y_ok {
            return false;
        }
    }
    if !neighbour_offsets_fit(cl, cx, cy, map_size, offsets_defaults) {
        return false;
    }
    let neighbours = get_neighbours(cl, cx, cy, map_size, offsets_defaults);
    let ghost c = coord_of(i, map_size@, offsets_defaults@);
    let mut k: usize = 0;
    while k < neighbours.len()
        invariant
            k <= neighbours.len(),
            coord_defined(i, map_size@, offsets_defaults@),
            c == coord_of(i, map_size@, offsets_defaults@),
            cl == c.0 && cx == c.1 && cy == c.2,
            neighbours_defined(cl, cx, cy, map_size@, offsets_defaults@),
            neighbours@ == neighbour_entries(
                cl,
                cx,
                cy,
                map_size@,
                offsets_defaults@,
                neighbour_candidates(cl, cx, cy).len(),
            ),
            forall|j: int| 0 <= j < k ==> (#[trigger] neighbours@[j]).0 < node_count && neighbours@[j].1 < link_count,
        decreases neighbours.len() - k,
    {
        if neighbours[k].0 >= node_count || neighbours[k].1 >= link_count {
            proof {
                assert(c.0 as usize == cl && c.1 as usize == cx && c.2 as usize == cy);
                assert(!entries_in_bounds(neighbours@, node_count as nat, link_count as nat));
            }
            return false;
        }
        k += 1;
    }
    true
}

/// Whether `join_node_groups` can run on these masks and layout: the node
/// mask has at most `i32::MAX` entries and every node marked 1 can be
/// visited.
pub fn can_join_node_groups(
    node_mask: &Vec<i32>,
    link_mask: &Vec<i32>,
    map_size: &Vec<(usize, usize)>,
    offsets_defaults: &Vec<(usize, usize)>,
) -> (r: bool)
    ensures
        r == (node_mask.len() <= i32::MAX && forall|i: usize|
            i < node_mask.len() && node_mask@[i as int] == 1 ==> #[trigger] node_joinable(
                i,
                node_mask.len() as nat,
                link_mask.len() as nat,
                map_size@,
                offsets_defaults@,
            )),
{
    let n = node_mask.len();
    if n > 0x7fff_ffff {
        return false;
    }
    let mut i: usize = 0;
    while i < n
        invariant
            n == node_mask.len(),
            i <= n,
            forall|j: usize|
                j < i && node_mask@[j as int] == 1 ==> #[trigger] node_joinable(
                    j,
                    node_mask.len() as nat,
                    link_mask.len() as nat,
                    map_size@,
                    offsets_defaults@,
                ),
        decreases n - i,
    {
        if node_mask[i] == 1 && !can_visit_node(i, n, link_mask.len(), map_size, offsets_defaults) {
            return false;
        }
        i += 1;
    }
    true
}

proof fn lemma_count_ones_bound(s: Seq<i32>, i: nat)
    ensures
        count_ones(s, i) <= i,
    decreases i,
{
    if i > 0 {
        lemma_count_ones_bound(s, (i - 1) as nat);
    }
}

} // verus!
