//! Connected-component labeling of a detection mask: a raster scan with
//! 8-connectivity and union-find, followed by a sequential relabeling.
use std::collections::HashMap;
use vstd::prelude::*;

use crate::connectivity::{
    adjacent, connected, foreground, is_path, lemma_connected_adjacent, lemma_connected_refl,
    lemma_connected_symm, lemma_connected_trans, lemma_earlier_neighbour, raster_before,
};
use crate::grid::{covers_shape, in_shape, label_cells, label_shape, mask_cells, mask_shape, LabelGrid, MaskGrid};
use crate::union_find::{
    find, keeps_background_apart, lemma_root_is_root, lemma_root_push, points_down, root, union,
};

verus! {

broadcast use vstd::std_specs::hash::group_hash_axioms;

/// `labels` numbers the 8-connected regions of the mask's foreground:
/// background pixels get 0, two foreground pixels share a label exactly when
/// they are connected, and the labels are 1, 2, 3, ... in the raster order of
/// each region's first pixel (every label above 1 is preceded by the label
/// one below it).
pub open spec fn is_component_labeling(
    mask: Map<(usize, usize), bool>,
    labels: Map<(usize, usize), u32>,
) -> bool {
    &&& labels.dom() == mask.dom()
    &&& forall|p: (usize, usize)| #[trigger] mask.dom().contains(p) ==> (labels[p] == 0 <==> !mask[p])
    &&& forall|p: (usize, usize), q: (usize, usize)|
        #![trigger labels[p], labels[q]]
        foreground(mask, p) && foreground(mask, q) ==> (labels[p] == labels[q] <==> connected(mask, p, q))
    &&& forall|p: (usize, usize)|
        #![trigger labels[p]]
        foreground(mask, p) && labels[p] > 1 ==> exists|q: (usize, usize)|
            #![trigger labels[q]]
            mask.dom().contains(q) && raster_before(q, p) && labels[q] == labels[p] - 1
}

/// The component labeling of a mask (there is exactly one, see
/// `lemma_labeling_unique`).
pub open spec fn component_labels(mask: Map<(usize, usize), bool>) -> Map<(usize, usize), u32> {
    choose|labels: Map<(usize, usize), u32>| is_component_labeling(mask, labels)
}

/// A foreground pixel that the scan has passed.
pub open spec fn seen_fg(mask: Map<(usize, usize), bool>, pos: (usize, usize), p: (usize, usize)) -> bool {
    foreground(mask, p) && raster_before(p, pos)
}

/// State of the first pass once every pixel before `pos` has been handled:
/// provisional labels, and a forest in which two seen pixels share a
/// representative exactly when the scan has found them connected.
#[verifier::opaque]
pub open spec fn provisional(
    mask: Map<(usize, usize), bool>,
    labels: Map<(usize, usize), u32>,
    parent: Seq<u32>,
    pos: (usize, usize),
) -> bool {
    &&& parent.len() >= 1
    &&& parent[0] == 0
    &&& points_down(parent)
    &&& keeps_background_apart(parent)
    &&& labels.dom() == mask.dom()
    &&& forall|p: (usize, usize)|
        #[trigger] labels.dom().contains(p) ==> if raster_before(p, pos) && mask[p] {
            1 <= labels[p] < parent.len()
        } else {
            labels[p] == 0
        }
    &&& forall|p: (usize, usize), q: (usize, usize)|
        #![trigger labels[p], labels[q]]
        seen_fg(mask, pos, p) && seen_fg(mask, pos, q) && root(parent, labels[p] as int) == root(
            parent,
            labels[q] as int,
        ) ==> connected(mask, p, q)
    &&& forall|p: (usize, usize), q: (usize, usize)|
        #![trigger labels[p], labels[q]]
        seen_fg(mask, pos, p) && seen_fg(mask, pos, q) && adjacent(p, q) ==> root(
            parent,
            labels[p] as int,
        ) == root(parent, labels[q] as int)
}

/// The earlier neighbours of `p` that the scan found in the foreground.
pub open spec fn earlier_fg_neighbour(mask: Map<(usize, usize), bool>, p: (usize, usize), q: (usize, usize)) -> bool {
    foreground(mask, q) && adjacent(p, q) && raster_before(q, p)
}

proof fn lemma_fresh_label(
    mask: Map<(usize, usize), bool>,
    labels: Map<(usize, usize), u32>,
    parent: Seq<u32>,
    p: (usize, usize),
    next_pos: (usize, usize),
)
    requires
        provisional(mask, labels, parent, p),
        foreground(mask, p),
        parent.len() < u32::MAX,
        forall|q: (usize, usize)| #[trigger] labels.dom().contains(q) ==> (raster_before(q, next_pos) <==> (raster_before(q, p) || q == p)),
        forall|q: (usize, usize)| earlier_fg_neighbour(mask, p, q) ==> #[trigger] labels[q] == 0,
    ensures
        provisional(mask, labels.insert(p, parent.len() as u32), parent.push(parent.len() as u32), next_pos),
{
    reveal(provisional);
    let nl = parent.len() as u32;
    let l2 = labels.insert(p, nl);
    let p2 = parent.push(nl);
    assert(l2.dom() =~= mask.dom());
    lemma_root_push(parent, 0);
    assert(p2[0] == 0);
    assert(keeps_background_apart(p2)) by {
        assert forall|l: int| 1 <= l < p2.len() implies #[trigger] p2[l] >= 1 by {
            if l < parent.len() {
                assert(p2[l] == parent[l]);
            }
        }
    }
    assert forall|x: (usize, usize)| #[trigger] l2.dom().contains(x) implies (if raster_before(x, next_pos) && mask[x] {
        1 <= l2[x] < p2.len()
    } else {
        l2[x] == 0
    }) by {
        assert(labels.dom().contains(x));
        if x != p {
            assert(l2[x] == labels[x]);
        }
    }
    assert forall|x: (usize, usize), y: (usize, usize)|
        #![trigger l2[x], l2[y]]
        seen_fg(mask, next_pos, x) && seen_fg(mask, next_pos, y) && root(p2, l2[x] as int) == root(p2, l2[y] as int)
        implies connected(mask, x, y) by {
        assert(labels.dom().contains(x) && labels.dom().contains(y));
        if x == p && y == p {
            lemma_connected_refl(mask, p);
        } else if x == p {
            lemma_root_push(parent, nl as int);
            lemma_root_push(parent, labels[y] as int);
            lemma_root_is_root(parent, labels[y] as int);
        } else if y == p {
            lemma_root_push(parent, nl as int);
            lemma_root_push(parent, labels[x] as int);
            lemma_root_is_root(parent, labels[x] as int);
        } else {
            lemma_root_push(parent, labels[x] as int);
            lemma_root_push(parent, labels[y] as int);
            assert(labels[x] == l2[x] && labels[y] == l2[y]);
        }
    }
    assert forall|x: (usize, usize), y: (usize, usize)|
        #![trigger l2[x], l2[y]]
        seen_fg(mask, next_pos, x) && seen_fg(mask, next_pos, y) && adjacent(x, y)
        implies root(p2, l2[x] as int) == root(p2, l2[y] as int) by {
        assert(labels.dom().contains(x) && labels.dom().contains(y));
        if x == p && y == p {
        } else if x == p {
            assert(earlier_fg_neighbour(mask, p, y));
            assert(labels[y] == 0);
        } else if y == p {
            assert(earlier_fg_neighbour(mask, p, x));
            assert(labels[x] == 0);
        } else {
            lemma_root_push(parent, labels[x] as int);
            lemma_root_push(parent, labels[y] as int);
            assert(labels[x] == l2[x] && labels[y] == l2[y]);
            assert(root(parent, labels[x] as int) == root(parent, labels[y] as int));
        }
    }
}

/// The representative class that the merge step collapses onto `m`.
pub open spec fn merged(roots: Seq<u32>, x: int) -> bool {
    exists|i: int| 0 <= i < roots.len() && #[trigger] roots[i] as int == x
}

/// The representatives of the listed labels, read back from `roots_of`.
proof fn lemma_roots_of(parent0: Seq<u32>, nbrs: Seq<u32>)
    requires
        points_down(parent0),
        forall|i: int| 0 <= i < nbrs.len() ==> #[trigger] nbrs[i] < parent0.len(),
    ensures
        roots_of(parent0, nbrs).len() == nbrs.len(),
        forall|i: int| 0 <= i < nbrs.len() ==> #[trigger] roots_of(parent0, nbrs)[i] as int == root(parent0, nbrs[i] as int),
{
    assert forall|i: int| 0 <= i < nbrs.len() implies #[trigger] roots_of(parent0, nbrs)[i] as int == root(parent0, nbrs[i] as int) by {
        lemma_root_is_root(parent0, nbrs[i] as int);
    }
}

/// What the merge step of the first pass establishes before the pixel `p`
/// receives the smallest representative `m` of its seen neighbours.
#[verifier::opaque]
pub open spec fn merge_step(
    mask: Map<(usize, usize), bool>,
    labels: Map<(usize, usize), u32>,
    parent0: Seq<u32>,
    parent: Seq<u32>,
    p: (usize, usize),
    next_pos: (usize, usize),
    nbrs: Seq<u32>,
    roots: Seq<u32>,
    m: u32,
) -> bool {
    &&& provisional(mask, labels, parent0, p)
    &&& foreground(mask, p)
    &&& forall|q: (usize, usize)| #[trigger] labels.dom().contains(q) ==> (raster_before(q, next_pos) <==> (raster_before(q, p) || q == p))
    &&& roots.len() == nbrs.len()
    &&& forall|i: int| 0 <= i < roots.len() ==> #[trigger] roots[i] as int == root(parent0, nbrs[i] as int)
    &&& forall|i: int| #![trigger nbrs[i]] 0 <= i < nbrs.len() ==> exists|q: (usize, usize)| #![trigger labels[q]] earlier_fg_neighbour(mask, p, q) && labels[q] == nbrs[i]
    &&& forall|q: (usize, usize)| earlier_fg_neighbour(mask, p, q) ==> exists|i: int| 0 <= i < nbrs.len() && #[trigger] nbrs[i] == labels[q]
    &&& merged(roots, m as int)
    &&& parent.len() == parent0.len()
    &&& parent[0] == 0
    &&& points_down(parent)
    &&& keeps_background_apart(parent)
    &&& forall|l: int| 0 <= l < parent0.len() ==> #[trigger] root(parent, l) == if merged(roots, root(parent0, l)) {
            m as int
        } else {
            root(parent0, l)
        }
}

proof fn lemma_merge_basics(
    mask: Map<(usize, usize), bool>,
    labels: Map<(usize, usize), u32>,
    parent0: Seq<u32>,
    parent: Seq<u32>,
    p: (usize, usize),
    next_pos: (usize, usize),
    nbrs: Seq<u32>,
    roots: Seq<u32>,
    m: u32,
)
    requires
        merge_step(mask, labels, parent0, parent, p, next_pos, nbrs, roots, m),
    ensures
        1 <= m < parent0.len(),
        root(parent0, m as int) == m as int,
        root(parent, m as int) == m as int,
{
    reveal(provisional);
    reveal(merge_step);
    let i0 = choose|i: int| 0 <= i < roots.len() && #[trigger] roots[i] as int == m as int;
    let n0 = nbrs[i0];
    let q0 = choose|q: (usize, usize)| #![trigger labels[q]] earlier_fg_neighbour(mask, p, q) && labels[q] == nbrs[i0];
    assert(labels.dom().contains(q0));
    assert(1 <= n0 < parent0.len());
    lemma_root_is_root(parent0, n0 as int);
}

proof fn lemma_merged_connected(
    mask: Map<(usize, usize), bool>,
    labels: Map<(usize, usize), u32>,
    parent0: Seq<u32>,
    parent: Seq<u32>,
    p: (usize, usize),
    next_pos: (usize, usize),
    nbrs: Seq<u32>,
    roots: Seq<u32>,
    m: u32,
    x: (usize, usize),
)
    requires
        merge_step(mask, labels, parent0, parent, p, next_pos, nbrs, roots, m),
        seen_fg(mask, p, x),
        merged(roots, root(parent0, labels[x] as int)),
    ensures
        connected(mask, x, p),
{
    reveal(provisional);
    reveal(merge_step);
    let i = choose|i: int| 0 <= i < roots.len() && #[trigger] roots[i] as int == root(parent0, labels[x] as int);
    let q = choose|q: (usize, usize)| #![trigger labels[q]] earlier_fg_neighbour(mask, p, q) && labels[q] == nbrs[i];
    assert(labels.dom().contains(q) && labels.dom().contains(x));
    assert(seen_fg(mask, p, q));
    assert(root(parent0, labels[x] as int) == root(parent0, labels[q] as int));
    assert(connected(mask, x, q));
    lemma_connected_adjacent(mask, q, p);
    lemma_connected_trans(mask, x, q, p);
}

#[verifier::spinoff_prover]
proof fn lemma_merge_sound(
    mask: Map<(usize, usize), bool>,
    labels: Map<(usize, usize), u32>,
    parent0: Seq<u32>,
    parent: Seq<u32>,
    p: (usize, usize),
    next_pos: (usize, usize),
    nbrs: Seq<u32>,
    roots: Seq<u32>,
    m: u32,
    x: (usize, usize),
    y: (usize, usize),
)
    requires
        merge_step(mask, labels, parent0, parent, p, next_pos, nbrs, roots, m),
        seen_fg(mask, next_pos, x),
        seen_fg(mask, next_pos, y),
        root(parent, labels.insert(p, m)[x] as int) == root(parent, labels.insert(p, m)[y] as int),
    ensures
        connected(mask, x, y),
{
    reveal(provisional);
    lemma_merge_basics(mask, labels, parent0, parent, p, next_pos, nbrs, roots, m);
    reveal(merge_step);
    let l2 = labels.insert(p, m);
    assert(labels.dom().contains(x) && labels.dom().contains(y));
    if x == p && y == p {
        lemma_connected_refl(mask, p);
    } else if x == p {
        assert(l2[y] == labels[y]);
        assert(seen_fg(mask, p, y));
        lemma_root_is_root(parent0, labels[y] as int);
        if !merged(roots, root(parent0, labels[y] as int)) {
            assert(root(parent0, labels[y] as int) != m as int);
        }
        lemma_merged_connected(mask, labels, parent0, parent, p, next_pos, nbrs, roots, m, y);
        lemma_connected_symm(mask, y, p);
    } else if y == p {
        assert(l2[x] == labels[x]);
        assert(seen_fg(mask, p, x));
        lemma_root_is_root(parent0, labels[x] as int);
        if !merged(roots, root(parent0, labels[x] as int)) {
            assert(root(parent0, labels[x] as int) != m as int);
        }
        lemma_merged_connected(mask, labels, parent0, parent, p, next_pos, nbrs, roots, m, x);
    } else {
        assert(l2[x] == labels[x] && l2[y] == labels[y]);
        assert(seen_fg(mask, p, x) && seen_fg(mask, p, y));
        lemma_root_is_root(parent0, labels[x] as int);
        lemma_root_is_root(parent0, labels[y] as int);
        let mx = merged(roots, root(parent0, labels[x] as int));
        let my = merged(roots, root(parent0, labels[y] as int));
        if mx && my {
            lemma_merged_connected(mask, labels, parent0, parent, p, next_pos, nbrs, roots, m, x);
            lemma_merged_connected(mask, labels, parent0, parent, p, next_pos, nbrs, roots, m, y);
            lemma_connected_symm(mask, y, p);
            lemma_connected_trans(mask, x, p, y);
        } else if !mx && !my {
            assert(root(parent0, labels[x] as int) == root(parent0, labels[y] as int));
        } else if mx {
            assert(root(parent0, labels[y] as int) != m as int);
        } else {
            assert(root(parent0, labels[x] as int) != m as int);
        }
    }
}

#[verifier::spinoff_prover]
#[verifier::rlimit(40)]
proof fn lemma_merge_complete(
    mask: Map<(usize, usize), bool>,
    labels: Map<(usize, usize), u32>,
    parent0: Seq<u32>,
    parent: Seq<u32>,
    p: (usize, usize),
    next_pos: (usize, usize),
    nbrs: Seq<u32>,
    roots: Seq<u32>,
    m: u32,
    x: (usize, usize),
    y: (usize, usize),
)
    requires
        merge_step(mask, labels, parent0, parent, p, next_pos, nbrs, roots, m),
        seen_fg(mask, next_pos, x),
        seen_fg(mask, next_pos, y),
        adjacent(x, y),
    ensures
        root(parent, labels.insert(p, m)[x] as int) == root(parent, labels.insert(p, m)[y] as int),
{
    reveal(provisional);
    lemma_merge_basics(mask, labels, parent0, parent, p, next_pos, nbrs, roots, m);
    reveal(merge_step);
    let l2 = labels.insert(p, m);
    assert(labels.dom().contains(x) && labels.dom().contains(y));
    if x == p && y == p {
    } else if x == p {
        assert(earlier_fg_neighbour(mask, p, y));
        let i = choose|i: int| 0 <= i < nbrs.len() && #[trigger] nbrs[i] == labels[y];
        assert(roots[i] as int == root(parent0, labels[y] as int));
        assert(merged(roots, root(parent0, labels[y] as int)));
        assert(l2[y] == labels[y]);
        assert(1 <= labels[y] < parent0.len());
    } else if y == p {
        assert(earlier_fg_neighbour(mask, p, x));
        let i = choose|i: int| 0 <= i < nbrs.len() && #[trigger] nbrs[i] == labels[x];
        assert(roots[i] as int == root(parent0, labels[x] as int));
        assert(merged(roots, root(parent0, labels[x] as int)));
        assert(l2[x] == labels[x]);
        assert(1 <= labels[x] < parent0.len());
    } else {
        assert(l2[x] == labels[x] && l2[y] == labels[y]);
        assert(seen_fg(mask, p, x) && seen_fg(mask, p, y));
        assert(root(parent0, labels[x] as int) == root(parent0, labels[y] as int));
        assert(1 <= labels[x] < parent0.len());
        assert(1 <= labels[y] < parent0.len());
    }
}

proof fn lemma_merge(
    mask: Map<(usize, usize), bool>,
    labels: Map<(usize, usize), u32>,
    parent0: Seq<u32>,
    parent: Seq<u32>,
    p: (usize, usize),
    next_pos: (usize, usize),
    nbrs: Seq<u32>,
    roots: Seq<u32>,
    m: u32,
)
    requires
        merge_step(mask, labels, parent0, parent, p, next_pos, nbrs, roots, m),
    ensures
        provisional(mask, labels.insert(p, m), parent, next_pos),
{
    reveal(provisional);
    lemma_merge_basics(mask, labels, parent0, parent, p, next_pos, nbrs, roots, m);
    let l2 = labels.insert(p, m);
    assert(l2.dom() =~= mask.dom()) by { reveal(merge_step); }
    assert forall|x: (usize, usize)| #[trigger] l2.dom().contains(x) implies (if raster_before(x, next_pos) && mask[x] {
        1 <= l2[x] < parent.len()
    } else {
        l2[x] == 0
    }) by {
        reveal(merge_step);
        assert(labels.dom().contains(x));
        if x != p {
            assert(l2[x] == labels[x]);
        }
    }
    assert forall|x: (usize, usize), y: (usize, usize)|
        #![trigger l2[x], l2[y]]
        seen_fg(mask, next_pos, x) && seen_fg(mask, next_pos, y) && root(parent, l2[x] as int) == root(parent, l2[y] as int)
        implies connected(mask, x, y) by {
        lemma_merge_sound(mask, labels, parent0, parent, p, next_pos, nbrs, roots, m, x, y);
    }
    assert forall|x: (usize, usize), y: (usize, usize)|
        #![trigger l2[x], l2[y]]
        seen_fg(mask, next_pos, x) && seen_fg(mask, next_pos, y) && adjacent(x, y)
        implies root(parent, l2[x] as int) == root(parent, l2[y] as int) by {
        lemma_merge_complete(mask, labels, parent0, parent, p, next_pos, nbrs, roots, m, x, y);
    }
    reveal(merge_step);
}

/// `provisional` depends on the scan position only through the pixels that
/// come before it.
proof fn lemma_provisional_moves(
    mask: Map<(usize, usize), bool>,
    labels: Map<(usize, usize), u32>,
    parent: Seq<u32>,
    pos1: (usize, usize),
    pos2: (usize, usize),
)
    requires
        provisional(mask, labels, parent, pos1),
        forall|p: (usize, usize)| #[trigger] mask.dom().contains(p) ==> (raster_before(p, pos1) <==> raster_before(p, pos2)),
    ensures
        provisional(mask, labels, parent, pos2),
{
    reveal(provisional);
    assert forall|x: (usize, usize)| #[trigger] labels.dom().contains(x) implies (if raster_before(x, pos2) && mask[x] {
        1 <= labels[x] < parent.len()
    } else {
        labels[x] == 0
    }) by {
        assert(mask.dom().contains(x));
    }
    assert forall|x: (usize, usize), y: (usize, usize)|
        #![trigger labels[x], labels[y]]
        seen_fg(mask, pos2, x) && seen_fg(mask, pos2, y) && root(parent, labels[x] as int) == root(parent, labels[y] as int)
        implies connected(mask, x, y) by {
        assert(seen_fg(mask, pos1, x) && seen_fg(mask, pos1, y));
    }
    assert forall|x: (usize, usize), y: (usize, usize)|
        #![trigger labels[x], labels[y]]
        seen_fg(mask, pos2, x) && seen_fg(mask, pos2, y) && adjacent(x, y)
        implies root(parent, labels[x] as int) == root(parent, labels[y] as int) by {
        assert(seen_fg(mask, pos1, x) && seen_fg(mask, pos1, y));
    }
}

/// Passing over a background pixel keeps the first-pass state.
proof fn lemma_skip_background(
    mask: Map<(usize, usize), bool>,
    labels: Map<(usize, usize), u32>,
    parent: Seq<u32>,
    p: (usize, usize),
    next_pos: (usize, usize),
)
    requires
        provisional(mask, labels, parent, p),
        mask.dom().contains(p),
        !mask[p],
        forall|q: (usize, usize)| #[trigger] labels.dom().contains(q) ==> (raster_before(q, next_pos) <==> (raster_before(q, p) || q == p)),
    ensures
        provisional(mask, labels, parent, next_pos),
{
    reveal(provisional);
    assert forall|x: (usize, usize)| #[trigger] labels.dom().contains(x) implies (if raster_before(x, next_pos) && mask[x] {
        1 <= labels[x] < parent.len()
    } else {
        labels[x] == 0
    }) by {
    }
    assert forall|x: (usize, usize), y: (usize, usize)|
        #![trigger labels[x], labels[y]]
        seen_fg(mask, next_pos, x) && seen_fg(mask, next_pos, y) && root(parent, labels[x] as int) == root(parent, labels[y] as int)
        implies connected(mask, x, y) by {
        assert(labels.dom().contains(x) && labels.dom().contains(y));
        assert(seen_fg(mask, p, x) && seen_fg(mask, p, y));
    }
    assert forall|x: (usize, usize), y: (usize, usize)|
        #![trigger labels[x], labels[y]]
        seen_fg(mask, next_pos, x) && seen_fg(mask, next_pos, y) && adjacent(x, y)
        implies root(parent, labels[x] as int) == root(parent, labels[y] as int) by {
        assert(labels.dom().contains(x) && labels.dom().contains(y));
        assert(seen_fg(mask, p, x) && seen_fg(mask, p, y));
    }
}

/// The label at a pixel, as a sequence of at most one element (none for the background).
pub open spec fn label_if_set(labels: Map<(usize, usize), u32>, q: (usize, usize)) -> Seq<u32> {
    if labels[q] > 0 { seq![labels[q]] } else { seq![] }
}

/// The labels that the scan collects from the already visited neighbours of
/// `(r, c)`: above, above-left, above-right, then left.
pub open spec fn neighbour_labels(labels: Map<(usize, usize), u32>, r: usize, c: usize, ncols: usize) -> Seq<u32> {
    let above = if r > 0 {
        label_if_set(labels, ((r - 1) as usize, c)) + (if c > 0 {
            label_if_set(labels, ((r - 1) as usize, (c - 1) as usize))
        } else {
            seq![]
        }) + (if c + 1 < ncols {
            label_if_set(labels, ((r - 1) as usize, (c + 1) as usize))
        } else {
            seq![]
        })
    } else {
        seq![]
    };
    above + (if c > 0 { label_if_set(labels, (r, (c - 1) as usize)) } else { seq![] })
}

proof fn lemma_neighbour_labels(
    mask: Map<(usize, usize), bool>,
    labels: Map<(usize, usize), u32>,
    parent: Seq<u32>,
    nrows: usize,
    ncols: usize,
    r: usize,
    c: usize,
)
    requires
        provisional(mask, labels, parent, (r, c)),
        covers_shape(mask, (nrows, ncols)),
        r < nrows,
        c < ncols,
    ensures
        ({
            let nbrs = neighbour_labels(labels, r, c, ncols);
            &&& forall|i: int| #![trigger nbrs[i]] 0 <= i < nbrs.len() ==> exists|q: (usize, usize)|
                #![trigger labels[q]] earlier_fg_neighbour(mask, (r, c), q) && labels[q] == nbrs[i]
            &&& forall|q: (usize, usize)| earlier_fg_neighbour(mask, (r, c), q) ==> exists|i: int|
                0 <= i < nbrs.len() && #[trigger] nbrs[i] == labels[q]
            &&& forall|i: int| 0 <= i < nbrs.len() ==> 1 <= #[trigger] nbrs[i] < parent.len()
        }),
{
    reveal(provisional);
    let p = (r, c);
    let nbrs = neighbour_labels(labels, r, c, ncols);
    let a = ((r - 1) as usize, c);
    let b = ((r - 1) as usize, (c - 1) as usize);
    let d = ((r - 1) as usize, (c + 1) as usize);
    let e = (r, (c - 1) as usize);
    let sa = if r > 0 { label_if_set(labels, a) } else { seq![] };
    let sb = if r > 0 && c > 0 { label_if_set(labels, b) } else { seq![] };
    let sd = if r > 0 && c + 1 < ncols { label_if_set(labels, d) } else { seq![] };
    let se = if c > 0 { label_if_set(labels, e) } else { seq![] };
    assert(nbrs =~= sa + sb + sd + se);
    // a listed label comes from an earlier foreground neighbour
    assert forall|q: (usize, usize)|
        #![trigger labels[q]]
        mask.dom().contains(q) && adjacent(p, q) && raster_before(q, p) && labels[q] > 0
        implies earlier_fg_neighbour(mask, p, q) && 1 <= labels[q] < parent.len() by {
        assert(labels.dom().contains(q));
    }
    assert forall|i: int| #![trigger nbrs[i]] 0 <= i < nbrs.len() implies exists|q: (usize, usize)|
        #![trigger labels[q]] earlier_fg_neighbour(mask, p, q) && labels[q] == nbrs[i] by {
        let la = sa.len() as int;
        let lb = sb.len() as int;
        let ld = sd.len() as int;
        if i < la {
            assert(nbrs[i] == labels[a]);
            assert(mask.dom().contains(a));
        } else if i < la + lb {
            assert(nbrs[i] == labels[b]);
            assert(mask.dom().contains(b));
        } else if i < la + lb + ld {
            assert(nbrs[i] == labels[d]);
            assert(mask.dom().contains(d));
        } else {
            assert(nbrs[i] == labels[e]);
            assert(mask.dom().contains(e));
        }
    }
    assert forall|i: int| 0 <= i < nbrs.len() implies 1 <= #[trigger] nbrs[i] < parent.len() by {
        let la = sa.len() as int;
        let lb = sb.len() as int;
        let ld = sd.len() as int;
        if i < la {
            assert(nbrs[i] == labels[a]);
            assert(mask.dom().contains(a));
        } else if i < la + lb {
            assert(nbrs[i] == labels[b]);
            assert(mask.dom().contains(b));
        } else if i < la + lb + ld {
            assert(nbrs[i] == labels[d]);
            assert(mask.dom().contains(d));
        } else {
            assert(nbrs[i] == labels[e]);
            assert(mask.dom().contains(e));
        }
    }
    assert forall|q: (usize, usize)| earlier_fg_neighbour(mask, p, q) implies exists|i: int|
        0 <= i < nbrs.len() && #[trigger] nbrs[i] == labels[q] by {
        lemma_earlier_neighbour(p, q);
        assert(labels.dom().contains(q));
        assert(labels[q] >= 1);
        let la = sa.len() as int;
        let lb = sb.len() as int;
        let ld = sd.len() as int;
        if q == a && r >= 1 {
            assert(nbrs[0] == labels[q]);
        } else if q == b && r >= 1 && c >= 1 {
            assert(nbrs[la] == labels[q]);
        } else if q == d && r >= 1 {
            assert(c + 1 < ncols);
            assert(nbrs[la + lb] == labels[q]);
        } else {
            assert(q == e && c >= 1);
            assert(nbrs[la + lb + ld] == labels[q]);
        }
    }
}

/// Appends the label at `(r, c)` to `out` unless it is the background label 0.
pub fn push_if(labels: &LabelGrid, r: usize, c: usize, out: &mut Vec<u32>)
    requires
        in_shape(label_shape(*labels), (r, c)),
    ensures
        final(out)@ == old(out)@ + label_if_set(label_cells(*labels), (r, c)),
{
    let l = labels.get(r, c);
    if l > 0 {
        out.push(l);
    }
    proof {
        if l > 0 {
            assert(final(out)@ =~= old(out)@ + label_if_set(label_cells(*labels), (r, c)));
        } else {
            assert(final(out)@ =~= old(out)@ + label_if_set(label_cells(*labels), (r, c)));
        }
    }
}

/// The representatives of a list of labels.
pub open spec fn roots_of(parent: Seq<u32>, labels: Seq<u32>) -> Seq<u32> {
    labels.map_values(|l: u32| root(parent, l as int) as u32)
}

/// Merges the classes of the given (non-background) labels into the class of
/// their smallest representative, which is returned.
fn merge_neighbours(parent: &mut Vec<u32>, nbr_labels: &Vec<u32>) -> (min_root: u32)
    requires
        old(parent)@.len() >= 1,
        old(parent)@[0] == 0,
        points_down(old(parent)@),
        keeps_background_apart(old(parent)@),
        nbr_labels@.len() > 0,
        forall|i: int| 0 <= i < nbr_labels@.len() ==> 1 <= #[trigger] nbr_labels@[i] < old(parent)@.len(),
    ensures
        final(parent)@.len() == old(parent)@.len(),
        final(parent)@[0] == 0,
        points_down(final(parent)@),
        keeps_background_apart(final(parent)@),
        merged(roots_of(old(parent)@, nbr_labels@), min_root as int),
        forall|l: int|
            0 <= l < old(parent)@.len() ==> #[trigger] root(final(parent)@, l) == if merged(
                roots_of(old(parent)@, nbr_labels@),
                root(old(parent)@, l),
            ) {
                min_root as int
            } else {
                root(old(parent)@, l)
            },
{
    let ghost p0 = parent@;
    let ghost rs = roots_of(p0, nbr_labels@);
    let mut roots: Vec<u32> = Vec::new();
    let mut i: usize = 0;
    while i < nbr_labels.len()
        invariant
            parent@ == p0,
            points_down(p0),
            keeps_background_apart(p0),
            rs == roots_of(p0, nbr_labels@),
            i <= nbr_labels@.len(),
            roots@.len() == i,
            forall|k: int| 0 <= k < nbr_labels@.len() ==> 1 <= #[trigger] nbr_labels@[k] < p0.len(),
            forall|k: int| 0 <= k < i ==> #[trigger] roots@[k] == rs[k],
        decreases nbr_labels@.len() - i,
    {
        let r = find(parent, nbr_labels[i]);
        roots.push(r);
        i += 1;
    }
    assert(roots@ =~= rs);
    assert forall|k: int| 0 <= k < rs.len() implies 1 <= #[trigger] rs[k] < p0.len() && root(p0, rs[k] as int) == rs[k] as int by {
        lemma_root_is_root(p0, nbr_labels@[k] as int);
    }
    let mut min_root = roots[0];
    let mut j: usize = 1;
    while j < roots.len()
        invariant
            roots@ == rs,
            1 <= j <= rs.len(),
            merged(rs, min_root as int),
            forall|k: int| 0 <= k < j ==> min_root <= #[trigger] rs[k],
        decreases rs.len() - j,
    {
        if roots[j] < min_root {
            min_root = roots[j];
        }
        j += 1;
    }
    let m = min_root;
    assert(1 <= m < p0.len() && root(p0, m as int) == m as int);
    let mut j: usize = 0;
    while j < roots.len()
        invariant
            roots@ == rs,
            j <= rs.len(),
            merged(rs, m as int),
            1 <= m < p0.len(),
            root(p0, m as int) == m as int,
            forall|k: int| 0 <= k < rs.len() ==> m <= #[trigger] rs[k],
            forall|k: int| 0 <= k < rs.len() ==> 1 <= #[trigger] rs[k] < p0.len() && root(p0, rs[k] as int) == rs[k] as int,
            parent@.len() == p0.len(),
            parent@[0] == 0,
            points_down(p0),
            points_down(parent@),
            keeps_background_apart(parent@),
            forall|l: int| 0 <= l < p0.len() ==> #[trigger] root(parent@, l) == if merged(rs.take(j as int), root(p0, l)) || root(p0, l) == m {
                m as int
            } else {
                root(p0, l)
            },
        decreases rs.len() - j,
    {
        let rj = roots[j];
        let ghost pb = parent@;
        if rj != m {
            union(parent, rj, m);
            proof {
                lemma_root_is_root(pb, rj as int);
                lemma_root_is_root(pb, m as int);
                assert(root(pb, m as int) == m as int);
                assert forall|l: int| 0 <= l < parent@.len() implies #[trigger] parent@[l] >= 1 || l == 0 by {
                    lemma_root_is_root(pb, l);
                }
                assert(parent@[0] == 0) by {
                    assert(parent@[0] as int <= 0);
                }
            }
        }
        proof {
            assert forall|l: int| 0 <= l < p0.len() implies #[trigger] root(parent@, l) == if merged(rs.take(j + 1), root(p0, l)) || root(p0, l) == m {
                m as int
            } else {
                root(p0, l)
            } by {
                let x = root(p0, l);
                if merged(rs.take(j as int), x) {
                    let k = choose|k: int| 0 <= k < rs.take(j as int).len() && #[trigger] rs.take(j as int)[k] as int == x;
                    assert(rs.take(j + 1)[k] as int == x);
                }
                if merged(rs.take(j + 1), x) && !merged(rs.take(j as int), x) {
                    let k = choose|k: int| 0 <= k < rs.take(j + 1).len() && #[trigger] rs.take(j + 1)[k] as int == x;
                    if k < j {
                        assert(rs.take(j as int)[k] as int == x);
                    }
                    assert(x == rs[j as int] as int);
                }
                if x == rs[j as int] as int && x != m {
                    assert(rs.take(j + 1)[j as int] as int == x);
                }
            }
        }
        j += 1;
    }
    assert(rs.take(rs.len() as int) =~= rs);
    min_root
}

/// Along a path of foreground pixels the first pass found one representative.
proof fn lemma_path_same_root(
    mask: Map<(usize, usize), bool>,
    labels: Map<(usize, usize), u32>,
    parent: Seq<u32>,
    pos: (usize, usize),
    path: Seq<(usize, usize)>,
)
    requires
        provisional(mask, labels, parent, pos),
        forall|p: (usize, usize)| #[trigger] mask.dom().contains(p) ==> raster_before(p, pos),
        is_path(mask, path),
    ensures
        root(parent, labels[path[0]] as int) == root(parent, labels[path.last()] as int),
    decreases path.len(),
{
    reveal(provisional);
    if path.len() > 1 {
        let shorter = path.drop_last();
        assert(is_path(mask, shorter)) by {
            assert forall|i: int| 0 <= i < shorter.len() implies foreground(mask, #[trigger] shorter[i]) by {
                assert(shorter[i] == path[i]);
            }
            assert forall|i: int| 0 <= i < shorter.len() - 1 implies adjacent(#[trigger] shorter[i], shorter[i + 1]) by {
                assert(shorter[i] == path[i]);
                assert(shorter[i + 1] == path[i + 1]);
            }
        }
        lemma_path_same_root(mask, labels, parent, pos, shorter);
        let a = path[path.len() - 2];
        let b = path.last();
        assert(adjacent(a, b));
        assert(foreground(mask, a) && foreground(mask, b));
        assert(seen_fg(mask, pos, a) && seen_fg(mask, pos, b));
        assert(labels[a] == labels[a] && labels[b] == labels[b]);
        assert(root(parent, labels[a] as int) == root(parent, labels[b] as int));
    }
}

/// Some pixel that the scan has passed carries label `v`.
pub open spec fn label_taken(
    mask: Map<(usize, usize), bool>,
    current: Map<(usize, usize), u32>,
    pos: (usize, usize),
    v: u32,
) -> bool {
    exists|q: (usize, usize)| #![trigger current[q]] seen_fg(mask, pos, q) && current[q] == v
}

/// State of the relabeling pass once every pixel before `pos` carries its
/// final label: each class of the first pass maps to one compact label, in
/// the order in which the scan meets the classes.
pub open spec fn relabeled(
    mask: Map<(usize, usize), bool>,
    first: Map<(usize, usize), u32>,
    parent: Seq<u32>,
    current: Map<(usize, usize), u32>,
    remap: Map<u32, u32>,
    next: u32,
    pos: (usize, usize),
) -> bool {
    &&& current.dom() == mask.dom()
    &&& first.dom() == mask.dom()
    &&& forall|x: (usize, usize)| #[trigger] mask.dom().contains(x) ==> (first[x] == 0 <==> !mask[x])
    &&& next >= 1
    &&& forall|p: (usize, usize)|
        #[trigger] current.dom().contains(p) ==> current[p] == if raster_before(p, pos) && first[p] != 0 {
            remap[root(parent, first[p] as int) as u32]
        } else {
            first[p]
        }
    &&& forall|q: (usize, usize)|
        #![trigger first[q]]
        seen_fg(mask, pos, q) ==> remap.dom().contains(root(parent, first[q] as int) as u32)
    &&& forall|a: u32| #[trigger] remap.dom().contains(a) ==> 1 <= remap[a] < next
    &&& forall|a: u32, b: u32|
        #![trigger remap[a], remap[b]]
        remap.dom().contains(a) && remap.dom().contains(b) && remap[a] == remap[b] ==> a == b
    &&& forall|v: u32| 1 <= v < next ==> #[trigger] label_taken(mask, current, pos, v)
    &&& forall|p: (usize, usize)|
        #![trigger current[p]]
        seen_fg(mask, pos, p) && current[p] > 1 ==> exists|q: (usize, usize)|
            #![trigger current[q]]
            mask.dom().contains(q) && raster_before(q, p) && current[q] == current[p] - 1
}

proof fn lemma_relabel_moves(
    mask: Map<(usize, usize), bool>,
    first: Map<(usize, usize), u32>,
    parent: Seq<u32>,
    current: Map<(usize, usize), u32>,
    remap: Map<u32, u32>,
    next: u32,
    pos1: (usize, usize),
    pos2: (usize, usize),
)
    requires
        relabeled(mask, first, parent, current, remap, next, pos1),
        forall|p: (usize, usize)| #[trigger] mask.dom().contains(p) ==> (raster_before(p, pos1) <==> raster_before(p, pos2)),
    ensures
        relabeled(mask, first, parent, current, remap, next, pos2),
{
    assert forall|p: (usize, usize)| #[trigger] current.dom().contains(p) implies current[p] == if raster_before(p, pos2) && first[p] != 0 {
        remap[root(parent, first[p] as int) as u32]
    } else {
        first[p]
    } by {
        assert(mask.dom().contains(p));
    }
    assert forall|v: u32| 1 <= v < next implies #[trigger] label_taken(mask, current, pos2, v) by {
        assert(label_taken(mask, current, pos1, v));
        let q = choose|q: (usize, usize)| #![trigger current[q]] seen_fg(mask, pos1, q) && current[q] == v;
        assert(seen_fg(mask, pos2, q));
    }
}

/// The relabeling pass passes over a pixel that carries no provisional label.
proof fn lemma_relabel_skip(
    mask: Map<(usize, usize), bool>,
    first: Map<(usize, usize), u32>,
    parent: Seq<u32>,
    current: Map<(usize, usize), u32>,
    remap: Map<u32, u32>,
    next: u32,
    p: (usize, usize),
    next_pos: (usize, usize),
)
    requires
        relabeled(mask, first, parent, current, remap, next, p),
        mask.dom().contains(p),
        !mask[p],
        first[p] == 0,
        forall|q: (usize, usize)| #[trigger] mask.dom().contains(q) ==> (raster_before(q, next_pos) <==> (raster_before(q, p) || q == p)),
    ensures
        relabeled(mask, first, parent, current, remap, next, next_pos),
{
    assert forall|v: u32| 1 <= v < next implies #[trigger] label_taken(mask, current, next_pos, v) by {
        assert(label_taken(mask, current, p, v));
        let q = choose|q: (usize, usize)| #![trigger current[q]] seen_fg(mask, p, q) && current[q] == v;
        assert(seen_fg(mask, next_pos, q));
    }
    assert forall|x: (usize, usize)|
        #![trigger current[x]]
        seen_fg(mask, next_pos, x) && current[x] > 1 implies exists|q: (usize, usize)|
            #![trigger current[q]]
            mask.dom().contains(q) && raster_before(q, x) && current[q] == current[x] - 1 by {
        assert(seen_fg(mask, p, x));
    }
    assert forall|q: (usize, usize)|
        #![trigger first[q]]
        seen_fg(mask, next_pos, q) implies remap.dom().contains(root(parent, first[q] as int) as u32) by {
        assert(seen_fg(mask, p, q));
    }
}

/// The relabeling pass gives the pixel `p` the compact label `v` of its class,
/// either one already handed out (`v < next` and `next2 == next`) or the next
/// fresh one (`v == next` and `next2 == next + 1`).
proof fn lemma_relabel_assign(
    mask: Map<(usize, usize), bool>,
    first: Map<(usize, usize), u32>,
    parent: Seq<u32>,
    current: Map<(usize, usize), u32>,
    remap: Map<u32, u32>,
    remap2: Map<u32, u32>,
    next: u32,
    next2: u32,
    p: (usize, usize),
    next_pos: (usize, usize),
    rho: u32,
    v: u32,
)
    requires
        relabeled(mask, first, parent, current, remap, next, p),
        foreground(mask, p),
        first[p] != 0,
        rho as int == root(parent, first[p] as int),
        forall|q: (usize, usize)| #[trigger] mask.dom().contains(q) ==> (raster_before(q, next_pos) <==> (raster_before(q, p) || q == p)),
        (remap.dom().contains(rho) && v == remap[rho] && remap2 == remap && next2 == next) || (!remap.dom().contains(rho)
            && v == next && remap2 == remap.insert(rho, next) && next2 == next + 1),
    ensures
        relabeled(mask, first, parent, current.insert(p, v), remap2, next2, next_pos),
{
    let cur2 = current.insert(p, v);
    assert(cur2.dom() =~= mask.dom());
    assert(remap2.dom().contains(rho) && remap2[rho] == v);
    assert(1 <= v < next2);
    assert forall|x: (usize, usize)| #[trigger] cur2.dom().contains(x) implies cur2[x] == if raster_before(x, next_pos) && first[x] != 0 {
        remap2[root(parent, first[x] as int) as u32]
    } else {
        first[x]
    } by {
        if x != p {
            assert(current.dom().contains(x));
            if raster_before(x, p) && first[x] != 0 {
                assert(mask[x]);
                assert(seen_fg(mask, p, x));
                assert(remap.dom().contains(root(parent, first[x] as int) as u32));
            }
        }
    }
    assert forall|q: (usize, usize)|
        #![trigger first[q]]
        seen_fg(mask, next_pos, q) implies remap2.dom().contains(root(parent, first[q] as int) as u32) by {
        if q != p {
            assert(seen_fg(mask, p, q));
        }
    }
    assert forall|a: u32| #[trigger] remap2.dom().contains(a) implies 1 <= remap2[a] < next2 by {
        if a != rho {
            assert(remap.dom().contains(a));
        }
    }
    assert forall|a: u32, b: u32|
        #![trigger remap2[a], remap2[b]]
        remap2.dom().contains(a) && remap2.dom().contains(b) && remap2[a] == remap2[b] implies a == b by {
        if a != rho && b != rho {
            assert(remap[a] == remap[b]);
        } else if a == rho && b != rho {
            assert(remap.dom().contains(b));
            if !remap.dom().contains(rho) {
                assert(remap[b] < next);
            } else {
                assert(remap[rho] == remap[b]);
            }
        } else if b == rho && a != rho {
            assert(remap.dom().contains(a));
            if !remap.dom().contains(rho) {
                assert(remap[a] < next);
            } else {
                assert(remap[rho] == remap[a]);
            }
        }
    }
    assert forall|w: u32| 1 <= w < next2 implies #[trigger] label_taken(mask, cur2, next_pos, w) by {
        if w < next {
            assert(label_taken(mask, current, p, w));
            let q = choose|q: (usize, usize)| #![trigger current[q]] seen_fg(mask, p, q) && current[q] == w;
            assert(seen_fg(mask, next_pos, q));
            assert(q != p);
            assert(cur2[q] == w);
        } else {
            assert(w == v);
            assert(cur2[p] == w);
            assert(seen_fg(mask, next_pos, p));
        }
    }
    assert forall|x: (usize, usize)|
        #![trigger cur2[x]]
        seen_fg(mask, next_pos, x) && cur2[x] > 1 implies exists|q: (usize, usize)|
            #![trigger cur2[q]]
            mask.dom().contains(q) && raster_before(q, x) && cur2[q] == cur2[x] - 1 by {
        if x == p {
            let w = (v - 1) as u32;
            assert(1 <= w < next);
            assert(label_taken(mask, current, p, w));
            let q = choose|q: (usize, usize)| #![trigger current[q]] seen_fg(mask, p, q) && current[q] == w;
            assert(q != p);
            assert(cur2[q] == w);
        } else {
            assert(seen_fg(mask, p, x));
            assert(cur2[x] == current[x]);
            let q = choose|q: (usize, usize)|
                #![trigger current[q]]
                mask.dom().contains(q) && raster_before(q, x) && current[q] == current[x] - 1;
            assert(q != p);
            assert(cur2[q] == current[q]);
        }
    }
}

/// The end of the relabeling pass yields a component labeling.
proof fn lemma_relabel_done(
    mask: Map<(usize, usize), bool>,
    first: Map<(usize, usize), u32>,
    parent: Seq<u32>,
    current: Map<(usize, usize), u32>,
    remap: Map<u32, u32>,
    next: u32,
    pos: (usize, usize),
)
    requires
        provisional(mask, first, parent, pos),
        relabeled(mask, first, parent, current, remap, next, pos),
        forall|p: (usize, usize)| #[trigger] mask.dom().contains(p) ==> raster_before(p, pos),
    ensures
        is_component_labeling(mask, current),
{
    reveal(provisional);
    assert forall|p: (usize, usize)| #[trigger] mask.dom().contains(p) implies (current[p] == 0 <==> !mask[p]) by {
        assert(first.dom().contains(p));
        assert(current.dom().contains(p));
        if mask[p] {
            assert(seen_fg(mask, pos, p));
            assert(remap.dom().contains(root(parent, first[p] as int) as u32));
        }
    }
    assert forall|p: (usize, usize), q: (usize, usize)|
        #![trigger current[p], current[q]]
        foreground(mask, p) && foreground(mask, q) implies (current[p] == current[q] <==> connected(mask, p, q)) by {
        assert(first.dom().contains(p) && first.dom().contains(q));
        assert(current.dom().contains(p) && current.dom().contains(q));
        assert(seen_fg(mask, pos, p) && seen_fg(mask, pos, q));
        let rp = root(parent, first[p] as int);
        let rq = root(parent, first[q] as int);
        lemma_root_is_root(parent, first[p] as int);
        lemma_root_is_root(parent, first[q] as int);
        assert(remap.dom().contains(rp as u32) && remap.dom().contains(rq as u32));
        if current[p] == current[q] {
            assert(remap[rp as u32] == remap[rq as u32]);
            assert(rp as u32 == rq as u32);
            assert(first[p] == first[p] && first[q] == first[q]);
            assert(connected(mask, p, q));
        }
        if connected(mask, p, q) {
            let path = choose|path: Seq<(usize, usize)>| #[trigger] is_path(mask, path) && path[0] == p && path.last() == q;
            lemma_path_same_root(mask, first, parent, pos, path);
        }
    }
    assert forall|p: (usize, usize)|
        #![trigger current[p]]
        foreground(mask, p) && current[p] > 1 implies exists|q: (usize, usize)|
            #![trigger current[q]]
            mask.dom().contains(q) && raster_before(q, p) && current[q] == current[p] - 1 by {
        assert(seen_fg(mask, pos, p));
    }
}

proof fn lemma_provisional_parent(
    mask: Map<(usize, usize), bool>,
    labels: Map<(usize, usize), u32>,
    parent: Seq<u32>,
    pos: (usize, usize),
)
    requires
        provisional(mask, labels, parent, pos),
    ensures
        parent.len() >= 1,
        parent[0] == 0,
        points_down(parent),
        keeps_background_apart(parent),
        labels.dom() == mask.dom(),
{
    reveal(provisional);
}

proof fn lemma_fresh_pixel(
    mask: Map<(usize, usize), bool>,
    labels: Map<(usize, usize), u32>,
    parent: Seq<u32>,
    nrows: usize,
    ncols: usize,
    r: usize,
    c: usize,
)
    requires
        provisional(mask, labels, parent, (r, c)),
        covers_shape(mask, (nrows, ncols)),
        r < nrows,
        c < ncols,
        mask[(r, c)],
        parent.len() < u32::MAX,
        neighbour_labels(labels, r, c, ncols).len() == 0,
    ensures
        provisional(mask, labels.insert((r, c), parent.len() as u32), parent.push(parent.len() as u32), (r, (c + 1) as usize)),
{
    lemma_neighbour_labels(mask, labels, parent, nrows, ncols, r, c);
    let nbrs = neighbour_labels(labels, r, c, ncols);
    assert forall|q: (usize, usize)| earlier_fg_neighbour(mask, (r, c), q) implies #[trigger] labels[q] == 0 by {
        assert(exists|i: int| 0 <= i < nbrs.len() && #[trigger] nbrs[i] == labels[q]);
    }
    lemma_fresh_label(mask, labels, parent, (r, c), (r, (c + 1) as usize));
}

#[verifier::spinoff_prover]
proof fn lemma_merge_pixel(
    mask: Map<(usize, usize), bool>,
    labels: Map<(usize, usize), u32>,
    parent0: Seq<u32>,
    parent: Seq<u32>,
    nrows: usize,
    ncols: usize,
    r: usize,
    c: usize,
    m: u32,
)
    requires
        provisional(mask, labels, parent0, (r, c)),
        covers_shape(mask, (nrows, ncols)),
        r < nrows,
        c < ncols,
        mask[(r, c)],
        parent.len() == parent0.len(),
        parent[0] == 0,
        points_down(parent),
        keeps_background_apart(parent),
        merged(roots_of(parent0, neighbour_labels(labels, r, c, ncols)), m as int),
        forall|l: int|
            0 <= l < parent0.len() ==> #[trigger] root(parent, l) == if merged(
                roots_of(parent0, neighbour_labels(labels, r, c, ncols)),
                root(parent0, l),
            ) {
                m as int
            } else {
                root(parent0, l)
            },
    ensures
        provisional(mask, labels.insert((r, c), m), parent, (r, (c + 1) as usize)),
{
    lemma_neighbour_labels(mask, labels, parent0, nrows, ncols, r, c);
    lemma_provisional_parent(mask, labels, parent0, (r, c));
    let nbrs = neighbour_labels(labels, r, c, ncols);
    let rs = roots_of(parent0, nbrs);
    lemma_roots_of(parent0, nbrs);
    assert(merge_step(mask, labels, parent0, parent, (r, c), (r, (c + 1) as usize), nbrs, rs, m)) by {
        reveal(merge_step);
    }
    lemma_merge(mask, labels, parent0, parent, (r, c), (r, (c + 1) as usize), nbrs, rs, m);
}

/// First-pass work on one pixel: a foreground pixel with no labelled earlier
/// neighbour gets a fresh provisional label; otherwise it takes the smallest
/// representative of its neighbours, whose classes are merged.
fn first_pass_pixel(
    mask: &MaskGrid,
    labels: &mut LabelGrid,
    parent: &mut Vec<u32>,
    next_label: &mut u32,
    r: usize,
    c: usize,
)
    requires
        covers_shape(mask_cells(*mask), mask_shape(*mask)),
        label_shape(*old(labels)) == mask_shape(*mask),
        r < mask_shape(*mask).0,
        c < mask_shape(*mask).1,
        provisional(mask_cells(*mask), label_cells(*old(labels)), old(parent)@, (r, c)),
        *old(next_label) as int == old(parent)@.len(),
        *old(next_label) < u32::MAX,
    ensures
        label_shape(*final(labels)) == mask_shape(*mask),
        provisional(mask_cells(*mask), label_cells(*final(labels)), final(parent)@, (r, (c + 1) as usize)),
        *final(next_label) as int == final(parent)@.len(),
        *final(next_label) <= *old(next_label) + 1,
{
    let ghost mk = mask_cells(*mask);
    let ghost nrows = mask_shape(*mask).0;
    let ncols = mask.dim().1;
    proof {
        lemma_provisional_parent(mk, label_cells(*labels), parent@, (r, c));
    }
    if mask.get(r, c) {
        // 8-connected neighbours that have already been visited.
        let mut nbr_labels: Vec<u32> = Vec::with_capacity(4);
        if r > 0 {
            push_if(labels, r - 1, c, &mut nbr_labels);
            if c > 0 {
                push_if(labels, r - 1, c - 1, &mut nbr_labels);
            }
            if c + 1 < ncols {
                push_if(labels, r - 1, c + 1, &mut nbr_labels);
            }
        }
        if c > 0 {
            push_if(labels, r, c - 1, &mut nbr_labels);
        }
        let ghost l0 = label_cells(*labels);
        let ghost p0 = parent@;
        proof {
            assert(nbr_labels@ =~= neighbour_labels(l0, r, c, ncols));
            lemma_neighbour_labels(mk, l0, p0, nrows, ncols, r, c);
        }
        if nbr_labels.len() == 0 {
            proof {
                lemma_fresh_pixel(mk, l0, p0, nrows, ncols, r, c);
            }
            labels.set(r, c, *next_label);
            parent.push(*next_label);
            *next_label += 1;
        } else {
            // Take the minimum representative and merge the others into it.
            let min_root = merge_neighbours(parent, &nbr_labels);
            labels.set(r, c, min_root);
            proof {
                lemma_merge_pixel(mk, l0, p0, parent@, nrows, ncols, r, c, min_root);
            }
        }
    } else {
        proof {
            lemma_skip_background(mk, label_cells(*labels), parent@, (r, c), (r, (c + 1) as usize));
        }
    }
}

/// Two-pass connected-component labeling with 8-connectivity and union-find:
/// the first pass hands out provisional labels and records which of them
/// touch, the second numbers the resulting regions 1, 2, 3, ... in raster
/// order of their first pixel. Background pixels keep label 0.
pub fn label_connected_components(mask: &MaskGrid) -> (labels: LabelGrid)
    requires
        (mask_shape(*mask).0 as int) * (mask_shape(*mask).1 as int) < u32::MAX,
    ensures
        label_shape(labels) == mask_shape(*mask),
        is_component_labeling(mask_cells(*mask), label_cells(labels)),
        label_cells(labels) == component_labels(mask_cells(*mask)),
{
    let (nrows, ncols) = mask.dim();
    let ghost mk = mask_cells(*mask);
    let mut labels = LabelGrid::zeros(nrows, ncols);
    // parent[0] = 0 (background sentinel)
    let mut parent: Vec<u32> = vec![0];
    let mut next_label: u32 = 1;
    let ghost mut seen: int = 0;
    proof {
        reveal(provisional);
        assert(label_cells(labels).dom() =~= mk.dom());
        assert(parent@.len() == 1 && parent@[0] == 0);
    }

    // First pass: assign provisional labels and record equivalences.
    let mut r: usize = 0;
    while r < nrows
        invariant
            mask_cells(*mask) == mk,
            mask_shape(*mask) == (nrows, ncols),
            covers_shape(mk, (nrows, ncols)),
            label_shape(labels) == (nrows, ncols),
            (nrows as int) * (ncols as int) < u32::MAX,
            r <= nrows,
            provisional(mk, label_cells(labels), parent@, (r, 0)),
            next_label as int == parent@.len(),
            seen == r as int * ncols as int,
            next_label as int <= seen + 1,
        decreases nrows - r,
    {
        let mut c: usize = 0;
        while c < ncols
            invariant
                mask_cells(*mask) == mk,
                mask_shape(*mask) == (nrows, ncols),
                covers_shape(mk, (nrows, ncols)),
                label_shape(labels) == (nrows, ncols),
                (nrows as int) * (ncols as int) < u32::MAX,
                r < nrows,
                c <= ncols,
                provisional(mk, label_cells(labels), parent@, (r, c)),
                next_label as int == parent@.len(),
                seen == r as int * ncols as int + c,
                next_label as int <= seen + 1,
            decreases ncols - c,
        {
            proof {
                assert((r as int) * (ncols as int) + c < (nrows as int) * (ncols as int)) by (nonlinear_arith)
                    requires r < nrows, c < ncols;
            }
            first_pass_pixel(mask, &mut labels, &mut parent, &mut next_label, r, c);
            proof {
                seen = seen + 1;
            }
            c += 1;
        }
        proof {
            lemma_provisional_moves(mk, label_cells(labels), parent@, (r, ncols), ((r + 1) as usize, 0usize));
            assert(seen == (r + 1) as int * ncols as int) by (nonlinear_arith)
                requires seen == r as int * ncols as int + ncols;
        }
        r += 1;
    }

    // Flatten all chains to their root.
    let ghost first = label_cells(labels);
    let ghost pfinal = parent@;
    let mut roots: Vec<u32> = Vec::new();
    let mut i: usize = 0;
    while i < parent.len()
        invariant
            parent@ == pfinal,
            points_down(pfinal),
            pfinal.len() <= u32::MAX,
            i <= pfinal.len(),
            roots@.len() == i,
            forall|k: int| 0 <= k < i ==> #[trigger] roots@[k] as int == root(pfinal, k),
        decreases pfinal.len() - i,
    {
        let rt = find(&parent, i as u32);
        roots.push(rt);
        i += 1;
    }

    // Sequential relabeling: root -> compact label, in raster order.
    let mut remap: HashMap<u32, u32> = HashMap::new();
    let mut next: u32 = 1;
    let ghost mut seen2: int = 0;
    proof {
        reveal(provisional);
        lemma_provisional_moves(mk, first, pfinal, (nrows, 0usize), (nrows, 0usize));
        assert forall|p: (usize, usize)| #[trigger] mk.dom().contains(p) implies raster_before(p, (nrows, 0usize)) by {}
        assert(relabeled(mk, first, pfinal, label_cells(labels), remap@, next, (0usize, 0usize)));
    }
    let mut r: usize = 0;
    while r < nrows
        invariant
            mask_cells(*mask) == mk,
            covers_shape(mk, (nrows, ncols)),
            label_shape(labels) == (nrows, ncols),
            (nrows as int) * (ncols as int) < u32::MAX,
            r <= nrows,
            provisional(mk, first, pfinal, (nrows, 0usize)),
            forall|p: (usize, usize)| #[trigger] mk.dom().contains(p) ==> raster_before(p, (nrows, 0usize)),
            roots@.len() == pfinal.len(),
            forall|k: int| 0 <= k < roots@.len() ==> #[trigger] roots@[k] as int == root(pfinal, k),
            relabeled(mk, first, pfinal, label_cells(labels), remap@, next, (r, 0usize)),
            seen2 == r as int * ncols as int,
            next as int <= seen2 + 1,
        decreases nrows - r,
    {
        let mut c: usize = 0;
        while c < ncols
            invariant
                mask_cells(*mask) == mk,
                covers_shape(mk, (nrows, ncols)),
                label_shape(labels) == (nrows, ncols),
                (nrows as int) * (ncols as int) < u32::MAX,
                r < nrows,
                c <= ncols,
                provisional(mk, first, pfinal, (nrows, 0usize)),
                forall|p: (usize, usize)| #[trigger] mk.dom().contains(p) ==> raster_before(p, (nrows, 0usize)),
                roots@.len() == pfinal.len(),
                forall|k: int| 0 <= k < roots@.len() ==> #[trigger] roots@[k] as int == root(pfinal, k),
                relabeled(mk, first, pfinal, label_cells(labels), remap@, next, (r, c)),
                seen2 == r as int * ncols as int + c,
                next as int <= seen2 + 1,
            decreases ncols - c,
        {
            proof {
                assert((r as int) * (ncols as int) + c < (nrows as int) * (ncols as int)) by (nonlinear_arith)
                    requires r < nrows, c < ncols;
            }
            let ghost pos = (r, c);
            let ghost next_pos = (r, (c + 1) as usize);
            proof {
                assert(mk.dom().contains(pos));
                assert(label_cells(labels).dom().contains(pos));
                assert(first.dom().contains(pos));
            }
            let l = labels.get(r, c);
            if l == 0 {
                proof {
                    assert(!mk[pos]);
                    lemma_relabel_skip(mk, first, pfinal, label_cells(labels), remap@, next, pos, next_pos);
                }
            } else {
                proof {
                    reveal(provisional);
                    assert(mk[pos]);
                    assert(1 <= first[pos] < pfinal.len());
                }
                let rt = roots[l as usize];
                let ghost cur = label_cells(labels);
                let ghost rm = remap@;
                let ghost nx = next;
                let new_l = match remap.get(&rt) {
                    Some(v) => *v,
                    None => {
                        let v = next;
                        remap.insert(rt, v);
                        next += 1;
                        v
                    },
                };
                labels.set(r, c, new_l);
                proof {
                    lemma_relabel_assign(mk, first, pfinal, cur, rm, remap@, nx, next, pos, next_pos, rt, new_l);
                }
            }
            proof {
                seen2 = seen2 + 1;
            }
            c += 1;
        }
        proof {
            lemma_relabel_moves(mk, first, pfinal, label_cells(labels), remap@, next, (r, ncols), ((r + 1) as usize, 0usize));
            assert(seen2 == (r + 1) as int * ncols as int) by (nonlinear_arith)
                requires seen2 == r as int * ncols as int + ncols;
        }
        r += 1;
    }
    proof {
        lemma_relabel_done(mk, first, pfinal, label_cells(labels), remap@, next, (nrows, 0usize));
        lemma_labeling_unique(mk, label_cells(labels), component_labels(mk));
    }
    labels
}

/// Going down from a label, every smaller positive label appears at or before
/// the pixel that carries it.
proof fn lemma_labels_below(
    mask: Map<(usize, usize), bool>,
    a: Map<(usize, usize), u32>,
    q: (usize, usize),
    x: u32,
)
    requires
        is_component_labeling(mask, a),
        foreground(mask, q),
        1 <= x <= a[q],
    ensures
        exists|q2: (usize, usize)| #![trigger a[q2]] foreground(mask, q2) && (q2 == q || raster_before(q2, q)) && a[q2] == x,
    decreases a[q] - x,
{
    if a[q] == x {
        assert(foreground(mask, q) && a[q] == x);
    } else {
        let q1 = choose|q1: (usize, usize)| #![trigger a[q1]] mask.dom().contains(q1) && raster_before(q1, q) && a[q1] == a[q] - 1;
        assert(a[q1] != 0);
        assert(mask[q1]);
        lemma_labels_below(mask, a, q1, x);
        let q2 = choose|q2: (usize, usize)| #![trigger a[q2]] foreground(mask, q2) && (q2 == q1 || raster_before(q2, q1)) && a[q2] == x;
        assert(raster_before(q2, q));
    }
}

/// A component labeling agrees with any other at `p` once they agree on the
/// pixels before `p`.
proof fn lemma_labeling_unique_at(
    mask: Map<(usize, usize), bool>,
    a: Map<(usize, usize), u32>,
    b: Map<(usize, usize), u32>,
    p: (usize, usize),
)
    requires
        is_component_labeling(mask, a),
        is_component_labeling(mask, b),
        mask.dom().contains(p),
    ensures
        a[p] == b[p],
    decreases p.0, p.1,
{
    assert forall|q: (usize, usize)| mask.dom().contains(q) && raster_before(q, p) implies #[trigger] a[q] == b[q] by {
        lemma_labeling_unique_at(mask, a, b, q);
    }
    if !mask[p] {
        assert(a[p] == 0 && b[p] == 0);
    } else if exists|q: (usize, usize)| #![trigger a[q]] foreground(mask, q) && raster_before(q, p) && connected(mask, q, p) {
        let q = choose|q: (usize, usize)| #![trigger a[q]] foreground(mask, q) && raster_before(q, p) && connected(mask, q, p);
        assert(a[q] == b[q]);
        assert(a[q] == a[p]);
        assert(b[q] == b[p]);
    } else {
        let x = a[p];
        let y = b[p];
        assert(x >= 1 && y >= 1);
        if x < y {
            let q1 = choose|q1: (usize, usize)| #![trigger b[q1]] mask.dom().contains(q1) && raster_before(q1, p) && b[q1] == b[p] - 1;
            assert(b[q1] != 0);
            assert(foreground(mask, q1));
            assert(a[q1] == b[q1]);
            lemma_labels_below(mask, a, q1, x);
            let q2 = choose|q2: (usize, usize)| #![trigger a[q2]] foreground(mask, q2) && (q2 == q1 || raster_before(q2, q1)) && a[q2] == x;
            assert(raster_before(q2, p));
            assert(a[q2] == a[p]);
            assert(connected(mask, q2, p));
        } else if y < x {
            let q1 = choose|q1: (usize, usize)| #![trigger a[q1]] mask.dom().contains(q1) && raster_before(q1, p) && a[q1] == a[p] - 1;
            assert(a[q1] != 0);
            assert(foreground(mask, q1));
            assert(a[q1] == b[q1]);
            lemma_labels_below(mask, b, q1, y);
            let q2 = choose|q2: (usize, usize)| #![trigger b[q2]] foreground(mask, q2) && (q2 == q1 || raster_before(q2, q1)) && b[q2] == y;
            assert(raster_before(q2, p));
            assert(b[q2] == b[p]);
            assert(connected(mask, q2, p));
        }
    }
}

/// A mask has only one component labeling: the regions and their numbering
/// in raster order of first pixels leave no choice.
pub proof fn lemma_labeling_unique(
    mask: Map<(usize, usize), bool>,
    a: Map<(usize, usize), u32>,
    b: Map<(usize, usize), u32>,
)
    requires
        is_component_labeling(mask, a),
        is_component_labeling(mask, b),
    ensures
        a == b,
{
    assert forall|p: (usize, usize)| #[trigger] a.dom().contains(p) implies a[p] == b[p] by {
        lemma_labeling_unique_at(mask, a, b, p);
    }
    assert(a =~= b);
}

} // verus!
