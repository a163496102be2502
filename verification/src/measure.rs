//! The integer side of photometric measurement: the pixels of each detection,
//! the quality flags, and the window scanned for the Kron aperture.
use std::collections::HashMap;
use vstd::prelude::*;

use crate::connectivity::raster_before;
use crate::grid::{covers_shape, in_shape, label_cells, label_shape, LabelGrid};

verus! {

broadcast use vstd::std_specs::hash::group_hash_axioms;

/// The bounding box touches the image border.
pub const FLAG_EDGE: u16 = 0x01;

/// The peak pixel is above the saturation limit.
pub const FLAG_SATURATED: u16 = 0x04;

/// The bounding box `[row_min, row_max, col_min, col_max]` touches the border
/// of an image of `nrows` x `ncols` pixels.
pub open spec fn touches_edge(bbox: [usize; 4], nrows: usize, ncols: usize) -> bool {
    bbox[0] == 0 || bbox[1] + 1 >= nrows || bbox[2] == 0 || bbox[3] + 1 >= ncols
}

/// The quality flags that the bounding box alone decides: `FLAG_EDGE` when it
/// touches the image border.
pub fn edge_flags(bbox: &[usize; 4], nrows: usize, ncols: usize) -> (flags: u16)
    requires
        bbox[1] < usize::MAX,
        bbox[3] < usize::MAX,
    ensures
        flags == if touches_edge(*bbox, nrows, ncols) { FLAG_EDGE } else { 0 },
        flags == 0 || flags == FLAG_EDGE,
        // Each border on its own sets the flag: the first and last row, the
        // first and last column.
        bbox[0] == 0 ==> flags == FLAG_EDGE,
        bbox[1] + 1 >= nrows ==> flags == FLAG_EDGE,
        bbox[2] == 0 ==> flags == FLAG_EDGE,
        bbox[3] + 1 >= ncols ==> flags == FLAG_EDGE,
        // A box strictly inside the image is not flagged.
        0 < bbox[0] && bbox[1] + 1 < nrows && 0 < bbox[2] && bbox[3] + 1 < ncols ==> flags == 0,
{
    let mut flags: u16 = 0;
    if bbox[0] == 0 || bbox[1] + 1 >= nrows || bbox[2] == 0 || bbox[3] + 1 >= ncols {
        flags = flags | FLAG_EDGE;
        proof {
            assert(0u16 | 0x01u16 == 0x01u16) by (bit_vector);
        }
    }
    flags
}

/// The rows `r0..r1` and columns `c0..c1` of the bounding box widened by
/// `margin` on every side and cut to the image.
pub open spec fn aperture_window_of(bbox: [usize; 4], margin: usize, nrows: usize, ncols: usize) -> (
    usize,
    usize,
    usize,
    usize,
) {
    (
        if bbox[0] >= margin { (bbox[0] - margin) as usize } else { 0 },
        if bbox[1] + margin + 1 < nrows { (bbox[1] + margin + 1) as usize } else { nrows },
        if bbox[2] >= margin { (bbox[2] - margin) as usize } else { 0 },
        if bbox[3] + margin + 1 < ncols { (bbox[3] + margin + 1) as usize } else { ncols },
    )
}

/// The window of pixels that the Kron aperture sum visits around a detection.
pub fn aperture_window(bbox: &[usize; 4], margin: usize, nrows: usize, ncols: usize) -> (w: (usize, usize, usize, usize))
    requires
        bbox[1] + margin + 1 <= usize::MAX,
        bbox[3] + margin + 1 <= usize::MAX,
    ensures
        w == aperture_window_of(*bbox, margin, nrows, ncols),
        // The window lies inside the image.
        w.1 <= nrows,
        w.3 <= ncols,
        // A row (column) is in the window exactly when it is in the image and
        // within `margin` of the box.
        forall|r: int|
            #[trigger] between(w.0 as int, r, w.1 as int) <==> (0 <= r < nrows && bbox[0] <= r + margin && r <= bbox[1] + margin),
        forall|c: int|
            #[trigger] between(w.2 as int, c, w.3 as int) <==> (0 <= c < ncols && bbox[2] <= c + margin && c <= bbox[3] + margin),
{
    let r0 = bbox[0].saturating_sub(margin);
    let r1_raw = bbox[1] + margin + 1;
    let r1 = if r1_raw < nrows { r1_raw } else { nrows };
    let c0 = bbox[2].saturating_sub(margin);
    let c1_raw = bbox[3] + margin + 1;
    let c1 = if c1_raw < ncols { c1_raw } else { ncols };
    (r0, r1, c0, c1)
}

/// `lo <= x < hi`.
pub open spec fn between(lo: int, x: int, hi: int) -> bool {
    lo <= x < hi
}

/// A pixel carrying label `l` before `(r, c)` is among `pixels_of` there.
pub(crate) proof fn lemma_pixels_of_contains(
    labels: Map<(usize, usize), u32>,
    l: u32,
    ncols: nat,
    r: nat,
    c: nat,
    p: (usize, usize),
)
    requires
        labels[p] == l,
        p.1 < ncols,
        c <= ncols,
        r <= usize::MAX,
        ncols <= usize::MAX,
        p.0 < r || (p.0 == r && p.1 < c),
    ensures
        pixels_of(labels, l, ncols, r, c).contains(p),
    decreases r, c,
{
    if c == 0 {
        lemma_pixels_of_contains(labels, l, ncols, (r - 1) as nat, ncols, p);
    } else {
        let q = (r as usize, (c - 1) as usize);
        let prev = pixels_of(labels, l, ncols, r, (c - 1) as nat);
        if p == q {
            assert(pixels_of(labels, l, ncols, r, c) == prev.push(p));
            assert(prev.push(p)[prev.len() as int] == p);
        } else {
            lemma_pixels_of_contains(labels, l, ncols, r, (c - 1) as nat, p);
            let k = choose|k: int| 0 <= k < prev.len() && prev[k] == p;
            if labels[q] == l {
                assert(prev.push(q)[k] == p);
            }
        }
    }
}

/// The pixels that `pixels_of` lists come before `(r, c)`, in raster order.
proof fn lemma_pixels_of_order(labels: Map<(usize, usize), u32>, l: u32, ncols: nat, r: nat, c: nat)
    requires
        c <= ncols,
        r <= usize::MAX,
        ncols <= usize::MAX,
    ensures
        forall|i: int|
            0 <= i < pixels_of(labels, l, ncols, r, c).len() ==> (#[trigger] pixels_of(labels, l, ncols, r, c)[i]).0 < r
                || (pixels_of(labels, l, ncols, r, c)[i].0 == r && pixels_of(labels, l, ncols, r, c)[i].1 < c),
        forall|i: int, j: int|
            0 <= i < j < pixels_of(labels, l, ncols, r, c).len() ==> raster_before(
                #[trigger] pixels_of(labels, l, ncols, r, c)[i],
                #[trigger] pixels_of(labels, l, ncols, r, c)[j],
            ),
    decreases r, c,
{
    if c == 0 {
        if r > 0 {
            lemma_pixels_of_order(labels, l, ncols, (r - 1) as nat, ncols);
            let px = pixels_of(labels, l, ncols, r, c);
            let prev = pixels_of(labels, l, ncols, (r - 1) as nat, ncols);
            assert(px == prev);
            assert forall|i: int| 0 <= i < px.len() implies (#[trigger] px[i]).0 < r || (px[i].0 == r && px[i].1 < c) by {
                assert(px[i] == prev[i]);
            }
        }
    } else {
        lemma_pixels_of_order(labels, l, ncols, r, (c - 1) as nat);
        let prev = pixels_of(labels, l, ncols, r, (c - 1) as nat);
        let px = pixels_of(labels, l, ncols, r, c);
        let p = (r as usize, (c - 1) as usize);
        if labels[p] == l {
            assert(px == prev.push(p));
            assert forall|i: int, j: int| 0 <= i < j < px.len() implies raster_before(#[trigger] px[i], #[trigger] px[j]) by {
                if j < prev.len() {
                    assert(px[i] == prev[i] && px[j] == prev[j]);
                } else {
                    assert(px[i] == prev[i]);
                }
            }
            assert forall|i: int| 0 <= i < px.len() implies (#[trigger] px[i]).0 < r || (px[i].0 == r && px[i].1 < c) by {
                if i < prev.len() {
                    assert(px[i] == prev[i]);
                }
            }
        } else {
            assert(px == prev);
            assert forall|i: int| 0 <= i < px.len() implies (#[trigger] px[i]).0 < r || (px[i].0 == r && px[i].1 < c) by {
                assert(px[i] == prev[i]);
            }
        }
    }
}

/// The pixels before `(r, c)` that `pixels_of` lists carry label `l` and lie
/// in columns `0..ncols`.
proof fn lemma_pixels_of_members(labels: Map<(usize, usize), u32>, l: u32, ncols: nat, r: nat, c: nat)
    requires
        c <= ncols,
        r <= usize::MAX,
        ncols <= usize::MAX,
    ensures
        forall|i: int|
            0 <= i < pixels_of(labels, l, ncols, r, c).len() ==> labels[#[trigger] pixels_of(labels, l, ncols, r, c)[i]]
                == l && (pixels_of(labels, l, ncols, r, c)[i].1 as int) < ncols,
    decreases r, c,
{
    if c == 0 {
        if r > 0 {
            lemma_pixels_of_members(labels, l, ncols, (r - 1) as nat, ncols);
            assert(pixels_of(labels, l, ncols, r, c) == pixels_of(labels, l, ncols, (r - 1) as nat, ncols));
        }
    } else {
        lemma_pixels_of_members(labels, l, ncols, r, (c - 1) as nat);
        let prev = pixels_of(labels, l, ncols, r, (c - 1) as nat);
        let px = pixels_of(labels, l, ncols, r, c);
        let p = (r as usize, (c - 1) as usize);
        if labels[p] == l {
            assert(px == prev.push(p));
            assert forall|i: int| 0 <= i < px.len() implies labels[#[trigger] px[i]] == l && (px[i].1 as int) < ncols by {
                if i < prev.len() {
                    assert(px[i] == prev[i]);
                }
            }
        } else {
            assert(px == prev);
        }
    }
}

/// `pixels_of` over a whole image of `nrows` x `ncols` pixels lists exactly
/// the pixels of the image that carry label `l`, each once, in raster order.
pub proof fn lemma_pixels_of_exact(labels: Map<(usize, usize), u32>, l: u32, ncols: nat, nrows: nat, q: (usize, usize))
    requires
        ncols <= usize::MAX,
        nrows <= usize::MAX,
    ensures
        pixels_of(labels, l, ncols, nrows, 0).contains(q) <==> ((q.0 as int) < nrows && (q.1 as int) < ncols
            && labels[q] == l),
        forall|i: int, j: int|
            0 <= i < j < pixels_of(labels, l, ncols, nrows, 0).len() ==> raster_before(
                #[trigger] pixels_of(labels, l, ncols, nrows, 0)[i],
                #[trigger] pixels_of(labels, l, ncols, nrows, 0)[j],
            ),
{
    let px = pixels_of(labels, l, ncols, nrows, 0);
    lemma_pixels_of_members(labels, l, ncols, nrows, 0);
    lemma_pixels_of_order(labels, l, ncols, nrows, 0);
    if (q.0 as int) < nrows && (q.1 as int) < ncols && labels[q] == l {
        lemma_pixels_of_contains(labels, l, ncols, nrows, 0, q);
    }
    if px.contains(q) {
        let i = choose|i: int| 0 <= i < px.len() && px[i] == q;
        assert(labels[px[i]] == l);
    }
}

/// Whether a box touches the border does not depend on which axis is called
/// rows: transposing the box and the image gives the same answer.
pub proof fn lemma_touches_edge_transpose(bbox: [usize; 4], nrows: usize, ncols: usize)
    ensures
        touches_edge(bbox, nrows, ncols) == touches_edge([bbox[2], bbox[3], bbox[0], bbox[1]], ncols, nrows),
{
}

/// The window of a box widened by `margin` is, row by row and column by
/// column, the part of the image within `margin` of the box.
pub proof fn lemma_aperture_window_rows(bbox: [usize; 4], margin: usize, nrows: usize, ncols: usize, r: int, c: int)
    ensures
        ({
            let w = aperture_window_of(bbox, margin, nrows, ncols);
            &&& w.1 <= nrows && w.3 <= ncols
            &&& (w.0 <= r < w.1) <==> (0 <= r < nrows && bbox[0] <= r + margin && r <= bbox[1] + margin)
            &&& (w.2 <= c < w.3) <==> (0 <= c < ncols && bbox[2] <= c + margin && c <= bbox[3] + margin)
        }),
{
}

/// The pixels carrying label `l` among those before `(r, c)`, in raster order.
pub open spec fn pixels_of(labels: Map<(usize, usize), u32>, l: u32, ncols: nat, r: nat, c: nat) -> Seq<(usize, usize)>
    decreases r, c,
{
    if c == 0 {
        if r == 0 {
            seq![]
        } else {
            pixels_of(labels, l, ncols, (r - 1) as nat, ncols)
        }
    } else {
        let prev = pixels_of(labels, l, ncols, r, (c - 1) as nat);
        let p = (r as usize, (c - 1) as usize);
        if labels[p] == l { prev.push(p) } else { prev }
    }
}

/// The grouping of pixels by label is complete for the pixels before `(r, c)`.
pub open spec fn grouped(
    labels: Map<(usize, usize), u32>,
    groups: Map<u32, Vec<(usize, usize)>>,
    ncols: nat,
    r: nat,
    c: nat,
) -> bool {
    &&& forall|l: u32| #[trigger] groups.dom().contains(l) <==> (l != 0 && pixels_of(labels, l, ncols, r, c).len() > 0)
    &&& forall|l: u32| #[trigger] groups.dom().contains(l) ==> groups[l]@ == pixels_of(labels, l, ncols, r, c)
}

/// Lists, for each non-zero label of the image, its pixels `(row, col)` in
/// raster order.
pub fn pixels_by_label(label_map: &LabelGrid) -> (groups: HashMap<u32, Vec<(usize, usize)>>)
    ensures
        grouped(label_cells(*label_map), groups@, label_shape(*label_map).1 as nat, label_shape(*label_map).0 as nat, 0),
{
    let (nrows, ncols) = label_map.dim();
    let ghost lab = label_cells(*label_map);
    let mut groups: HashMap<u32, Vec<(usize, usize)>> = HashMap::new();
    let mut r: usize = 0;
    while r < nrows
        invariant
            label_shape(*label_map) == (nrows, ncols),
            lab == label_cells(*label_map),
            r <= nrows,
            grouped(lab, groups@, ncols as nat, r as nat, 0),
        decreases nrows - r,
    {
        let mut c: usize = 0;
        while c < ncols
            invariant
                label_shape(*label_map) == (nrows, ncols),
                lab == label_cells(*label_map),
                r < nrows,
                c <= ncols,
                grouped(lab, groups@, ncols as nat, r as nat, c as nat),
            decreases ncols - c,
        {
            let l = label_map.get(r, c);
            let ghost g0 = groups@;
            if l > 0 {
                match groups.remove(&l) {
                    Some(v) => {
                        let mut v = v;
                        v.push((r, c));
                        groups.insert(l, v);
                    },
                    None => {
                        let mut v: Vec<(usize, usize)> = Vec::new();
                        v.push((r, c));
                        groups.insert(l, v);
                    },
                }
            }
            proof {
                assert forall|m: u32| #[trigger] groups@.dom().contains(m) <==> (m != 0 && pixels_of(lab, m, ncols as nat, r as nat, (c + 1) as nat).len() > 0) by {
                    if m != l {
                        assert(groups@.dom().contains(m) == g0.dom().contains(m));
                    }
                }
                assert forall|m: u32| #[trigger] groups@.dom().contains(m) implies groups@[m]@ == pixels_of(lab, m, ncols as nat, r as nat, (c + 1) as nat) by {
                    if m != l {
                        assert(g0.dom().contains(m));
                    }
                }
            }
            c += 1;
        }
        r += 1;
    }
    groups
}

} // verus!
