//! Detections: thresholding of signal-to-noise keys, per-region statistics,
//! ordering by peak and numbering of the regions that are kept.
use std::collections::HashMap;
use vstd::prelude::*;

use crate::grid::{
    covers_shape, in_shape, key_cells, key_shape, label_cells, label_shape, mask_cells, mask_shape, KeyGrid,
    LabelGrid, MaskGrid,
};
use crate::connectivity::{connected, foreground, is_path, raster_before};
use crate::labeling::{component_labels, is_component_labeling, label_connected_components};
use crate::measure::{lemma_pixels_of_contains, pixels_of};

verus! {

broadcast use vstd::std_specs::hash::group_hash_axioms;

/// The ordering key of an IEEE-754 single-precision value given by its bits:
/// the magnitude bits, negated when the sign bit is set. For values that are
/// not NaN, a larger value has a larger key, and `-0.0` and `+0.0` share the
/// key 0; a NaN gets a key beyond that of the infinity of its sign.
pub open spec fn order_key_of(bits: u32) -> i64 {
    if bits >= 0x8000_0000 {
        -((bits - 0x8000_0000) as int) as i64
    } else {
        bits as i64
    }
}

/// Computes [`order_key_of`].
pub fn order_key(bits: u32) -> (k: i64)
    ensures
        k == order_key_of(bits),
{
    if bits >= 0x8000_0000 {
        -((bits - 0x8000_0000) as i64)
    } else {
        bits as i64
    }
}

/// The key orders bit patterns as sign-magnitude numbers, which is how
/// IEEE-754 lays out the values that are not NaN: non-negative patterns by
/// their magnitude, negative ones by the reverse of it, every negative pattern
/// at or below every non-negative one, and two patterns share a key only when
/// they are equal or both are a zero (`+0.0` and `-0.0`).
pub proof fn lemma_order_key_sign_magnitude(a: u32, b: u32)
    ensures
        a < 0x8000_0000 && b < 0x8000_0000 ==> (order_key_of(a) < order_key_of(b) <==> a < b),
        a >= 0x8000_0000 && b >= 0x8000_0000 ==> (order_key_of(a) < order_key_of(b) <==> a > b),
        a >= 0x8000_0000 && b < 0x8000_0000 ==> order_key_of(a) <= order_key_of(b),
        order_key_of(a) == order_key_of(b) <==> (a == b || (a % 0x8000_0000 == 0 && b % 0x8000_0000 == 0)),
{
}

/// A region of connected pixels above the detection threshold.
#[derive(Clone, Copy)]
pub struct Detection {
    pub label: u32,
    /// Number of pixels above threshold.
    pub npix: u32,
    /// Bounding box [row_min, row_max, col_min, col_max].
    pub bbox: [usize; 4],
    /// Ordering key of the peak signal-to-noise ratio within this detection.
    pub peak_key: i64,
    /// Pixel position of the peak [row, col] (the first in raster order among equal peaks).
    pub peak_pos: [usize; 2],
}

/// The detections of an image and the image of their labels.
pub struct DetectionList {
    /// Detections sorted by peak signal-to-noise ratio, highest first.
    pub detections: Vec<Detection>,
    /// Labeled image: 0 = background, label `i + 1` marks the pixels of `detections[i]`.
    pub label_map: LabelGrid,
}

/// The mask of the pixels whose key is above the threshold key.
pub open spec fn above(keys: Map<(usize, usize), i64>, thresh_key: i64) -> Map<(usize, usize), bool> {
    keys.map_values(|k: i64| k > thresh_key)
}

/// The thresholded mask covers the same pixels as the keys and sets exactly
/// those whose key is above the threshold; raising the threshold never sets
/// a pixel that a lower one left clear.
pub proof fn lemma_above_threshold(keys: Map<(usize, usize), i64>, t: i64, t2: i64, p: (usize, usize))
    ensures
        above(keys, t).dom() == keys.dom(),
        keys.dom().contains(p) ==> (above(keys, t)[p] <==> keys[p] > t),
        keys.dom().contains(p) && t <= t2 && above(keys, t2)[p] ==> above(keys, t)[p],
{
    assert(above(keys, t).dom() =~= keys.dom());
}

/// Marks the pixels whose key is above `thresh_key`.
pub fn threshold_mask(keys: &KeyGrid, thresh_key: i64) -> (mask: MaskGrid)
    ensures
        mask_shape(mask) == key_shape(*keys),
        covers_shape(mask_cells(mask), key_shape(*keys)),
        mask_cells(mask) == above(key_cells(*keys), thresh_key),
        // A pixel is set exactly when its key is above the threshold.
        forall|p: (usize, usize)|
            in_shape(key_shape(*keys), p) ==> (#[trigger] mask_cells(mask)[p] <==> key_cells(*keys)[p] > thresh_key),
{
    let (nrows, ncols) = keys.dim();
    let mut mask = MaskGrid::new(nrows, ncols, false);
    let mut r: usize = 0;
    while r < nrows
        invariant
            (nrows, ncols) == key_shape(*keys),
            covers_shape(key_cells(*keys), (nrows, ncols)),
            mask_shape(mask) == (nrows, ncols),
            covers_shape(mask_cells(mask), (nrows, ncols)),
            r <= nrows,
            forall|p: (usize, usize)| in_shape((nrows, ncols), p) ==> #[trigger] mask_cells(mask)[p] == if p.0 < r {
                key_cells(*keys)[p] > thresh_key
            } else {
                false
            },
        decreases nrows - r,
    {
        let mut c: usize = 0;
        while c < ncols
            invariant
                (nrows, ncols) == key_shape(*keys),
                covers_shape(key_cells(*keys), (nrows, ncols)),
                mask_shape(mask) == (nrows, ncols),
                covers_shape(mask_cells(mask), (nrows, ncols)),
                r < nrows,
                c <= ncols,
                forall|p: (usize, usize)| in_shape((nrows, ncols), p) ==> #[trigger] mask_cells(mask)[p] == if p.0 < r || (
                p.0 == r && p.1 < c) {
                    key_cells(*keys)[p] > thresh_key
                } else {
                    false
                },
            decreases ncols - c,
        {
            let v = keys.get(r, c) > thresh_key;
            mask.set(r, c, v);
            c += 1;
        }
        r += 1;
    }
    proof {
        assert(mask_cells(mask) =~= above(key_cells(*keys), thresh_key));
    }
    mask
}

/// The statistics of a region that starts at pixel `p` with key `k`.
pub open spec fn new_detection(l: u32, k: i64, p: (usize, usize)) -> Detection {
    Detection { label: l, npix: 1, bbox: [p.0, p.0, p.1, p.1], peak_key: k, peak_pos: [p.0, p.1] }
}

/// The statistics of a region after one more pixel `p` with key `k`.
pub open spec fn grow_detection(d: Detection, k: i64, p: (usize, usize)) -> Detection {
    Detection {
        label: d.label,
        npix: (d.npix + 1) as u32,
        bbox: [
            if p.0 < d.bbox[0] { p.0 } else { d.bbox[0] },
            if p.0 > d.bbox[1] { p.0 } else { d.bbox[1] },
            if p.1 < d.bbox[2] { p.1 } else { d.bbox[2] },
            if p.1 > d.bbox[3] { p.1 } else { d.bbox[3] },
        ],
        peak_key: if k > d.peak_key { k } else { d.peak_key },
        peak_pos: if k > d.peak_key { [p.0, p.1] } else { d.peak_pos },
    }
}

/// One pixel of the statistics scan: the labels in order of first
/// appearance, and the statistics of each label so far.
pub open spec fn scan_pixel(
    s: (Seq<u32>, Map<u32, Detection>),
    labels: Map<(usize, usize), u32>,
    keys: Map<(usize, usize), i64>,
    p: (usize, usize),
) -> (Seq<u32>, Map<u32, Detection>) {
    let l = labels[p];
    if l == 0 {
        s
    } else if s.1.dom().contains(l) {
        (s.0, s.1.insert(l, grow_detection(s.1[l], keys[p], p)))
    } else {
        (s.0.push(l), s.1.insert(l, new_detection(l, keys[p], p)))
    }
}

/// The statistics scan over the pixels before `(r, c)` in raster order.
pub open spec fn scan(
    labels: Map<(usize, usize), u32>,
    keys: Map<(usize, usize), i64>,
    ncols: nat,
    r: nat,
    c: nat,
) -> (Seq<u32>, Map<u32, Detection>)
    decreases r, c,
{
    if c == 0 {
        if r == 0 {
            (seq![], Map::empty())
        } else {
            scan(labels, keys, ncols, (r - 1) as nat, ncols)
        }
    } else {
        scan_pixel(scan(labels, keys, ncols, r, (c - 1) as nat), labels, keys, (r as usize, (c - 1) as usize))
    }
}

/// The statistics of every label of the image, in order of first appearance.
pub open spec fn all_stats(
    labels: Map<(usize, usize), u32>,
    keys: Map<(usize, usize), i64>,
    shape: (usize, usize),
) -> Seq<Detection> {
    let s = scan(labels, keys, shape.1 as nat, shape.0 as nat, 0);
    s.0.map_values(|l: u32| s.1[l])
}

/// A region big enough to count as a detection.
pub open spec fn big_enough(d: Detection, minarea: usize) -> bool {
    d.npix >= minarea as u32
}

/// The predicate of the regions that are kept.
pub open spec fn keep_pred(minarea: usize) -> spec_fn(Detection) -> bool {
    |d: Detection| big_enough(d, minarea)
}

/// The position at which a detection with key `k` enters a list ordered by
/// decreasing key: after every entry with a key at least `k`.
pub open spec fn insertion_index(s: Seq<Detection>, k: i64) -> int
    decreases s.len(),
{
    if s.len() == 0 {
        0
    } else if s[0].peak_key < k {
        0
    } else {
        1 + insertion_index(s.drop_first(), k)
    }
}

/// Stable sort by decreasing peak key (insertion sort).
pub open spec fn sort_by_peak(s: Seq<Detection>) -> Seq<Detection>
    decreases s.len(),
{
    if s.len() == 0 {
        seq![]
    } else {
        let sorted = sort_by_peak(s.drop_last());
        sorted.insert(insertion_index(sorted, s.last().peak_key), s.last())
    }
}

/// The detections of a labeled image, before renumbering: the statistics of
/// each region of at least `minarea` pixels, highest peak first.
pub open spec fn ranked_detections(
    labels: Map<(usize, usize), u32>,
    keys: Map<(usize, usize), i64>,
    shape: (usize, usize),
    minarea: usize,
) -> Seq<Detection> {
    sort_by_peak(all_stats(labels, keys, shape).filter(keep_pred(minarea)))
}

/// The executable state of the statistics scan matches the scan `s`: the
/// index maps each label to its slot, the slots hold the statistics in order
/// of first appearance, and no count exceeds the `seen` pixels so far.
pub open spec fn scan_tracked(
    s: (Seq<u32>, Map<u32, Detection>),
    index: Map<u32, usize>,
    stats: Seq<Detection>,
    seen: int,
) -> bool {
    &&& stats.len() == s.0.len()
    &&& s.0.len() <= seen
    &&& forall|l: u32| #[trigger] index.dom().contains(l) <==> s.1.dom().contains(l)
    &&& forall|l: u32| #[trigger] index.dom().contains(l) ==> index[l] < s.0.len() && s.0[index[l] as int] == l
    &&& forall|i: int| 0 <= i < s.0.len() ==> s.1.dom().contains(#[trigger] s.0[i]) && stats[i] == s.1[s.0[i]]
    &&& forall|i: int| 0 <= i < s.0.len() ==> (#[trigger] stats[i]).npix <= seen
    &&& forall|i: int| 0 <= i < s.0.len() ==> index.dom().contains(#[trigger] s.0[i]) && index[s.0[i]] == i
}

/// One pixel of the statistics scan.
fn scan_step(
    labels: &LabelGrid,
    keys: &KeyGrid,
    index: &mut HashMap<u32, usize>,
    stats: &mut Vec<Detection>,
    r: usize,
    c: usize,
    Ghost(s): Ghost<(Seq<u32>, Map<u32, Detection>)>,
    Ghost(seen): Ghost<int>,
)
    requires
        in_shape(label_shape(*labels), (r, c)),
        key_shape(*keys) == label_shape(*labels),
        scan_tracked(s, old(index)@, old(stats)@, seen),
        seen + 1 < u32::MAX,
    ensures
        scan_tracked(scan_pixel(s, label_cells(*labels), key_cells(*keys), (r, c)), final(index)@, final(stats)@, seen + 1),
{
    let ghost s2 = scan_pixel(s, label_cells(*labels), key_cells(*keys), (r, c));
    let l = labels.get(r, c);
    if l == 0 {
        return;
    }
    let snr = keys.get(r, c);
    match index.get(&l) {
        Some(i) => {
            let i = *i;
            let e = stats[i];
            let grown = Detection {
                label: e.label,
                npix: e.npix + 1,
                bbox: [
                    if r < e.bbox[0] { r } else { e.bbox[0] },
                    if r > e.bbox[1] { r } else { e.bbox[1] },
                    if c < e.bbox[2] { c } else { e.bbox[2] },
                    if c > e.bbox[3] { c } else { e.bbox[3] },
                ],
                peak_key: if snr > e.peak_key { snr } else { e.peak_key },
                peak_pos: if snr > e.peak_key { [r, c] } else { e.peak_pos },
            };
            stats.set(i, grown);
            proof {
                assert(s.1.dom().contains(l));
                assert(grown == grow_detection(s.1[l], snr, (r, c)));
                assert forall|j: int| 0 <= j < s2.0.len() implies s2.1.dom().contains(#[trigger] s2.0[j]) && stats@[j] == s2.1[s2.0[j]] by {
                    if j != i as int {
                        assert(s.0[j] != l);
                    }
                }
            }
        },
        None => {
            index.insert(l, stats.len());
            stats.push(Detection { label: l, npix: 1, bbox: [r, r, c, c], peak_key: snr, peak_pos: [r, c] });
            proof {
                assert(!s.1.dom().contains(l));
                assert forall|j: int| 0 <= j < s2.0.len() implies s2.1.dom().contains(#[trigger] s2.0[j]) && stats@[j] == s2.1[s2.0[j]] by {
                    if j < s.0.len() {
                        assert(s2.0[j] == s.0[j]);
                        assert(s.0[j] != l);
                    }
                }
                assert forall|m: u32| #[trigger] index@.dom().contains(m) implies index@[m] < s2.0.len() && s2.0[index@[m] as int] == m by {
                    if m != l {
                        assert(old(index)@.dom().contains(m));
                    }
                }
                assert forall|j: int| 0 <= j < s2.0.len() implies index@.dom().contains(#[trigger] s2.0[j]) && index@[s2.0[j]] == j by {
                    if j < s.0.len() {
                        assert(s2.0[j] == s.0[j]);
                        assert(s.0[j] != l);
                    }
                }
            }
        },
    }
}

/// Sums up each labelled region of the image: pixel count, bounding box and
/// position of the peak key. Regions of fewer than `minarea` pixels are
/// dropped; the others come ordered by decreasing peak key (regions with the
/// same peak keep their raster order of first appearance).
pub fn collect_detections(label_map: &LabelGrid, snr_keys: &KeyGrid, minarea: usize) -> (dets: Vec<Detection>)
    requires
        key_shape(*snr_keys) == label_shape(*label_map),
        (label_shape(*label_map).0 as int) * (label_shape(*label_map).1 as int) < u32::MAX,
    ensures
        dets@ == ranked_detections(label_cells(*label_map), key_cells(*snr_keys), label_shape(*label_map), minarea),
        dets@.len() <= (label_shape(*label_map).0 as int) * (label_shape(*label_map).1 as int),
        all_stats(label_cells(*label_map), key_cells(*snr_keys), label_shape(*label_map)).len() <= (label_shape(
            *label_map,
        ).0 as int) * (label_shape(*label_map).1 as int),
{
    let (nrows, ncols) = label_map.dim();
    let ghost lab = label_cells(*label_map);
    let ghost key = key_cells(*snr_keys);
    let mut index: HashMap<u32, usize> = HashMap::new();
    let mut stats: Vec<Detection> = Vec::new();
    let ghost mut seen: int = 0;
    let mut r: usize = 0;
    while r < nrows
        invariant
            label_shape(*label_map) == (nrows, ncols),
            key_shape(*snr_keys) == (nrows, ncols),
            lab == label_cells(*label_map),
            key == key_cells(*snr_keys),
            (nrows as int) * (ncols as int) < u32::MAX,
            r <= nrows,
            seen == (r as int) * (ncols as int),
            scan_tracked(scan(lab, key, ncols as nat, r as nat, 0), index@, stats@, seen),
        decreases nrows - r,
    {
        let mut c: usize = 0;
        while c < ncols
            invariant
                label_shape(*label_map) == (nrows, ncols),
                key_shape(*snr_keys) == (nrows, ncols),
                lab == label_cells(*label_map),
                key == key_cells(*snr_keys),
                (nrows as int) * (ncols as int) < u32::MAX,
                r < nrows,
                c <= ncols,
                seen == (r as int) * (ncols as int) + c,
                scan_tracked(scan(lab, key, ncols as nat, r as nat, c as nat), index@, stats@, seen),
            decreases ncols - c,
        {
            proof {
                assert((r as int) * (ncols as int) + c < (nrows as int) * (ncols as int)) by (nonlinear_arith)
                    requires r < nrows, c < ncols;
            }
            scan_step(label_map, snr_keys, &mut index, &mut stats, r, c, Ghost(scan(lab, key, ncols as nat, r as nat, c as nat)), Ghost(seen));
            proof {
                seen = seen + 1;
            }
            c += 1;
        }
        proof {
            assert(seen == (r + 1) as int * (ncols as int)) by (nonlinear_arith)
                requires seen == (r as int) * (ncols as int) + ncols;
        }
        r += 1;
    }
    let ghost s = scan(lab, key, ncols as nat, nrows as nat, 0);
    let ghost all = all_stats(lab, key, (nrows, ncols));
    proof {
        assert(stats@ =~= all);
    }
    let ghost keep = keep_pred(minarea);
    // Keep the regions of at least `minarea` pixels.
    let mut kept: Vec<Detection> = Vec::new();
    let mut i: usize = 0;
    while i < stats.len()
        invariant
            stats@ == all,
            keep == keep_pred(minarea),
            i <= stats@.len(),
            kept@ == stats@.take(i as int).filter(keep),
        decreases stats@.len() - i,
    {
        proof {
            reveal_with_fuel(Seq::<_>::filter, 1);
            assert(stats@.take(i + 1).drop_last() =~= stats@.take(i as int));
        }
        let d = stats[i];
        if d.npix >= minarea as u32 {
            kept.push(d);
        }
        proof {
            let t = stats@.take(i + 1);
            assert(t.last() == d);
            assert(keep(d) == big_enough(d, minarea));
            assert(t.filter(keep) == if keep(d) { t.drop_last().filter(keep).push(d) } else { t.drop_last().filter(keep) });
        }
        i += 1;
    }
    proof {
        assert(stats@.take(stats@.len() as int) =~= stats@);
        all.lemma_filter_len(keep);
        assert(kept@.len() <= all.len());
        assert(all.len() <= (nrows as int) * (ncols as int));
    }
    // Sort by peak key, highest first (stable insertion sort).
    let mut result: Vec<Detection> = Vec::new();
    let mut k: usize = 0;
    while k < kept.len()
        invariant
            k <= kept@.len(),
            result@ == sort_by_peak(kept@.take(k as int)),
            result@.len() == k,
        decreases kept@.len() - k,
    {
        let d = kept[k];
        let mut j: usize = 0;
        while j < result.len() && result[j].peak_key >= d.peak_key
            invariant
                j <= result@.len(),
                forall|t: int| 0 <= t < j ==> (#[trigger] result@[t]).peak_key >= d.peak_key,
            decreases result@.len() - j,
        {
            j += 1;
        }
        proof {
            lemma_insertion_index(result@, d.peak_key, j as int);
            assert(kept@.take(k + 1).drop_last() =~= kept@.take(k as int));
            assert(kept@.take(k + 1).last() == d);
        }
        result.insert(j, d);
        k += 1;
    }
    proof {
        assert(kept@.take(kept@.len() as int) =~= kept@);
    }
    result
}

/// The loop that looks for the insertion point finds [`insertion_index`].
proof fn lemma_insertion_index(s: Seq<Detection>, k: i64, j: int)
    requires
        0 <= j <= s.len(),
        forall|t: int| 0 <= t < j ==> (#[trigger] s[t]).peak_key >= k,
        j == s.len() || s[j].peak_key < k,
    ensures
        insertion_index(s, k) == j,
    decreases s.len(),
{
    if s.len() > 0 && j > 0 {
        assert forall|t: int| 0 <= t < j - 1 implies (#[trigger] s.drop_first()[t]).peak_key >= k by {
            assert(s.drop_first()[t] == s[t + 1]);
        }
        lemma_insertion_index(s.drop_first(), k, j - 1);
    }
}

/// The new label of a region labelled `l`: one plus its position in the
/// ranked list (its last position, were it listed twice), or 0 when the
/// region is not in the list.
pub open spec fn rank_label(ranked: Seq<Detection>, l: u32) -> u32
    decreases ranked.len(),
{
    if ranked.len() == 0 {
        0
    } else if ranked.last().label == l {
        ranked.len() as u32
    } else {
        rank_label(ranked.drop_last(), l)
    }
}

/// The label image after renumbering: background stays 0, a region takes its
/// rank, and a region that is not a detection becomes background.
pub open spec fn renumbered_map(labels: Map<(usize, usize), u32>, ranked: Seq<Detection>) -> Map<(usize, usize), u32> {
    labels.map_values(|l: u32| if l == 0 { 0 } else { rank_label(ranked, l) })
}

/// A detection under its new label.
pub open spec fn with_label(d: Detection, l: u32) -> Detection {
    Detection { label: l, npix: d.npix, bbox: d.bbox, peak_key: d.peak_key, peak_pos: d.peak_pos }
}

/// The ranked detections, each labelled with its position plus one.
pub open spec fn renumbered_detections(ranked: Seq<Detection>) -> Seq<Detection> {
    ranked.map(|i: int, d: Detection| with_label(d, (i + 1) as u32))
}

/// Numbers the detections 1, 2, 3, ... in list order and rewrites the label
/// image to match; regions that are not detections become background.
pub fn renumber(label_map: &mut LabelGrid, detections: &mut Vec<Detection>)
    requires
        old(detections)@.len() < u32::MAX,
    ensures
        label_shape(*final(label_map)) == label_shape(*old(label_map)),
        label_cells(*final(label_map)) == renumbered_map(label_cells(*old(label_map)), old(detections)@),
        final(detections)@ == renumbered_detections(old(detections)@),
{
    let ghost ranked = detections@;
    let mut renum: HashMap<u32, u32> = HashMap::new();
    let mut i: usize = 0;
    while i < detections.len()
        invariant
            ranked.len() < u32::MAX,
            detections@.len() == ranked.len(),
            i <= ranked.len(),
            forall|k: int| 0 <= k < i ==> #[trigger] detections@[k] == with_label(ranked[k], (k + 1) as u32),
            forall|k: int| i <= k < ranked.len() ==> #[trigger] detections@[k] == ranked[k],
            forall|l: u32|
                #![trigger renum@.dom().contains(l)]
                (renum@.dom().contains(l) <==> rank_label(ranked.take(i as int), l) != 0),
            forall|l: u32| #[trigger] renum@.dom().contains(l) ==> renum@[l] == rank_label(ranked.take(i as int), l),
        decreases ranked.len() - i,
    {
        let d = detections[i];
        let new_label = (i + 1) as u32;
        renum.insert(d.label, new_label);
        detections.set(i, Detection { label: new_label, npix: d.npix, bbox: d.bbox, peak_key: d.peak_key, peak_pos: d.peak_pos });
        proof {
            let t = ranked.take(i + 1);
            assert(t.drop_last() =~= ranked.take(i as int));
            assert(t.last() == ranked[i as int]);
            assert forall|l: u32| #[trigger] renum@.dom().contains(l) <==> rank_label(t, l) != 0 by {}
        }
        i += 1;
    }
    proof {
        assert(ranked.take(ranked.len() as int) =~= ranked);
        assert(detections@ =~= renumbered_detections(ranked));
    }
    let ghost before = label_cells(*label_map);
    let ghost target = renumbered_map(before, ranked);
    let (nrows, ncols) = label_map.dim();
    let mut r: usize = 0;
    while r < nrows
        invariant
            label_shape(*label_map) == (nrows, ncols),
            covers_shape(before, (nrows, ncols)),
            covers_shape(label_cells(*label_map), (nrows, ncols)),
            target == renumbered_map(before, ranked),
            forall|l: u32|
                #![trigger renum@.dom().contains(l)]
                (renum@.dom().contains(l) <==> rank_label(ranked, l) != 0),
            forall|l: u32| #[trigger] renum@.dom().contains(l) ==> renum@[l] == rank_label(ranked, l),
            r <= nrows,
            forall|p: (usize, usize)| in_shape((nrows, ncols), p) ==> #[trigger] label_cells(*label_map)[p] == if p.0 < r {
                target[p]
            } else {
                before[p]
            },
        decreases nrows - r,
    {
        let mut c: usize = 0;
        while c < ncols
            invariant
                label_shape(*label_map) == (nrows, ncols),
                covers_shape(before, (nrows, ncols)),
                covers_shape(label_cells(*label_map), (nrows, ncols)),
                target == renumbered_map(before, ranked),
                forall|l: u32|
                    #![trigger renum@.dom().contains(l)]
                    (renum@.dom().contains(l) <==> rank_label(ranked, l) != 0),
                forall|l: u32| #[trigger] renum@.dom().contains(l) ==> renum@[l] == rank_label(ranked, l),
                r < nrows,
                c <= ncols,
                forall|p: (usize, usize)| in_shape((nrows, ncols), p) ==> #[trigger] label_cells(*label_map)[p] == if p.0 < r || (
                p.0 == r && p.1 < c) {
                    target[p]
                } else {
                    before[p]
                },
            decreases ncols - c,
        {
            let l = label_map.get(r, c);
            if l != 0 {
                let new_l = match renum.get(&l) {
                    Some(v) => *v,
                    None => 0,
                };
                label_map.set(r, c, new_l);
            }
            c += 1;
        }
        r += 1;
    }
    proof {
        assert(label_cells(*label_map) =~= target);
    }
}

/// Detection from a map of signal-to-noise keys: threshold at `thresh_key`,
/// label the 8-connected regions, keep the regions of at least `minarea`
/// pixels ordered by decreasing peak key, and number them 1, 2, 3, ... in
/// that order, in the list and in the label image.
pub fn detect_from_keys(snr_keys: &KeyGrid, thresh_key: i64, minarea: usize) -> (list: DetectionList)
    requires
        (key_shape(*snr_keys).0 as int) * (key_shape(*snr_keys).1 as int) < u32::MAX,
    ensures
        label_shape(list.label_map) == key_shape(*snr_keys),
        ({
            let regions = component_labels(above(key_cells(*snr_keys), thresh_key));
            let ranked = ranked_detections(regions, key_cells(*snr_keys), key_shape(*snr_keys), minarea);
            &&& list.detections@ == renumbered_detections(ranked)
            &&& label_cells(list.label_map) == renumbered_map(regions, ranked)
        }),
        // Only pixels above the threshold are labeled, with labels of the list.
        forall|p: (usize, usize)|
            #![trigger label_cells(list.label_map)[p]]
            in_shape(key_shape(*snr_keys), p) && label_cells(list.label_map)[p] != 0 ==> {
                &&& key_cells(*snr_keys)[p] > thresh_key
                &&& label_cells(list.label_map)[p] <= list.detections@.len()
            },
        // Two pixels share a label exactly when they are connected above the threshold.
        forall|p: (usize, usize), q: (usize, usize)|
            #![trigger label_cells(list.label_map)[p], label_cells(list.label_map)[q]]
            in_shape(key_shape(*snr_keys), p) && in_shape(key_shape(*snr_keys), q) && label_cells(list.label_map)[p]
                != 0 ==> (label_cells(list.label_map)[q] == label_cells(list.label_map)[p] <==> connected(
                above(key_cells(*snr_keys), thresh_key),
                p,
                q,
            )),
        // A pixel above the threshold is numbered exactly when its region has
        // at least `minarea` pixels; with `minarea` at most 1, always.
        forall|p: (usize, usize)|
            #![trigger label_cells(list.label_map)[p]]
            in_shape(key_shape(*snr_keys), p) && key_cells(*snr_keys)[p] > thresh_key ==> {
                let regions = component_labels(above(key_cells(*snr_keys), thresh_key));
                &&& (label_cells(list.label_map)[p] != 0 <==> pixels_of(
                    regions,
                    regions[p],
                    key_shape(*snr_keys).1 as nat,
                    key_shape(*snr_keys).0 as nat,
                    0,
                ).len() >= minarea as u32)
                &&& (minarea <= 1 ==> label_cells(list.label_map)[p] != 0)
            },
{
    let mask = threshold_mask(snr_keys, thresh_key);
    let mut label_map = label_connected_components(&mask);
    let ghost regions = label_cells(label_map);
    let mut detections = collect_detections(&label_map, snr_keys, minarea);
    renumber(&mut label_map, &mut detections);
    proof {
        let shape = key_shape(*snr_keys);
        let mk = mask_cells(mask);
        let keys = key_cells(*snr_keys);
        let ranked = ranked_detections(regions, keys, shape, minarea);
        let map = label_cells(label_map);
        lemma_detections_match_labels(regions, keys, shape, minarea);
        assert forall|p: (usize, usize)|
            #![trigger label_cells(label_map)[p]]
            in_shape(shape, p) && label_cells(label_map)[p] != 0 implies keys[p] > thresh_key
                && label_cells(label_map)[p] <= detections@.len() by {
            assert(mk.dom().contains(p));
            assert(map.dom().contains(p));
            assert(regions[p] != 0);
        }
        assert forall|p: (usize, usize)|
            #![trigger label_cells(label_map)[p]]
            in_shape(shape, p) && keys[p] > thresh_key implies {
                &&& (label_cells(label_map)[p] != 0 <==> pixels_of(regions, regions[p], shape.1 as nat, shape.0 as nat, 0).len()
                    >= minarea as u32)
                &&& (minarea <= 1 ==> label_cells(label_map)[p] != 0)
            } by {
            assert(mk.dom().contains(p));
            assert(mk[p]);
            assert(regions[p] != 0);
            lemma_labeled_iff_large(regions, keys, shape, minarea, p);
            lemma_pixels_of_contains(regions, regions[p], shape.1 as nat, shape.0 as nat, 0, p);
        }
        assert forall|p: (usize, usize), q: (usize, usize)|
            #![trigger label_cells(label_map)[p], label_cells(label_map)[q]]
            in_shape(shape, p) && in_shape(shape, q) && label_cells(label_map)[p] != 0 implies (
            label_cells(label_map)[q] == label_cells(label_map)[p] <==> connected(mk, p, q)) by {
            assert(mk.dom().contains(p) && mk.dom().contains(q));
            assert(map.dom().contains(p) && map.dom().contains(q));
            let i = map[p] - 1;
            assert(map[p] == i + 1 <==> regions[p] == ranked[i].label);
            assert(map[q] == i + 1 <==> regions[q] == ranked[i].label);
            assert(regions[p] != 0);
            assert(foreground(mk, p));
            if connected(mk, p, q) {
                let path = choose|path: Seq<(usize, usize)>| #[trigger] is_path(mk, path) && path[0] == p && path.last() == q;
                assert(foreground(mk, path[path.len() - 1]));
            }
            if regions[q] == regions[p] {
                assert(foreground(mk, q));
            }
        }
    }
    DetectionList { detections, label_map }
}

/// Ordered by decreasing peak key.
pub open spec fn peaks_descending(s: Seq<Detection>) -> bool {
    forall|i: int, j: int| 0 <= i < j < s.len() ==> (#[trigger] s[i]).peak_key >= (#[trigger] s[j]).peak_key
}

proof fn lemma_insert_keeps_order(t: Seq<Detection>, d: Detection)
    requires
        peaks_descending(t),
    ensures
        peaks_descending(t.insert(insertion_index(t, d.peak_key), d)),
        0 <= insertion_index(t, d.peak_key) <= t.len(),
        forall|i: int| 0 <= i < insertion_index(t, d.peak_key) ==> (#[trigger] t[i]).peak_key >= d.peak_key,
        insertion_index(t, d.peak_key) < t.len() ==> t[insertion_index(t, d.peak_key)].peak_key < d.peak_key,
    decreases t.len(),
{
    let k = d.peak_key;
    if t.len() > 0 && t[0].peak_key >= k {
        let rest = t.drop_first();
        assert(peaks_descending(rest)) by {
            assert forall|i: int, j: int| 0 <= i < j < rest.len() implies (#[trigger] rest[i]).peak_key >= (#[trigger] rest[j]).peak_key by {
                assert(rest[i] == t[i + 1] && rest[j] == t[j + 1]);
            }
        }
        lemma_insert_keeps_order(rest, d);
        let j = insertion_index(t, k);
        assert(j == 1 + insertion_index(rest, k));
        assert forall|i: int| 0 <= i < j implies (#[trigger] t[i]).peak_key >= k by {
            if i > 0 {
                assert(t[i] == rest[i - 1]);
            }
        }
        if j < t.len() {
            assert(t[j] == rest[j - 1]);
        }
    }
    let j = insertion_index(t, k);
    let u = t.insert(j, d);
    assert forall|a: int, b: int| 0 <= a < b < u.len() implies (#[trigger] u[a]).peak_key >= (#[trigger] u[b]).peak_key by {
        if b < j {
            assert(u[a] == t[a] && u[b] == t[b]);
        } else if b == j {
            assert(u[a] == t[a]);
        } else if a < j {
            assert(u[a] == t[a] && u[b] == t[b - 1]);
        } else if a == j {
            assert(u[b] == t[b - 1]);
            assert(t[j].peak_key < k);
            assert(t[j].peak_key >= t[b - 1].peak_key || j == b - 1);
        } else {
            assert(u[a] == t[a - 1] && u[b] == t[b - 1]);
        }
    }
}

/// The ranking sort orders by decreasing peak key and neither loses nor adds
/// a detection.
pub proof fn lemma_sort_by_peak(s: Seq<Detection>)
    ensures
        peaks_descending(sort_by_peak(s)),
        sort_by_peak(s).to_multiset() == s.to_multiset(),
        sort_by_peak(s).len() == s.len(),
    decreases s.len(),
{
    broadcast use vstd::seq_lib::group_to_multiset_ensures;
    if s.len() > 0 {
        let t = sort_by_peak(s.drop_last());
        lemma_sort_by_peak(s.drop_last());
        let d = s.last();
        lemma_insert_keeps_order(t, d);
        let j = insertion_index(t, d.peak_key);
        let u = t.insert(j, d);
        assert(u.remove(j) =~= t);
        assert(u[j] == d);
        assert(u.to_multiset().remove(d) =~= t.to_multiset());
        assert(u.to_multiset().count(d) > 0) by {
            assert(u.contains(d));
        }
        assert(u.to_multiset() =~= t.to_multiset().insert(d));
        assert(s =~= s.drop_last().push(d));
    }
}

/// Distinct labels.
pub open spec fn labels_distinct(s: Seq<Detection>) -> bool {
    forall|i: int, j: int| 0 <= i < s.len() && 0 <= j < s.len() && i != j ==> (#[trigger] s[i]).label != (#[trigger] s[j]).label
}

/// What the statistics scan keeps: each label listed once, its statistics
/// carrying it, and no statistics for the background.
proof fn lemma_scan_shape(labels: Map<(usize, usize), u32>, keys: Map<(usize, usize), i64>, ncols: nat, r: nat, c: nat)
    ensures
        ({
            let s = scan(labels, keys, ncols, r, c);
            &&& s.0.no_duplicates()
            &&& forall|l: u32| #[trigger] s.1.dom().contains(l) <==> s.0.contains(l)
            &&& forall|l: u32| #[trigger] s.1.dom().contains(l) ==> s.1[l].label == l && l != 0
        }),
    decreases r, c,
{
    if c == 0 {
        if r > 0 {
            lemma_scan_shape(labels, keys, ncols, (r - 1) as nat, ncols);
        }
    } else {
        lemma_scan_shape(labels, keys, ncols, r, (c - 1) as nat);
        let s0 = scan(labels, keys, ncols, r, (c - 1) as nat);
        let s = scan(labels, keys, ncols, r, c);
        let l = labels[(r as usize, (c - 1) as usize)];
        if l != 0 && !s0.1.dom().contains(l) {
            assert forall|m: u32| #[trigger] s.1.dom().contains(m) <==> s.0.contains(m) by {
                if m != l {
                    if s.0.contains(m) {
                        let i = choose|i: int| 0 <= i < s.0.len() && s.0[i] == m;
                        assert(s0.0[i] == m);
                    }
                    if s0.0.contains(m) {
                        let i = choose|i: int| 0 <= i < s0.0.len() && s0.0[i] == m;
                        assert(s.0[i] == m);
                    }
                } else {
                    assert(s.0[s.0.len() - 1] == l);
                }
            }
        }
    }
}

/// Keeping some elements of a list without repeats leaves no repeats.
proof fn lemma_filter_no_duplicates(s: Seq<Detection>, pred: spec_fn(Detection) -> bool)
    requires
        s.no_duplicates(),
    ensures
        s.filter(pred).no_duplicates(),
    decreases s.len(),
{
    reveal_with_fuel(Seq::<_>::filter, 1);
    if s.len() > 0 {
        let init = s.drop_last();
        assert(init.no_duplicates());
        lemma_filter_no_duplicates(init, pred);
        if pred(s.last()) {
            let f = init.filter(pred);
            assert(!f.contains(s.last())) by {
                if f.contains(s.last()) {
                    init.lemma_filter_contains_rev(pred, s.last());
                    assert(init.contains(s.last()));
                    let i = choose|i: int| 0 <= i < init.len() && init[i] == s.last();
                    assert(s[i] == s[s.len() - 1]);
                }
            }
        }
    }
}

/// The ranked detections of a labeled image carry distinct labels, none of
/// them the background label 0.
pub proof fn lemma_ranked_labels_distinct(
    labels: Map<(usize, usize), u32>,
    keys: Map<(usize, usize), i64>,
    shape: (usize, usize),
    minarea: usize,
)
    ensures
        labels_distinct(ranked_detections(labels, keys, shape, minarea)),
        forall|i: int|
            0 <= i < ranked_detections(labels, keys, shape, minarea).len() ==> (#[trigger] ranked_detections(
                labels,
                keys,
                shape,
                minarea,
            )[i]).label != 0,
{
    broadcast use vstd::seq_lib::group_to_multiset_ensures;
    let s = scan(labels, keys, shape.1 as nat, shape.0 as nat, 0);
    lemma_scan_shape(labels, keys, shape.1 as nat, shape.0 as nat, 0);
    let all = all_stats(labels, keys, shape);
    assert forall|i: int| 0 <= i < all.len() implies (#[trigger] all[i]).label == s.0[i] by {
        assert(s.0.contains(s.0[i]));
        assert(s.1.dom().contains(s.0[i]));
    }
    assert(all.no_duplicates()) by {
        assert forall|i: int, j: int| 0 <= i < all.len() && 0 <= j < all.len() && i != j implies all[i] != all[j] by {
            assert(all[i].label == s.0[i] && all[j].label == s.0[j]);
        }
    }
    let kept = all.filter(keep_pred(minarea));
    lemma_filter_no_duplicates(all, keep_pred(minarea));
    let ranked = sort_by_peak(kept);
    lemma_sort_by_peak(kept);
    kept.lemma_multiset_has_no_duplicates();
    assert forall|i: int| 0 <= i < ranked.len() implies kept.contains(#[trigger] ranked[i]) by {
        assert(ranked.to_multiset().count(ranked[i]) > 0) by {
            assert(ranked.contains(ranked[i]));
        }
        assert(kept.to_multiset().count(ranked[i]) > 0);
    }
    assert(ranked.no_duplicates()) by {
        assert forall|x: Detection| ranked.to_multiset().contains(x) implies ranked.to_multiset().count(x) == 1 by {
            assert(kept.to_multiset().count(x) == 1);
        }
        ranked.lemma_multiset_has_no_duplicates_conv();
    }
    assert forall|i: int, j: int|
        0 <= i < ranked.len() && 0 <= j < ranked.len() && i != j implies (#[trigger] ranked[i]).label != (#[trigger] ranked[j]).label by {
        assert(kept.contains(ranked[i]) && kept.contains(ranked[j]));
        all.lemma_filter_contains_rev(keep_pred(minarea), ranked[i]);
        all.lemma_filter_contains_rev(keep_pred(minarea), ranked[j]);
        let a = choose|a: int| 0 <= a < all.len() && all[a] == ranked[i];
        let b = choose|b: int| 0 <= b < all.len() && all[b] == ranked[j];
        if ranked[i].label == ranked[j].label {
            assert(s.0[a] == s.0[b]);
            assert(a == b);
            assert(ranked[i] == ranked[j]);
        }
    }
    assert forall|i: int| 0 <= i < ranked.len() implies (#[trigger] ranked[i]).label != 0 by {
        assert(kept.contains(ranked[i]));
        all.lemma_filter_contains_rev(keep_pred(minarea), ranked[i]);
        let a = choose|a: int| 0 <= a < all.len() && all[a] == ranked[i];
        assert(s.0.contains(s.0[a]));
        assert(s.1.dom().contains(s.0[a]));
    }
}

/// With distinct labels, the renumbered label of a region is one plus its
/// position in the list, and 0 when it is not listed.
proof fn lemma_rank_label(ranked: Seq<Detection>, l: u32)
    requires
        labels_distinct(ranked),
        ranked.len() < u32::MAX,
    ensures
        forall|i: int| 0 <= i < ranked.len() ==> (rank_label(ranked, l) == i + 1 <==> (#[trigger] ranked[i]).label == l),
        rank_label(ranked, l) <= ranked.len(),
        rank_label(ranked, l) == 0 <==> forall|i: int| 0 <= i < ranked.len() ==> (#[trigger] ranked[i]).label != l,
    decreases ranked.len(),
{
    if ranked.len() > 0 {
        let n = ranked.len() as int;
        let init = ranked.drop_last();
        assert(labels_distinct(init)) by {
            assert forall|i: int, j: int| 0 <= i < init.len() && 0 <= j < init.len() && i != j implies (#[trigger] init[i]).label != (#[trigger] init[j]).label by {
                assert(init[i] == ranked[i] && init[j] == ranked[j]);
            }
        }
        lemma_rank_label(init, l);
        let rk = rank_label(ranked, l);
        if ranked[n - 1].label == l {
            assert(rk == n);
            assert forall|i: int| 0 <= i < n implies (rk == i + 1 <==> (#[trigger] ranked[i]).label == l) by {
                if i < n - 1 {
                    assert(ranked[i].label != ranked[n - 1].label);
                }
            }
        } else {
            assert(rk == rank_label(init, l));
            assert forall|i: int| 0 <= i < n implies (rk == i + 1 <==> (#[trigger] ranked[i]).label == l) by {
                if i < n - 1 {
                    assert(init[i] == ranked[i]);
                }
            }
            if rk == 0 {
                assert forall|i: int| 0 <= i < n implies (#[trigger] ranked[i]).label != l by {
                    if i < n - 1 {
                        assert(init[i] == ranked[i]);
                    }
                }
            } else {
                let i0 = rk - 1;
                assert(init[i0] == ranked[i0]);
                assert(ranked[i0].label == l);
            }
        }
    }
}

/// The label image and the list of a detection run agree: a pixel carries
/// label `i + 1` exactly when its region is the one of `detections[i]`, no
/// pixel carries a label beyond the list, and `detections[i]` is labelled
/// `i + 1`.
pub proof fn lemma_detections_match_labels(
    regions: Map<(usize, usize), u32>,
    keys: Map<(usize, usize), i64>,
    shape: (usize, usize),
    minarea: usize,
)
    requires
        all_stats(regions, keys, shape).len() < u32::MAX,
    ensures
        ({
            let ranked = ranked_detections(regions, keys, shape, minarea);
            let dets = renumbered_detections(ranked);
            let map = renumbered_map(regions, ranked);
            &&& dets.len() == ranked.len()
            &&& forall|i: int| 0 <= i < dets.len() ==> (#[trigger] dets[i]).label == i + 1
            &&& forall|p: (usize, usize)| #[trigger] map.dom().contains(p) ==> map[p] <= dets.len()
            &&& forall|p: (usize, usize), i: int|
                #![trigger map[p], ranked[i]]
                map.dom().contains(p) && 0 <= i < dets.len() ==> (map[p] == i + 1 <==> regions[p] == ranked[i].label)
        }),
{
    let ranked = ranked_detections(regions, keys, shape, minarea);
    let all = all_stats(regions, keys, shape);
    let kept = all.filter(keep_pred(minarea));
    all.lemma_filter_len(keep_pred(minarea));
    lemma_sort_by_peak(kept);
    lemma_ranked_labels_distinct(regions, keys, shape, minarea);
    let map = renumbered_map(regions, ranked);
    assert forall|p: (usize, usize)| #[trigger] map.dom().contains(p) implies map[p] <= ranked.len() by {
        lemma_rank_label(ranked, regions[p]);
    }
    assert forall|p: (usize, usize), i: int|
        #![trigger map[p], ranked[i]]
        map.dom().contains(p) && 0 <= i < ranked.len() implies (map[p] == i + 1 <==> regions[p] == ranked[i].label) by {
        lemma_rank_label(ranked, regions[p]);
    }
}

/// The detections kept are exactly the regions of at least `minarea` pixels:
/// each ranked detection is one of the regions' statistics and is large
/// enough, and every large enough region is among the ranked detections.
pub proof fn lemma_kept_regions(
    regions: Map<(usize, usize), u32>,
    keys: Map<(usize, usize), i64>,
    shape: (usize, usize),
    minarea: usize,
)
    ensures
        ({
            let all = all_stats(regions, keys, shape);
            let ranked = ranked_detections(regions, keys, shape, minarea);
            &&& forall|i: int|
                0 <= i < ranked.len() ==> (#[trigger] ranked[i]).npix >= minarea as u32 && all.contains(ranked[i])
            &&& forall|j: int| 0 <= j < all.len() && (#[trigger] all[j]).npix >= minarea as u32 ==> ranked.contains(all[j])
        }),
{
    broadcast use vstd::seq_lib::group_to_multiset_ensures;
    broadcast use vstd::seq_lib::group_filter_ensures;

    let all = all_stats(regions, keys, shape);
    let keep = keep_pred(minarea);
    let kept = all.filter(keep);
    let ranked = ranked_detections(regions, keys, shape, minarea);
    lemma_sort_by_peak(kept);
    assert(ranked.to_multiset() == kept.to_multiset());
    assert forall|i: int| 0 <= i < ranked.len() implies (#[trigger] ranked[i]).npix >= minarea as u32 && all.contains(
        ranked[i],
    ) by {
        let d = ranked[i];
        assert(ranked.contains(d));
        assert(kept.to_multiset().count(d) > 0);
        assert(kept.contains(d));
        let k = choose|k: int| 0 <= k < kept.len() && kept[k] == d;
        assert(keep(kept[k]));
        all.lemma_filter_contains_rev(keep, d);
    }
    assert forall|j: int| 0 <= j < all.len() && (#[trigger] all[j]).npix >= minarea as u32 implies ranked.contains(
        all[j],
    ) by {
        assert(keep(all[j]));
        all.lemma_filter_contains(keep, j);
        assert(kept.to_multiset().count(all[j]) > 0);
        assert(ranked.to_multiset().count(all[j]) > 0);
    }
}

/// There are no more pixels of a label before `(r, c)` than pixels there.
proof fn lemma_pixels_of_len(labels: Map<(usize, usize), u32>, l: u32, ncols: nat, r: nat, c: nat)
    requires
        c <= ncols,
    ensures
        pixels_of(labels, l, ncols, r, c).len() <= r * ncols + c,
    decreases r, c,
{
    if c == 0 {
        if r > 0 {
            lemma_pixels_of_len(labels, l, ncols, (r - 1) as nat, ncols);
            assert((r - 1) * ncols + ncols == r * ncols) by (nonlinear_arith);
        }
    } else {
        lemma_pixels_of_len(labels, l, ncols, r, (c - 1) as nat);
    }
}

/// A labeled region ends up numbered in the label image exactly when it has
/// at least `minarea` pixels (compared as the pixel counts are, in `u32`).
pub proof fn lemma_labeled_iff_large(
    regions: Map<(usize, usize), u32>,
    keys: Map<(usize, usize), i64>,
    shape: (usize, usize),
    minarea: usize,
    p: (usize, usize),
)
    requires
        in_shape(shape, p),
        regions.dom().contains(p),
        regions[p] != 0,
        (shape.0 as int) * (shape.1 as int) < u32::MAX,
        all_stats(regions, keys, shape).len() < u32::MAX,
    ensures
        renumbered_map(regions, ranked_detections(regions, keys, shape, minarea))[p] != 0 <==> pixels_of(
            regions,
            regions[p],
            shape.1 as nat,
            shape.0 as nat,
            0,
        ).len() >= minarea as u32,
{
    let l = regions[p];
    let ncols = shape.1 as nat;
    let nrows = shape.0 as nat;
    let s = scan(regions, keys, ncols, nrows, 0);
    let px = pixels_of(regions, l, ncols, nrows, 0);
    let all = all_stats(regions, keys, shape);
    let ranked = ranked_detections(regions, keys, shape, minarea);
    let map = renumbered_map(regions, ranked);
    lemma_pixels_of_contains(regions, l, ncols, nrows, 0, p);
    lemma_pixels_of_len(regions, l, ncols, nrows, 0);
    assert(nrows * ncols + 0 < u32::MAX);
    lemma_scan_describes_pixels(regions, keys, ncols, nrows, 0, l);
    lemma_scan_shape(regions, keys, ncols, nrows, 0);
    lemma_kept_regions(regions, keys, shape, minarea);
    lemma_detections_match_labels(regions, keys, shape, minarea);
    assert(s.1.dom().contains(l));
    let d = s.1[l];
    assert(d.npix == px.len());
    assert(s.0.contains(l));
    let j = choose|j: int| 0 <= j < s.0.len() && s.0[j] == l;
    assert(all[j] == d);
    assert(map.dom().contains(p));
    if px.len() >= minarea as u32 {
        assert(ranked.contains(all[j]));
        let i = choose|i: int| 0 <= i < ranked.len() && ranked[i] == all[j];
        assert(d.label == l);
        assert(map[p] == i + 1 <==> regions[p] == ranked[i].label);
    }
    if map[p] != 0 {
        let i = map[p] - 1;
        assert(map[p] == i + 1 <==> regions[p] == ranked[i].label);
        assert(ranked[i].npix >= minarea as u32 && all.contains(ranked[i]));
        let j2 = choose|j2: int| 0 <= j2 < all.len() && all[j2] == ranked[i];
        assert(all[j2] == s.1[s.0[j2]]);
        assert(s.1.dom().contains(s.0[j2]));
        assert(s.0[j2] == l);
    }
}

/// The statistics that the scan gathers for a label are those of the pixels
/// carrying it (as `measure::pixels_by_label` lists them, in raster order):
/// the count, the bounding box of their rows and columns (each bound reached),
/// and the first pixel of highest key with that key.
#[verifier::spinoff_prover]
#[verifier::rlimit(40)]
pub proof fn lemma_scan_describes_pixels(
    labels: Map<(usize, usize), u32>,
    keys: Map<(usize, usize), i64>,
    ncols: nat,
    r: nat,
    c: nat,
    l: u32,
)
    requires
        l != 0,
        r <= usize::MAX,
        c <= usize::MAX,
        ncols <= usize::MAX,
    ensures
        ({
            let s = scan(labels, keys, ncols, r, c);
            let px = pixels_of(labels, l, ncols, r, c);
            &&& forall|i: int| 0 <= i < px.len() ==> (#[trigger] px[i]).0 < r || (px[i].0 == r && px[i].1 < c)
            &&& forall|i: int, j: int| 0 <= i < j < px.len() ==> raster_before(#[trigger] px[i], #[trigger] px[j])
            &&& (s.1.dom().contains(l) <==> px.len() > 0)
            &&& s.1.dom().contains(l) ==> {
                let d = s.1[l];
                &&& px.len() <= u32::MAX ==> d.npix == px.len()
                &&& forall|i: int|
                    0 <= i < px.len() ==> d.bbox[0] <= (#[trigger] px[i]).0 <= d.bbox[1] && d.bbox[2] <= px[i].1
                        <= d.bbox[3]
                &&& exists|i: int| 0 <= i < px.len() && (#[trigger] px[i]).0 == d.bbox[0]
                &&& exists|i: int| 0 <= i < px.len() && (#[trigger] px[i]).0 == d.bbox[1]
                &&& exists|i: int| 0 <= i < px.len() && (#[trigger] px[i]).1 == d.bbox[2]
                &&& exists|i: int| 0 <= i < px.len() && (#[trigger] px[i]).1 == d.bbox[3]
                &&& exists|i: int|
                    0 <= i < px.len() && #[trigger] px[i] == (d.peak_pos[0], d.peak_pos[1]) && keys[px[i]] == d.peak_key
                &&& forall|i: int| 0 <= i < px.len() ==> keys[#[trigger] px[i]] <= d.peak_key
                &&& forall|i: int|
                    0 <= i < px.len() && keys[#[trigger] px[i]] == d.peak_key ==> !raster_before(
                        px[i],
                        (d.peak_pos[0], d.peak_pos[1]),
                    )
            }
        }),
    decreases r, c,
{
    if c == 0 {
        if r > 0 {
            lemma_scan_describes_pixels(labels, keys, ncols, (r - 1) as nat, ncols, l);
        }
    } else {
        lemma_scan_describes_pixels(labels, keys, ncols, r, (c - 1) as nat, l);
        let p = (r as usize, (c - 1) as usize);
        let s0 = scan(labels, keys, ncols, r, (c - 1) as nat);
        let px0 = pixels_of(labels, l, ncols, r, (c - 1) as nat);
        let s = scan(labels, keys, ncols, r, c);
        let px = pixels_of(labels, l, ncols, r, c);
        if labels[p] != l {
            assert(px == px0);
            if labels[p] != 0 {
                assert(s.1.dom().contains(l) == s0.1.dom().contains(l));
                if s0.1.dom().contains(l) {
                    assert(s.1[l] == s0.1[l]);
                }
            }
        } else {
            assert(px == px0.push(p));
            let k = keys[p];
            assert forall|i: int, j: int| 0 <= i < j < px.len() implies raster_before(#[trigger] px[i], #[trigger] px[j]) by {
                if j < px0.len() {
                    assert(px[i] == px0[i] && px[j] == px0[j]);
                } else {
                    assert(px[i] == px0[i]);
                }
            }
            if s0.1.dom().contains(l) {
                let d0 = s0.1[l];
                let d = s.1[l];
                assert(d == grow_detection(d0, k, p));
                assert forall|i: int| 0 <= i < px.len() implies d.bbox[0] <= (#[trigger] px[i]).0 <= d.bbox[1] && d.bbox[2] <= px[i].1 <= d.bbox[3] by {
                    if i < px0.len() {
                        assert(px[i] == px0[i]);
                    }
                }
                let i0 = choose|i: int| 0 <= i < px0.len() && (#[trigger] px0[i]).0 == d0.bbox[0];
                let i1 = choose|i: int| 0 <= i < px0.len() && (#[trigger] px0[i]).0 == d0.bbox[1];
                let i2 = choose|i: int| 0 <= i < px0.len() && (#[trigger] px0[i]).1 == d0.bbox[2];
                let i3 = choose|i: int| 0 <= i < px0.len() && (#[trigger] px0[i]).1 == d0.bbox[3];
                let ip = choose|i: int|
                    0 <= i < px0.len() && #[trigger] px0[i] == (d0.peak_pos[0], d0.peak_pos[1]) && keys[px0[i]] == d0.peak_key;
                let last = px0.len() as int;
                assert(px[last] == p);
                assert(px[i0] == px0[i0] && px[i1] == px0[i1] && px[i2] == px0[i2] && px[i3] == px0[i3] && px[ip] == px0[ip]);
                if p.0 < d0.bbox[0] {
                    assert(px[last].0 == d.bbox[0]);
                } else {
                    assert(px[i0].0 == d.bbox[0]);
                }
                if p.0 > d0.bbox[1] {
                    assert(px[last].0 == d.bbox[1]);
                } else {
                    assert(px[i1].0 == d.bbox[1]);
                }
                if p.1 < d0.bbox[2] {
                    assert(px[last].1 == d.bbox[2]);
                } else {
                    assert(px[i2].1 == d.bbox[2]);
                }
                if p.1 > d0.bbox[3] {
                    assert(px[last].1 == d.bbox[3]);
                } else {
                    assert(px[i3].1 == d.bbox[3]);
                }
                assert forall|i: int| 0 <= i < px.len() implies keys[#[trigger] px[i]] <= d.peak_key by {
                    if i < px0.len() {
                        assert(px[i] == px0[i]);
                    }
                }
                if k > d0.peak_key {
                    assert(px[last] == (d.peak_pos[0], d.peak_pos[1]) && keys[px[last]] == d.peak_key);
                    assert forall|i: int| 0 <= i < px.len() && keys[#[trigger] px[i]] == d.peak_key implies !raster_before(
                        px[i],
                        (d.peak_pos[0], d.peak_pos[1]),
                    ) by {
                        if i < px0.len() {
                            assert(px[i] == px0[i]);
                        }
                    }
                } else {
                    assert(px[ip] == (d.peak_pos[0], d.peak_pos[1]) && keys[px[ip]] == d.peak_key);
                    assert forall|i: int| 0 <= i < px.len() && keys[#[trigger] px[i]] == d.peak_key implies !raster_before(
                        px[i],
                        (d.peak_pos[0], d.peak_pos[1]),
                    ) by {
                        if i < px0.len() {
                            assert(px[i] == px0[i]);
                        } else {
                            assert(px0[ip].0 < r || (px0[ip].0 == r && px0[ip].1 < c - 1));
                        }
                    }
                }
            } else {
                assert(px0.len() == 0);
                let d = s.1[l];
                assert(d == new_detection(l, k, p));
                assert(px[0] == p);
                assert forall|i: int| 0 <= i < px.len() implies d.bbox[0] <= (#[trigger] px[i]).0 <= d.bbox[1] && d.bbox[2] <= px[i].1 <= d.bbox[3] by {
                    assert(i == 0);
                }
                assert(px[0].0 == d.bbox[0] && px[0].0 == d.bbox[1] && px[0].1 == d.bbox[2] && px[0].1 == d.bbox[3]);
                assert(px[0] == (d.peak_pos[0], d.peak_pos[1]) && keys[px[0]] == d.peak_key);
            }
        }
    }
}

} // verus!
