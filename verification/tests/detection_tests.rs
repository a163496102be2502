use vera::detection::{collect_detections, detect_from_keys, order_key, renumber, threshold_mask, Detection};
use vera::grid::{KeyGrid, LabelGrid};

fn keys_from(rows: &[&[f32]]) -> KeyGrid {
    let nrows = rows.len();
    let ncols = rows[0].len();
    let flat: Vec<i64> = rows.iter().flat_map(|row| row.iter().map(|v| order_key(v.to_bits()))).collect();
    KeyGrid::from_flat(nrows, ncols, &flat).unwrap()
}

fn labels_from(rows: &[&[u32]]) -> LabelGrid {
    let nrows = rows.len();
    let ncols = rows[0].len();
    let flat: Vec<u32> = rows.iter().flat_map(|row| row.iter().copied()).collect();
    LabelGrid::from_flat(nrows, ncols, &flat).unwrap()
}

fn labels_of(g: &LabelGrid) -> Vec<Vec<u32>> {
    let (nrows, ncols, flat) = g.to_flat();
    (0..nrows).map(|r| flat[r * ncols..(r + 1) * ncols].to_vec()).collect()
}

fn key(v: f32) -> i64 {
    order_key(v.to_bits())
}

#[test]
fn order_key_of_known_values() {
    assert_eq!(order_key(0x3FC0_0000), 0x3FC0_0000);
    assert_eq!(key(1.5), 0x3FC0_0000);
    assert_eq!(key(-1.0), -0x3F80_0000);
    assert_eq!(key(0.0), 0);
    assert_eq!(key(-0.0), 0);
    assert_eq!(key(f32::INFINITY), 0x7F80_0000);
    assert_eq!(key(f32::NEG_INFINITY), -0x7F80_0000);
}

#[test]
fn order_key_follows_float_order() {
    let values = [
        f32::NEG_INFINITY,
        -1.0e30,
        -2.5,
        -1.0,
        -1.0e-40,
        0.0,
        1.0e-40,
        1.0,
        1.5,
        2.0,
        3.0e38,
        f32::INFINITY,
    ];
    for a in values.iter() {
        for b in values.iter() {
            assert_eq!(a < b, key(*a) < key(*b), "{a} vs {b}");
            assert_eq!(a == b, key(*a) == key(*b), "{a} vs {b}");
        }
    }
}

#[test]
fn threshold_marks_pixels_strictly_above() {
    let keys = keys_from(&[&[1.5, 1.6, -3.0], &[2.0, 1.4, 1.5]]);
    let mask = threshold_mask(&keys, key(1.5));
    assert_eq!(mask.to_flat(), (2, 3, vec![false, true, false, true, false, false]));
}

fn summary(d: &Detection) -> (u32, u32, [usize; 4], i64, [usize; 2]) {
    (d.label, d.npix, d.bbox, d.peak_key, d.peak_pos)
}

#[test]
fn collect_keeps_large_regions_by_decreasing_peak() {
    let labels = labels_from(&[&[1, 1, 0, 3], &[0, 2, 0, 3], &[2, 2, 0, 0]]);
    let keys = keys_from(&[&[2.0, 4.0, 0.0, 7.0], &[0.0, 3.0, 0.0, 1.0], &[5.0, 5.0, 0.0, 0.0]]);
    let dets = collect_detections(&labels, &keys, 2);
    let got: Vec<_> = dets.iter().map(summary).collect();
    assert_eq!(
        got,
        vec![
            (3, 2, [0, 1, 3, 3], key(7.0), [0, 3]),
            (2, 3, [1, 2, 0, 1], key(5.0), [2, 0]),
            (1, 2, [0, 0, 0, 1], key(4.0), [0, 1]),
        ]
    );
}

#[test]
fn collect_drops_regions_below_minarea() {
    let labels = labels_from(&[&[1, 0, 2], &[0, 0, 2]]);
    let keys = keys_from(&[&[9.0, 0.0, 2.0], &[0.0, 0.0, 3.0]]);
    let dets = collect_detections(&labels, &keys, 2);
    assert_eq!(dets.len(), 1);
    assert_eq!(summary(&dets[0]), (2, 2, [0, 1, 2, 2], key(3.0), [1, 2]));
    assert!(collect_detections(&labels, &keys, 3).is_empty());
    assert_eq!(collect_detections(&labels, &keys, 0).len(), 2);
}

#[test]
fn equal_peaks_keep_first_pixel_and_scan_order() {
    // Region 1 has its peak value twice; region 2 peaks at the same value.
    let labels = labels_from(&[&[1, 1, 0, 2, 2]]);
    let keys = keys_from(&[&[4.0, 4.0, 0.0, 4.0, 1.0]]);
    let dets = collect_detections(&labels, &keys, 1);
    let got: Vec<_> = dets.iter().map(summary).collect();
    assert_eq!(got, vec![(1, 2, [0, 0, 0, 1], key(4.0), [0, 0]), (2, 2, [0, 0, 3, 4], key(4.0), [0, 3])]);
}

#[test]
fn renumber_follows_list_order() {
    let mut labels = labels_from(&[&[5, 0, 7], &[5, 0, 9]]);
    let keys = keys_from(&[&[1.0, 0.0, 8.0], &[2.0, 0.0, 3.0]]);
    let mut dets = collect_detections(&labels, &keys, 1);
    assert_eq!(dets.iter().map(|d| d.label).collect::<Vec<_>>(), vec![7, 9, 5]);
    renumber(&mut labels, &mut dets);
    assert_eq!(dets.iter().map(|d| d.label).collect::<Vec<_>>(), vec![1, 2, 3]);
    assert_eq!(labels_of(&labels), vec![vec![3, 0, 1], vec![3, 0, 2]]);
    assert_eq!(dets[2].npix, 2);
    assert_eq!(dets[0].peak_pos, [0, 2]);
}

#[test]
fn detect_labels_filters_and_ranks() {
    let snr: &[&[f32]] = &[
        &[0.0, 2.0, 2.0, 0.0, 0.0, 0.0],
        &[0.0, 2.0, 9.0, 0.0, 0.0, 7.0],
        &[0.0, 0.0, 0.0, 0.0, 0.0, 8.0],
        &[3.0, 0.0, 0.0, -5.0, 0.0, 0.0],
        &[0.0, 0.0, 0.0, 0.0, 4.0, 4.0],
    ];
    let keys = keys_from(snr);
    let list = detect_from_keys(&keys, key(1.5), 2);
    let got: Vec<_> = list.detections.iter().map(summary).collect();
    assert_eq!(
        got,
        vec![
            (1, 4, [0, 1, 1, 2], key(9.0), [1, 2]),
            (2, 2, [1, 2, 5, 5], key(8.0), [2, 5]),
            (3, 2, [4, 4, 4, 5], key(4.0), [4, 4]),
        ]
    );
    assert_eq!(
        labels_of(&list.label_map),
        vec![
            vec![0, 1, 1, 0, 0, 0],
            vec![0, 1, 1, 0, 0, 2],
            vec![0, 0, 0, 0, 0, 2],
            vec![0, 0, 0, 0, 0, 0],
            vec![0, 0, 0, 0, 3, 3],
        ]
    );
}

#[test]
fn detect_label_map_matches_detection_list() {
    // Every labeled pixel lies in the box of its detection, and each
    // detection's pixel count is the number of pixels carrying its label.
    let snr: &[&[f32]] = &[
        &[3.0, 3.0, 0.0, 0.0, 2.0, 0.0, 0.0],
        &[0.0, 3.0, 0.0, 2.0, 0.0, 0.0, 6.0],
        &[0.0, 0.0, 0.0, 0.0, 0.0, 6.0, 0.0],
        &[5.0, 5.0, 5.0, 0.0, 0.0, 0.0, 0.0],
        &[0.0, 0.0, 5.0, 0.0, 1.0, 1.0, 0.0],
    ];
    let keys = keys_from(snr);
    let list = detect_from_keys(&keys, key(1.5), 1);
    let labels = labels_of(&list.label_map);
    let mut counts = vec![0u32; list.detections.len()];
    for (r, row) in labels.iter().enumerate() {
        for (c, &l) in row.iter().enumerate() {
            assert_eq!(l != 0, snr[r][c] > 1.5, "pixel ({r},{c})");
            if l != 0 {
                let d = &list.detections[(l - 1) as usize];
                assert_eq!(d.label, l);
                assert!(d.bbox[0] <= r && r <= d.bbox[1] && d.bbox[2] <= c && c <= d.bbox[3]);
                counts[(l - 1) as usize] += 1;
            }
        }
    }
    for (i, d) in list.detections.iter().enumerate() {
        assert_eq!(counts[i], d.npix);
        let [pr, pc] = d.peak_pos;
        assert_eq!(labels[pr][pc], d.label);
        assert_eq!(key(snr[pr][pc]), d.peak_key);
    }
    for w in list.detections.windows(2) {
        assert!(w[0].peak_key >= w[1].peak_key);
    }
    assert_eq!(list.detections.len(), 4);
}

#[test]
fn detect_on_empty_and_flat_images() {
    let keys = KeyGrid::from_flat(3, 4, &vec![key(1.0); 12]).unwrap();
    let list = detect_from_keys(&keys, key(1.5), 1);
    assert!(list.detections.is_empty());
    assert!(labels_of(&list.label_map).iter().flatten().all(|&l| l == 0));

    let keys = KeyGrid::from_flat(3, 4, &vec![key(2.0); 12]).unwrap();
    let list = detect_from_keys(&keys, key(1.5), 5);
    assert_eq!(list.detections.len(), 1);
    assert_eq!(summary(&list.detections[0]), (1, 12, [0, 2, 0, 3], key(2.0), [0, 0]));

    let keys = KeyGrid::from_flat(0, 0, &Vec::new()).unwrap();
    let list = detect_from_keys(&keys, key(1.5), 5);
    assert!(list.detections.is_empty());
    assert_eq!(list.label_map.to_flat(), (0, 0, Vec::new()));
}
