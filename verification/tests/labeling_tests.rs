use vera::grid::{LabelGrid, MaskGrid};
use vera::labeling::label_connected_components;
use vera::union_find::{find, union};

fn mask_from(rows: &[&str]) -> MaskGrid {
    let nrows = rows.len();
    let ncols = rows[0].len();
    let flat: Vec<bool> = rows.iter().flat_map(|line| line.chars().map(|ch| ch == '#')).collect();
    MaskGrid::from_flat(nrows, ncols, &flat).unwrap()
}

fn labels_of(g: &LabelGrid) -> Vec<Vec<u32>> {
    let (nrows, ncols, flat) = g.to_flat();
    (0..nrows).map(|r| flat[r * ncols..(r + 1) * ncols].to_vec()).collect()
}

fn shape_of(g: &LabelGrid) -> (usize, usize) {
    let (nrows, ncols, _) = g.to_flat();
    (nrows, ncols)
}

#[test]
fn labels_two_regions_in_raster_order() {
    let mask = mask_from(&["##..#", "#...#", ".....", "..##."]);
    let labels = label_connected_components(&mask);
    assert_eq!(
        labels_of(&labels),
        vec![vec![1, 1, 0, 0, 2], vec![1, 0, 0, 0, 2], vec![0, 0, 0, 0, 0], vec![0, 0, 3, 3, 0]]
    );
}

#[test]
fn diagonal_neighbours_are_connected() {
    let mask = mask_from(&["#..", ".#.", "..#"]);
    let labels = label_connected_components(&mask);
    assert_eq!(labels_of(&labels), vec![vec![1, 0, 0], vec![0, 1, 0], vec![0, 0, 1]]);
}

#[test]
fn u_shape_merges_into_one_region() {
    // The two arms get different provisional labels and meet at the bottom.
    let mask = mask_from(&["#.#", "#.#", "###"]);
    let labels = label_connected_components(&mask);
    assert_eq!(labels_of(&labels), vec![vec![1, 0, 1], vec![1, 0, 1], vec![1, 1, 1]]);
}

#[test]
fn w_shape_merges_several_provisional_labels() {
    let mask = mask_from(&["#.#.#", "#.#.#", "#####", "....."]);
    let labels = label_connected_components(&mask);
    let l = labels_of(&labels);
    for r in 0..3 {
        for c in 0..5 {
            let expected = if (r < 2 && c % 2 == 1) { 0 } else { 1 };
            assert_eq!(l[r][c], expected, "pixel ({r},{c})");
        }
    }
    assert!(l[3].iter().all(|&v| v == 0));
}

#[test]
fn empty_mask_has_no_labels() {
    let mask = MaskGrid::from_flat(4, 3, &vec![false; 12]).unwrap();
    let labels = label_connected_components(&mask);
    assert!(labels_of(&labels).iter().flatten().all(|&v| v == 0));
    assert_eq!(shape_of(&labels), (4, 3));
}

#[test]
fn full_mask_is_one_region() {
    let mask = MaskGrid::from_flat(3, 3, &vec![true; 9]).unwrap();
    let labels = label_connected_components(&mask);
    assert!(labels_of(&labels).iter().flatten().all(|&v| v == 1));
}

#[test]
fn zero_sized_mask() {
    let mask = MaskGrid::from_flat(0, 5, &Vec::new()).unwrap();
    let labels = label_connected_components(&mask);
    assert_eq!(shape_of(&labels), (0, 5));
}

#[test]
fn grids_refuse_data_of_the_wrong_size() {
    assert!(MaskGrid::from_flat(2, 3, &vec![false; 5]).is_none());
    assert!(MaskGrid::from_flat(0, usize::MAX, &Vec::new()).is_none());
    assert!(LabelGrid::from_flat(2, 2, &vec![1, 2, 3, 4, 5]).is_none());
    let g = LabelGrid::from_flat(2, 3, &vec![1, 2, 3, 4, 5, 6]).unwrap();
    assert_eq!(g.to_flat(), (2, 3, vec![1, 2, 3, 4, 5, 6]));
    assert_eq!(labels_of(&g), vec![vec![1, 2, 3], vec![4, 5, 6]]);
}

#[test]
fn union_links_larger_root_under_smaller() {
    let mut parent: Vec<u32> = vec![0, 1, 2, 3, 4];
    union(&mut parent, 4, 2);
    assert_eq!(parent, vec![0, 1, 2, 3, 2]);
    union(&mut parent, 3, 4);
    assert_eq!(find(&parent, 3), 2);
    assert_eq!(find(&parent, 4), 2);
    assert_eq!(find(&parent, 1), 1);
    union(&mut parent, 1, 3);
    for l in 1..5u32 {
        assert_eq!(find(&parent, l), 1);
    }
    assert_eq!(find(&parent, 0), 0);
}

#[test]
fn union_of_same_class_changes_nothing() {
    let mut parent: Vec<u32> = vec![0, 1, 1, 2];
    union(&mut parent, 3, 2);
    assert_eq!(parent, vec![0, 1, 1, 2]);
}

#[test]
fn union_is_symmetric_and_moves_one_entry() {
    let mut a: Vec<u32> = vec![0, 1, 2, 2];
    let mut b = a.clone();
    union(&mut a, 1, 3);
    union(&mut b, 3, 1);
    assert_eq!(a, vec![0, 1, 1, 2]);
    assert_eq!(a, b);
    let mut c: Vec<u32> = vec![0, 1, 1, 2];
    union(&mut c, 3, 1);
    assert_eq!(c, vec![0, 1, 1, 2]);
}
