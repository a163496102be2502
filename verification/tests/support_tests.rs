use vera::bricks::{brick_name_range, is_brick_image};
use vera::fits_read::{check_tile_pixels, image_hdu_shape, tile_hdu_shape, FitsError};
use vera::grid::LabelGrid;
use vera::measure::{aperture_window, edge_flags, pixels_by_label, FLAG_EDGE, FLAG_SATURATED};
use vera::mesh::{cell_bounds, clamp_index, mesh_shape};

#[test]
fn mesh_shape_rounds_up() {
    assert_eq!(mesh_shape(3600, 3600, 64), (57, 57));
    assert_eq!(mesh_shape(128, 64, 64), (2, 1));
    assert_eq!(mesh_shape(0, 10, 64), (0, 1));
    assert_eq!(mesh_shape(100, 130, 64), (2, 3));
    assert_eq!(mesh_shape(7, 7, 1), (7, 7));
}

#[test]
fn cell_bounds_are_cut_at_the_image_edge() {
    let (nrows, ncols, mesh) = (100, 130, 64);
    let (_, gc) = mesh_shape(nrows, ncols, mesh);
    assert_eq!(cell_bounds(0, gc, mesh, nrows, ncols), (0, 64, 0, 64));
    assert_eq!(cell_bounds(1, gc, mesh, nrows, ncols), (0, 64, 64, 128));
    assert_eq!(cell_bounds(2, gc, mesh, nrows, ncols), (0, 64, 128, 130));
    assert_eq!(cell_bounds(5, gc, mesh, nrows, ncols), (64, 100, 128, 130));
}

#[test]
fn cells_partition_the_image() {
    // Every pixel lies in exactly one cell of the mesh.
    for &(nrows, ncols, mesh) in &[(10usize, 7usize, 3usize), (9, 9, 3), (5, 12, 4), (1, 1, 64)] {
        let (gr, gc) = mesh_shape(nrows, ncols, mesh);
        let cells: Vec<_> = (0..gr * gc).map(|i| cell_bounds(i, gc, mesh, nrows, ncols)).collect();
        for r in 0..nrows {
            for c in 0..ncols {
                let n = cells.iter().filter(|&&(r0, r1, c0, c1)| r0 <= r && r < r1 && c0 <= c && c < c1).count();
                assert_eq!(n, 1, "pixel ({r},{c}) with mesh {mesh}");
            }
        }
    }
}

#[test]
fn clamp_index_keeps_inside() {
    assert_eq!(clamp_index(-3, 5), 0);
    assert_eq!(clamp_index(0, 5), 0);
    assert_eq!(clamp_index(2, 5), 2);
    assert_eq!(clamp_index(5, 5), 4);
    assert_eq!(clamp_index(70, 5), 4);
    assert_eq!(clamp_index(isize::MIN, 1), 0);
}

#[test]
fn edge_flag_when_box_touches_border() {
    assert_eq!(FLAG_EDGE, 0x01);
    assert_eq!(FLAG_SATURATED, 0x04);
    assert_eq!(edge_flags(&[0, 3, 2, 4], 10, 10), FLAG_EDGE);
    assert_eq!(edge_flags(&[1, 8, 1, 8], 10, 10), 0);
    assert_eq!(edge_flags(&[1, 9, 1, 8], 10, 10), FLAG_EDGE);
    assert_eq!(edge_flags(&[1, 8, 0, 8], 10, 10), FLAG_EDGE);
    assert_eq!(edge_flags(&[1, 8, 1, 9], 10, 10), FLAG_EDGE);
}

#[test]
fn aperture_window_widens_and_cuts() {
    assert_eq!(aperture_window(&[5, 6, 5, 6], 3, 10, 10), (2, 10, 2, 10));
    assert_eq!(aperture_window(&[1, 2, 1, 2], 3, 20, 20), (0, 6, 0, 6));
    assert_eq!(aperture_window(&[10, 12, 4, 4], 0, 20, 20), (10, 13, 4, 5));
}

#[test]
fn pixels_grouped_by_label_in_raster_order() {
    let g = LabelGrid::from_flat(3, 3, &vec![0, 0, 2, 1, 0, 2, 0, 1, 0]).unwrap();
    let groups = pixels_by_label(&g);
    assert_eq!(groups.len(), 2);
    assert_eq!(groups[&1], vec![(1, 0), (2, 1)]);
    assert_eq!(groups[&2], vec![(0, 2), (1, 2)]);
    assert!(!groups.contains_key(&0));
    assert!(pixels_by_label(&LabelGrid::from_flat(2, 2, &vec![0; 4]).unwrap()).is_empty());
}

#[test]
fn image_hdu_shapes() {
    assert_eq!(image_hdu_shape(&[100, 50]), Some((50, 100)));
    assert_eq!(image_hdu_shape(&[3, 4, 5]), Some((4, 3)));
    assert_eq!(image_hdu_shape(&[100]), None);
    assert_eq!(image_hdu_shape(&[]), None);
    assert_eq!(image_hdu_shape(&[0, 5]), None);
    assert_eq!(image_hdu_shape(&[5, 0]), None);
}

#[test]
fn tile_hdu_shapes() {
    assert_eq!(tile_hdu_shape(Some(3600), Some(2400)), Some((2400, 3600)));
    assert_eq!(tile_hdu_shape(Some(0), Some(10)), None);
    assert_eq!(tile_hdu_shape(Some(10), Some(-1)), None);
    assert_eq!(tile_hdu_shape(None, Some(10)), None);
    assert_eq!(tile_hdu_shape(Some(10), None), None);
}

#[test]
fn tile_pixel_count_must_fill_shape() {
    assert!(check_tile_pixels(12, 3, 4).is_ok());
    assert!(check_tile_pixels(0, 0, 7).is_ok());
    match check_tile_pixels(11, 3, 4) {
        Err(FitsError::BadShape(v)) => assert_eq!(v, vec![11, 3, 4]),
        _ => panic!("expected BadShape"),
    }
}

#[test]
fn brick_image_file_names() {
    assert!(is_brick_image("legacysurvey-1877p122-image-r.fits.fz", "r"));
    assert!(!is_brick_image("legacysurvey-1877p122-image-g.fits.fz", "r"));
    assert!(!is_brick_image("survey-1877p122-image-r.fits.fz", "r"));
    assert!(!is_brick_image("legacysurvey-1877p122-invvar-r.fits.fz", "r"));
    assert!(!is_brick_image("legacysurvey-1877p122-image-r.fits", "r"));
    assert!(is_brick_image("legacysurvey--image-z.fits.fz", "z"));
}

#[test]
fn brick_name_is_second_field() {
    let stem = "legacysurvey-1877p122-image-r.fits";
    let (a, b) = brick_name_range(stem).unwrap();
    assert_eq!(&stem[a..b], "1877p122");
    assert_eq!(brick_name_range("nodash"), None);
    assert_eq!(brick_name_range("a-b"), Some((2, 3)));
    assert_eq!(brick_name_range("a-"), Some((2, 2)));
    assert_eq!(brick_name_range("-x-y"), Some((1, 2)));
}
