# vera

Source detection and photometry on optical survey images (DECam bricks of the
DESI Legacy Imaging Survey), written as a Verus-verified library with a thin
command-line program around it.

## Layout

- `src/` — the verified library.
  - `grid.rs`: integer and boolean images held in `ndarray` arrays, with their
    contents named cell by cell.
  - `connectivity.rs`, `union_find.rs`, `labeling.rs`: two-pass 8-connected
    component labeling with union-find; the labels are proved to be exactly
    the connected components, numbered in raster order.
  - `detection.rs`: thresholding of signal-to-noise keys, per-region
    statistics, the minimum-area filter, ranking by peak and the numbering of
    the kept regions in the list and in the label image.
  - `measure.rs`, `mesh.rs`: the integer side of photometry and background
    estimation (pixels per label, edge flags, aperture windows, mesh cells,
    index clamping).
  - `fits_header.rs`, `fits_table.rs`: FITS header cards and the catalogue as a
    binary table, byte for byte.
  - `fits_read.rs`, `bricks.rs`: the decisions of the image reader and of
    brick discovery.
- `tests/` — tests of the library on concrete values.
- `app/` — the `vera` program: FITS reading with `fitsrs`, the floating-point
  parts of the pipeline (background statistics, Gaussian smoothing,
  photometry, sky coordinates, cross-brick de-duplication), file output and
  the command line.

## Catalogue header

The `SOFTWARE` card of the catalogue headers names the program only
(`'vera'`, comment `Processing software`), and so does the CSV header line:
no development-tool credit is written into the catalogues. Every other card
has its usual value.

## GPU smoothing

The command-line program smooths on the CPU only: the compute shaders of the
GPU path are not part of this source tree, so that path and its crates
(`wgpu`, `pollster`, `bytemuck`) are not included.
