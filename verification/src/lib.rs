//! Source extraction on sky-survey images: connected-component labeling,
//! detection lists ranked by peak signal-to-noise, the integer geometry of
//! background meshes and photometric apertures, and FITS catalogue output,
//! each with its contract proved.
pub mod bricks;
pub mod connectivity;
pub mod detection;
pub mod fits_columns;
pub mod fits_header;
pub mod fits_read;
pub mod fits_table;
pub mod grid;
pub mod labeling;
pub mod measure;
pub mod mesh;
pub mod union_find;
