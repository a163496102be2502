//! Decisions of the FITS image reader: which header-data unit holds the
//! image and whether its pixels fill the announced shape.
use vstd::prelude::*;

verus! {

/// `std::io::Error`, carried through the library's error type unread.
#[verifier::external_type_specification]
#[verifier::external_body]
pub struct ExIoError(std::io::Error);

/// What can go wrong while reading an image.
pub enum FitsError {
    /// Reading the file failed.
    Io(std::io::Error),
    /// The FITS structure could not be parsed (the parser's message).
    Fits(String),
    /// No header-data unit holds a non-empty 2-D image.
    NoImage,
    /// The pixels do not fill the announced shape (the sizes involved).
    BadShape(Vec<usize>),
}

/// The shape `(nrows, ncols)` of a plain image HDU with axis lengths `naxis`
/// (NAXIS1 first), or `None` when it is not a non-empty 2-D image.
pub open spec fn image_shape_of(naxis: Seq<u64>) -> Option<(usize, usize)> {
    if naxis.len() < 2 || naxis[0] as usize == 0 || naxis[1] as usize == 0 {
        None
    } else {
        Some((naxis[1] as usize, naxis[0] as usize))
    }
}

/// The reader's choice for a primary or IMAGE extension HDU: the image shape
/// `(nrows, ncols)`, or `None` to go on to the next HDU.
pub fn image_hdu_shape(naxis: &[u64]) -> (shape: Option<(usize, usize)>)
    ensures
        shape == image_shape_of(naxis@),
        // NAXIS1 counts the columns and NAXIS2 the rows; both must be there
        // and non-zero.
        shape matches Some((r, c)) ==> naxis@.len() >= 2 && c == naxis@[0] as usize && r == naxis@[1] as usize && r > 0
            && c > 0,
        shape is None ==> naxis@.len() < 2 || naxis@[0] as usize == 0 || naxis@[1] as usize == 0,
{
    if naxis.len() < 2 {
        return None;
    }
    let ncols = naxis[0] as usize;
    let nrows = naxis[1] as usize;
    if ncols == 0 || nrows == 0 {
        return None;
    }
    Some((nrows, ncols))
}

/// The shape `(nrows, ncols)` of a tile-compressed image whose ZNAXIS1 and
/// ZNAXIS2 keywords parsed as given (`None` when absent or unparsable), or
/// `None` when either is missing or not positive.
pub open spec fn tile_shape_of(znaxis1: Option<i64>, znaxis2: Option<i64>) -> Option<(usize, usize)> {
    match (znaxis1, znaxis2) {
        (Some(c), Some(r)) => if c > 0 && r > 0 { Some((r as usize, c as usize)) } else { None },
        _ => None,
    }
}

/// The reader's choice for a binary-table HDU that may hold a tile-compressed
/// image: the uncompressed shape, or `None` to go on to the next HDU.
pub fn tile_hdu_shape(znaxis1: Option<i64>, znaxis2: Option<i64>) -> (shape: Option<(usize, usize)>)
    ensures
        shape == tile_shape_of(znaxis1, znaxis2),
        // ZNAXIS1 counts the columns and ZNAXIS2 the rows; both must parse
        // and be positive.
        shape matches Some((r, c)) ==> znaxis1 is Some && znaxis2 is Some && znaxis1.unwrap() > 0 && znaxis2.unwrap() > 0
            && c == znaxis1.unwrap() as usize && r == znaxis2.unwrap() as usize,
        shape is None ==> !(znaxis1 is Some && znaxis1.unwrap() > 0 && znaxis2 is Some && znaxis2.unwrap() > 0),
{
    // ZNAXIS1/ZNAXIS2 hold the uncompressed image dimensions.
    let ncols = match znaxis1 {
        Some(v) if v > 0 => v as usize,
        _ => return None,
    };
    let nrows = match znaxis2 {
        Some(v) if v > 0 => v as usize,
        _ => return None,
    };
    Some((nrows, ncols))
}

/// Checks that `len` decompressed pixels fill an image of `nrows` x `ncols`;
/// otherwise the error names the three sizes.
pub fn check_tile_pixels(len: usize, nrows: usize, ncols: usize) -> (res: Result<(), FitsError>)
    requires
        nrows * ncols <= usize::MAX,
    ensures
        res is Ok <==> len == nrows * ncols,
        res matches Err(e) ==> e matches FitsError::BadShape(v) && v@ == seq![len, nrows, ncols],
{
    if len != nrows * ncols {
        return Err(FitsError::BadShape(vec![len, nrows, ncols]));
    }
    Ok(())
}

} // verus!
