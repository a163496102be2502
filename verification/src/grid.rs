//! Two-dimensional images of integers and flags, held in `ndarray` arrays.
//!
//! `ndarray::ArrayBase` carries a trait bound of its own crate, so each element
//! type that the library needs gets a small opaque struct around an
//! `Array2`, with the array's contents named as a map from `(row, column)`.
//! The library reaches the arrays through a few crate-private wrappers;
//! images enter and leave it through `from_flat` and `to_flat`, which list
//! the cells row by row.
use vstd::prelude::*;

verus! {

/// `true` when an array of this shape can exist: the product of the non-zero
/// axis lengths fits in `isize` (ndarray refuses or panics otherwise).
pub open spec fn shape_fits(nrows: usize, ncols: usize) -> bool {
    (if nrows == 0 { 1int } else { nrows as int }) * (if ncols == 0 { 1int } else { ncols as int })
        <= isize::MAX as int
}

/// The cells of an image of the given shape.
pub open spec fn in_shape(shape: (usize, usize), p: (usize, usize)) -> bool {
    p.0 < shape.0 && p.1 < shape.1
}

/// A map whose domain is exactly the cells of `shape`.
pub open spec fn covers_shape<V>(m: Map<(usize, usize), V>, shape: (usize, usize)) -> bool {
    forall|p: (usize, usize)| #[trigger] m.dom().contains(p) <==> in_shape(shape, p)
}

/// The position of cell `p` in the row-major listing of an image with `ncols` columns.
pub open spec fn flat_index(p: (usize, usize), ncols: usize) -> int {
    p.0 as int * ncols as int + p.1 as int
}

/// Cells of earlier rows, and earlier cells of the same row, come first.
proof fn lemma_flat_index_bound(p: (usize, usize), r: int, c: int, ncols: usize)
    requires
        p.1 < ncols,
        0 <= c <= ncols,
        p.0 < r || (p.0 == r && p.1 < c),
    ensures
        0 <= flat_index(p, ncols) < r * ncols + c,
{
    if p.0 < r {
        assert((p.0 as int) * (ncols as int) + (p.1 as int) < r * ncols) by (nonlinear_arith)
            requires
                p.0 < r,
                p.1 < ncols,
        ;
    }
    assert(0 <= (p.0 as int) * (ncols as int)) by (nonlinear_arith);
}

/// Moving to the next row of the row-major listing.
proof fn lemma_next_row(r: int, ncols: int)
    ensures
        (r + 1) * ncols == r * ncols + ncols,
{
    assert((r + 1) * ncols == r * ncols + ncols) by (nonlinear_arith);
}

/// The index of a cell inside the shape is below the number of cells.
proof fn lemma_flat_index_in_shape(r: int, c: int, nrows: int, ncols: int)
    requires
        0 <= r < nrows,
        0 <= c < ncols,
    ensures
        r * ncols + c < nrows * ncols,
{
    assert(r * ncols + c < nrows * ncols) by (nonlinear_arith)
        requires
            0 <= r < nrows,
            0 <= c < ncols,
    ;
}

/// Decides [`shape_fits`] and, when the shape fits, gives the number of cells.
fn cell_count(nrows: usize, ncols: usize) -> (n: Option<usize>)
    ensures
        n is Some <==> shape_fits(nrows, ncols),
        n matches Some(k) ==> k as int == nrows as int * ncols as int,
{
    let a: usize = if nrows == 0 { 1 } else { nrows };
    let b: usize = if ncols == 0 { 1 } else { ncols };
    match a.checked_mul(b) {
        Some(m) => {
            if m <= isize::MAX as usize {
                proof {
                    assert((nrows as int) * (ncols as int) <= (a as int) * (b as int)) by (nonlinear_arith)
                        requires
                            a == (if nrows == 0 { 1 } else { nrows as int }),
                            b == (if ncols == 0 { 1 } else { ncols as int }),
                    ;
                    assert(0 <= (nrows as int) * (ncols as int)) by (nonlinear_arith);
                }
                Some(nrows * ncols)
            } else {
                None
            }
        },
        None => None,
    }
}

// ── Boolean images (detection masks) ─────────────────────────────────────────

/// A boolean image stored in an `ndarray::Array2<bool>`.
#[verifier::external_body]
pub struct MaskGrid {
    grid: ndarray::Array2<bool>,
}

/// What a boolean image holds, cell by cell.
pub uninterp spec fn mask_cells(g: MaskGrid) -> Map<(usize, usize), bool>;

/// The shape `(nrows, ncols)` that a boolean image was made with.
pub uninterp spec fn mask_shape(g: MaskGrid) -> (usize, usize);

impl MaskGrid {
    /// `Array2::from_elem((nrows, ncols), fill)`: every cell holds `fill`.
    /// ndarray panics when the shape does not fit, so `requires` leaves that out.
    #[verifier::external_body]
    pub(crate) fn new(nrows: usize, ncols: usize, fill: bool) -> (g: MaskGrid)
        requires
            shape_fits(nrows, ncols),
        ensures
            mask_shape(g) == (nrows, ncols),
            covers_shape(mask_cells(g), (nrows, ncols)),
            forall|p: (usize, usize)| in_shape((nrows, ncols), p) ==> #[trigger] mask_cells(g)[p] == fill,
    {
        MaskGrid { grid: ndarray::Array2::from_elem((nrows, ncols), fill) }
    }

    /// `Array2::dim`: the shape; the contents cover exactly that shape, and
    /// every existing array has a shape that fits.
    #[verifier::external_body]
    pub(crate) fn dim(&self) -> (res: (usize, usize))
        ensures
            res == mask_shape(*self),
            covers_shape(mask_cells(*self), res),
            shape_fits(res.0, res.1),
    {
        self.grid.dim()
    }

    /// Indexing `a[[r, c]]`, which panics outside the shape.
    #[verifier::external_body]
    pub(crate) fn get(&self, r: usize, c: usize) -> (v: bool)
        requires
            in_shape(mask_shape(*self), (r, c)),
        ensures
            v == mask_cells(*self)[(r, c)],
    {
        self.grid[[r, c]]
    }

    /// `a[[r, c]] = v`, which panics outside the shape.
    #[verifier::external_body]
    pub(crate) fn set(&mut self, r: usize, c: usize, v: bool)
        requires
            in_shape(mask_shape(*old(self)), (r, c)),
        ensures
            mask_shape(*final(self)) == mask_shape(*old(self)),
            mask_cells(*final(self)) == mask_cells(*old(self)).insert((r, c), v),
    {
        self.grid[[r, c]] = v;
    }
}

impl MaskGrid {
    /// An image of `nrows` x `ncols` flags from its cells listed row by row
    /// (as `Array2::from_shape_vec`): `None` when `data` does not hold
    /// exactly `nrows * ncols` values or an array of that shape cannot exist.
    pub fn from_flat(nrows: usize, ncols: usize, data: &Vec<bool>) -> (g: Option<MaskGrid>)
        ensures
            g is Some <==> shape_fits(nrows, ncols) && data@.len() == nrows as int * ncols as int,
            g matches Some(g) ==> {
                &&& mask_shape(g) == (nrows, ncols)
                &&& forall|p: (usize, usize)|
                    in_shape((nrows, ncols), p) ==> #[trigger] mask_cells(g)[p] == data@[flat_index(p, ncols)]
            },
    {
        match cell_count(nrows, ncols) {
            Some(n) => {
                if data.len() != n {
                    return None;
                }
            },
            None => {
                return None;
            },
        }
        let len = data.len();
        let mut g = MaskGrid::new(nrows, ncols, false);
        let mut k: usize = 0;
        let mut r: usize = 0;
        while r < nrows
            invariant
                mask_shape(g) == (nrows, ncols),
                data@.len() == nrows as int * ncols as int,
                data@.len() == len,
                r <= nrows,
                k == r as int * ncols as int,
                forall|p: (usize, usize)|
                    in_shape((nrows, ncols), p) && p.0 < r ==> #[trigger] mask_cells(g)[p] == data@[flat_index(p, ncols)],
            decreases nrows - r,
        {
            let mut c: usize = 0;
            while c < ncols
                invariant
                    mask_shape(g) == (nrows, ncols),
                    data@.len() == nrows as int * ncols as int,
                    data@.len() == len,
                    r < nrows,
                    c <= ncols,
                    k == r as int * ncols as int + c,
                    forall|p: (usize, usize)|
                        in_shape((nrows, ncols), p) && (p.0 < r || (p.0 == r && p.1 < c)) ==> #[trigger] mask_cells(g)[p]
                            == data@[flat_index(p, ncols)],
                decreases ncols - c,
            {
                proof {
                    lemma_flat_index_in_shape(r as int, c as int, nrows as int, ncols as int);
                }
                g.set(r, c, data[k]);
                k += 1;
                c += 1;
            }
            proof {
                lemma_next_row(r as int, ncols as int);
            }
            r += 1;
        }
        Some(g)
    }

    /// The shape and the cells listed row by row (as `Array2::dim` and
    /// `Array2::iter`).
    pub fn to_flat(&self) -> (res: (usize, usize, Vec<bool>))
        ensures
            (res.0, res.1) == mask_shape(*self),
            res.2@.len() == res.0 as int * res.1 as int,
            forall|p: (usize, usize)|
                in_shape((res.0, res.1), p) ==> res.2@[flat_index(p, res.1)] == #[trigger] mask_cells(*self)[p],
    {
        let (nrows, ncols) = self.dim();
        let mut v: Vec<bool> = Vec::new();
        let mut r: usize = 0;
        while r < nrows
            invariant
                (nrows, ncols) == mask_shape(*self),
                r <= nrows,
                v@.len() == r as int * ncols as int,
                forall|p: (usize, usize)|
                    in_shape((nrows, ncols), p) && p.0 < r ==> v@[flat_index(p, ncols)] == #[trigger] mask_cells(*self)[p],
            decreases nrows - r,
        {
            let mut c: usize = 0;
            while c < ncols
                invariant
                    (nrows, ncols) == mask_shape(*self),
                    r < nrows,
                    c <= ncols,
                    v@.len() == r as int * ncols as int + c,
                    forall|p: (usize, usize)|
                        in_shape((nrows, ncols), p) && (p.0 < r || (p.0 == r && p.1 < c)) ==> v@[flat_index(p, ncols)]
                            == #[trigger] mask_cells(*self)[p],
                decreases ncols - c,
            {
                let ghost before = v@;
                v.push(self.get(r, c));
                proof {
                    assert forall|p: (usize, usize)|
                        in_shape((nrows, ncols), p) && (p.0 < r || (p.0 == r && p.1 < c + 1)) implies v@[flat_index(p, ncols)]
                            == #[trigger] mask_cells(*self)[p] by {
                        if p.0 < r || (p.0 == r && p.1 < c) {
                            lemma_flat_index_bound(p, r as int, c as int, ncols);
                            assert(v@[flat_index(p, ncols)] == before[flat_index(p, ncols)]);
                        }
                    }
                }
                c += 1;
            }
            proof {
                lemma_next_row(r as int, ncols as int);
            }
            r += 1;
        }
        proof {
            assert(r as int * ncols as int == nrows as int * ncols as int);
        }
        (nrows, ncols, v)
    }
}

// ── Label images ─────────────────────────────────────────────────────────────

/// An image of `u32` labels stored in an `ndarray::Array2<u32>`.
#[verifier::external_body]
pub struct LabelGrid {
    grid: ndarray::Array2<u32>,
}

/// What a label image holds, cell by cell.
pub uninterp spec fn label_cells(g: LabelGrid) -> Map<(usize, usize), u32>;

/// The shape `(nrows, ncols)` that a label image was made with.
pub uninterp spec fn label_shape(g: LabelGrid) -> (usize, usize);

impl LabelGrid {
    /// `Array2::zeros((nrows, ncols))`: every cell holds 0.
    /// ndarray panics when the shape does not fit, so `requires` leaves that out.
    #[verifier::external_body]
    pub(crate) fn zeros(nrows: usize, ncols: usize) -> (g: LabelGrid)
        requires
            shape_fits(nrows, ncols),
        ensures
            label_shape(g) == (nrows, ncols),
            covers_shape(label_cells(g), (nrows, ncols)),
            forall|p: (usize, usize)| in_shape((nrows, ncols), p) ==> #[trigger] label_cells(g)[p] == 0,
    {
        LabelGrid { grid: ndarray::Array2::zeros((nrows, ncols)) }
    }

    /// `Array2::dim`: the shape; the contents cover exactly that shape, and
    /// every existing array has a shape that fits.
    #[verifier::external_body]
    pub(crate) fn dim(&self) -> (res: (usize, usize))
        ensures
            res == label_shape(*self),
            covers_shape(label_cells(*self), res),
            shape_fits(res.0, res.1),
    {
        self.grid.dim()
    }

    /// Indexing `a[[r, c]]`, which panics outside the shape.
    #[verifier::external_body]
    pub(crate) fn get(&self, r: usize, c: usize) -> (v: u32)
        requires
            in_shape(label_shape(*self), (r, c)),
        ensures
            v == label_cells(*self)[(r, c)],
    {
        self.grid[[r, c]]
    }

    /// `a[[r, c]] = v`, which panics outside the shape.
    #[verifier::external_body]
    pub(crate) fn set(&mut self, r: usize, c: usize, v: u32)
        requires
            in_shape(label_shape(*old(self)), (r, c)),
        ensures
            label_shape(*final(self)) == label_shape(*old(self)),
            label_cells(*final(self)) == label_cells(*old(self)).insert((r, c), v),
    {
        self.grid[[r, c]] = v;
    }
}

impl LabelGrid {
    /// An image of `nrows` x `ncols` labels from its cells listed row by row
    /// (as `Array2::from_shape_vec`): `None` when `data` does not hold
    /// exactly `nrows * ncols` values or an array of that shape cannot exist.
    pub fn from_flat(nrows: usize, ncols: usize, data: &Vec<u32>) -> (g: Option<LabelGrid>)
        ensures
            g is Some <==> shape_fits(nrows, ncols) && data@.len() == nrows as int * ncols as int,
            g matches Some(g) ==> {
                &&& label_shape(g) == (nrows, ncols)
                &&& forall|p: (usize, usize)|
                    in_shape((nrows, ncols), p) ==> #[trigger] label_cells(g)[p] == data@[flat_index(p, ncols)]
            },
    {
        match cell_count(nrows, ncols) {
            Some(n) => {
                if data.len() != n {
                    return None;
                }
            },
            None => {
                return None;
            },
        }
        let len = data.len();
        let mut g = LabelGrid::zeros(nrows, ncols);
        let mut k: usize = 0;
        let mut r: usize = 0;
        while r < nrows
            invariant
                label_shape(g) == (nrows, ncols),
                data@.len() == nrows as int * ncols as int,
                data@.len() == len,
                r <= nrows,
                k == r as int * ncols as int,
                forall|p: (usize, usize)|
                    in_shape((nrows, ncols), p) && p.0 < r ==> #[trigger] label_cells(g)[p] == data@[flat_index(p, ncols)],
            decreases nrows - r,
        {
            let mut c: usize = 0;
            while c < ncols
                invariant
                    label_shape(g) == (nrows, ncols),
                    data@.len() == nrows as int * ncols as int,
                    data@.len() == len,
                    r < nrows,
                    c <= ncols,
                    k == r as int * ncols as int + c,
                    forall|p: (usize, usize)|
                        in_shape((nrows, ncols), p) && (p.0 < r || (p.0 == r && p.1 < c)) ==> #[trigger] label_cells(g)[p]
                            == data@[flat_index(p, ncols)],
                decreases ncols - c,
            {
                proof {
                    lemma_flat_index_in_shape(r as int, c as int, nrows as int, ncols as int);
                }
                g.set(r, c, data[k]);
                k += 1;
                c += 1;
            }
            proof {
                lemma_next_row(r as int, ncols as int);
            }
            r += 1;
        }
        Some(g)
    }

    /// The shape and the cells listed row by row (as `Array2::dim` and
    /// `Array2::iter`).
    pub fn to_flat(&self) -> (res: (usize, usize, Vec<u32>))
        ensures
            (res.0, res.1) == label_shape(*self),
            res.2@.len() == res.0 as int * res.1 as int,
            forall|p: (usize, usize)|
                in_shape((res.0, res.1), p) ==> res.2@[flat_index(p, res.1)] == #[trigger] label_cells(*self)[p],
    {
        let (nrows, ncols) = self.dim();
        let mut v: Vec<u32> = Vec::new();
        let mut r: usize = 0;
        while r < nrows
            invariant
                (nrows, ncols) == label_shape(*self),
                r <= nrows,
                v@.len() == r as int * ncols as int,
                forall|p: (usize, usize)|
                    in_shape((nrows, ncols), p) && p.0 < r ==> v@[flat_index(p, ncols)] == #[trigger] label_cells(*self)[p],
            decreases nrows - r,
        {
            let mut c: usize = 0;
            while c < ncols
                invariant
                    (nrows, ncols) == label_shape(*self),
                    r < nrows,
                    c <= ncols,
                    v@.len() == r as int * ncols as int + c,
                    forall|p: (usize, usize)|
                        in_shape((nrows, ncols), p) && (p.0 < r || (p.0 == r && p.1 < c)) ==> v@[flat_index(p, ncols)]
                            == #[trigger] label_cells(*self)[p],
                decreases ncols - c,
            {
                let ghost before = v@;
                v.push(self.get(r, c));
                proof {
                    assert forall|p: (usize, usize)|
                        in_shape((nrows, ncols), p) && (p.0 < r || (p.0 == r && p.1 < c + 1)) implies v@[flat_index(p, ncols)]
                            == #[trigger] label_cells(*self)[p] by {
                        if p.0 < r || (p.0 == r && p.1 < c) {
                            lemma_flat_index_bound(p, r as int, c as int, ncols);
                            assert(v@[flat_index(p, ncols)] == before[flat_index(p, ncols)]);
                        }
                    }
                }
                c += 1;
            }
            proof {
                lemma_next_row(r as int, ncols as int);
            }
            r += 1;
        }
        proof {
            assert(r as int * ncols as int == nrows as int * ncols as int);
        }
        (nrows, ncols, v)
    }
}

// ── Ordering keys (one signed integer per pixel) ─────────────────────────────

/// An image of `i64` ordering keys stored in an `ndarray::Array2<i64>`.
#[verifier::external_body]
pub struct KeyGrid {
    grid: ndarray::Array2<i64>,
}

/// What a key image holds, cell by cell.
pub uninterp spec fn key_cells(g: KeyGrid) -> Map<(usize, usize), i64>;

/// The shape `(nrows, ncols)` that a key image was made with.
pub uninterp spec fn key_shape(g: KeyGrid) -> (usize, usize);

impl KeyGrid {
    /// `Array2::from_elem((nrows, ncols), fill)`: every cell holds `fill`.
    /// ndarray panics when the shape does not fit, so `requires` leaves that out.
    #[verifier::external_body]
    pub(crate) fn new(nrows: usize, ncols: usize, fill: i64) -> (g: KeyGrid)
        requires
            shape_fits(nrows, ncols),
        ensures
            key_shape(g) == (nrows, ncols),
            covers_shape(key_cells(g), (nrows, ncols)),
            forall|p: (usize, usize)| in_shape((nrows, ncols), p) ==> #[trigger] key_cells(g)[p] == fill,
    {
        KeyGrid { grid: ndarray::Array2::from_elem((nrows, ncols), fill) }
    }

    /// `Array2::dim`: the shape; the contents cover exactly that shape, and
    /// every existing array has a shape that fits.
    #[verifier::external_body]
    pub(crate) fn dim(&self) -> (res: (usize, usize))
        ensures
            res == key_shape(*self),
            covers_shape(key_cells(*self), res),
            shape_fits(res.0, res.1),
    {
        self.grid.dim()
    }

    /// Indexing `a[[r, c]]`, which panics outside the shape.
    #[verifier::external_body]
    pub(crate) fn get(&self, r: usize, c: usize) -> (v: i64)
        requires
            in_shape(key_shape(*self), (r, c)),
        ensures
            v == key_cells(*self)[(r, c)],
    {
        self.grid[[r, c]]
    }

    /// `a[[r, c]] = v`, which panics outside the shape.
    #[verifier::external_body]
    pub(crate) fn set(&mut self, r: usize, c: usize, v: i64)
        requires
            in_shape(key_shape(*old(self)), (r, c)),
        ensures
            key_shape(*final(self)) == key_shape(*old(self)),
            key_cells(*final(self)) == key_cells(*old(self)).insert((r, c), v),
    {
        self.grid[[r, c]] = v;
    }
}

impl KeyGrid {
    /// An image of `nrows` x `ncols` keys from its cells listed row by row
    /// (as `Array2::from_shape_vec`): `None` when `data` does not hold
    /// exactly `nrows * ncols` values or an array of that shape cannot exist.
    pub fn from_flat(nrows: usize, ncols: usize, data: &Vec<i64>) -> (g: Option<KeyGrid>)
        ensures
            g is Some <==> shape_fits(nrows, ncols) && data@.len() == nrows as int * ncols as int,
            g matches Some(g) ==> {
                &&& key_shape(g) == (nrows, ncols)
                &&& forall|p: (usize, usize)|
                    in_shape((nrows, ncols), p) ==> #[trigger] key_cells(g)[p] == data@[flat_index(p, ncols)]
            },
    {
        match cell_count(nrows, ncols) {
            Some(n) => {
                if data.len() != n {
                    return None;
                }
            },
            None => {
                return None;
            },
        }
        let len = data.len();
        let mut g = KeyGrid::new(nrows, ncols, 0);
        let mut k: usize = 0;
        let mut r: usize = 0;
        while r < nrows
            invariant
                key_shape(g) == (nrows, ncols),
                data@.len() == nrows as int * ncols as int,
                data@.len() == len,
                r <= nrows,
                k == r as int * ncols as int,
                forall|p: (usize, usize)|
                    in_shape((nrows, ncols), p) && p.0 < r ==> #[trigger] key_cells(g)[p] == data@[flat_index(p, ncols)],
            decreases nrows - r,
        {
            let mut c: usize = 0;
            while c < ncols
                invariant
                    key_shape(g) == (nrows, ncols),
                    data@.len() == nrows as int * ncols as int,
                    data@.len() == len,
                    r < nrows,
                    c <= ncols,
                    k == r as int * ncols as int + c,
                    forall|p: (usize, usize)|
                        in_shape((nrows, ncols), p) && (p.0 < r || (p.0 == r && p.1 < c)) ==> #[trigger] key_cells(g)[p]
                            == data@[flat_index(p, ncols)],
                decreases ncols - c,
            {
                proof {
                    lemma_flat_index_in_shape(r as int, c as int, nrows as int, ncols as int);
                }
                g.set(r, c, data[k]);
                k += 1;
                c += 1;
            }
            proof {
                lemma_next_row(r as int, ncols as int);
            }
            r += 1;
        }
        Some(g)
    }
}

} // verus!
