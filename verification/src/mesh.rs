//! The integer geometry of background estimation: the mesh of cells laid over
//! the image, and the clamping of indices at the image border.
use vstd::prelude::*;

verus! {

/// `n / m` rounded up.
pub open spec fn ceil_div(n: int, m: int) -> int {
    n / m + if n % m != 0 { 1int } else { 0 }
}

/// `ceil_div(n, m)` is the fewest blocks of `m` that cover `n`: they reach
/// at least `n`, and one block fewer falls short of it.
pub proof fn lemma_ceil_div_covers(n: int, m: int)
    requires
        n >= 0,
        m > 0,
    ensures
        ceil_div(n, m) >= 0,
        ceil_div(n, m) * m >= n,
        n > 0 ==> (ceil_div(n, m) - 1) * m < n,
        n == 0 ==> ceil_div(n, m) == 0,
{
    vstd::arithmetic::div_mod::lemma_fundamental_div_mod(n, m);
    let q = n / m;
    let r = n % m;
    assert(0 <= r < m);
    assert(n == q * m + r) by (nonlinear_arith)
        requires n == m * (n / m) + n % m, q == n / m, r == n % m;
    assert(q >= 0) by (nonlinear_arith)
        requires n >= 0, m > 0, n == q * m + r, 0 <= r < m;
    if r != 0 {
        assert(ceil_div(n, m) == q + 1);
        assert((q + 1) * m == q * m + m) by (nonlinear_arith);
        assert(q * m + m >= n);
    } else {
        assert(ceil_div(n, m) == q);
        if n > 0 {
            assert((q - 1) * m == q * m - m) by (nonlinear_arith);
        } else {
            assert(q * m == 0);
            assert(q == 0) by (nonlinear_arith)
                requires q * m == 0, m > 0;
        }
    }
}

/// The number of rows and columns of the mesh of `mesh` x `mesh` cells that
/// covers an image of `nrows` x `ncols` pixels (the last row and column of
/// cells may be cut short).
pub fn mesh_shape(nrows: usize, ncols: usize, mesh: usize) -> (g: (usize, usize))
    requires
        mesh > 0,
    ensures
        g.0 as int == ceil_div(nrows as int, mesh as int),
        g.1 as int == ceil_div(ncols as int, mesh as int),
        // The cells cover the image, and one row (column) of cells fewer would not.
        g.0 * mesh >= nrows,
        g.1 * mesh >= ncols,
        g.0 > 0 ==> (g.0 - 1) * mesh < nrows,
        g.1 > 0 ==> (g.1 - 1) * mesh < ncols,
{
    proof {
        lemma_ceil_div_covers(nrows as int, mesh as int);
        lemma_ceil_div_covers(ncols as int, mesh as int);
        assert(nrows % mesh != 0 ==> nrows / mesh < nrows) by (nonlinear_arith)
            requires mesh > 0, nrows >= 0;
        assert(ncols % mesh != 0 ==> ncols / mesh < ncols) by (nonlinear_arith)
            requires mesh > 0, ncols >= 0;
    }
    let grid_rows = nrows / mesh + if nrows % mesh != 0 { 1 } else { 0 };
    let grid_cols = ncols / mesh + if ncols % mesh != 0 { 1 } else { 0 };
    (grid_rows, grid_cols)
}

/// The pixel rows `r0..r1` and columns `c0..c1` of cell `idx` (cells are
/// numbered row by row, `grid_cols` to a row).
pub open spec fn cell_of(idx: int, grid_cols: int, mesh: int, nrows: int, ncols: int) -> (int, int, int, int) {
    let r0 = (idx / grid_cols) * mesh;
    let c0 = (idx % grid_cols) * mesh;
    (r0, if r0 + mesh < nrows { r0 + mesh } else { nrows }, c0, if c0 + mesh < ncols { c0 + mesh } else { ncols })
}

/// The pixel at `(r, c)` lies in cell `idx`.
pub open spec fn in_cell(idx: int, grid_cols: int, mesh: int, nrows: int, ncols: int, r: int, c: int) -> bool {
    let b = cell_of(idx, grid_cols, mesh, nrows, ncols);
    b.0 <= r < b.1 && b.2 <= c < b.3
}

proof fn lemma_cell_start(g: int, mesh: int, n: int)
    requires
        mesh > 0,
        n >= 0,
        0 <= g < ceil_div(n, mesh),
    ensures
        0 <= g * mesh < n,
{
    vstd::arithmetic::div_mod::lemma_fundamental_div_mod(n, mesh);
    assert(g * mesh < n) by (nonlinear_arith)
        requires
            mesh > 0,
            n >= 0,
            0 <= g,
            g < n / mesh + if n % mesh != 0 { 1int } else { 0 },
            n == (n / mesh) * mesh + n % mesh,
            0 <= n % mesh < mesh,
    ;
    assert(g * mesh >= 0) by (nonlinear_arith)
        requires
            mesh > 0,
            0 <= g,
    ;
}

/// The bounds of cell `idx` of the mesh.
pub fn cell_bounds(idx: usize, grid_cols: usize, mesh: usize, nrows: usize, ncols: usize) -> (b: (usize, usize, usize, usize))
    requires
        mesh > 0,
        grid_cols as int == ceil_div(ncols as int, mesh as int),
        (idx as int) < ceil_div(nrows as int, mesh as int) * (grid_cols as int),
        nrows + mesh <= usize::MAX,
        ncols + mesh <= usize::MAX,
    ensures
        b.0 as int == cell_of(idx as int, grid_cols as int, mesh as int, nrows as int, ncols as int).0,
        b.1 as int == cell_of(idx as int, grid_cols as int, mesh as int, nrows as int, ncols as int).1,
        b.2 as int == cell_of(idx as int, grid_cols as int, mesh as int, nrows as int, ncols as int).2,
        b.3 as int == cell_of(idx as int, grid_cols as int, mesh as int, nrows as int, ncols as int).3,
        b.0 < b.1 <= nrows,
        b.2 < b.3 <= ncols,
        // A cell starts on a multiple of the mesh size and spans it, unless
        // the image border cuts it short.
        b.0 % mesh == 0,
        b.2 % mesh == 0,
        b.1 - b.0 == mesh || (b.1 == nrows && b.1 - b.0 < mesh),
        b.3 - b.2 == mesh || (b.3 == ncols && b.3 - b.2 < mesh),
{
    proof {
        let gr = idx as int / grid_cols as int;
        let gc = idx as int % grid_cols as int;
        assert(grid_cols > 0) by (nonlinear_arith)
            requires (idx as int) < ceil_div(nrows as int, mesh as int) * (grid_cols as int), idx >= 0, grid_cols >= 0;
        assert(gr < ceil_div(nrows as int, mesh as int)) by (nonlinear_arith)
            requires
                grid_cols > 0,
                gr == idx as int / grid_cols as int,
                (idx as int) < ceil_div(nrows as int, mesh as int) * (grid_cols as int),
                idx >= 0,
        ;
        lemma_cell_start(gr, mesh as int, nrows as int);
        lemma_cell_start(gc, mesh as int, ncols as int);
        assert((gr * mesh) % (mesh as int) == 0) by (nonlinear_arith)
            requires mesh > 0, gr >= 0;
        assert((gc * mesh) % (mesh as int) == 0) by (nonlinear_arith)
            requires mesh > 0, gc >= 0;
    }
    let gr = idx / grid_cols;
    let gc = idx % grid_cols;
    let r0 = gr * mesh;
    let c0 = gc * mesh;
    let r1 = if r0 + mesh < nrows { r0 + mesh } else { nrows };
    let c1 = if c0 + mesh < ncols { c0 + mesh } else { ncols };
    (r0, r1, c0, c1)
}

/// The cells of the mesh split the image: every pixel lies in the cell
/// `(r / mesh) * grid_cols + c / mesh`, which is a cell of the mesh, and in no
/// other cell.
pub proof fn lemma_cells_partition(nrows: int, ncols: int, mesh: int, r: int, c: int, idx: int)
    requires
        mesh > 0,
        0 <= r < nrows,
        0 <= c < ncols,
    ensures
        ({
            let gc = ceil_div(ncols, mesh);
            let home = (r / mesh) * gc + c / mesh;
            &&& 0 <= home < ceil_div(nrows, mesh) * gc
            &&& in_cell(home, gc, mesh, nrows, ncols, r, c)
            &&& (0 <= idx < ceil_div(nrows, mesh) * gc && in_cell(idx, gc, mesh, nrows, ncols, r, c)) ==> idx == home
        }),
{
    let gc = ceil_div(ncols, mesh);
    let gr = ceil_div(nrows, mesh);
    let qr = r / mesh;
    let qc = c / mesh;
    let home = qr * gc + qc;
    assert(0 <= qr < gr && 0 <= qc < gc) by (nonlinear_arith)
        requires
            mesh > 0,
            0 <= r < nrows,
            0 <= c < ncols,
            qr == r / mesh,
            qc == c / mesh,
            gr == nrows / mesh + if nrows % mesh != 0 { 1int } else { 0 },
            gc == ncols / mesh + if ncols % mesh != 0 { 1int } else { 0 },
    ;
    assert(home / gc == qr && home % gc == qc) by (nonlinear_arith)
        requires
            home == qr * gc + qc,
            0 <= qc < gc,
            0 <= qr,
    ;
    assert(0 <= home < gr * gc) by (nonlinear_arith)
        requires
            home == qr * gc + qc,
            0 <= qc < gc,
            0 <= qr < gr,
    ;
    assert(qr * mesh <= r < qr * mesh + mesh && qc * mesh <= c < qc * mesh + mesh) by (nonlinear_arith)
        requires
            mesh > 0,
            r >= 0,
            c >= 0,
            qr == r / mesh,
            qc == c / mesh,
    ;
    if 0 <= idx < gr * gc && in_cell(idx, gc, mesh, nrows, ncols, r, c) {
        let ir = idx / gc;
        let ic = idx % gc;
        assert(ir == qr && ic == qc) by (nonlinear_arith)
            requires
                mesh > 0,
                gc > 0,
                idx >= 0,
                ir == idx / gc,
                ic == idx % gc,
                ir * mesh <= r < ir * mesh + mesh,
                ic * mesh <= c < ic * mesh + mesh,
                qr * mesh <= r < qr * mesh + mesh,
                qc * mesh <= c < qc * mesh + mesh,
        ;
        assert(idx == ir * gc + ic) by (nonlinear_arith)
            requires
                gc > 0,
                idx >= 0,
                ir == idx / gc,
                ic == idx % gc,
        ;
    }
}

/// Clamps a signed index to the valid indices `0..n` of an axis (as
/// `i.clamp(0, n - 1)`).
pub fn clamp_index(i: isize, n: usize) -> (k: usize)
    requires
        1 <= n <= isize::MAX,
    ensures
        k as int == if i < 0 { 0 } else if i as int >= n as int { n as int - 1 } else { i as int },
{
    let hi = (n - 1) as isize;
    if i < 0 {
        0
    } else if i > hi {
        hi as usize
    } else {
        i as usize
    }
}

} // verus!
