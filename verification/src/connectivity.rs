//! Raster order, 8-neighbourhood and connectivity of foreground pixels.
use vstd::prelude::*;

verus! {

/// `p` comes strictly before `q` in row-major (raster) order.
pub open spec fn raster_before(p: (usize, usize), q: (usize, usize)) -> bool {
    p.0 < q.0 || (p.0 == q.0 && p.1 < q.1)
}

/// Two distinct pixels that touch by an edge or a corner (8-connectivity).
pub open spec fn adjacent(p: (usize, usize), q: (usize, usize)) -> bool {
    &&& p != q
    &&& p.0 <= q.0 + 1
    &&& q.0 <= p.0 + 1
    &&& p.1 <= q.1 + 1
    &&& q.1 <= p.1 + 1
}

/// A pixel of the image that the mask sets.
pub open spec fn foreground(mask: Map<(usize, usize), bool>, p: (usize, usize)) -> bool {
    mask.dom().contains(p) && mask[p]
}

/// A non-empty chain of foreground pixels, each adjacent to the next.
pub open spec fn is_path(mask: Map<(usize, usize), bool>, path: Seq<(usize, usize)>) -> bool {
    &&& path.len() > 0
    &&& forall|i: int| 0 <= i < path.len() ==> foreground(mask, #[trigger] path[i])
    &&& forall|i: int| 0 <= i < path.len() - 1 ==> adjacent(#[trigger] path[i], path[i + 1])
}

/// `p` and `q` lie in one 8-connected region of the mask's foreground.
pub open spec fn connected(mask: Map<(usize, usize), bool>, p: (usize, usize), q: (usize, usize)) -> bool {
    exists|path: Seq<(usize, usize)>| #[trigger] is_path(mask, path) && path[0] == p && path.last() == q
}

/// A foreground pixel is connected to itself.
pub proof fn lemma_connected_refl(mask: Map<(usize, usize), bool>, p: (usize, usize))
    requires
        foreground(mask, p),
    ensures
        connected(mask, p, p),
{
    let path = seq![p];
    assert(is_path(mask, path));
}

/// Two adjacent foreground pixels are connected.
pub proof fn lemma_connected_adjacent(mask: Map<(usize, usize), bool>, p: (usize, usize), q: (usize, usize))
    requires
        foreground(mask, p),
        foreground(mask, q),
        adjacent(p, q),
    ensures
        connected(mask, p, q),
{
    let path = seq![p, q];
    assert(is_path(mask, path));
}

/// Connectivity is symmetric.
pub proof fn lemma_connected_symm(mask: Map<(usize, usize), bool>, p: (usize, usize), q: (usize, usize))
    requires
        connected(mask, p, q),
    ensures
        connected(mask, q, p),
{
    let path = choose|path: Seq<(usize, usize)>| #[trigger] is_path(mask, path) && path[0] == p && path.last() == q;
    let rev = path.reverse();
    assert forall|i: int| 0 <= i < rev.len() - 1 implies adjacent(#[trigger] rev[i], rev[i + 1]) by {
        let j = path.len() - 2 - i;
        assert(rev[i] == path[j + 1]);
        assert(rev[i + 1] == path[j]);
        assert(adjacent(path[j], path[j + 1]));
    }
    assert forall|i: int| 0 <= i < rev.len() implies foreground(mask, #[trigger] rev[i]) by {
        assert(rev[i] == path[path.len() - 1 - i]);
    }
    assert(is_path(mask, rev));
    assert(rev[0] == q);
    assert(rev.last() == p);
}

/// Connectivity is transitive.
pub proof fn lemma_connected_trans(
    mask: Map<(usize, usize), bool>,
    p: (usize, usize),
    q: (usize, usize),
    s: (usize, usize),
)
    requires
        connected(mask, p, q),
        connected(mask, q, s),
    ensures
        connected(mask, p, s),
{
    let a = choose|path: Seq<(usize, usize)>| #[trigger] is_path(mask, path) && path[0] == p && path.last() == q;
    let b = choose|path: Seq<(usize, usize)>| #[trigger] is_path(mask, path) && path[0] == q && path.last() == s;
    let ab = a + b.drop_first();
    assert forall|i: int| 0 <= i < ab.len() implies foreground(mask, #[trigger] ab[i]) by {
        if i < a.len() {
            assert(ab[i] == a[i]);
        } else {
            assert(ab[i] == b[i - a.len() + 1]);
        }
    }
    assert forall|i: int| 0 <= i < ab.len() - 1 implies adjacent(#[trigger] ab[i], ab[i + 1]) by {
        if i < a.len() - 1 {
            assert(ab[i] == a[i]);
            assert(ab[i + 1] == a[i + 1]);
        } else if i == a.len() - 1 {
            assert(ab[i] == a[i]);
            assert(a[i] == b[0]);
            assert(ab[i + 1] == b[1]);
            assert(adjacent(b[0], b[1]));
        } else {
            assert(ab[i] == b[i - a.len() + 1]);
            assert(ab[i + 1] == b[i - a.len() + 2]);
            assert(adjacent(b[i - a.len() + 1], b[i - a.len() + 2]));
        }
    }
    assert(is_path(mask, ab));
    if b.len() == 1 {
        assert(ab.last() == a.last());
    } else {
        assert(ab.last() == b.last());
    }
}

/// The neighbours of `(r, c)` that come before it in raster order are among
/// the four that a raster scan has already visited.
pub proof fn lemma_earlier_neighbour(p: (usize, usize), q: (usize, usize))
    requires
        adjacent(p, q),
        raster_before(q, p),
    ensures
        (p.0 >= 1 && q == ((p.0 - 1) as usize, p.1))
            || (p.0 >= 1 && p.1 >= 1 && q == ((p.0 - 1) as usize, (p.1 - 1) as usize))
            || (p.0 >= 1 && q == ((p.0 - 1) as usize, (p.1 + 1) as usize))
            || (p.1 >= 1 && q == (p.0, (p.1 - 1) as usize)),
{
}

} // verus!
