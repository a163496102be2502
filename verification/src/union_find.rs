//! Union-find over a parent array in which every entry points to itself or to
//! a smaller label, so that each class is represented by its smallest label.
use vstd::prelude::*;

verus! {

/// Every entry points to itself or to a smaller index.
pub open spec fn points_down(parent: Seq<u32>) -> bool {
    forall|l: int| 0 <= l < parent.len() ==> #[trigger] parent[l] as int <= l
}

/// No entry other than entry 0 points to 0 (label 0 is the background).
pub open spec fn keeps_background_apart(parent: Seq<u32>) -> bool {
    forall|l: int| 1 <= l < parent.len() ==> #[trigger] parent[l] >= 1
}

/// The representative reached from `l` by following parent links.
pub open spec fn root(parent: Seq<u32>, l: int) -> int
    decreases l,
{
    if 0 <= l < parent.len() && (parent[l] as int) < l {
        root(parent, parent[l] as int)
    } else {
        l
    }
}

/// The representative of an entry is an entry at or below it that points to itself.
pub proof fn lemma_root_is_root(parent: Seq<u32>, l: int)
    requires
        points_down(parent),
        0 <= l < parent.len(),
    ensures
        0 <= root(parent, l) <= l,
        parent[root(parent, l)] as int == root(parent, l),
        root(parent, root(parent, l)) == root(parent, l),
        keeps_background_apart(parent) && l >= 1 ==> root(parent, l) >= 1,
    decreases l,
{
    if (parent[l] as int) < l {
        lemma_root_is_root(parent, parent[l] as int);
    }
}

/// Linking the representative `a` under the smaller representative `b`
/// sends `a`'s class to `b` and leaves every other class as it was.
pub proof fn lemma_root_link(parent: Seq<u32>, a: int, b: int, l: int)
    requires
        points_down(parent),
        0 <= b < a < parent.len(),
        parent[a] as int == a,
        parent[b] as int == b,
        0 <= l < parent.len(),
    ensures
        points_down(parent.update(a, b as u32)),
        root(parent.update(a, b as u32), l) == if root(parent, l) == a { b } else { root(parent, l) },
    decreases l,
{
    let p2 = parent.update(a, b as u32);
    assert(points_down(p2)) by {
        assert forall|k: int| 0 <= k < p2.len() implies #[trigger] p2[k] as int <= k by {
            if k != a {
                assert(p2[k] == parent[k]);
            }
        }
    }
    if l == a {
        assert(p2[a] as int == b);
        assert(p2[b] as int == b);
        assert(root(p2, b) == b);
    } else if (parent[l] as int) < l {
        assert(p2[l] == parent[l]);
        lemma_root_link(parent, a, b, parent[l] as int);
    } else {
        assert(p2[l] == parent[l]);
    }
}

/// Appending a fresh label that points to itself changes no representative.
pub proof fn lemma_root_push(parent: Seq<u32>, l: int)
    requires
        points_down(parent),
        parent.len() < u32::MAX,
        0 <= l <= parent.len(),
    ensures
        points_down(parent.push(parent.len() as u32)),
        root(parent.push(parent.len() as u32), l) == if l == parent.len() { l } else { root(parent, l) },
    decreases l,
{
    let p2 = parent.push(parent.len() as u32);
    assert(points_down(p2)) by {
        assert forall|k: int| 0 <= k < p2.len() implies #[trigger] p2[k] as int <= k by {
            if k < parent.len() {
                assert(p2[k] == parent[k]);
            }
        }
    }
    if l < parent.len() {
        assert(p2[l] == parent[l]);
        if (parent[l] as int) < l {
            lemma_root_push(parent, parent[l] as int);
        }
    }
}

/// Follows parent links from `x` to its representative.
pub fn find(parent: &[u32], x: u32) -> (r: u32)
    requires
        points_down(parent@),
        (x as int) < parent@.len(),
    ensures
        r as int == root(parent@, x as int),
{
    let ghost x0 = x as int;
    let mut x = x;
    while parent[x as usize] != x
        invariant
            points_down(parent@),
            (x as int) < parent@.len(),
            root(parent@, x as int) == root(parent@, x0),
        decreases x,
    {
        x = parent[x as usize];
    }
    x
}

/// Merges the classes of `x` and `y`, always linking the larger
/// representative under the smaller one.
pub fn union(parent: &mut Vec<u32>, x: u32, y: u32)
    requires
        points_down(old(parent)@),
        (x as int) < old(parent)@.len(),
        (y as int) < old(parent)@.len(),
    ensures
        final(parent)@.len() == old(parent)@.len(),
        points_down(final(parent)@),
        forall|l: int|
            0 <= l < old(parent)@.len() ==> #[trigger] root(final(parent)@, l) == {
                let rx = root(old(parent)@, x as int);
                let ry = root(old(parent)@, y as int);
                let rl = root(old(parent)@, l);
                if rl == rx || rl == ry {
                    if rx < ry { rx } else { ry }
                } else {
                    rl
                }
            },
        // The forest itself: nothing changes when both are in one class;
        // otherwise only the larger representative moves, under the smaller.
        ({
            let rx = root(old(parent)@, x as int);
            let ry = root(old(parent)@, y as int);
            final(parent)@ == if rx == ry {
                old(parent)@
            } else if rx < ry {
                old(parent)@.update(ry, rx as u32)
            } else {
                old(parent)@.update(rx, ry as u32)
            }
        }),
{
    let rx = find(parent, x);
    let ry = find(parent, y);
    let ghost old_parent = parent@;
    proof {
        lemma_root_is_root(old_parent, x as int);
        lemma_root_is_root(old_parent, y as int);
    }
    if rx != ry {
        if rx < ry {
            parent.set(ry as usize, rx);
            proof {
                assert forall|l: int| 0 <= l < old_parent.len() implies #[trigger] root(parent@, l) == (
                if root(old_parent, l) == rx as int || root(old_parent, l) == ry as int { rx as int } else { root(old_parent, l) }) by {
                    lemma_root_link(old_parent, ry as int, rx as int, l);
                    lemma_root_is_root(old_parent, l);
                }
                lemma_root_link(old_parent, ry as int, rx as int, 0);
            }
        } else {
            parent.set(rx as usize, ry);
            proof {
                assert forall|l: int| 0 <= l < old_parent.len() implies #[trigger] root(parent@, l) == (
                if root(old_parent, l) == rx as int || root(old_parent, l) == ry as int { ry as int } else { root(old_parent, l) }) by {
                    lemma_root_link(old_parent, rx as int, ry as int, l);
                    lemma_root_is_root(old_parent, l);
                }
                lemma_root_link(old_parent, rx as int, ry as int, 0);
            }
        }
    }
}

} // verus!
