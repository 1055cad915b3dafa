//! Enumeration of the sets that a diagram holds, read as a zero-suppressed
//! diagram: each path to the true leaf is the set of variables whose high
//! edge it takes.
use vstd::prelude::*;
use crate::bdd::{Bdd, wf, top, node_ok};

verus! {

/// `p` lists the variables taken high on some path from `n` to the true leaf.
pub open spec fn zdd_path(g: Seq<crate::bdd::Branch>, n: nat, p: Seq<usize>) -> bool
    decreases n,
{
    if n < 2 {
        n == 1 && p.len() == 0
    } else if n >= g.len() {
        false
    } else {
        let b = g[n as int];
        if b.lo < n && b.hi < n {
            zdd_path(g, b.lo as nat, p) || (p.len() > 0 && p[0] == b.var && zdd_path(
                g,
                b.hi as nat,
                p.drop_first(),
            ))
        } else {
            false
        }
    }
}

/// A list of paths as sequences.
pub open spec fn paths_view(v: Seq<Vec<usize>>) -> Seq<Seq<usize>> {
    v.map_values(|p: Vec<usize>| p@)
}

/// The variables of a path from `n` all lie at or below the top of `n`.
proof fn lemma_path_below(g: Seq<crate::bdd::Branch>, n: nat, p: Seq<usize>, k: int)
    requires
        wf(g),
        n < g.len(),
        zdd_path(g, n, p),
        0 <= k < p.len(),
    ensures
        p[k] >= top(g, n),
    decreases n,
{
    if n >= 2 {
        let b = g[n as int];
        assert(node_ok(g, n as int));
        if zdd_path(g, b.lo as nat, p) {
            lemma_path_below(g, b.lo as nat, p, k);
        } else if k > 0 {
            lemma_path_below(g, b.hi as nat, p.drop_first(), k - 1);
        }
    }
}

/// Every set of variables that `root` holds, each exactly once.
pub fn trees(bdd: &Bdd, root: usize) -> (r: Vec<Vec<usize>>)
    requires
        wf(bdd@),
        root < bdd@.len(),
    ensures
        forall|p: Seq<usize>| paths_view(r@).contains(p) <==> zdd_path(bdd@, root as nat, p),
        paths_view(r@).no_duplicates(),
    decreases root,
{
    let ghost g = bdd@;
    if root < 2 {
        let mut r: Vec<Vec<usize>> = Vec::new();
        if root == 1 {
            r.push(Vec::new());
        }
        proof {
            if root == 1 {
                assert(paths_view(r@) =~= seq![Seq::<usize>::empty()]);
                assert forall|p: Seq<usize>| paths_view(r@).contains(p) <==> zdd_path(g, root as nat, p) by {
                    if zdd_path(g, root as nat, p) {
                        assert(p =~= Seq::<usize>::empty());
                        assert(paths_view(r@)[0] == p);
                    }
                }
            } else {
                assert(paths_view(r@) =~= Seq::<Seq<usize>>::empty());
            }
        }
        return r;
    }
    let b = bdd.node(root);
    proof {
        assert(node_ok(g, root as int));
    }
    let mut r = trees(bdd, b.lo);
    let hs = trees(bdd, b.hi);
    let ghost lo_paths = paths_view(r@);
    let mut i: usize = 0;
    while i < hs.len()
        invariant
            wf(g),
            g == bdd@,
            b == g[root as int],
            node_ok(g, root as int),
            i <= hs@.len(),
            paths_view(r@).len() == lo_paths.len() + i,
            forall|k: int| 0 <= k < lo_paths.len() ==> paths_view(r@)[k] == lo_paths[k],
            forall|k: int|
                0 <= k < i ==> #[trigger] paths_view(r@)[lo_paths.len() + k] == seq![b.var] + paths_view(hs@)[k],
            forall|p: Seq<usize>| lo_paths.contains(p) <==> zdd_path(g, b.lo as nat, p),
            forall|p: Seq<usize>| paths_view(hs@).contains(p) <==> zdd_path(g, b.hi as nat, p),
            lo_paths.no_duplicates(),
            paths_view(hs@).no_duplicates(),
        decreases hs@.len() - i,
    {
        let mut p: Vec<usize> = Vec::new();
        p.push(b.var);
        let h = &hs[i];
        let mut j: usize = 0;
        while j < h.len()
            invariant
                j <= h@.len(),
                p@ == seq![b.var] + h@.take(j as int),
            decreases h@.len() - j,
        {
            p.push(h[j]);
            proof {
                assert(h@.take(j + 1) =~= h@.take(j as int).push(h@[j as int]));
                assert(p@ =~= seq![b.var] + h@.take(j + 1));
            }
            j += 1;
        }
        proof {
            assert(h@.take(j as int) =~= h@);
            assert(paths_view(hs@)[i as int] == h@);
        }
        let ghost prev = paths_view(r@);
        r.push(p);
        proof {
            assert(paths_view(r@) =~= prev.push(seq![b.var] + paths_view(hs@)[i as int]));
        }
        i += 1;
    }
    proof {
        let rv = paths_view(r@);
        let hv = paths_view(hs@);
        let nl = lo_paths.len();
        assert forall|p: Seq<usize>| rv.contains(p) <==> zdd_path(g, root as nat, p) by {
            if rv.contains(p) {
                let k = choose|k: int| 0 <= k < rv.len() && rv[k] == p;
                if k < nl {
                    assert(rv[k] == lo_paths[k]);
                    assert(lo_paths.contains(p));
                } else {
                    assert(rv[nl + (k - nl)] == seq![b.var] + hv[k - nl]);
                    assert(p.drop_first() =~= hv[k - nl]);
                    assert(hv.contains(hv[k - nl]));
                }
            }
            if zdd_path(g, root as nat, p) {
                if zdd_path(g, b.lo as nat, p) {
                    let k = choose|k: int| 0 <= k < nl && lo_paths[k] == p;
                    assert(rv[k] == p);
                } else {
                    assert(hv.contains(p.drop_first()));
                    let k = choose|k: int| 0 <= k < hv.len() && hv[k] == p.drop_first();
                    assert(rv[nl + k] == seq![b.var] + hv[k]);
                    assert(p =~= seq![b.var] + hv[k]);
                }
            }
        }
        assert forall|x: int, y: int| 0 <= x < rv.len() && 0 <= y < rv.len() && x != y implies rv[x] != rv[y] by {
            if x < nl && y < nl {
                assert(rv[x] == lo_paths[x]);
                assert(rv[y] == lo_paths[y]);
            } else if x >= nl && y >= nl {
                assert(rv[nl + (x - nl)] == seq![b.var] + hv[x - nl]);
                assert(rv[nl + (y - nl)] == seq![b.var] + hv[y - nl]);
                if rv[x] == rv[y] {
                    assert(hv[x - nl] =~= rv[x].drop_first());
                    assert(hv[y - nl] =~= rv[y].drop_first());
                }
            } else {
                let (a, c) = if x < nl { (x, y) } else { (y, x) };
                assert(rv[nl + (c - nl)] == seq![b.var] + hv[c - nl]);
                assert(rv[a] == lo_paths[a]);
                assert(lo_paths.contains(rv[a]));
                if rv[a] == rv[c] {
                    assert(rv[a].len() > 0);
                    lemma_path_below(g, b.lo as nat, rv[a], 0);
                    assert(rv[a][0] == b.var);
                }
            }
        }
    }
    r
}

} // verus!
