//! A node arena holding reduced, ordered, hash-consed decision diagrams.
//!
//! Node `0` is the false leaf, node `1` the true leaf; every other node is a
//! branch on a variable whose children were created before it.
use vstd::prelude::*;

verus! {

/// The false leaf: no assignment satisfies it.
pub const NEVER: usize = 0;

/// The true leaf: every assignment satisfies it.
pub const ALWAYS: usize = 1;

/// A decision on variable `var`: `lo` when it is unset, `hi` when it is set.
#[derive(Clone, Copy, Debug, PartialEq, Eq, Structural)]
pub struct Branch {
    pub var: usize,
    pub lo: usize,
    pub hi: usize,
}

/// The smallest variable at the top of node `n`; leaves lie below every variable.
pub open spec fn top(g: Seq<Branch>, n: nat) -> int {
    if n < 2 || n >= g.len() {
        usize::MAX as int + 1
    } else {
        g[n as int].var as int
    }
}

/// Branch `i` points to older nodes, decides something, and is ordered.
pub open spec fn node_ok(g: Seq<Branch>, i: int) -> bool {
    let b = g[i];
    &&& b.lo < i
    &&& b.hi < i
    &&& b.lo != b.hi
    &&& top(g, b.lo as nat) > b.var
    &&& top(g, b.hi as nat) > b.var
}

/// Reduced (`lo != hi`), ordered (variables grow downwards) and shared
/// (no branch stored twice).
pub open spec fn wf(g: Seq<Branch>) -> bool {
    &&& g.len() >= 2
    &&& forall|i: int| 2 <= i < g.len() ==> #[trigger] node_ok(g, i)
    &&& forall|i: int, j: int| 2 <= i < j < g.len() ==> #[trigger] g[i] != #[trigger] g[j]
}

/// The value of node `n` when exactly the variables in `s` are set.
pub open spec fn eval(g: Seq<Branch>, n: nat, s: Set<nat>) -> bool
    decreases n,
{
    if n < 2 {
        n == 1
    } else if n >= g.len() {
        false
    } else {
        let b = g[n as int];
        if b.lo < n && b.hi < n {
            if s.contains(b.var as nat) {
                eval(g, b.hi as nat, s)
            } else {
                eval(g, b.lo as nat, s)
            }
        } else {
            false
        }
    }
}

/// Variable `v` is decided by some branch reachable from `n`.
pub open spec fn mentions(g: Seq<Branch>, n: nat, v: nat) -> bool
    decreases n,
{
    if n < 2 || n >= g.len() {
        false
    } else {
        let b = g[n as int];
        if b.lo < n && b.hi < n {
            b.var == v || mentions(g, b.lo as nat, v) || mentions(g, b.hi as nat, v)
        } else {
            false
        }
    }
}

/// Every variable decided on a path from `n` is larger than the one before it.
pub open spec fn ordered_from(g: Seq<Branch>, n: nat) -> bool
    decreases n,
{
    if n < 2 || n >= g.len() {
        true
    } else {
        let b = g[n as int];
        if b.lo < n && b.hi < n {
            &&& top(g, b.lo as nat) > b.var
            &&& top(g, b.hi as nat) > b.var
            &&& ordered_from(g, b.lo as nat)
            &&& ordered_from(g, b.hi as nat)
        } else {
            false
        }
    }
}

/// Every branch reachable from `n` has two different children.
pub open spec fn reduced_from(g: Seq<Branch>, n: nat) -> bool
    decreases n,
{
    if n < 2 || n >= g.len() {
        true
    } else {
        let b = g[n as int];
        if b.lo < n && b.hi < n {
            b.lo != b.hi && reduced_from(g, b.lo as nat) && reduced_from(g, b.hi as nat)
        } else {
            false
        }
    }
}

/// The binary operators of the combinator layer.
#[derive(Clone, Copy, Debug, PartialEq, Eq, Structural)]
pub enum Op {
    And,
    Or,
    Xor,
}

/// What `op` gives on two truth values.
pub open spec fn op_spec(op: Op, x: bool, y: bool) -> bool {
    match op {
        Op::And => x && y,
        Op::Or => x || y,
        Op::Xor => x != y,
    }
}

/// Adding nodes at the end leaves what older nodes mean unchanged.
pub proof fn lemma_grow(g: Seq<Branch>, h: Seq<Branch>, n: nat)
    requires
        g.is_prefix_of(h),
        n < g.len(),
    ensures
        top(h, n) == top(g, n),
        forall|s: Set<nat>| eval(h, n, s) == #[trigger] eval(g, n, s),
        forall|v: nat| mentions(h, n, v) == #[trigger] mentions(g, n, v),
    decreases n,
{
    if n >= 2 {
        let b = g[n as int];
        assert(h[n as int] == b);
        if b.lo < n && b.hi < n {
            lemma_grow(g, h, b.lo as nat);
            lemma_grow(g, h, b.hi as nat);
        }
        assert forall|s: Set<nat>| eval(h, n, s) == #[trigger] eval(g, n, s) by {
            assert(n < h.len());
            if b.lo < n && b.hi < n {
                assert(eval(h, b.lo as nat, s) == eval(g, b.lo as nat, s));
                assert(eval(h, b.hi as nat, s) == eval(g, b.hi as nat, s));
            }
        }
        assert forall|v: nat| mentions(h, n, v) == #[trigger] mentions(g, n, v) by {
            assert(n < h.len());
            if b.lo < n && b.hi < n {
                assert(mentions(h, b.lo as nat, v) == mentions(g, b.lo as nat, v));
                assert(mentions(h, b.hi as nat, v) == mentions(g, b.hi as nat, v));
            }
        }
    }
}

/// In a well-formed arena no variable above the top of `n` is reachable from it.
pub proof fn lemma_below_top(g: Seq<Branch>, n: nat, v: nat)
    requires
        wf(g),
        n < g.len(),
        (v as int) < top(g, n),
    ensures
        !mentions(g, n, v),
    decreases n,
{
    if n >= 2 {
        let b = g[n as int];
        assert(node_ok(g, n as int));
        lemma_below_top(g, b.lo as nat, v);
        lemma_below_top(g, b.hi as nat, v);
    }
}

/// A variable that is not reachable from `n` does not change its value.
pub proof fn lemma_ignores(g: Seq<Branch>, n: nat, s: Set<nat>, v: nat)
    requires
        !mentions(g, n, v),
    ensures
        eval(g, n, s.insert(v)) == eval(g, n, s),
        eval(g, n, s.remove(v)) == eval(g, n, s),
    decreases n,
{
    if n >= 2 && n < g.len() {
        let b = g[n as int];
        if b.lo < n && b.hi < n {
            lemma_ignores(g, b.lo as nat, s, v);
            lemma_ignores(g, b.hi as nat, s, v);
        }
    }
}

/// Every node of a well-formed arena is ordered and reduced along all its paths.
pub proof fn lemma_wf_paths(g: Seq<Branch>, n: nat)
    requires
        wf(g),
        n < g.len(),
    ensures
        ordered_from(g, n),
        reduced_from(g, n),
    decreases n,
{
    if n >= 2 {
        let b = g[n as int];
        assert(node_ok(g, n as int));
        lemma_wf_paths(g, b.lo as nat);
        lemma_wf_paths(g, b.hi as nat);
    }
}

/// Growing an arena twice is growing it once.
pub proof fn lemma_prefix_trans(a: Seq<Branch>, b: Seq<Branch>, c: Seq<Branch>)
    requires
        a.is_prefix_of(b),
        b.is_prefix_of(c),
    ensures
        a.is_prefix_of(c),
{
    assert forall|i: int| 0 <= i < a.len() implies a[i] == c[i] by {
        assert(a[i] == b[i]);
        assert(b[i] == c[i]);
    }
    assert(a =~= c.subrange(0, a.len() as int));
}

/// The value of a node with `v` set or unset, for a node at or below `v`.
proof fn lemma_cofactor(g: Seq<Branch>, n: nat, v: nat, s: Set<nat>)
    requires
        wf(g),
        n < g.len(),
        top(g, n) >= v,
        v <= usize::MAX,
    ensures
        top(g, n) == v ==> eval(g, n, s.insert(v)) == eval(g, g[n as int].hi as nat, s),
        top(g, n) == v ==> eval(g, n, s.remove(v)) == eval(g, g[n as int].lo as nat, s),
        top(g, n) > v ==> eval(g, n, s.insert(v)) == eval(g, n, s),
        top(g, n) > v ==> eval(g, n, s.remove(v)) == eval(g, n, s),
{
    if top(g, n) == v {
        let b = g[n as int];
        assert(node_ok(g, n as int));
        lemma_below_top(g, b.lo as nat, v);
        lemma_below_top(g, b.hi as nat, v);
        lemma_ignores(g, b.lo as nat, s, v);
        lemma_ignores(g, b.hi as nat, s, v);
    } else {
        lemma_below_top(g, n, v);
        lemma_ignores(g, n, s, v);
    }
}

/// Canonical form: in a well-formed arena, two nodes that agree on every
/// assignment are the same node.
pub proof fn lemma_canonical(g: Seq<Branch>, a: nat, b: nat)
    requires
        wf(g),
        a < g.len(),
        b < g.len(),
        forall|s: Set<nat>| #[trigger] eval(g, a, s) == eval(g, b, s),
    ensures
        a == b,
    decreases a + b,
{
    if a < 2 && b < 2 {
        assert(eval(g, a, Set::empty()) == eval(g, b, Set::empty()));
    } else {
        let ta = top(g, a);
        let tb = top(g, b);
        let v: nat = if ta <= tb { ta as nat } else { tb as nat };
        assert(v < usize::MAX as int + 1);
        let (a0, a1) = if ta == v { (g[a as int].lo as nat, g[a as int].hi as nat) } else { (a, a) };
        let (b0, b1) = if tb == v { (g[b as int].lo as nat, g[b as int].hi as nat) } else { (b, b) };
        if a >= 2 {
            assert(node_ok(g, a as int));
        }
        if b >= 2 {
            assert(node_ok(g, b as int));
        }
        assert forall|s: Set<nat>| #[trigger] eval(g, a0, s) == eval(g, b0, s) by {
            lemma_cofactor(g, a, v, s);
            lemma_cofactor(g, b, v, s);
            assert(eval(g, a, s.remove(v)) == eval(g, b, s.remove(v)));
        }
        assert forall|s: Set<nat>| #[trigger] eval(g, a1, s) == eval(g, b1, s) by {
            lemma_cofactor(g, a, v, s);
            lemma_cofactor(g, b, v, s);
            assert(eval(g, a, s.insert(v)) == eval(g, b, s.insert(v)));
        }
        lemma_canonical(g, a0, b0);
        lemma_canonical(g, a1, b1);
        if ta == v && tb == v {
            assert(g[a as int] == g[b as int]);
        }
    }
}

/// Node `a` of arena `g1` and node `b` of arena `g2` are the same diagram:
/// the same leaf, or branches on the same variable with the same children.
pub open spec fn same_shape(g1: Seq<Branch>, a: nat, g2: Seq<Branch>, b: nat) -> bool
    decreases a,
{
    if a < 2 || b < 2 {
        a == b
    } else if a >= g1.len() || b >= g2.len() {
        false
    } else {
        let x = g1[a as int];
        let y = g2[b as int];
        if x.lo < a && x.hi < a {
            x.var == y.var && same_shape(g1, x.lo as nat, g2, y.lo as nat) && same_shape(
                g1,
                x.hi as nat,
                g2,
                y.hi as nat,
            )
        } else {
            false
        }
    }
}

/// Canonical form across arenas: nodes of two well-formed arenas that agree
/// on every assignment are the same diagram.
pub proof fn lemma_canonical_across(g1: Seq<Branch>, a: nat, g2: Seq<Branch>, b: nat)
    requires
        wf(g1),
        wf(g2),
        a < g1.len(),
        b < g2.len(),
        forall|s: Set<nat>| #[trigger] eval(g1, a, s) == eval(g2, b, s),
    ensures
        same_shape(g1, a, g2, b),
    decreases a + b,
{
    if a < 2 && b < 2 {
        assert(eval(g1, a, Set::empty()) == eval(g2, b, Set::empty()));
    } else {
        let ta = top(g1, a);
        let tb = top(g2, b);
        let v: nat = if ta <= tb { ta as nat } else { tb as nat };
        if a >= 2 {
            assert(node_ok(g1, a as int));
        }
        if b >= 2 {
            assert(node_ok(g2, b as int));
        }
        let (a0, a1) = if ta == v { (g1[a as int].lo as nat, g1[a as int].hi as nat) } else { (a, a) };
        let (b0, b1) = if tb == v { (g2[b as int].lo as nat, g2[b as int].hi as nat) } else { (b, b) };
        assert forall|s: Set<nat>| #[trigger] eval(g1, a0, s) == eval(g2, b0, s) by {
            lemma_cofactor(g1, a, v, s);
            lemma_cofactor(g2, b, v, s);
            assert(eval(g1, a, s.remove(v)) == eval(g2, b, s.remove(v)));
        }
        assert forall|s: Set<nat>| #[trigger] eval(g1, a1, s) == eval(g2, b1, s) by {
            lemma_cofactor(g1, a, v, s);
            lemma_cofactor(g2, b, v, s);
            assert(eval(g1, a, s.insert(v)) == eval(g2, b, s.insert(v)));
        }
        if ta == v && tb == v {
            lemma_canonical_across(g1, a0, g2, b0);
            lemma_canonical_across(g1, a1, g2, b1);
        } else if ta == v {
            assert forall|s: Set<nat>| #[trigger] eval(g1, a0, s) == eval(g1, a1, s) by {
                assert(eval(g1, a0, s) == eval(g2, b, s));
                assert(eval(g1, a1, s) == eval(g2, b, s));
            }
            lemma_canonical(g1, a0, a1);
        } else {
            assert forall|s: Set<nat>| #[trigger] eval(g2, b0, s) == eval(g2, b1, s) by {
                assert(eval(g2, b0, s) == eval(g1, a, s));
                assert(eval(g2, b1, s) == eval(g1, a, s));
            }
            lemma_canonical(g2, b0, b1);
        }
    }
}

/// Every satisfiable node is not the false leaf, and every node other than
/// the false leaf has a satisfying assignment.
pub proof fn lemma_satisfiable(g: Seq<Branch>, n: nat)
    requires
        wf(g),
        n < g.len(),
    ensures
        n != 0 <==> exists|s: Set<nat>| #[trigger] eval(g, n, s),
{
    if n != 0 {
        if !exists|s: Set<nat>| #[trigger] eval(g, n, s) {
            assert forall|s: Set<nat>| #[trigger] eval(g, n, s) == eval(g, 0, s) by {}
            lemma_canonical(g, n, 0);
        }
    }
}

/// The variables that the completion walk from `n` takes: at each branch the
/// high child unless it is the false leaf, then the low child.
pub open spec fn walk_set(g: Seq<Branch>, n: nat) -> Set<nat>
    decreases n,
{
    if n < 2 || n >= g.len() {
        Set::empty()
    } else {
        let b = g[n as int];
        if b.lo < n && b.hi < n {
            if b.hi != 0 {
                walk_set(g, b.hi as nat).insert(b.var as nat)
            } else {
                walk_set(g, b.lo as nat)
            }
        } else {
            Set::empty()
        }
    }
}

/// Some assignment satisfies `f`.
pub open spec fn sat(f: spec_fn(Set<nat>) -> bool) -> bool {
    exists|t: Set<nat>| #[trigger] f(t)
}

/// The value of `f` changes with variable `v` somewhere.
pub open spec fn depends(f: spec_fn(Set<nat>) -> bool, v: nat) -> bool {
    exists|t: Set<nat>| #[trigger] f(t.insert(v)) != f(t.remove(v))
}

/// `f` with variable `v` fixed to `val`.
pub open spec fn fix(f: spec_fn(Set<nat>) -> bool, v: nat, val: bool) -> spec_fn(Set<nat>) -> bool {
    |t: Set<nat>|
        f(
            if val {
                t.insert(v)
            } else {
                t.remove(v)
            },
        )
}

/// The greedy choice over the variables from `v` up: a variable that `f`
/// depends on is taken when `f` stays satisfiable with it, else left out;
/// a variable that `f` ignores is left out.
pub open spec fn greedy(f: spec_fn(Set<nat>) -> bool, v: nat) -> Set<nat>
    decreases usize::MAX + 1 - v,
{
    if v > usize::MAX {
        Set::empty()
    } else if depends(f, v) && sat(fix(f, v, true)) {
        greedy(fix(f, v, true), v + 1).insert(v)
    } else if depends(f, v) {
        greedy(fix(f, v, false), v + 1)
    } else {
        greedy(f, v + 1)
    }
}

/// The function that node `n` denotes.
pub open spec fn denotes(g: Seq<Branch>, n: nat) -> spec_fn(Set<nat>) -> bool {
    |t: Set<nat>| eval(g, n, t)
}

/// The walk takes exactly the greedy choice of the node's function, so what
/// it returns depends on that function alone.
pub proof fn lemma_walk_greedy(g: Seq<Branch>, m: nat, v: nat)
    requires
        wf(g),
        m < g.len(),
        m != 0,
        v <= top(g, m),
    ensures
        walk_set(g, m) == greedy(denotes(g, m), v),
    decreases m, usize::MAX + 1 - v,
{
    let f = denotes(g, m);
    if v > usize::MAX {
        assert(m < 2);
    } else if v < top(g, m) {
        assert forall|t: Set<nat>| #[trigger] f(t.insert(v)) == f(t.remove(v)) by {
            lemma_cofactor(g, m, v, t);
        }
        lemma_walk_greedy(g, m, v + 1);
    } else {
        let b = g[m as int];
        assert(node_ok(g, m as int));
        let lo = b.lo as nat;
        let hi = b.hi as nat;
        if forall|t: Set<nat>| #[trigger] eval(g, lo, t) == eval(g, hi, t) {
            lemma_canonical(g, lo, hi);
        }
        let t0 = choose|t: Set<nat>| #[trigger] eval(g, lo, t) != eval(g, hi, t);
        lemma_cofactor(g, m, v, t0);
        assert(f(t0.insert(v)) != f(t0.remove(v)));
        assert(depends(f, v));
        assert forall|t: Set<nat>| #[trigger] fix(f, v, true)(t) == denotes(g, hi)(t) by {
            lemma_cofactor(g, m, v, t);
        }
        assert forall|t: Set<nat>| #[trigger] fix(f, v, false)(t) == denotes(g, lo)(t) by {
            lemma_cofactor(g, m, v, t);
        }
        assert(fix(f, v, true) =~= denotes(g, hi));
        assert(fix(f, v, false) =~= denotes(g, lo));
        lemma_satisfiable(g, hi);
        if hi != 0 {
            let t1 = choose|t: Set<nat>| #[trigger] eval(g, hi, t);
            assert(denotes(g, hi)(t1));
            lemma_walk_greedy(g, hi, v + 1);
        } else {
            if sat(fix(f, v, true)) {
                let t1 = choose|t: Set<nat>| #[trigger] fix(f, v, true)(t);
                assert(eval(g, hi, t1));
            }
            lemma_walk_greedy(g, lo, v + 1);
        }
    }
}

/// The smaller of the tops of `a` and `b`.
pub open spec fn min_top(g: Seq<Branch>, a: nat, b: nat) -> int {
    if top(g, a) <= top(g, b) {
        top(g, a)
    } else {
        top(g, b)
    }
}

/// A remembered result `e.2` of `op` on `e.0` and `e.1`, valid in `g`.
pub open spec fn entry_ok(g: Seq<Branch>, op: Op, e: (usize, usize, usize)) -> bool {
    &&& e.0 < g.len()
    &&& e.1 < g.len()
    &&& e.2 < g.len()
    &&& top(g, e.2 as nat) >= min_top(g, e.0 as nat, e.1 as nat)
    &&& forall|s: Set<nat>|
        #[trigger] eval(g, e.2 as nat, s) == op_spec(op, eval(g, e.0 as nat, s), eval(g, e.1 as nat, s))
}

/// Every entry of the operation cache `c` is valid in `g`.
pub open spec fn cache_ok(g: Seq<Branch>, op: Op, c: Seq<(usize, usize, usize)>) -> bool {
    forall|k: int| 0 <= k < c.len() ==> entry_ok(g, op, #[trigger] c[k])
}

/// Remembered results stay valid as the arena grows.
proof fn lemma_cache_grow(g: Seq<Branch>, h: Seq<Branch>, op: Op, c: Seq<(usize, usize, usize)>)
    requires
        g.is_prefix_of(h),
        cache_ok(g, op, c),
    ensures
        cache_ok(h, op, c),
{
    assert forall|k: int| 0 <= k < c.len() implies entry_ok(h, op, #[trigger] c[k]) by {
        let e = c[k];
        assert(entry_ok(g, op, e));
        lemma_grow(g, h, e.0 as nat);
        lemma_grow(g, h, e.1 as nat);
        lemma_grow(g, h, e.2 as nat);
        assert forall|s: Set<nat>| #[trigger] eval(h, e.2 as nat, s) == op_spec(op, eval(h, e.0 as nat, s), eval(h, e.1 as nat, s)) by {
            assert(eval(g, e.2 as nat, s) == op_spec(op, eval(g, e.0 as nat, s), eval(g, e.1 as nat, s)));
        }
    }
}

/// `s` with variable `v` set to `val`.
pub open spec fn assign(s: Set<nat>, v: nat, val: bool) -> Set<nat> {
    if val {
        s.insert(v)
    } else {
        s.remove(v)
    }
}

/// A remembered result `e.1` of restricting `e.0` by `v = val`, valid in `g`.
pub open spec fn restrict_entry_ok(g: Seq<Branch>, v: nat, val: bool, e: (usize, usize)) -> bool {
    &&& e.0 < g.len()
    &&& e.1 < g.len()
    &&& top(g, e.1 as nat) >= top(g, e.0 as nat)
    &&& !mentions(g, e.1 as nat, v)
    &&& forall|s: Set<nat>| #[trigger] eval(g, e.1 as nat, s) == eval(g, e.0 as nat, assign(s, v, val))
}

/// Every entry of the restriction cache `c` is valid in `g`.
pub open spec fn restrict_cache_ok(g: Seq<Branch>, v: nat, val: bool, c: Seq<(usize, usize)>) -> bool {
    forall|k: int| 0 <= k < c.len() ==> restrict_entry_ok(g, v, val, #[trigger] c[k])
}

/// Remembered restrictions stay valid as the arena grows.
proof fn lemma_restrict_cache_grow(g: Seq<Branch>, h: Seq<Branch>, v: nat, val: bool, c: Seq<(usize, usize)>)
    requires
        g.is_prefix_of(h),
        restrict_cache_ok(g, v, val, c),
    ensures
        restrict_cache_ok(h, v, val, c),
{
    assert forall|k: int| 0 <= k < c.len() implies restrict_entry_ok(h, v, val, #[trigger] c[k]) by {
        let e = c[k];
        assert(restrict_entry_ok(g, v, val, e));
        lemma_grow(g, h, e.0 as nat);
        lemma_grow(g, h, e.1 as nat);
        assert(mentions(h, e.1 as nat, v) == mentions(g, e.1 as nat, v));
        assert forall|s: Set<nat>| #[trigger] eval(h, e.1 as nat, s) == eval(h, e.0 as nat, assign(s, v, val)) by {
            assert(eval(g, e.1 as nat, s) == eval(g, e.0 as nat, assign(s, v, val)));
        }
    }
}

/// A store of diagram nodes shared by every diagram built in it.
pub struct Bdd {
    nodes: Vec<Branch>,
}

impl View for Bdd {
    type V = Seq<Branch>;

    closed spec fn view(&self) -> Seq<Branch> {
        self.nodes@
    }
}

impl Bdd {
    /// An arena holding only the two leaves.
    pub fn new() -> (r: Bdd)
        ensures
            wf(r@),
            r@.len() == 2,
    {
        let mut nodes: Vec<Branch> = Vec::new();
        nodes.push(Branch { var: 0, lo: 0, hi: 0 });
        nodes.push(Branch { var: 0, lo: 1, hi: 1 });
        Bdd { nodes }
    }

    /// A copy of this arena.
    pub fn copy(&self) -> (r: Bdd)
        ensures
            r@ == self@,
    {
        let mut nodes: Vec<Branch> = Vec::new();
        let mut i: usize = 0;
        while i < self.nodes.len()
            invariant
                i <= self@.len(),
                nodes@ == self@.take(i as int),
            decreases self@.len() - i,
        {
            nodes.push(self.nodes[i]);
            proof {
                assert(self@.take(i + 1) =~= self@.take(i as int).push(self@[i as int]));
            }
            i += 1;
        }
        proof {
            assert(self@.take(i as int) =~= self@);
        }
        Bdd { nodes }
    }

    /// The number of nodes, leaves included.
    pub fn len(&self) -> (r: usize)
        ensures
            r == self@.len(),
    {
        self.nodes.len()
    }

    /// The branch stored at `n`.
    pub fn node(&self, n: usize) -> (r: Branch)
        requires
            2 <= n < self@.len(),
        ensures
            r == self@[n as int],
    {
        self.nodes[n]
    }

    /// The leaf for `v`.
    pub fn leaf(v: bool) -> (r: usize)
        ensures
            r < 2,
            r == 1 <==> v,
    {
        if v {
            ALWAYS
        } else {
            NEVER
        }
    }

    /// Node `n` is a leaf.
    pub fn is_leaf(n: usize) -> (r: bool)
        ensures
            r == (n < 2),
    {
        n < 2
    }

    /// Node `n` is the true leaf.
    pub fn is_always(n: usize) -> (r: bool)
        ensures
            r == (n == 1),
    {
        n == ALWAYS
    }

    /// The variable at the top of `n`, or `None` for a leaf.
    pub fn top_var(&self, n: usize) -> (r: Option<usize>)
        requires
            n < self@.len(),
        ensures
            n < 2 ==> r is None,
            n >= 2 ==> r == Some(self@[n as int].var),
    {
        if n < 2 {
            None
        } else {
            Some(self.nodes[n].var)
        }
    }

    /// The two children of `n` (a leaf is its own child).
    pub fn children(&self, n: usize) -> (r: (usize, usize))
        requires
            n < self@.len(),
        ensures
            n < 2 ==> r == (n, n),
            n >= 2 ==> r == (self@[n as int].lo, self@[n as int].hi),
    {
        if n < 2 {
            (n, n)
        } else {
            (self.nodes[n].lo, self.nodes[n].hi)
        }
    }

    /// The node deciding `var` between `lo` and `hi`: `lo` itself when the two
    /// are equal, else the one stored branch with that triple.
    pub fn branch(&mut self, var: usize, lo: usize, hi: usize) -> (r: usize)
        requires
            wf(old(self)@),
            lo < old(self)@.len(),
            hi < old(self)@.len(),
            top(old(self)@, lo as nat) > var,
            top(old(self)@, hi as nat) > var,
        ensures
            wf(final(self)@),
            old(self)@.is_prefix_of(final(self)@),
            r < final(self)@.len(),
            top(final(self)@, r as nat) >= var,
            lo == hi ==> r == lo,
            lo != hi ==> r >= 2 && final(self)@[r as int] == (Branch { var, lo, hi }),
            forall|s: Set<nat>|
                #[trigger] eval(final(self)@, r as nat, s) == if s.contains(var as nat) {
                    eval(final(self)@, hi as nat, s)
                } else {
                    eval(final(self)@, lo as nat, s)
                },
            forall|x: nat|
                #[trigger] mentions(final(self)@, r as nat, x) ==> x == var || mentions(
                    final(self)@,
                    lo as nat,
                    x,
                ) || mentions(final(self)@, hi as nat, x),
    {
        if lo == hi {
            return lo;
        }
        let want = Branch { var, lo, hi };
        let mut i: usize = 2;
        while i < self.nodes.len()
            invariant
                2 <= i <= self@.len(),
                self@ == old(self)@,
                wf(self@),
                lo != hi,
                want == (Branch { var, lo, hi }),
                forall|j: int| 2 <= j < i ==> self@[j] != want,
            decreases self@.len() - i,
        {
            if self.nodes[i] == want {
                proof {
                    assert(node_ok(self@, i as int));
                }
                return i;
            }
            i += 1;
        }
        let r = self.nodes.len();
        self.nodes.push(want);
        proof {
            let g = old(self)@;
            let h = self@;
            assert(g.is_prefix_of(h));
            lemma_grow(g, h, lo as nat);
            lemma_grow(g, h, hi as nat);
            assert forall|k: int| 2 <= k < h.len() implies #[trigger] node_ok(h, k) by {
                if k < g.len() {
                    assert(node_ok(g, k));
                    lemma_grow(g, h, g[k].lo as nat);
                    lemma_grow(g, h, g[k].hi as nat);
                }
            }
        }
        r
    }

    /// The two cofactors of `n` on variable `v`: its children when `v` is at
    /// its top, else `n` twice.
    fn cofactors(&self, n: usize, v: usize) -> (r: (usize, usize))
        requires
            wf(self@),
            n < self@.len(),
            top(self@, n as nat) >= v,
        ensures
            r.0 < n || (r.0 == n && top(self@, n as nat) > v),
            r.1 < n || (r.1 == n && top(self@, n as nat) > v),
            top(self@, r.0 as nat) > v,
            top(self@, r.1 as nat) > v,
            forall|s: Set<nat>|
                #[trigger] eval(self@, n as nat, s) == if s.contains(v as nat) {
                    eval(self@, r.1 as nat, s)
                } else {
                    eval(self@, r.0 as nat, s)
                },
    {
        if n >= 2 && self.nodes[n].var == v {
            proof {
                assert(node_ok(self@, n as int));
            }
            (self.nodes[n].lo, self.nodes[n].hi)
        } else {
            (n, n)
        }
    }

    /// `op` applied to the functions of `a` and `b`, by Shannon expansion on
    /// the smaller top variable, remembering each result for the call.
    pub fn apply(&mut self, op: Op, a: usize, b: usize) -> (r: usize)
        requires
            wf(old(self)@),
            a < old(self)@.len(),
            b < old(self)@.len(),
        ensures
            wf(final(self)@),
            old(self)@.is_prefix_of(final(self)@),
            r < final(self)@.len(),
            top(final(self)@, r as nat) >= min_top(old(self)@, a as nat, b as nat),
            forall|s: Set<nat>|
                #[trigger] eval(final(self)@, r as nat, s) == op_spec(
                    op,
                    eval(old(self)@, a as nat, s),
                    eval(old(self)@, b as nat, s),
                ),
    {
        let mut cache: Vec<(usize, usize, usize)> = Vec::new();
        self.apply_cached(&mut cache, op, a, b)
    }

    /// `apply` with an operation cache of results already computed for `op`.
    fn apply_cached(&mut self, cache: &mut Vec<(usize, usize, usize)>, op: Op, a: usize, b: usize) -> (r: usize)
        requires
            wf(old(self)@),
            a < old(self)@.len(),
            b < old(self)@.len(),
            cache_ok(old(self)@, op, old(cache)@),
        ensures
            wf(final(self)@),
            old(self)@.is_prefix_of(final(self)@),
            r < final(self)@.len(),
            top(final(self)@, r as nat) >= min_top(old(self)@, a as nat, b as nat),
            forall|s: Set<nat>|
                #[trigger] eval(final(self)@, r as nat, s) == op_spec(
                    op,
                    eval(old(self)@, a as nat, s),
                    eval(old(self)@, b as nat, s),
                ),
            cache_ok(final(self)@, op, final(cache)@),
        decreases a + b,
    {
        if a < 2 && b < 2 {
            return Bdd::leaf(op_spec_exec(op, a == ALWAYS, b == ALWAYS));
        }
        match op {
            Op::And => {
                if a == NEVER || b == NEVER {
                    return NEVER;
                }
                if a == ALWAYS {
                    return b;
                }
                if b == ALWAYS {
                    return a;
                }
            },
            Op::Or => {
                if a == ALWAYS || b == ALWAYS {
                    return ALWAYS;
                }
                if a == NEVER {
                    return b;
                }
                if b == NEVER {
                    return a;
                }
            },
            Op::Xor => {
                if a == NEVER {
                    return b;
                }
                if b == NEVER {
                    return a;
                }
            },
        }
        let mut k: usize = 0;
        while k < cache.len()
            invariant
                k <= cache@.len(),
                cache_ok(self@, op, cache@),
                self@ == old(self)@,
                cache@ == old(cache)@,
                wf(self@),
            decreases cache@.len() - k,
        {
            let e = cache[k];
            if e.0 == a && e.1 == b {
                proof {
                    assert(entry_ok(self@, op, cache@[k as int]));
                }
                return e.2;
            }
            k += 1;
        }
        let ghost g0 = self@;
        let v = if a >= 2 && (b < 2 || self.nodes[a].var <= self.nodes[b].var) {
            self.nodes[a].var
        } else {
            self.nodes[b].var
        };
        let (a0, a1) = self.cofactors(a, v);
        let (b0, b1) = self.cofactors(b, v);
        let lo = self.apply_cached(cache, op, a0, b0);
        let ghost g1 = self@;
        let hi = self.apply_cached(cache, op, a1, b1);
        let ghost g2 = self@;
        proof {
            lemma_grow(g1, g2, lo as nat);
        }
        let r = self.branch(v, lo, hi);
        proof {
            let g3 = self@;
            lemma_cache_grow(g2, g3, op, cache@);
            lemma_prefix_trans(g0, g1, g2);
            lemma_prefix_trans(g0, g2, g3);
            lemma_grow(g0, g3, a as nat);
            lemma_grow(g0, g3, b as nat);
            lemma_grow(g1, g2, lo as nat);
            lemma_grow(g2, g3, lo as nat);
            lemma_grow(g2, g3, hi as nat);
            lemma_grow(g0, g1, a1 as nat);
            lemma_grow(g0, g1, b1 as nat);
            assert forall|s: Set<nat>|
                #[trigger] eval(g3, r as nat, s) == op_spec(
                    op,
                    eval(g0, a as nat, s),
                    eval(g0, b as nat, s),
                ) by {
                assert(eval(g0, a as nat, s) == if s.contains(v as nat) {
                    eval(g0, a1 as nat, s)
                } else {
                    eval(g0, a0 as nat, s)
                });
                assert(eval(g0, b as nat, s) == if s.contains(v as nat) {
                    eval(g0, b1 as nat, s)
                } else {
                    eval(g0, b0 as nat, s)
                });
                assert(eval(g3, lo as nat, s) == eval(g1, lo as nat, s));
                assert(eval(g3, hi as nat, s) == eval(g2, hi as nat, s));
                assert(eval(g1, a1 as nat, s) == eval(g0, a1 as nat, s));
                assert(eval(g1, b1 as nat, s) == eval(g0, b1 as nat, s));
            }
            assert(entry_ok(g3, op, (a, b, r)));
        }
        cache.push((a, b, r));
        r
    }

    /// The negation of `a`.
    pub fn not(&mut self, a: usize) -> (r: usize)
        requires
            wf(old(self)@),
            a < old(self)@.len(),
        ensures
            wf(final(self)@),
            old(self)@.is_prefix_of(final(self)@),
            r < final(self)@.len(),
            forall|s: Set<nat>|
                #[trigger] eval(final(self)@, r as nat, s) == !eval(old(self)@, a as nat, s),
    {
        self.apply(Op::Xor, a, ALWAYS)
    }

    /// The function that holds exactly when `var` is set.
    pub fn var(&mut self, var: usize) -> (r: usize)
        requires
            wf(old(self)@),
        ensures
            wf(final(self)@),
            old(self)@.is_prefix_of(final(self)@),
            r < final(self)@.len(),
            forall|s: Set<nat>| #[trigger] eval(final(self)@, r as nat, s) == s.contains(var as nat),
    {
        self.branch(var, NEVER, ALWAYS)
    }

    /// `n` with variable `v` fixed to `val`: every branch on `v` is replaced
    /// by the child that `val` selects.
    pub fn restrict(&mut self, n: usize, v: usize, val: bool) -> (r: usize)
        requires
            wf(old(self)@),
            n < old(self)@.len(),
        ensures
            wf(final(self)@),
            old(self)@.is_prefix_of(final(self)@),
            r < final(self)@.len(),
            top(final(self)@, r as nat) >= top(old(self)@, n as nat),
            !mentions(final(self)@, r as nat, v as nat),
            forall|s: Set<nat>|
                #[trigger] eval(final(self)@, r as nat, s) == eval(
                    old(self)@,
                    n as nat,
                    if val {
                        s.insert(v as nat)
                    } else {
                        s.remove(v as nat)
                    },
                ),
    {
        let mut cache: Vec<(usize, usize)> = Vec::new();
        self.restrict_cached(&mut cache, n, v, val)
    }

    /// `restrict` with a cache of the nodes already restricted by `v = val`.
    fn restrict_cached(&mut self, cache: &mut Vec<(usize, usize)>, n: usize, v: usize, val: bool) -> (r: usize)
        requires
            wf(old(self)@),
            n < old(self)@.len(),
            restrict_cache_ok(old(self)@, v as nat, val, old(cache)@),
        ensures
            wf(final(self)@),
            old(self)@.is_prefix_of(final(self)@),
            r < final(self)@.len(),
            top(final(self)@, r as nat) >= top(old(self)@, n as nat),
            !mentions(final(self)@, r as nat, v as nat),
            forall|s: Set<nat>|
                #[trigger] eval(final(self)@, r as nat, s) == eval(
                    old(self)@,
                    n as nat,
                    if val {
                        s.insert(v as nat)
                    } else {
                        s.remove(v as nat)
                    },
                ),
            restrict_cache_ok(final(self)@, v as nat, val, final(cache)@),
        decreases n,
    {
        let ghost g0 = self@;
        if n < 2 || self.nodes[n].var > v {
            proof {
                lemma_below_top(g0, n as nat, v as nat);
                assert forall|s: Set<nat>|
                    #[trigger] eval(g0, n as nat, s) == eval(
                        g0,
                        n as nat,
                        if val {
                            s.insert(v as nat)
                        } else {
                            s.remove(v as nat)
                        },
                    ) by {
                    lemma_ignores(g0, n as nat, s, v as nat);
                }
            }
            return n;
        }
        let b = self.nodes[n];
        proof {
            assert(node_ok(g0, n as int));
        }
        if b.var == v {
            let r = if val {
                b.hi
            } else {
                b.lo
            };
            proof {
                lemma_below_top(g0, r as nat, v as nat);
                assert forall|s: Set<nat>|
                    #[trigger] eval(g0, r as nat, s) == eval(
                        g0,
                        n as nat,
                        if val {
                            s.insert(v as nat)
                        } else {
                            s.remove(v as nat)
                        },
                    ) by {
                    lemma_ignores(g0, r as nat, s, v as nat);
                }
            }
            return r;
        }
        let mut k: usize = 0;
        while k < cache.len()
            invariant
                k <= cache@.len(),
                restrict_cache_ok(self@, v as nat, val, cache@),
                self@ == old(self)@,
                cache@ == old(cache)@,
                wf(self@),
            decreases cache@.len() - k,
        {
            let e = cache[k];
            if e.0 == n {
                proof {
                    assert(restrict_entry_ok(self@, v as nat, val, cache@[k as int]));
                    assert forall|s: Set<nat>|
                        #[trigger] eval(self@, e.1 as nat, s) == eval(
                            self@,
                            n as nat,
                            if val {
                                s.insert(v as nat)
                            } else {
                                s.remove(v as nat)
                            },
                        ) by {
                        assert(eval(self@, e.1 as nat, s) == eval(self@, e.0 as nat, assign(s, v as nat, val)));
                    }
                }
                return e.1;
            }
            k += 1;
        }
        let lo = self.restrict_cached(cache, b.lo, v, val);
        let ghost g1 = self@;
        let hi = self.restrict_cached(cache, b.hi, v, val);
        let ghost g2 = self@;
        proof {
            lemma_grow(g1, g2, lo as nat);
            lemma_grow(g0, g1, b.lo as nat);
            lemma_grow(g0, g1, b.hi as nat);
        }
        let r = self.branch(b.var, lo, hi);
        proof {
            let g3 = self@;
            lemma_grow(g2, g3, lo as nat);
            lemma_grow(g2, g3, hi as nat);
            lemma_grow(g1, g2, lo as nat);
            assert forall|s: Set<nat>|
                #[trigger] eval(g3, r as nat, s) == eval(
                    g0,
                    n as nat,
                    if val {
                        s.insert(v as nat)
                    } else {
                        s.remove(v as nat)
                    },
                ) by {
                let t = if val {
                    s.insert(v as nat)
                } else {
                    s.remove(v as nat)
                };
                assert(t.contains(b.var as nat) == s.contains(b.var as nat));
                assert(eval(g3, lo as nat, s) == eval(g1, lo as nat, s));
                assert(eval(g3, hi as nat, s) == eval(g2, hi as nat, s));
                assert(eval(g1, b.hi as nat, t) == eval(g0, b.hi as nat, t));
                assert(eval(g1, b.lo as nat, t) == eval(g0, b.lo as nat, t));
            }
            lemma_restrict_cache_grow(g2, g3, v as nat, val, cache@);
            lemma_prefix_trans(g0, g1, g2);
            lemma_prefix_trans(g0, g2, g3);
            lemma_grow(g0, g3, n as nat);
            assert forall|s: Set<nat>| #[trigger] eval(g3, r as nat, s) == eval(g3, n as nat, assign(s, v as nat, val)) by {
                assert(eval(g0, n as nat, assign(s, v as nat, val)) == eval(g3, n as nat, assign(s, v as nat, val)));
            }
            assert(restrict_entry_ok(g3, v as nat, val, (n, r)));
        }
        cache.push((n, r));
        r
    }
}

/// `op_spec` as executable code.
pub fn op_spec_exec(op: Op, x: bool, y: bool) -> (r: bool)
    ensures
        r == op_spec(op, x, y),
{
    match op {
        Op::And => x && y,
        Op::Or => x || y,
        Op::Xor => x != y,
    }
}

} // verus!
