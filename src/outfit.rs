//! Completing a partial selection into a legal outfit.
use vstd::prelude::*;
use crate::bdd::{Bdd, eval, wf, top, node_ok, lemma_grow, lemma_prefix_trans, walk_set, greedy, denotes, lemma_walk_greedy, NEVER};
use crate::closet::{
    Closet, index_of, items_view, families_view, legal, sorted, distinct, lemma_distinct,
    insert_family_by_name,
    at_most_one, at_least_one, exclusions_hold, inclusions_hold, some_of_family,
};
use crate::item::{Item, Family};

verus! {

/// Why a selection cannot be completed.
#[derive(Debug, PartialEq, Eq)]
pub enum OutfitError {
    /// Selected items that the closet does not hold, in the order selected.
    UnknownItems(Vec<Item>),
    /// Families with more than one selected item, in name order, each with
    /// those items in the order selected.
    MultipleItemsPerFamily(Vec<(Family, Vec<Item>)>),
    /// The selected items, in name order, when no legal outfit holds them all.
    ConflictingItems(Vec<Item>),
}

/// One item of each family, satisfying every rule, in name order.
#[derive(Debug, PartialEq, Eq)]
pub struct Outfit {
    items: Vec<Item>,
}

impl View for Outfit {
    type V = Seq<Seq<u8>>;

    closed spec fn view(&self) -> Seq<Seq<u8>> {
        items_view(self.items@)
    }
}

impl Outfit {
    /// The items, in name order.
    pub fn items(&self) -> (r: &Vec<Item>)
        ensures
            items_view(r@) == self@,
    {
        &self.items
    }
}

/// The selected items that are not in the table `vs`.
pub open spec fn unknown_items(vs: Seq<Seq<u8>>, sv: Seq<Seq<u8>>) -> Seq<Seq<u8>> {
    sv.filter(|x: Seq<u8>| !vs.contains(x))
}

/// The positions in `vs` of the items of `sv`.
pub open spec fn positions(vs: Seq<Seq<u8>>, sv: Seq<Seq<u8>>) -> Set<nat> {
    Set::new(|i: nat| i < vs.len() && sv.contains(vs[i as int]))
}

/// The family of item `x` in the table `vs`, `fs`.
pub open spec fn family_in(vs: Seq<Seq<u8>>, fs: Seq<Seq<u8>>, x: Seq<u8>) -> Seq<u8> {
    fs[choose|i: int| 0 <= i < vs.len() && vs[i] == x]
}

/// The selected items of family `f`, in the order selected.
pub open spec fn members(vs: Seq<Seq<u8>>, fs: Seq<Seq<u8>>, sv: Seq<Seq<u8>>, f: Seq<u8>) -> Seq<Seq<u8>> {
    sv.filter(|x: Seq<u8>| family_in(vs, fs, x) == f)
}

/// The families with two or more selected items, in name order.
pub open spec fn crowded_families(vs: Seq<Seq<u8>>, fs: Seq<Seq<u8>>, sv: Seq<Seq<u8>>) -> Seq<Seq<u8>> {
    choose|fl: Seq<Seq<u8>>| lists_crowded(vs, fs, sv, fl)
}

/// `fl` lists, once each and in name order, the families with two or more
/// selected items.
pub open spec fn lists_crowded(vs: Seq<Seq<u8>>, fs: Seq<Seq<u8>>, sv: Seq<Seq<u8>>, fl: Seq<Seq<u8>>) -> bool {
    &&& sorted(fl)
    &&& forall|f: Seq<u8>| fl.contains(f) <==> (exists|k: int| 0 <= k < sv.len() && family_in(vs, fs, #[trigger] sv[k]) == f)
        && members(vs, fs, sv, f).len() > 1
}

/// Each family with two or more selected items, in name order, with its
/// selected items in the order selected.
pub open spec fn crowded(vs: Seq<Seq<u8>>, fs: Seq<Seq<u8>>, sv: Seq<Seq<u8>>) -> Seq<(Seq<u8>, Seq<Seq<u8>>)> {
    crowded_families(vs, fs, sv).map_values(|f: Seq<u8>| (f, members(vs, fs, sv, f)))
}

/// Family groups as names.
pub open spec fn groups_view(v: Seq<(Family, Vec<Item>)>) -> Seq<(Seq<u8>, Seq<Seq<u8>>)> {
    v.map_values(|c: (Family, Vec<Item>)| (c.0@, items_view(c.1@)))
}

/// The selected items that `closet` does not hold, if any.
fn find_unknown_items(closet: &Closet, selections: &Vec<Item>) -> (r: Option<Vec<Item>>)
    ensures
        r is None <==> unknown_items(closet.vars(), items_view(selections@)).len() == 0,
        r matches Some(u) ==> items_view(u@) == unknown_items(closet.vars(), items_view(selections@)),
{
    let ghost vs = closet.vars();
    let ghost sv = items_view(selections@);
    let ghost p = |x: Seq<u8>| !vs.contains(x);
    let mut u: Vec<Item> = Vec::new();
    let mut k: usize = 0;
    while k < selections.len()
        invariant
            k <= selections@.len(),
            vs == closet.vars(),
            sv == items_view(selections@),
            p == (|x: Seq<u8>| !vs.contains(x)),
            items_view(u@) == sv.take(k as int).filter(p),
        decreases selections@.len() - k,
    {
        let x = &selections[k];
        let ghost prev = u@;
        let found = index_of(closet.items(), x);
        proof {
            reveal(Seq::filter);
            assert(sv.take(k + 1).drop_last() =~= sv.take(k as int));
            assert(sv.take(k + 1).last() == x@);
            match found {
                Some(i) => {
                    assert(vs[i as int] == x@);
                },
                None => {},
            }
        }
        if found.is_none() {
            u.push(x.copy());
            proof {
                assert(items_view(u@) =~= items_view(prev).push(x@));
            }
        }
        k += 1;
    }
    proof {
        assert(sv.take(k as int) =~= sv);
    }
    if u.len() > 0 {
        Some(u)
    } else {
        None
    }
}


/// The position of a known item, with its family.
fn position(closet: &Closet, x: &Item) -> (r: usize)
    requires
        closet.inv(),
        closet.vars().contains(x@),
    ensures
        r < closet.vars().len(),
        closet.vars()[r as int] == x@,
        closet.fams()[r as int] == family_in(closet.vars(), closet.fams(), x@),
{
    let ghost vs = closet.vars();
    let items = closet.items();
    match index_of(items, x) {
        Some(i) => {
            proof {
                let c = choose|c: int| 0 <= c < vs.len() && vs[c] == x@;
                lemma_distinct(vs, c, i as int);
            }
            i
        },
        None => {
            proof {
                let c = choose|c: int| 0 <= c < vs.len() && vs[c] == x@;
                assert(items_view(items@)[c] != x@);
            }
            0
        },
    }
}

/// The selected items of family `f`, in the order selected.
fn members_of(closet: &Closet, selections: &Vec<Item>, f: &Family) -> (r: Vec<Item>)
    requires
        closet.inv(),
        forall|k: int| 0 <= k < selections@.len() ==> closet.vars().contains(#[trigger] items_view(selections@)[k]),
    ensures
        items_view(r@) == members(closet.vars(), closet.fams(), items_view(selections@), f@),
{
    let ghost vs = closet.vars();
    let ghost fs = closet.fams();
    let ghost sv = items_view(selections@);
    let fams = closet.families();
    let ghost pf = |x: Seq<u8>| family_in(vs, fs, x) == f@;
    let mut mem: Vec<Item> = Vec::new();
    let mut t: usize = 0;
    while t < selections.len()
        invariant
            closet.inv(),
            t <= selections@.len(),
            vs == closet.vars(),
            fs == closet.fams(),
            fs == families_view(fams@),
            sv == items_view(selections@),
            forall|k: int| 0 <= k < sv.len() ==> vs.contains(#[trigger] sv[k]),
            pf == (|x: Seq<u8>| family_in(vs, fs, x) == f@),
            items_view(mem@) == sv.take(t as int).filter(pf),
        decreases selections@.len() - t,
    {
        proof {
            assert(sv[t as int] == selections@[t as int]@);
            assert(vs.contains(sv[t as int]));
            reveal(Seq::filter);
            assert(sv.take(t + 1).drop_last() =~= sv.take(t as int));
            assert(sv.take(t + 1).last() == sv[t as int]);
        }
        let pt = position(closet, &selections[t]);
        if fams[pt].same(f) {
            let ghost prev = mem@;
            mem.push(selections[t].copy());
            proof {
                assert(items_view(mem@) =~= items_view(prev).push(sv[t as int]));
            }
        }
        t += 1;
    }
    proof {
        assert(sv.take(t as int) =~= sv);
    }
    mem
}

/// Every family with two or more selected items, in name order, with those
/// items in the order selected.
fn find_duplicate_items(closet: &Closet, selections: &Vec<Item>) -> (r: Option<Vec<(Family, Vec<Item>)>>)
    requires
        closet.inv(),
        unknown_items(closet.vars(), items_view(selections@)).len() == 0,
    ensures
        ({
            let c = crowded(closet.vars(), closet.fams(), items_view(selections@));
            &&& r is None <==> c.len() == 0
            &&& r matches Some(g) ==> groups_view(g@) == c
        }),
{
    let ghost vs = closet.vars();
    let ghost fs = closet.fams();
    let ghost sv = items_view(selections@);
    proof {
        assert forall|k: int| 0 <= k < sv.len() implies vs.contains(#[trigger] sv[k]) by {
            if !vs.contains(sv[k]) {
                sv.lemma_filter_contains_rev(|x: Seq<u8>| !vs.contains(x), sv[k]);
                assert(unknown_items(vs, sv).contains(sv[k]));
            }
        }
    }
    let fams = closet.families();
    let mut fl: Vec<Family> = Vec::new();
    let mut k: usize = 0;
    while k < selections.len()
        invariant
            closet.inv(),
            k <= selections@.len(),
            vs == closet.vars(),
            fs == closet.fams(),
            fs == families_view(fams@),
            sv == items_view(selections@),
            forall|k: int| 0 <= k < sv.len() ==> vs.contains(#[trigger] sv[k]),
            sorted(families_view(fl@)),
            forall|g: Seq<u8>| families_view(fl@).contains(g) <==> (exists|j: int| 0 <= j < k && family_in(vs, fs, #[trigger] sv[j]) == g)
                && members(vs, fs, sv, g).len() > 1,
        decreases selections@.len() - k,
    {
        proof {
            assert(sv[k as int] == selections@[k as int]@);
            assert(vs.contains(sv[k as int]));
        }
        let pk = position(closet, &selections[k]);
        let f = &fams[pk];
        proof {
            assert(f@ == family_in(vs, fs, sv[k as int]));
        }
        let mut first = true;
        let mut j: usize = 0;
        while j < k
            invariant
                closet.inv(),
                j <= k < selections@.len(),
                vs == closet.vars(),
                fs == closet.fams(),
                fs == families_view(fams@),
                sv == items_view(selections@),
                forall|k: int| 0 <= k < sv.len() ==> vs.contains(#[trigger] sv[k]),
                first == forall|i: int| 0 <= i < j ==> family_in(vs, fs, #[trigger] sv[i]) != f@,
            decreases k - j,
        {
            proof {
                assert(sv[j as int] == selections@[j as int]@);
                assert(vs.contains(sv[j as int]));
            }
            let pj = position(closet, &selections[j]);
            if fams[pj].same(f) {
                first = false;
            }
            j += 1;
        }
        let mem = members_of(closet, selections, f);
        let ghost prev = families_view(fl@);
        if first && mem.len() > 1 {
            proof {
                if prev.contains(f@) {
                    let j = choose|j: int| 0 <= j < k && family_in(vs, fs, #[trigger] sv[j]) == f@;
                    assert(family_in(vs, fs, sv[j]) != f@);
                }
            }
            insert_family_by_name(&mut fl, f.copy());
        }
        proof {
            let cur = families_view(fl@);
            assert forall|g: Seq<u8>| cur.contains(g) <==> (exists|j: int| 0 <= j < k + 1 && family_in(vs, fs, #[trigger] sv[j]) == g)
                && members(vs, fs, sv, g).len() > 1 by {
                if exists|j: int| 0 <= j < k + 1 && family_in(vs, fs, #[trigger] sv[j]) == g {
                    let j = choose|j: int| 0 <= j < k + 1 && family_in(vs, fs, #[trigger] sv[j]) == g;
                    if j == k && !first {
                        let i = choose|i: int| 0 <= i < k && family_in(vs, fs, #[trigger] sv[i]) == f@;
                        assert(family_in(vs, fs, sv[i]) == g);
                    }
                }
            }
        }
        k += 1;
    }
    let ghost flv = families_view(fl@);
    proof {
        assert(lists_crowded(vs, fs, sv, flv));
        let c = crowded_families(vs, fs, sv);
        assert(lists_crowded(vs, fs, sv, c));
        assert forall|x: Seq<u8>| c.contains(x) <==> flv.contains(x) by {}
        lemma_sorted_same_items(c, flv);
    }
    let mut g: Vec<(Family, Vec<Item>)> = Vec::new();
    let mut i: usize = 0;
    while i < fl.len()
        invariant
            closet.inv(),
            i <= fl@.len(),
            vs == closet.vars(),
            fs == closet.fams(),
            sv == items_view(selections@),
            forall|k: int| 0 <= k < sv.len() ==> vs.contains(#[trigger] sv[k]),
            flv == families_view(fl@),
            groups_view(g@) == flv.take(i as int).map_values(|f: Seq<u8>| (f, members(vs, fs, sv, f))),
        decreases fl@.len() - i,
    {
        let mem = members_of(closet, selections, &fl[i]);
        let ghost prev = g@;
        g.push((fl[i].copy(), mem));
        proof {
            assert(flv[i as int] == fl@[i as int]@);
            assert(groups_view(g@) =~= groups_view(prev).push((flv[i as int], members(vs, fs, sv, flv[i as int]))));
            assert(flv.take(i + 1) =~= flv.take(i as int).push(flv[i as int]));
            assert(flv.take(i + 1).map_values(|f: Seq<u8>| (f, members(vs, fs, sv, f))) =~= flv.take(i as int).map_values(|f: Seq<u8>| (f, members(vs, fs, sv, f))).push((flv[i as int], members(vs, fs, sv, flv[i as int]))));
            assert(groups_view(g@) =~= flv.take(i + 1).map_values(|f: Seq<u8>| (f, members(vs, fs, sv, f))));
        }
        i += 1;
    }
    proof {
        assert(flv.take(i as int) =~= flv);
    }
    if g.len() > 0 {
        Some(g)
    } else {
        None
    }
}

/// Puts `x` into the name-sorted list `v` at its place.
fn insert_by_name(v: &mut Vec<Item>, x: Item)
    requires
        sorted(items_view(old(v)@)),
        !items_view(old(v)@).contains(x@),
    ensures
        sorted(items_view(final(v)@)),
        forall|y: Seq<u8>| #[trigger] items_view(final(v)@).contains(y) <==> (items_view(old(v)@).contains(y) || y == x@),
{
    let ghost vs = items_view(v@);
    let mut p: usize = 0;
    while p < v.len() && v[p].before(&x)
        invariant
            p <= v@.len(),
            vs == items_view(v@),
            forall|q: int| 0 <= q < p ==> crate::item::bytes_lt(#[trigger] vs[q], x@),
        decreases v@.len() - p,
    {
        p += 1;
    }
    proof {
        if p < vs.len() {
            crate::item::lemma_bytes_lt_total(vs[p as int], x@);
            assert(vs[p as int] != x@);
        }
    }
    let ghost xv = x@;
    v.insert(p, x);
    proof {
        let vs2 = items_view(v@);
        assert(vs2 =~= vs.insert(p as int, xv));
        assert forall|i: int, j: int| 0 <= i < j < vs2.len() implies crate::item::bytes_lt(#[trigger] vs2[i], #[trigger] vs2[j]) by {
            if j == p {
                assert(crate::item::bytes_lt(vs[i], xv));
            } else if i == p {
                if j - 1 > p {
                    assert(crate::item::bytes_lt(vs[p as int], vs[j - 1]));
                    crate::item::lemma_bytes_lt_trans(xv, vs[p as int], vs[j - 1]);
                }
            } else if i < p && j > p {
                assert(crate::item::bytes_lt(vs[i], vs[j - 1]));
            } else if i > p {
                assert(crate::item::bytes_lt(vs[i - 1], vs[j - 1]));
            } else {
                assert(crate::item::bytes_lt(vs[i], vs[j]));
            }
        }
        assert forall|y: Seq<u8>| #[trigger] vs2.contains(y) <==> (vs.contains(y) || y == xv) by {
            if vs2.contains(y) {
                let a = choose|a: int| 0 <= a < vs2.len() && vs2[a] == y;
                if a < p {
                    assert(vs[a] == y);
                } else if a > p {
                    assert(vs[a - 1] == y);
                }
            }
            if vs.contains(y) {
                let a = choose|a: int| 0 <= a < vs.len() && vs[a] == y;
                if a < p {
                    assert(vs2[a] == y);
                } else {
                    assert(vs2[a + 1] == y);
                }
            }
            if y == xv {
                assert(vs2[p as int] == y);
            }
        }
    }
}

/// The marked items of `items`, in name order.
fn pick_by_name(items: &Vec<Item>, marks: &Vec<bool>) -> (r: Vec<Item>)
    requires
        distinct(items_view(items@)),
        marks@.len() == items@.len(),
    ensures
        sorted(items_view(r@)),
        forall|x: Seq<u8>| #[trigger] items_view(r@).contains(x) <==> exists|j: int|
            0 <= j < items@.len() && marks@[j] && items_view(items@)[j] == x,
{
    let ghost vs = items_view(items@);
    let mut out: Vec<Item> = Vec::new();
    let mut i: usize = 0;
    while i < items.len()
        invariant
            i <= items@.len(),
            vs == items_view(items@),
            distinct(vs),
            marks@.len() == items@.len(),
            sorted(items_view(out@)),
            forall|x: Seq<u8>| #[trigger] items_view(out@).contains(x) <==> exists|j: int|
                0 <= j < i && marks@[j] && vs[j] == x,
        decreases items@.len() - i,
    {
        let ghost prev = items_view(out@);
        if marks[i] {
            proof {
                if prev.contains(vs[i as int]) {
                    let j = choose|j: int| 0 <= j < i && marks@[j] && vs[j] == vs[i as int];
                    lemma_distinct(vs, j, i as int);
                }
            }
            insert_by_name(&mut out, items[i].copy());
        }
        proof {
            let cur = items_view(out@);
            assert forall|x: Seq<u8>| #[trigger] cur.contains(x) <==> exists|j: int| 0 <= j < i + 1 && marks@[j] && vs[j] == x by {
                if exists|j: int| 0 <= j < i + 1 && marks@[j] && vs[j] == x {
                    let j = choose|j: int| 0 <= j < i + 1 && marks@[j] && vs[j] == x;
                    if j < i {
                        assert(prev.contains(x));
                    }
                }
            }
        }
        i += 1;
    }
    out
}

/// Marks the variables that the completion walk from `start` takes: at each
/// branch the high child unless it is the false leaf, else the low child.
fn walk(bdd: &Bdd, start: usize, marks: &mut Vec<bool>)
    requires
        wf(bdd@),
        start < bdd@.len(),
        start != NEVER,
    ensures
        final(marks)@.len() == old(marks)@.len(),
        forall|i: int| 0 <= i < old(marks)@.len() ==> #[trigger] final(marks)@[i] == (old(marks)@[i]
            || walk_set(bdd@, start as nat).contains(i as nat)),
        eval(bdd@, start as nat, walk_set(bdd@, start as nat)),
{
    let ghost g = bdd@;
    let ghost m0 = marks@;
    let n = marks.len();
    let mut m = start;
    let ghost mut w: Set<nat> = Set::empty();
    let ghost mut l: Set<nat> = Set::empty();
    proof {
        assert forall|t: Set<nat>| w.subset_of(t) && t.disjoint(l) implies #[trigger] eval(g, start as nat, t) == eval(g, m as nat, t) by {}
        assert(w.union(walk_set(g, m as nat)) =~= walk_set(g, start as nat));
    }
    while m >= 2
        invariant
            bdd@ == g,
            wf(g),
            m < g.len(),
            m != NEVER,
            start < g.len(),
            n == m0.len(),
            marks@.len() == n,
            forall|t: Set<nat>| w.subset_of(t) && t.disjoint(l) ==> #[trigger] eval(g, start as nat, t) == eval(g, m as nat, t),
            forall|x: nat| #[trigger] w.contains(x) ==> (x as int) < top(g, m as nat),
            forall|x: nat| #[trigger] l.contains(x) ==> (x as int) < top(g, m as nat),
            w.disjoint(l),
            forall|i: int| 0 <= i < n ==> #[trigger] marks@[i] == (m0[i] || w.contains(i as nat)),
            w.union(walk_set(g, m as nat)) == walk_set(g, start as nat),
        decreases m,
    {
        let b = bdd.node(m);
        proof {
            assert(node_ok(g, m as int));
        }
        if b.hi != NEVER {
            proof {
                assert forall|t: Set<nat>| w.insert(b.var as nat).subset_of(t) && t.disjoint(l) implies #[trigger] eval(g, start as nat, t) == eval(g, b.hi as nat, t) by {
                    assert(w.subset_of(t));
                    assert(t.contains(b.var as nat));
                }
                assert(w.insert(b.var as nat).union(walk_set(g, b.hi as nat)) =~= w.union(walk_set(g, m as nat)));
                w = w.insert(b.var as nat);
            }
            if b.var < n {
                marks.set(b.var, true);
            }
            m = b.hi;
        } else {
            proof {
                assert forall|t: Set<nat>| w.subset_of(t) && t.disjoint(l.insert(b.var as nat)) implies #[trigger] eval(g, start as nat, t) == eval(g, b.lo as nat, t) by {
                    assert(t.disjoint(l));
                    assert(!t.contains(b.var as nat));
                }
                l = l.insert(b.var as nat);
            }
            m = b.lo;
        }
    }
    proof {
        assert(w.union(walk_set(g, m as nat)) =~= w);
        assert(eval(g, start as nat, w) == eval(g, m as nat, w));
    }
}

/// Restricts the closet's diagram by every selection set, and marks the
/// selected positions.
fn restrict_selections(closet: &Closet, selections: &Vec<Item>) -> (r: (Bdd, usize, Vec<bool>))
    requires
        closet.inv(),
        forall|k: int| 0 <= k < selections@.len() ==> closet.vars().contains(#[trigger] items_view(selections@)[k]),
    ensures
        wf(r.0@),
        r.1 < r.0@.len(),
        forall|t: Set<nat>| #[trigger] eval(r.0@, r.1 as nat, t) == closet.legal(t.union(positions(closet.vars(), items_view(selections@)))),
        r.2@.len() == closet.vars().len(),
        forall|i: int| 0 <= i < r.2@.len() ==> #[trigger] r.2@[i] == positions(closet.vars(), items_view(selections@)).contains(i as nat),
{
    let ghost vs = closet.vars();
    let ghost fs = closet.fams();
    let ghost sv = items_view(selections@);
        let items = closet.items();
        let n = items.len();
        let mut bdd: Bdd = closet.arena_copy();
        let root = closet.root();
        let mut residual = root;
        let mut marks: Vec<bool> = Vec::new();
        while marks.len() < n
            invariant
                marks@.len() <= n,
                forall|i: int| 0 <= i < marks@.len() ==> !marks@[i],
            decreases n - marks@.len(),
        {
            marks.push(false);
        }
        let ghost mut ss: Set<nat> = Set::empty();
        let mut k: usize = 0;
        proof {
            assert forall|t: Set<nat>| #[trigger] eval(bdd@, residual as nat, t) == eval(bdd@, root as nat, t.union(ss)) by {
                assert(t.union(ss) =~= t);
            }
        }
        while k < selections.len()
            invariant
                closet.inv(),
                k <= selections@.len(),
                vs == closet.vars(),
                fs == closet.fams(),
                sv == items_view(selections@),
                items_view(items@) == vs,
                n == vs.len(),
                forall|k: int| 0 <= k < sv.len() ==> vs.contains(#[trigger] sv[k]),
                wf(bdd@),
                closet.arena().is_prefix_of(bdd@),
                root == closet.root_spec(),
                residual < bdd@.len(),
                forall|t: Set<nat>| #[trigger] eval(bdd@, residual as nat, t) == eval(bdd@, root as nat, t.union(ss)),
                ss == positions(vs, sv.take(k as int)),
                marks@.len() == n,
                forall|i: int| 0 <= i < n ==> marks@[i] == ss.contains(i as nat),
            decreases selections@.len() - k,
        {
            proof {
                assert(sv[k as int] == selections@[k as int]@);
                assert(vs.contains(sv[k as int]));
            }
            let v = position(closet, &selections[k]);
            let ghost g0 = bdd@;
            let r2 = bdd.restrict(residual, v, true);
            proof {
                lemma_prefix_trans(closet.arena(), g0, bdd@);
                lemma_grow(closet.arena(), g0, root as nat);
                lemma_grow(g0, bdd@, root as nat);
                let ss2 = ss.insert(v as nat);
                assert forall|t: Set<nat>| #[trigger] eval(bdd@, r2 as nat, t) == eval(bdd@, root as nat, t.union(ss2)) by {
                    assert(t.insert(v as nat).union(ss) =~= t.union(ss2));
                    assert(eval(g0, residual as nat, t.insert(v as nat)) == eval(g0, root as nat, t.insert(v as nat).union(ss)));
                }
                assert(sv.take(k + 1) =~= sv.take(k as int).push(sv[k as int]));
                assert forall|q: nat| #[trigger] positions(vs, sv.take(k + 1)).contains(q) == ss2.contains(q) by {
                    if q < vs.len() {
                        if sv.take(k + 1).contains(vs[q as int]) {
                            let a = choose|a: int| 0 <= a < k + 1 && #[trigger] sv.take(k + 1)[a] == vs[q as int];
                            if a < k {
                                assert(sv.take(k as int)[a] == vs[q as int]);
                            } else {
                                lemma_distinct(vs, q as int, v as int);
                            }
                        }
                        if ss.contains(q) {
                            let a = choose|a: int| 0 <= a < k && #[trigger] sv.take(k as int)[a] == vs[q as int];
                            assert(sv.take(k + 1)[a] == vs[q as int]);
                        }
                        if q == v {
                            assert(sv.take(k + 1)[k as int] == vs[q as int]);
                        }
                    }
                }
                assert(positions(vs, sv.take(k + 1)) =~= ss2);
            }
            residual = r2;
            marks.set(v, true);
            proof {
                ss = ss.insert(v as nat);
            }
            k += 1;
        }
        proof {
            assert(sv.take(k as int) =~= sv);
            lemma_grow(closet.arena(), bdd@, root as nat);
        }
    proof {
        assert forall|t: Set<nat>| #[trigger] eval(bdd@, residual as nat, t) == closet.legal(t.union(ss)) by {
            assert(eval(bdd@, root as nat, t.union(ss)) == eval(closet.arena(), root as nat, t.union(ss)));
        }
    }
    (bdd, residual, marks)
}

/// Whether a set of positions is legal depends only on the positions of the table.
pub proof fn lemma_legal_local(
    vs: Seq<Seq<u8>>,
    fs: Seq<Seq<u8>>,
    ex: Seq<(Seq<u8>, Seq<u8>)>,
    inc: Seq<(Seq<u8>, Seq<u8>)>,
    s1: Set<nat>,
    s2: Set<nat>,
)
    requires
        vs.len() == fs.len(),
        forall|i: nat| i < vs.len() ==> s1.contains(i) == s2.contains(i),
    ensures
        legal(vs, fs, ex, inc, s1) == legal(vs, fs, ex, inc, s2),
{
    let n = fs.len() as int;
    assert(at_most_one(fs, s1, n, 0) == at_most_one(fs, s2, n, 0)) by {
        if at_most_one(fs, s1, n, 0) != at_most_one(fs, s2, n, 0) {
            if at_most_one(fs, s1, n, 0) {
                let (j, k) = choose|j: nat, k: nat| !(j < k < fs.len() && (j < n || (j == n && k < 0)) && fs[j as int] == fs[k as int] ==> !(s2.contains(j) && s2.contains(k)));
                assert(s1.contains(j) == s2.contains(j));
                assert(s1.contains(k) == s2.contains(k));
            } else {
                let (j, k) = choose|j: nat, k: nat| !(j < k < fs.len() && (j < n || (j == n && k < 0)) && fs[j as int] == fs[k as int] ==> !(s1.contains(j) && s1.contains(k)));
                assert(s1.contains(j) == s2.contains(j));
                assert(s1.contains(k) == s2.contains(k));
            }
        }
    }
    assert forall|i: int| 0 <= i < n implies some_of_family(fs, s1, #[trigger] fs[i], n) == some_of_family(fs, s2, fs[i], n) by {
        if some_of_family(fs, s1, fs[i], n) {
            let k = choose|k: nat| k < n && fs[k as int] == fs[i] && s1.contains(k);
            assert(s2.contains(k));
        }
        if some_of_family(fs, s2, fs[i], n) {
            let k = choose|k: nat| k < n && fs[k as int] == fs[i] && s2.contains(k);
            assert(s1.contains(k));
        }
    }
    assert(at_least_one(fs, s1, n) == at_least_one(fs, s2, n));
    assert(exclusions_hold(vs, ex, s1, ex.len() as int) == exclusions_hold(vs, ex, s2, ex.len() as int)) by {
        assert forall|r: int, i: nat, j: nat|
            0 <= r < ex.len() && i < vs.len() && j < vs.len() && vs[i as int] == (#[trigger] ex[r]).0 && vs[j as int] == ex[r].1
            implies (!(#[trigger] s1.contains(i) && #[trigger] s1.contains(j)) <==> !(s2.contains(i) && s2.contains(j))) by {}
    }
    assert(inclusions_hold(vs, inc, s1, inc.len() as int) == inclusions_hold(vs, inc, s2, inc.len() as int)) by {
        assert forall|r: int, i: nat, j: nat|
            0 <= r < inc.len() && i < vs.len() && j < vs.len() && vs[i as int] == (#[trigger] inc[r]).0 && vs[j as int] == inc[r].1
            implies ((#[trigger] s1.contains(i) ==> #[trigger] s1.contains(j)) <==> (s2.contains(i) ==> s2.contains(j))) by {}
    }
}

impl Closet {
    /// The legal outfits that hold the positions `chosen`, as a function of
    /// the remaining positions.
    pub open spec fn extending(&self, chosen: Set<nat>) -> spec_fn(Set<nat>) -> bool {
        |t: Set<nat>| self.legal(t.union(chosen))
    }

    /// `o` is the completion of the selections `sv`: the items at the
    /// selected positions and at the greedy choice over the legal outfits
    /// that extend them, in name order.
    pub open spec fn completion_of(&self, sv: Seq<Seq<u8>>, o: Seq<Seq<u8>>) -> bool {
        let vs = self.vars();
        let chosen = positions(vs, sv);
        &&& sorted(o)
        &&& forall|x: Seq<u8>| o.contains(x) ==> vs.contains(x)
        &&& forall|q: nat| q < vs.len() ==> (#[trigger] positions(vs, o).contains(q) <==> (chosen.contains(q)
            || greedy(self.extending(chosen), 0).contains(q)))
    }

    /// Completes `selections` into an outfit: the selections, then the
    /// canonical walk of the diagram restricted by them, which takes every
    /// item whose selection still leaves a legal outfit.
    #[verifier::rlimit(60)]
    pub fn complete_outfit(&self, selections: Vec<Item>) -> (r: Result<Outfit, OutfitError>)
        requires
            self.inv(),
        ensures
            ({
                let vs = self.vars();
                let fs = self.fams();
                let sv = items_view(selections@);
                let unknown = unknown_items(vs, sv);
                let crowd = crowded(vs, fs, sv);
                let chosen = positions(vs, sv);
                let possible = exists|t: Set<nat>| self.legal(t) && chosen.subset_of(t);
                &&& unknown.len() > 0 ==> (r matches Err(OutfitError::UnknownItems(u)) && items_view(u@) == unknown)
                &&& unknown.len() == 0 && crowd.len() > 0 ==> (r matches Err(
                    OutfitError::MultipleItemsPerFamily(g),
                ) && groups_view(g@) == crowd)
                &&& unknown.len() == 0 && crowd.len() == 0 && !possible ==> (r matches Err(
                    OutfitError::ConflictingItems(c),
                ) && sorted(items_view(c@)) && forall|x: Seq<u8>| #[trigger] items_view(c@).contains(x) <==> sv.contains(x))
                &&& unknown.len() == 0 && crowd.len() == 0 && possible ==> r is Ok
                &&& r matches Ok(o) ==> {
                    &&& self.completion_of(sv, o@)
                    &&& chosen.subset_of(positions(vs, o@))
                    &&& self.legal(positions(vs, o@))
                }
            }),
    {
        if let Some(u) = find_unknown_items(self, &selections) {
            return Err(OutfitError::UnknownItems(u));
        }
        if let Some(g) = find_duplicate_items(self, &selections) {
            return Err(OutfitError::MultipleItemsPerFamily(g));
        }
        let ghost vs = self.vars();
        let ghost fs = self.fams();
        let ghost sv = items_view(selections@);
        proof {
            assert forall|k: int| 0 <= k < sv.len() implies vs.contains(#[trigger] sv[k]) by {
                if !vs.contains(sv[k]) {
                    sv.lemma_filter_contains_rev(|x: Seq<u8>| !vs.contains(x), sv[k]);
                    assert(unknown_items(vs, sv).contains(sv[k]));
                }
            }
        }
        let items = self.items();
        let n = items.len();
        let (bdd, residual, mut marks) = restrict_selections(self, &selections);
        let ghost ss = positions(vs, sv);
        if residual == NEVER {
            proof {
                if exists|t: Set<nat>| self.legal(t) && ss.subset_of(t) {
                    let t = choose|t: Set<nat>| self.legal(t) && ss.subset_of(t);
                    assert(t.union(ss) =~= t);
                    assert(eval(bdd@, residual as nat, t));
                }
            }
            let c = pick_by_name(items, &marks);
            proof {
                assert forall|x: Seq<u8>| #[trigger] items_view(c@).contains(x) <==> sv.contains(x) by {
                    if sv.contains(x) {
                        let k = choose|k: int| 0 <= k < sv.len() && sv[k] == x;
                        assert(vs.contains(sv[k]));
                        let j = choose|j: int| 0 <= j < vs.len() && vs[j] == x;
                        assert(positions(vs, sv).contains(j as nat));
                        assert(marks@[j]);
                    }
                    if items_view(c@).contains(x) {
                        let j = choose|j: int| 0 <= j < items@.len() && marks@[j] && items_view(items@)[j] == x;
                        assert(ss.contains(j as nat));
                    }
                }
            }
            return Err(OutfitError::ConflictingItems(c));
        }
        let ghost g = bdd@;
        walk(&bdd, residual, &mut marks);
        let ghost w = walk_set(g, residual as nat);
        let ghost o = ss.union(w);
        proof {
            lemma_walk_greedy(g, residual as nat, 0);
            assert forall|t: Set<nat>| #[trigger] denotes(g, residual as nat)(t) == self.extending(ss)(t) by {
                assert(eval(g, residual as nat, t) == self.legal(t.union(ss)));
            }
            assert(denotes(g, residual as nat) =~= self.extending(ss));
            assert(w == greedy(self.extending(ss), 0));
            assert(w.union(ss) =~= o);
            assert(eval(g, residual as nat, w) == self.legal(w.union(ss)));
            assert(self.legal(o));
        }
        let out = pick_by_name(items, &marks);
        let outfit = Outfit { items: out };
        proof {
            let ov = outfit@;
            assert(ov == items_view(out@));
            assert forall|x: Seq<u8>| ov.contains(x) implies vs.contains(x) by {
                let j = choose|j: int| 0 <= j < n && marks@[j] && vs[j] == x;
                assert(vs.contains(vs[j]));
            }
            assert forall|q: nat| q < vs.len() implies positions(vs, ov).contains(q) == o.contains(q) by {
                if ov.contains(vs[q as int]) {
                    let j = choose|j: int| 0 <= j < n && marks@[j] && vs[j] == vs[q as int];
                    lemma_distinct(vs, j, q as int);
                } else {
                    assert(!marks@[q as int]);
                }
            }
            lemma_legal_local(vs, fs, self.excl(), self.incl(), positions(vs, ov), o);
            assert forall|q: nat| ss.contains(q) implies positions(vs, ov).contains(q) by {
                assert(q < vs.len());
                assert(marks@[q as int]);
            }
            assert(sorted(ov));
            assert forall|q: nat| q < vs.len() implies (#[trigger] positions(vs, ov).contains(q) <==> (ss.contains(q)
                || greedy(self.extending(ss), 0).contains(q))) by {
                assert(positions(vs, ov).contains(q) == o.contains(q));
            }
            assert(self.completion_of(sv, ov));
        }
        Ok(outfit)
    }
}


/// Two name-sorted lists with the same items are the same list.
pub proof fn lemma_sorted_same_items(a: Seq<Seq<u8>>, b: Seq<Seq<u8>>)
    requires
        sorted(a),
        sorted(b),
        forall|x: Seq<u8>| a.contains(x) <==> b.contains(x),
    ensures
        a == b,
    decreases a.len() + b.len(),
{
    if a.len() == 0 || b.len() == 0 {
        if a.len() > 0 {
            assert(a.contains(a[0]));
        }
        if b.len() > 0 {
            assert(b.contains(b[0]));
        }
        assert(a =~= b);
    } else {
        assert(a.contains(a[0]));
        assert(b.contains(b[0]));
        let i = choose|i: int| 0 <= i < b.len() && b[i] == a[0];
        let j = choose|j: int| 0 <= j < a.len() && a[j] == b[0];
        crate::item::lemma_bytes_lt_total(a[0], b[0]);
        if i > 0 && j > 0 {
            assert(crate::item::bytes_lt(b[0], b[i]));
            assert(crate::item::bytes_lt(a[0], a[j]));
        }
        crate::item::lemma_bytes_lt_irrefl(a[0]);
        if i > 0 {
            assert(crate::item::bytes_lt(b[0], b[i]));
            assert(j == 0 || crate::item::bytes_lt(a[0], a[j]));
        }
        assert(a[0] == b[0]);
        let a1 = a.drop_first();
        let b1 = b.drop_first();
        assert forall|x: Seq<u8>| a1.contains(x) <==> b1.contains(x) by {
            if a1.contains(x) {
                let k = choose|k: int| 0 <= k < a1.len() && a1[k] == x;
                assert(crate::item::bytes_lt(a[0], a[k + 1]));
                assert(a.contains(x));
                let q = choose|q: int| 0 <= q < b.len() && b[q] == x;
                assert(q != 0);
                assert(b1[q - 1] == x);
            }
            if b1.contains(x) {
                let k = choose|k: int| 0 <= k < b1.len() && b1[k] == x;
                assert(crate::item::bytes_lt(b[0], b[k + 1]));
                assert(b.contains(x));
                let q = choose|q: int| 0 <= q < a.len() && a[q] == x;
                assert(q != 0);
                assert(a1[q - 1] == x);
            }
        }
        assert forall|p: int, q: int| 0 <= p < q < a1.len() implies crate::item::bytes_lt(#[trigger] a1[p], #[trigger] a1[q]) by {
            assert(crate::item::bytes_lt(a[p + 1], a[q + 1]));
        }
        assert forall|p: int, q: int| 0 <= p < q < b1.len() implies crate::item::bytes_lt(#[trigger] b1[p], #[trigger] b1[q]) by {
            assert(crate::item::bytes_lt(b[p + 1], b[q + 1]));
        }
        lemma_sorted_same_items(a1, b1);
        assert(a =~= seq![a[0]] + a1);
        assert(b =~= seq![b[0]] + b1);
    }
}

/// Completion is deterministic: whatever two calls of `complete_outfit` on
/// one closet with the same selections return as outfits is the same list.
pub proof fn lemma_completion_deterministic(c: &Closet, sv: Seq<Seq<u8>>, o1: Seq<Seq<u8>>, o2: Seq<Seq<u8>>)
    requires
        c.inv(),
        c.completion_of(sv, o1),
        c.completion_of(sv, o2),
    ensures
        o1 == o2,
{
    let vs = c.vars();
    assert forall|x: Seq<u8>| o1.contains(x) <==> o2.contains(x) by {
        if o1.contains(x) {
            let q = choose|q: int| 0 <= q < vs.len() && vs[q] == x;
            assert(positions(vs, o1).contains(q as nat));
            assert(positions(vs, o2).contains(q as nat));
        }
        if o2.contains(x) {
            let q = choose|q: int| 0 <= q < vs.len() && vs[q] == x;
            assert(positions(vs, o2).contains(q as nat));
            assert(positions(vs, o1).contains(q as nat));
        }
    }
    lemma_sorted_same_items(o1, o2);
}

} // verus!
