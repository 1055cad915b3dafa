//! The closet compiler: declarations of items, families and rules, their
//! validation, and their translation into one decision diagram.
use vstd::prelude::*;
use crate::bdd::{Bdd, Op, eval, wf, lemma_grow, lemma_prefix_trans, lemma_wf_paths, reduced_from, ordered_from, Branch, ALWAYS};
use crate::item::{Item, Family, bytes_lt, pair_lt, lemma_pair_lt_total, lemma_pair_lt_trans};

verus! {

/// The family under which `x` was first declared in `d` (pairs of family and item).
pub open spec fn family_of(d: Seq<(Seq<u8>, Seq<u8>)>, x: Seq<u8>) -> Option<Seq<u8>>
    decreases d.len(),
{
    if d.len() == 0 {
        None
    } else {
        match family_of(d.drop_last(), x) {
            Some(f) => Some(f),
            None => if d.last().1 == x {
                Some(d.last().0)
            } else {
                None
            },
        }
    }
}

/// The declarations among the first `k` whose family differs from the item's
/// first family, each as the item with its first and its later family.
pub open spec fn family_conflicts(d: Seq<(Seq<u8>, Seq<u8>)>, k: nat) -> Seq<(Seq<u8>, Seq<Seq<u8>>)>
    decreases k,
{
    if k == 0 || k > d.len() {
        Seq::empty()
    } else {
        let prev = family_conflicts(d, (k - 1) as nat);
        let f = d[k - 1].0;
        let x = d[k - 1].1;
        match family_of(d, x) {
            Some(f0) => if f0 != f {
                prev.push((x, seq![f0, f]))
            } else {
                prev
            },
            None => prev,
        }
    }
}

/// Two items in the order of their names.
pub open spec fn sorted_pair(a: Seq<u8>, b: Seq<u8>) -> Seq<Seq<u8>> {
    if bytes_lt(b, a) {
        seq![b, a]
    } else {
        seq![a, b]
    }
}

/// Among the first `k` rules, those between two items of one family, each
/// once per unordered pair, as the family with the sorted pair.
pub open spec fn illegal_rules(
    d: Seq<(Seq<u8>, Seq<u8>)>,
    rules: Seq<(Seq<u8>, Seq<u8>)>,
    k: nat,
) -> Seq<(Seq<u8>, Seq<Seq<u8>>)>
    decreases k,
{
    if k == 0 || k > rules.len() {
        Seq::empty()
    } else {
        let prev = illegal_rules(d, rules, (k - 1) as nat);
        let a = rules[k - 1].0;
        let b = rules[k - 1].1;
        let pair = sorted_pair(a, b);
        if family_of(d, a) is Some && family_of(d, a) == family_of(d, b) && !(exists|j: int|
            0 <= j < prev.len() && #[trigger] prev[j].1 == pair) {
            prev.push((family_of(d, a).unwrap(), pair))
        } else {
            prev
        }
    }
}

/// Every item that a rule names has been declared.
pub open spec fn rules_declared(d: Seq<(Seq<u8>, Seq<u8>)>, rules: Seq<(Seq<u8>, Seq<u8>)>) -> bool {
    forall|k: int|
        0 <= k < rules.len() ==> family_of(d, #[trigger] rules[k].0) is Some && family_of(
            d,
            rules[k].1,
        ) is Some
}

/// The names of a list of items.
pub open spec fn items_view(v: Seq<Item>) -> Seq<Seq<u8>> {
    v.map_values(|i: Item| i@)
}

/// The names of a list of families.
pub open spec fn families_view(v: Seq<Family>) -> Seq<Seq<u8>> {
    v.map_values(|f: Family| f@)
}

/// Family conflicts as names.
pub open spec fn conflicts_view(v: Seq<(Item, Vec<Family>)>) -> Seq<(Seq<u8>, Seq<Seq<u8>>)> {
    v.map_values(|c: (Item, Vec<Family>)| (c.0@, families_view(c.1@)))
}

/// Rule errors as names.
pub open spec fn rule_errors_view(v: Seq<(Family, Vec<Item>)>) -> Seq<(Seq<u8>, Seq<Seq<u8>>)> {
    v.map_values(|c: (Family, Vec<Item>)| (c.0@, items_view(c.1@)))
}

/// Why a set of declarations does not make a closet.
#[derive(Debug, PartialEq, Eq)]
pub enum Error {
    /// Items declared under more than one family, each with its first and a
    /// later family, grouped by the later family in name order.
    ConflictingFamilies(Vec<(Item, Vec<Family>)>),
    /// Inclusion rules between two items of one family.
    InclusionError(Vec<(Family, Vec<Item>)>),
    /// Exclusion rules between two items of one family.
    ExclusionError(Vec<(Family, Vec<Item>)>),
}

/// Declarations of items under families, and rules between items.
#[derive(Debug, Clone, PartialEq)]
pub struct ClosetBuilder {
    contents: Vec<(Family, Item)>,
    exclusions: Vec<(Item, Item)>,
    inclusions: Vec<(Item, Item)>,
}

/// A list of pairs as pairs of views.
pub open spec fn pairs_view<A: View, B: View>(v: Seq<(A, B)>) -> Seq<(A::V, B::V)> {
    v.map_values(|p: (A, B)| (p.0@, p.1@))
}

impl ClosetBuilder {
    /// The declarations, as pairs of family and item, in the order given.
    pub closed spec fn decls(&self) -> Seq<(Seq<u8>, Seq<u8>)> {
        pairs_view(self.contents@)
    }

    /// The exclusion rules, as pairs of items, in the order given.
    pub closed spec fn exclusion_rules(&self) -> Seq<(Seq<u8>, Seq<u8>)> {
        pairs_view(self.exclusions@)
    }

    /// The inclusion rules, as pairs of selection and forced item, in the order given.
    pub closed spec fn inclusion_rules(&self) -> Seq<(Seq<u8>, Seq<u8>)> {
        pairs_view(self.inclusions@)
    }

    pub fn new() -> (r: ClosetBuilder)
        ensures
            r.decls().len() == 0,
            r.exclusion_rules().len() == 0,
            r.inclusion_rules().len() == 0,
    {
        ClosetBuilder { contents: Vec::new(), exclusions: Vec::new(), inclusions: Vec::new() }
    }

    /// Declares `item` under `family`.
    pub fn add_item(self, family: &Family, item: &Item) -> (r: ClosetBuilder)
        ensures
            r.decls() == self.decls().push((family@, item@)),
            r.exclusion_rules() == self.exclusion_rules(),
            r.inclusion_rules() == self.inclusion_rules(),
    {
        let mut s = self;
        s.contents.push((family.copy(), item.copy()));
        proof {
            assert(pairs_view(s.contents@) =~= pairs_view(self.contents@).push((family@, item@)));
        }
        s
    }

    /// Forbids `selection` and `exclusion` together (in either order).
    pub fn add_exclusion_rule(self, selection: &Item, exclusion: &Item) -> (r: ClosetBuilder)
        ensures
            r.decls() == self.decls(),
            r.exclusion_rules() == self.exclusion_rules().push((selection@, exclusion@)),
            r.inclusion_rules() == self.inclusion_rules(),
    {
        let mut s = self;
        s.exclusions.push((selection.copy(), exclusion.copy()));
        proof {
            assert(pairs_view(s.exclusions@) =~= pairs_view(self.exclusions@).push(
                (selection@, exclusion@),
            ));
        }
        s
    }

    /// Makes `selection` force `inclusion` (one way only).
    pub fn add_inclusion_rule(self, selection: &Item, inclusion: &Item) -> (r: ClosetBuilder)
        ensures
            r.decls() == self.decls(),
            r.exclusion_rules() == self.exclusion_rules(),
            r.inclusion_rules() == self.inclusion_rules().push((selection@, inclusion@)),
    {
        let mut s = self;
        s.inclusions.push((selection.copy(), inclusion.copy()));
        proof {
            assert(pairs_view(s.inclusions@) =~= pairs_view(self.inclusions@).push(
                (selection@, inclusion@),
            ));
        }
        s
    }
}


/// A first declaration fixes the family for good.
pub proof fn lemma_family_prefix(d: Seq<(Seq<u8>, Seq<u8>)>, j: nat, x: Seq<u8>)
    requires
        j <= d.len(),
        family_of(d.take(j as int), x) is Some,
    ensures
        family_of(d, x) == family_of(d.take(j as int), x),
    decreases d.len() - j,
{
    if j == d.len() {
        assert(d.take(j as int) =~= d);
    } else {
        assert(d.take((j + 1) as int).drop_last() =~= d.take(j as int));
        lemma_family_prefix(d, j + 1, x);
    }
}

/// The position of the first declaration of `x`.
fn first_declaration(contents: &Vec<(Family, Item)>, x: &Item) -> (r: Option<usize>)
    ensures
        r is None <==> family_of(pairs_view(contents@), x@) is None,
        r matches Some(k) ==> k < contents@.len() && family_of(pairs_view(contents@), x@) == Some(
            contents@[k as int].0@,
        ),
{
    let ghost d = pairs_view(contents@);
    let mut k: usize = 0;
    while k < contents.len()
        invariant
            k <= contents@.len(),
            d == pairs_view(contents@),
            family_of(d.take(k as int), x@) is None,
        decreases contents@.len() - k,
    {
        if contents[k].1.same(x) {
            proof {
                assert(d.take(k + 1).drop_last() =~= d.take(k as int));
                lemma_family_prefix(d, (k + 1) as nat, x@);
            }
            return Some(k);
        }
        proof {
            assert(d.take(k + 1).drop_last() =~= d.take(k as int));
        }
        k += 1;
    }
    proof {
        assert(d.take(k as int) =~= d);
    }
    None
}

/// Every item that one of `rules` names is declared in `contents`.
fn rules_known(rules: &Vec<(Item, Item)>, contents: &Vec<(Family, Item)>) -> (r: bool)
    ensures
        r == rules_declared(pairs_view(contents@), pairs_view(rules@)),
{
    let ghost d = pairs_view(contents@);
    let ghost rs = pairs_view(rules@);
    let mut k: usize = 0;
    while k < rules.len()
        invariant
            k <= rules@.len(),
            d == pairs_view(contents@),
            rs == pairs_view(rules@),
            forall|j: int| 0 <= j < k ==> family_of(d, #[trigger] rs[j].0) is Some && family_of(d, rs[j].1) is Some,
        decreases rules@.len() - k,
    {
        proof {
            assert(rs[k as int] == (rules@[k as int].0@, rules@[k as int].1@));
        }
        let a = first_declaration(contents, &rules[k].0);
        let b = first_declaration(contents, &rules[k].1);
        if a.is_none() || b.is_none() {
            proof {
                assert(!(family_of(d, rs[k as int].0) is Some && family_of(d, rs[k as int].1) is Some));
            }
            return false;
        }
        k += 1;
    }
    true
}

/// Two items in the order of their names.
fn sort_pair(a: &Item, b: &Item) -> (r: Vec<Item>)
    ensures
        items_view(r@) == sorted_pair(a@, b@),
        r@.len() == 2,
{
    let mut r: Vec<Item> = Vec::new();
    if b.before(a) {
        r.push(b.copy());
        r.push(a.copy());
    } else {
        r.push(a.copy());
        r.push(b.copy());
    }
    proof {
        assert(items_view(r@) =~= sorted_pair(a@, b@));
    }
    r
}

/// The families of `d` listed once each, in name order.
pub open spec fn lists_families(d: Seq<(Seq<u8>, Seq<u8>)>, fl: Seq<Seq<u8>>) -> bool {
    &&& sorted(fl)
    &&& forall|f: Seq<u8>| fl.contains(f) <==> exists|k: int| 0 <= k < d.len() && (#[trigger] d[k]).0 == f
}

/// The declared families in name order.
pub open spec fn declared_families(d: Seq<(Seq<u8>, Seq<u8>)>) -> Seq<Seq<u8>> {
    choose|fl: Seq<Seq<u8>>| lists_families(d, fl)
}

/// The family conflicts whose later family is `f`, in declaration order.
pub open spec fn conflicts_under(d: Seq<(Seq<u8>, Seq<u8>)>, f: Seq<u8>) -> Seq<(Seq<u8>, Seq<Seq<u8>>)> {
    family_conflicts(d, d.len()).filter(|c: (Seq<u8>, Seq<Seq<u8>>)| c.1[1] == f)
}

/// The conflicts under the first `i` families of `fl`, family after family.
pub open spec fn conflicts_grouped(d: Seq<(Seq<u8>, Seq<u8>)>, fl: Seq<Seq<u8>>, i: nat) -> Seq<(Seq<u8>, Seq<Seq<u8>>)>
    decreases i,
{
    if i == 0 || i > fl.len() {
        Seq::empty()
    } else {
        conflicts_grouped(d, fl, (i - 1) as nat) + conflicts_under(d, fl[i - 1])
    }
}

/// The family conflicts, grouped by the later family in name order, and in
/// declaration order within one family.
pub open spec fn conflicts_by_family(d: Seq<(Seq<u8>, Seq<u8>)>) -> Seq<(Seq<u8>, Seq<Seq<u8>>)> {
    conflicts_grouped(d, declared_families(d), declared_families(d).len())
}

/// Puts `f` into the name-sorted list `v` at its place.
pub(crate) fn insert_family_by_name(v: &mut Vec<Family>, f: Family)
    requires
        sorted(families_view(old(v)@)),
        !families_view(old(v)@).contains(f@),
    ensures
        sorted(families_view(final(v)@)),
        forall|y: Seq<u8>| #[trigger] families_view(final(v)@).contains(y) <==> (families_view(old(v)@).contains(y) || y == f@),
{
    let ghost vs = families_view(v@);
    let mut p: usize = 0;
    while p < v.len() && v[p].before(&f)
        invariant
            p <= v@.len(),
            vs == families_view(v@),
            forall|q: int| 0 <= q < p ==> bytes_lt(#[trigger] vs[q], f@),
        decreases v@.len() - p,
    {
        p += 1;
    }
    proof {
        if p < vs.len() {
            crate::item::lemma_bytes_lt_total(vs[p as int], f@);
            assert(vs[p as int] != f@);
        }
    }
    let ghost fv = f@;
    v.insert(p, f);
    proof {
        let vs2 = families_view(v@);
        assert(vs2 =~= vs.insert(p as int, fv));
        assert forall|i: int, j: int| 0 <= i < j < vs2.len() implies bytes_lt(#[trigger] vs2[i], #[trigger] vs2[j]) by {
            if j == p {
                assert(bytes_lt(vs[i], fv));
            } else if i == p {
                if j - 1 > p {
                    assert(bytes_lt(vs[p as int], vs[j - 1]));
                    crate::item::lemma_bytes_lt_trans(fv, vs[p as int], vs[j - 1]);
                }
            } else if i < p && j > p {
                assert(bytes_lt(vs[i], vs[j - 1]));
            } else if i > p {
                assert(bytes_lt(vs[i - 1], vs[j - 1]));
            } else {
                assert(bytes_lt(vs[i], vs[j]));
            }
        }
        assert forall|y: Seq<u8>| #[trigger] vs2.contains(y) <==> (vs.contains(y) || y == fv) by {
            if vs2.contains(y) {
                let a = choose|a: int| 0 <= a < vs2.len() && vs2[a] == y;
                if a < p {
                    assert(vs[a] == y);
                } else if a > p {
                    assert(vs[a - 1] == y);
                }
            }
            if vs.contains(y) {
                let a = choose|a: int| 0 <= a < vs.len() && vs[a] == y;
                if a < p {
                    assert(vs2[a] == y);
                } else {
                    assert(vs2[a + 1] == y);
                }
            }
            if y == fv {
                assert(vs2[p as int] == y);
            }
        }
    }
}

/// The declared families, once each, in name order.
fn family_list(contents: &Vec<(Family, Item)>) -> (r: Vec<Family>)
    ensures
        families_view(r@) == declared_families(pairs_view(contents@)),
{
    let ghost d = pairs_view(contents@);
    let mut fl: Vec<Family> = Vec::new();
    let mut k: usize = 0;
    while k < contents.len()
        invariant
            k <= contents@.len(),
            d == pairs_view(contents@),
            sorted(families_view(fl@)),
            forall|f: Seq<u8>| families_view(fl@).contains(f) <==> exists|j: int| 0 <= j < k && (#[trigger] d[j]).0 == f,
        decreases contents@.len() - k,
    {
        let f = &contents[k].0;
        proof {
            assert(d[k as int].0 == f@);
        }
        let mut j: usize = 0;
        let mut seen = false;
        while j < fl.len()
            invariant
                j <= fl@.len(),
                seen == exists|i: int| 0 <= i < j && families_view(fl@)[i] == f@,
            decreases fl@.len() - j,
        {
            if fl[j].same(f) {
                seen = true;
            }
            proof {
                if fl@[j as int]@ == f@ {
                    assert(families_view(fl@)[j as int] == f@);
                }
                if families_view(fl@)[j as int] == f@ {
                    assert(fl@[j as int]@ == f@);
                }
            }
            j += 1;
        }
        let ghost prev = families_view(fl@);
        if !seen {
            insert_family_by_name(&mut fl, f.copy());
        }
        proof {
            assert forall|g: Seq<u8>| families_view(fl@).contains(g) <==> exists|j: int| 0 <= j < k + 1 && (#[trigger] d[j]).0 == g by {
                if exists|j: int| 0 <= j < k + 1 && (#[trigger] d[j]).0 == g {
                    let j = choose|j: int| 0 <= j < k + 1 && (#[trigger] d[j]).0 == g;
                    if j < k {
                        assert(prev.contains(g));
                    } else if seen {
                        let i = choose|i: int| 0 <= i < fl@.len() && families_view(fl@)[i] == f@;
                        assert(prev.contains(g));
                    }
                }
                if prev.contains(g) {
                    let j = choose|j: int| 0 <= j < k && (#[trigger] d[j]).0 == g;
                    assert(d[j].0 == g);
                }
            }
        }
        k += 1;
    }
    proof {
        let flv = families_view(fl@);
        assert(lists_families(d, flv));
        let c = declared_families(d);
        assert(lists_families(d, c));
        assert forall|x: Seq<u8>| c.contains(x) <==> flv.contains(x) by {}
        crate::outfit::lemma_sorted_same_items(c, flv);
    }
    fl
}

impl ClosetBuilder {
    /// Every item declared under a family other than its first one, grouped
    /// by that later family in name order, in declaration order within it.
    pub fn find_conflicting_families(&self) -> (r: Vec<(Item, Vec<Family>)>)
        ensures
            conflicts_view(r@) == conflicts_by_family(self.decls()),
    {
        let ghost d = self.decls();
        let fl = family_list(&self.contents);
        let ghost flv = families_view(fl@);
        let mut r: Vec<(Item, Vec<Family>)> = Vec::new();
        let mut i: usize = 0;
        while i < fl.len()
            invariant
                i <= fl@.len(),
                d == self.decls(),
                d == pairs_view(self.contents@),
                flv == families_view(fl@),
                conflicts_view(r@) == conflicts_grouped(d, flv, i as nat),
            decreases fl@.len() - i,
        {
            let ghost base = conflicts_view(r@);
            let ghost want = flv[i as int];
            let ghost pred = |c: (Seq<u8>, Seq<Seq<u8>>)| c.1[1] == want;
            let mut k: usize = 0;
            proof {
                reveal(Seq::filter);
                assert(base =~= base + family_conflicts(d, 0).filter(pred));
            }
            while k < self.contents.len()
                invariant
                    k <= self.contents@.len(),
                    i < fl@.len(),
                    d == pairs_view(self.contents@),
                    flv == families_view(fl@),
                    want == flv[i as int],
                    pred == (|c: (Seq<u8>, Seq<Seq<u8>>)| c.1[1] == want),
                    conflicts_view(r@) == base + family_conflicts(d, k as nat).filter(pred),
                decreases self.contents@.len() - k,
            {
                let family = &self.contents[k].0;
                let item = &self.contents[k].1;
                let ghost before_k = family_conflicts(d, k as nat);
                proof {
                    reveal(Seq::filter);
                    assert(d[k as int] == (family@, item@));
                }
                match first_declaration(&self.contents, item) {
                    Some(k0) => {
                        let first = &self.contents[k0].0;
                        proof {
                            assert(family_of(d, item@) == Some(first@));
                        }
                        if !first.same(family) {
                            proof {
                                let e = (item@, seq![first@, family@]);
                                assert(family_conflicts(d, (k + 1) as nat) == before_k.push(e));
                                assert(family_conflicts(d, (k + 1) as nat).drop_last() =~= before_k);
                                assert(pred(e) == (family@ == want));
                            }
                            if fl[i].same(family) {
                                let mut fams: Vec<Family> = Vec::new();
                                fams.push(first.copy());
                                fams.push(family.copy());
                                let ghost prev = r@;
                                r.push((item.copy(), fams));
                                proof {
                                    assert(families_view(fams@) =~= seq![first@, family@]);
                                    assert(conflicts_view(r@) =~= conflicts_view(prev).push(
                                        (item@, seq![first@, family@]),
                                    ));
                                    assert(conflicts_view(r@) =~= base + family_conflicts(d, (k + 1) as nat).filter(pred));
                                }
                            } else {
                                proof {
                                    assert(conflicts_view(r@) =~= base + family_conflicts(d, (k + 1) as nat).filter(pred));
                                }
                            }
                        } else {
                            proof {
                                assert(family_conflicts(d, (k + 1) as nat) == before_k);
                            }
                        }
                    },
                    None => {
                        proof {
                            assert(family_conflicts(d, (k + 1) as nat) == before_k);
                        }
                    },
                }
                k += 1;
            }
            proof {
                assert(d.len() == k);
                assert(pred =~= (|c: (Seq<u8>, Seq<Seq<u8>>)| c.1[1] == flv[i as int]));
                assert(family_conflicts(d, k as nat).filter(pred) == conflicts_under(d, flv[i as int]));
                assert(conflicts_grouped(d, flv, (i + 1) as nat) == base + conflicts_under(d, flv[i as int]));
            }
            i += 1;
        }
        r
    }

    /// The rules of `rules` between two items of one family, once per
    /// unordered pair, as the family with the sorted pair.
    pub fn find_illegal_rules(rules: &Vec<(Item, Item)>, contents: &Vec<(Family, Item)>) -> (r: Vec<
        (Family, Vec<Item>),
    >)
        requires
            rules_declared(pairs_view(contents@), pairs_view(rules@)),
        ensures
            rule_errors_view(r@) == illegal_rules(
                pairs_view(contents@),
                pairs_view(rules@),
                rules@.len() as nat,
            ),
    {
        let ghost d = pairs_view(contents@);
        let ghost rs = pairs_view(rules@);
        let mut r: Vec<(Family, Vec<Item>)> = Vec::new();
        let mut k: usize = 0;
        while k < rules.len()
            invariant
                k <= rules@.len(),
                d == pairs_view(contents@),
                rs == pairs_view(rules@),
                rule_errors_view(r@) == illegal_rules(d, rs, k as nat),
                forall|j: int| 0 <= j < r@.len() ==> (#[trigger] r@[j]).1@.len() == 2,
            decreases rules@.len() - k,
        {
            let a = &rules[k].0;
            let b = &rules[k].1;
            let ghost prev = r@;
            let ka = first_declaration(contents, a);
            let kb = first_declaration(contents, b);
            if let (Some(ka), Some(kb)) = (ka, kb) {
                if contents[ka].0.same(&contents[kb].0) {
                    let pair = sort_pair(a, b);
                    let mut seen = false;
                    let mut j: usize = 0;
                    while j < r.len()
                        invariant
                            j <= r@.len(),
                            r@ == prev,
                            forall|i: int| 0 <= i < r@.len() ==> (#[trigger] r@[i]).1@.len() == 2,
                            items_view(pair@) == sorted_pair(a@, b@),
                            pair@.len() == 2,
                            seen == exists|i: int|
                                0 <= i < j && #[trigger] rule_errors_view(r@)[i].1 == sorted_pair(
                                    a@,
                                    b@,
                                ),
                        decreases r@.len() - j,
                    {
                        let e = &r[j].1;
                        let same = e[0].same(&pair[0]) && e[1].same(&pair[1]);
                        proof {
                            let ev = rule_errors_view(r@)[j as int].1;
                            assert(ev == items_view(e@));
                            if same {
                                assert(ev =~= items_view(pair@));
                            }
                            if ev == items_view(pair@) {
                                assert(ev[0] == items_view(pair@)[0]);
                                assert(ev[1] == items_view(pair@)[1]);
                            }
                        }
                        seen = seen || same;
                        j += 1;
                    }
                    if !seen {
                        let fam = contents[ka].0.copy();
                        r.push((fam, pair));
                        proof {
                            assert(rule_errors_view(r@) =~= rule_errors_view(prev).push(
                                (fam@, sorted_pair(a@, b@)),
                            ));
                        }
                    }
                }
            }
            k += 1;
        }
        r
    }

    /// Inclusion rules between two items of one family.
    pub fn find_illegal_include_rules(&self) -> (r: Vec<(Family, Vec<Item>)>)
        requires
            rules_declared(self.decls(), self.inclusion_rules()),
        ensures
            rule_errors_view(r@) == illegal_rules(
                self.decls(),
                self.inclusion_rules(),
                self.inclusion_rules().len(),
            ),
    {
        ClosetBuilder::find_illegal_rules(&self.inclusions, &self.contents)
    }

    /// Exclusion rules between two items of one family.
    pub fn find_illegal_exclude_rules(&self) -> (r: Vec<(Family, Vec<Item>)>)
        requires
            rules_declared(self.decls(), self.exclusion_rules()),
        ensures
            rule_errors_view(r@) == illegal_rules(
                self.decls(),
                self.exclusion_rules(),
                self.exclusion_rules().len(),
            ),
    {
        ClosetBuilder::find_illegal_rules(&self.exclusions, &self.contents)
    }
}


/// Strictly increasing in the byte order of names.
pub open spec fn sorted(v: Seq<Seq<u8>>) -> bool {
    forall|i: int, j: int| 0 <= i < j < v.len() ==> bytes_lt(#[trigger] v[i], #[trigger] v[j])
}

/// No name stands twice.
pub open spec fn distinct(v: Seq<Seq<u8>>) -> bool {
    forall|i: int, j: int| 0 <= i < v.len() && 0 <= j < v.len() && #[trigger] v[i] == #[trigger] v[j] ==> i == j
}

/// The variable order: by family name, then by item name.
pub open spec fn var_ordered(vs: Seq<Seq<u8>>, fs: Seq<Seq<u8>>) -> bool {
    forall|i: int, j: int| 0 <= i < j < vs.len() ==> pair_lt(#[trigger] fs[i], vs[i], #[trigger] fs[j], vs[j])
}

/// `vs` lists each item declared in `d` once, in the variable order, and
/// `fs` the first family of each.
pub open spec fn table_of(d: Seq<(Seq<u8>, Seq<u8>)>, vs: Seq<Seq<u8>>, fs: Seq<Seq<u8>>) -> bool {
    &&& vs.len() == fs.len()
    &&& distinct(vs)
    &&& var_ordered(vs, fs)
    &&& forall|i: int| 0 <= i < vs.len() ==> family_of(d, #[trigger] vs[i]) == Some(fs[i])
    &&& forall|x: Seq<u8>| #[trigger]
        family_of(d, x) is Some ==> exists|i: int| 0 <= i < vs.len() && vs[i] == x
}

/// The declared items in the variable order, each with its first family.
fn item_table(contents: &Vec<(Family, Item)>) -> (r: (Vec<Item>, Vec<Family>))
    ensures
        table_of(pairs_view(contents@), items_view(r.0@), families_view(r.1@)),
{
    let ghost d = pairs_view(contents@);
    let mut vars: Vec<Item> = Vec::new();
    let mut fams: Vec<Family> = Vec::new();
    let mut k: usize = 0;
    proof {
        assert(d.take(0) =~= Seq::<(Seq<u8>, Seq<u8>)>::empty());
    }
    while k < contents.len()
        invariant
            k <= contents@.len(),
            d == pairs_view(contents@),
            vars@.len() == fams@.len(),
            table_of(d.take(k as int), items_view(vars@), families_view(fams@)),
        decreases contents@.len() - k,
    {
        let f = &contents[k].0;
        let x = &contents[k].1;
        let ghost vs = items_view(vars@);
        let ghost fs = families_view(fams@);
        let ghost dk = d.take(k as int);
        let ghost dk1 = d.take(k + 1);
        proof {
            assert(dk1.drop_last() =~= dk);
            assert(dk1.last() == (f@, x@));
        }
        let found = index_of(&vars, x);
        if let Some(i) = found {
            proof {
                assert(family_of(dk, vs[i as int]) == Some(fs[i as int]));
                assert forall|x2: Seq<u8>| #[trigger]
                    family_of(dk1, x2) is Some implies exists|i: int|
                        0 <= i < vs.len() && vs[i] == x2 by {
                    if family_of(dk, x2) is None {
                        assert(vs[i as int] == x2);
                    }
                }
            }
        } else {
            let mut p: usize = 0;
            while p < vars.len() && vars[p].before_in(&fams[p], x, f)
                invariant
                    p <= vars@.len(),
                    vars@.len() == fams@.len(),
                    vs == items_view(vars@),
                    fs == families_view(fams@),
                    forall|q: int| 0 <= q < p ==> pair_lt(#[trigger] fs[q], vs[q], f@, x@),
                decreases vars@.len() - p,
            {
                p += 1;
            }
            proof {
                if p < vs.len() {
                    lemma_pair_lt_total(fs[p as int], vs[p as int], f@, x@);
                }
                if family_of(dk, x@) is Some {
                    let i = choose|i: int| 0 <= i < vs.len() && vs[i] == x@;
                    assert(vs[i] != x@);
                }
            }
            vars.insert(p, x.copy());
            fams.insert(p, f.copy());
            proof {
                let vs2 = items_view(vars@);
                let fs2 = families_view(fams@);
                assert(vs2 =~= vs.insert(p as int, x@));
                assert(fs2 =~= fs.insert(p as int, f@));
                assert forall|i: int, j: int| 0 <= i < j < vs2.len() implies pair_lt(
                    #[trigger] fs2[i],
                    vs2[i],
                    #[trigger] fs2[j],
                    vs2[j],
                ) by {
                    if j == p {
                        assert(pair_lt(fs[i], vs[i], f@, x@));
                    } else if i == p {
                        if j - 1 > p {
                            assert(pair_lt(fs[p as int], vs[p as int], fs[j - 1], vs[j - 1]));
                            lemma_pair_lt_trans(f@, x@, fs[p as int], vs[p as int], fs[j - 1], vs[j - 1]);
                        }
                    } else if i < p && j > p {
                        assert(pair_lt(fs[i], vs[i], fs[j - 1], vs[j - 1]));
                    } else if i > p {
                        assert(pair_lt(fs[i - 1], vs[i - 1], fs[j - 1], vs[j - 1]));
                    } else {
                        assert(pair_lt(fs[i], vs[i], fs[j], vs[j]));
                    }
                }
                assert forall|i: int, j: int| 0 <= i < vs2.len() && 0 <= j < vs2.len() && #[trigger] vs2[i] == #[trigger] vs2[j] implies i == j by {
                    if i != p && j != p {
                        let i0 = if i < p { i } else { i - 1 };
                        let j0 = if j < p { j } else { j - 1 };
                        assert(vs[i0] == vs[j0]);
                    } else if i == p && j != p {
                        let j0 = if j < p { j } else { j - 1 };
                        assert(vs[j0] != x@);
                    } else if j == p && i != p {
                        let i0 = if i < p { i } else { i - 1 };
                        assert(vs[i0] != x@);
                    }
                }
                assert forall|i: int| 0 <= i < vs2.len() implies family_of(
                    dk1,
                    #[trigger] vs2[i],
                ) == Some(fs2[i]) by {
                    if i < p {
                        assert(family_of(dk, vs[i]) == Some(fs[i]));
                    } else if i > p {
                        assert(family_of(dk, vs[i - 1]) == Some(fs[i - 1]));
                    }
                }
                assert forall|x2: Seq<u8>| #[trigger]
                    family_of(dk1, x2) is Some implies exists|i: int|
                        0 <= i < vs2.len() && vs2[i] == x2 by {
                    if family_of(dk, x2) is Some {
                        let i = choose|i: int| 0 <= i < vs.len() && vs[i] == x2;
                        if i < p {
                            assert(vs2[i] == x2);
                        } else {
                            assert(vs2[i + 1] == x2);
                        }
                    } else {
                        assert(vs2[p as int] == x2);
                    }
                }
            }
        }
        k += 1;
    }
    proof {
        assert(d.take(k as int) =~= d);
    }
    (vars, fams)
}

/// No two selected variables `j < k` of one family, among the pairs before `(jj, kk)`.
pub open spec fn at_most_one(fs: Seq<Seq<u8>>, s: Set<nat>, jj: int, kk: int) -> bool {
    forall|j: nat, k: nat|
        j < k < fs.len() && (j < jj || (j == jj && k < kk)) && fs[j as int] == fs[k as int] ==> !(
        #[trigger] s.contains(j) && #[trigger] s.contains(k))
}

/// Some variable below `kk` of family `f` is selected.
pub open spec fn some_of_family(fs: Seq<Seq<u8>>, s: Set<nat>, f: Seq<u8>, kk: int) -> bool {
    exists|k: nat| k < kk && fs[k as int] == f && #[trigger] s.contains(k)
}

/// The family of each of the first `ii` variables has a selected variable.
pub open spec fn at_least_one(fs: Seq<Seq<u8>>, s: Set<nat>, ii: int) -> bool {
    forall|i: int| 0 <= i < ii ==> some_of_family(fs, s, #[trigger] fs[i], fs.len() as int)
}

/// None of the first `rr` exclusion rules has both its items selected.
pub open spec fn exclusions_hold(
    vs: Seq<Seq<u8>>,
    rules: Seq<(Seq<u8>, Seq<u8>)>,
    s: Set<nat>,
    rr: int,
) -> bool {
    forall|r: int, i: nat, j: nat|
        0 <= r < rr && i < vs.len() && j < vs.len() && vs[i as int] == (
        #[trigger] rules[r]).0 && vs[j as int] == rules[r].1 ==> !(#[trigger] s.contains(i)
            && #[trigger] s.contains(j))
}

/// Each of the first `rr` inclusion rules whose selection is selected has its
/// forced item selected.
pub open spec fn inclusions_hold(
    vs: Seq<Seq<u8>>,
    rules: Seq<(Seq<u8>, Seq<u8>)>,
    s: Set<nat>,
    rr: int,
) -> bool {
    forall|r: int, i: nat, j: nat|
        0 <= r < rr && i < vs.len() && j < vs.len() && vs[i as int] == (
        #[trigger] rules[r]).0 && vs[j as int] == rules[r].1 ==> (#[trigger] s.contains(i)
            ==> #[trigger] s.contains(j))
}

/// The selection `s` (a set of variable positions) is a legal outfit: one
/// item of each family, and every rule respected.
pub open spec fn legal(
    vs: Seq<Seq<u8>>,
    fs: Seq<Seq<u8>>,
    excl: Seq<(Seq<u8>, Seq<u8>)>,
    incl: Seq<(Seq<u8>, Seq<u8>)>,
    s: Set<nat>,
) -> bool {
    &&& at_most_one(fs, s, fs.len() as int, 0)
    &&& at_least_one(fs, s, fs.len() as int)
    &&& exclusions_hold(vs, excl, s, excl.len() as int)
    &&& inclusions_hold(vs, incl, s, incl.len() as int)
}

/// `root` conjoined with a constraint on variables `i` and `j`: `i` forces
/// `j` when `implies`, else the two are not both set.
fn conjoin_vars(bdd: &mut Bdd, root: usize, i: usize, j: usize, implies: bool) -> (r: usize)
    requires
        wf(old(bdd)@),
        root < old(bdd)@.len(),
    ensures
        wf(final(bdd)@),
        old(bdd)@.is_prefix_of(final(bdd)@),
        r < final(bdd)@.len(),
        forall|s: Set<nat>|
            #[trigger] eval(final(bdd)@, r as nat, s) == (eval(old(bdd)@, root as nat, s) && if implies {
                s.contains(i as nat) ==> s.contains(j as nat)
            } else {
                !(s.contains(i as nat) && s.contains(j as nat))
            }),
{
    let ghost g0 = bdd@;
    let a = bdd.var(i);
    let ghost g1 = bdd@;
    let b = bdd.var(j);
    let ghost g2 = bdd@;
    proof {
        lemma_grow(g1, g2, a as nat);
    }
    let c = if implies {
        let na = bdd.not(a);
        let ghost g3 = bdd@;
        proof {
            lemma_grow(g2, g3, b as nat);
        }
        let c = bdd.apply(Op::Or, na, b);
        proof {
            assert forall|s: Set<nat>| #[trigger] eval(bdd@, c as nat, s) == (s.contains(i as nat)
                ==> s.contains(j as nat)) by {
                assert(eval(g3, na as nat, s) == !eval(g2, a as nat, s));
                assert(eval(g2, a as nat, s) == eval(g1, a as nat, s));
                assert(eval(g3, b as nat, s) == eval(g2, b as nat, s));
            }
        }
        c
    } else {
        let both = bdd.apply(Op::And, a, b);
        let ghost g3 = bdd@;
        let c = bdd.not(both);
        proof {
            assert forall|s: Set<nat>| #[trigger] eval(bdd@, c as nat, s) == !(s.contains(i as nat)
                && s.contains(j as nat)) by {
                assert(eval(bdd@, c as nat, s) == !eval(g3, both as nat, s));
                assert(eval(g2, a as nat, s) == eval(g1, a as nat, s));
            }
        }
        c
    };
    let ghost g4 = bdd@;
    proof {
        lemma_prefix_trans(g0, g1, g2);
        lemma_prefix_trans(g0, g2, g4);
        lemma_grow(g0, g4, root as nat);
    }
    let r = bdd.apply(Op::And, root, c);
    proof {
        lemma_prefix_trans(g0, g4, bdd@);
    }
    r
}


/// The position of `x` in `vars`.
pub(crate) fn index_of(vars: &Vec<Item>, x: &Item) -> (r: Option<usize>)
    ensures
        r matches Some(i) ==> i < vars@.len() && items_view(vars@)[i as int] == x@,
        r is None ==> forall|i: int| 0 <= i < vars@.len() ==> items_view(vars@)[i] != x@,
{
    let mut i: usize = 0;
    while i < vars.len()
        invariant
            i <= vars@.len(),
            forall|q: int| 0 <= q < i ==> items_view(vars@)[q] != x@,
        decreases vars@.len() - i,
    {
        if vars[i].same(x) {
            return Some(i);
        }
        i += 1;
    }
    None
}

/// In a table without repeats a name stands at one position only.
pub(crate) proof fn lemma_distinct(vs: Seq<Seq<u8>>, i: int, j: int)
    requires
        distinct(vs),
        0 <= i < vs.len(),
        0 <= j < vs.len(),
        vs[i] == vs[j],
    ensures
        i == j,
{
}

/// The diagram whose satisfying selections are exactly the legal outfits.
#[verifier::loop_isolation(false)]
fn compile(
    vars: &Vec<Item>,
    fams: &Vec<Family>,
    excl: &Vec<(Item, Item)>,
    incl: &Vec<(Item, Item)>,
) -> (r: (Bdd, usize))
    requires
        vars@.len() == fams@.len(),
        distinct(items_view(vars@)),
        forall|k: int| 0 <= k < excl@.len() ==> exists|i: int| 0 <= i < vars@.len() && items_view(vars@)[i] == (#[trigger] excl@[k]).0@,
        forall|k: int| 0 <= k < excl@.len() ==> exists|i: int| 0 <= i < vars@.len() && items_view(vars@)[i] == (#[trigger] excl@[k]).1@,
        forall|k: int| 0 <= k < incl@.len() ==> exists|i: int| 0 <= i < vars@.len() && items_view(vars@)[i] == (#[trigger] incl@[k]).0@,
        forall|k: int| 0 <= k < incl@.len() ==> exists|i: int| 0 <= i < vars@.len() && items_view(vars@)[i] == (#[trigger] incl@[k]).1@,
    ensures
        wf(r.0@),
        r.1 < r.0@.len(),
        forall|s: Set<nat>|
            #[trigger] eval(r.0@, r.1 as nat, s) == legal(
                items_view(vars@),
                families_view(fams@),
                pairs_view(excl@),
                pairs_view(incl@),
                s,
            ),
{
    let ghost vs = items_view(vars@);
    let ghost fs = families_view(fams@);
    let ghost ex = pairs_view(excl@);
    let ghost inc = pairs_view(incl@);
    let n = fams.len();
    let mut bdd = Bdd::new();
    let mut root: usize = ALWAYS;
    let mut j: usize = 0;
    while j < n
        invariant
            n == fs.len(),
            fs == families_view(fams@),
            j <= n,
            wf(bdd@),
            root < bdd@.len(),
            forall|s: Set<nat>| #[trigger] eval(bdd@, root as nat, s) == at_most_one(fs, s, j as int, 0),
        decreases n - j,
    {
        let mut k: usize = j + 1;
        proof {
            assert forall|s: Set<nat>| #[trigger] eval(bdd@, root as nat, s) == at_most_one(fs, s, j as int, k as int) by {
                if at_most_one(fs, s, j as int, 0) != at_most_one(fs, s, j as int, k as int) {
                    assert(at_most_one(fs, s, j as int, 0) ==> at_most_one(fs, s, j as int, k as int));
                }
            }
        }
        while k < n
            invariant
                n == fs.len(),
                fs == families_view(fams@),
                j < n,
                j < k <= n,
                wf(bdd@),
                root < bdd@.len(),
                forall|s: Set<nat>| #[trigger] eval(bdd@, root as nat, s) == at_most_one(fs, s, j as int, k as int),
            decreases n - k,
        {
            if fams[j].same(&fams[k]) {
                let ghost g0 = bdd@;
                let r2 = conjoin_vars(&mut bdd, root, j, k, false);
                proof {
                    assert forall|s: Set<nat>| #[trigger] eval(bdd@, r2 as nat, s) == at_most_one(fs, s, j as int, k + 1) by {
                        assert(eval(g0, root as nat, s) == at_most_one(fs, s, j as int, k as int));
                        assert(fs[j as int] == fs[k as int]);
                        if at_most_one(fs, s, j as int, k + 1) {
                            assert(!(s.contains(j as nat) && s.contains(k as nat)));
                        }
                    }
                }
                root = r2;
            } else {
                proof {
                    assert forall|s: Set<nat>| #[trigger] eval(bdd@, root as nat, s) == at_most_one(fs, s, j as int, k + 1) by {
                        assert(eval(bdd@, root as nat, s) == at_most_one(fs, s, j as int, k as int));
                    }
                }
            }
            k += 1;
        }
        proof {
            assert forall|s: Set<nat>| #[trigger] eval(bdd@, root as nat, s) == at_most_one(fs, s, j + 1, 0) by {
                assert(eval(bdd@, root as nat, s) == at_most_one(fs, s, j as int, n as int));
            }
        }
        j += 1;
    }
    let mut i: usize = 0;
    while i < n
        invariant
            n == fs.len(),
            fs == families_view(fams@),
            i <= n,
            wf(bdd@),
            root < bdd@.len(),
            forall|s: Set<nat>| #[trigger] eval(bdd@, root as nat, s) == (at_most_one(fs, s, n as int, 0) && at_least_one(fs, s, i as int)),
        decreases n - i,
    {
        let ghost g0 = bdd@;
        let mut any: usize = crate::bdd::NEVER;
        let mut k: usize = 0;
        while k < n
            invariant
                n == fs.len(),
                fs == families_view(fams@),
                i < n,
                k <= n,
                wf(bdd@),
                g0.is_prefix_of(bdd@),
                root < g0.len(),
                any < bdd@.len(),
                forall|s: Set<nat>| #[trigger] eval(bdd@, any as nat, s) == some_of_family(fs, s, fs[i as int], k as int),
            decreases n - k,
        {
            if fams[k].same(&fams[i]) {
                let ghost g1 = bdd@;
                let v = bdd.var(k);
                let ghost g2 = bdd@;
                proof {
                    lemma_grow(g1, g2, any as nat);
                }
                let a2 = bdd.apply(Op::Or, any, v);
                proof {
                    lemma_prefix_trans(g0, g1, g2);
                    lemma_prefix_trans(g0, g2, bdd@);
                    assert forall|s: Set<nat>| #[trigger] eval(bdd@, a2 as nat, s) == some_of_family(fs, s, fs[i as int], k + 1) by {
                        assert(eval(g1, any as nat, s) == some_of_family(fs, s, fs[i as int], k as int));
                        assert(fs[k as int] == fs[i as int]);
                        if s.contains(k as nat) {
                            assert(some_of_family(fs, s, fs[i as int], k + 1));
                        }
                        if some_of_family(fs, s, fs[i as int], k + 1) {
                            let w = choose|w: nat| w < k + 1 && fs[w as int] == fs[i as int] && s.contains(w);
                            if w < k {
                                assert(some_of_family(fs, s, fs[i as int], k as int));
                            }
                        }
                    }
                }
                any = a2;
            } else {
                proof {
                    assert forall|s: Set<nat>| #[trigger] eval(bdd@, any as nat, s) == some_of_family(fs, s, fs[i as int], k + 1) by {
                        assert(eval(bdd@, any as nat, s) == some_of_family(fs, s, fs[i as int], k as int));
                    }
                }
            }
            k += 1;
        }
        let ghost g3 = bdd@;
        proof {
            lemma_grow(g0, g3, root as nat);
        }
        let r2 = bdd.apply(Op::And, root, any);
        proof {
            assert forall|s: Set<nat>| #[trigger] eval(bdd@, r2 as nat, s) == (at_most_one(fs, s, n as int, 0) && at_least_one(fs, s, i + 1)) by {
                assert(eval(g0, root as nat, s) == (at_most_one(fs, s, n as int, 0) && at_least_one(fs, s, i as int)));
                assert(eval(g3, any as nat, s) == some_of_family(fs, s, fs[i as int], n as int));
            }
        }
        root = r2;
        i += 1;
    }
    let mut r: usize = 0;
    while r < excl.len()
        invariant
            n == fs.len(),
            fs == families_view(fams@),
            vs == items_view(vars@),
            ex == pairs_view(excl@),
            distinct(vs),
            vars@.len() == n,
            r <= excl@.len(),
            wf(bdd@),
            root < bdd@.len(),
            forall|s: Set<nat>| #[trigger] eval(bdd@, root as nat, s) == (at_most_one(fs, s, n as int, 0) && at_least_one(fs, s, n as int) && exclusions_hold(vs, ex, s, r as int)),
        decreases excl@.len() - r,
    {
        let ia = index_of(vars, &excl[r].0);
        let ib = index_of(vars, &excl[r].1);
        proof {
            assert(ex[r as int] == (excl@[r as int].0@, excl@[r as int].1@));
        }
        if let (Some(ia), Some(ib)) = (ia, ib) {
            let ghost g0 = bdd@;
            let r2 = conjoin_vars(&mut bdd, root, ia, ib, false);
            proof {
                assert forall|s: Set<nat>| #[trigger] eval(bdd@, r2 as nat, s) == (at_most_one(fs, s, n as int, 0) && at_least_one(fs, s, n as int) && exclusions_hold(vs, ex, s, r + 1)) by {
                    assert(eval(g0, root as nat, s) == (at_most_one(fs, s, n as int, 0) && at_least_one(fs, s, n as int) && exclusions_hold(vs, ex, s, r as int)));
                    assert forall|q: int, i2: nat, j2: nat| 0 <= q < r + 1 && i2 < vs.len() && j2 < vs.len() && vs[i2 as int] == (#[trigger] ex[q]).0 && vs[j2 as int] == ex[q].1 && exclusions_hold(vs, ex, s, r as int) && !(s.contains(ia as nat) && s.contains(ib as nat)) implies !(#[trigger] s.contains(i2) && #[trigger] s.contains(j2)) by {
                        if q == r {
                            lemma_distinct(vs, i2 as int, ia as int);
                            lemma_distinct(vs, j2 as int, ib as int);
                        }
                    }
                    if exclusions_hold(vs, ex, s, r + 1) {
                        assert(vs[ia as int] == ex[r as int].0);
                        assert(!(s.contains(ia as nat) && s.contains(ib as nat)));
                    }
                }
            }
            root = r2;
        }
        r += 1;
    }
    let mut r: usize = 0;
    while r < incl.len()
        invariant
            n == fs.len(),
            fs == families_view(fams@),
            vs == items_view(vars@),
            ex == pairs_view(excl@),
            inc == pairs_view(incl@),
            distinct(vs),
            vars@.len() == n,
            r <= incl@.len(),
            wf(bdd@),
            root < bdd@.len(),
            forall|s: Set<nat>| #[trigger] eval(bdd@, root as nat, s) == (at_most_one(fs, s, n as int, 0) && at_least_one(fs, s, n as int) && exclusions_hold(vs, ex, s, ex.len() as int) && inclusions_hold(vs, inc, s, r as int)),
        decreases incl@.len() - r,
    {
        let ia = index_of(vars, &incl[r].0);
        let ib = index_of(vars, &incl[r].1);
        proof {
            assert(inc[r as int] == (incl@[r as int].0@, incl@[r as int].1@));
        }
        if let (Some(ia), Some(ib)) = (ia, ib) {
            let ghost g0 = bdd@;
            let r2 = conjoin_vars(&mut bdd, root, ia, ib, true);
            proof {
                assert forall|s: Set<nat>| #[trigger] eval(bdd@, r2 as nat, s) == (at_most_one(fs, s, n as int, 0) && at_least_one(fs, s, n as int) && exclusions_hold(vs, ex, s, ex.len() as int) && inclusions_hold(vs, inc, s, r + 1)) by {
                    assert(eval(g0, root as nat, s) == (at_most_one(fs, s, n as int, 0) && at_least_one(fs, s, n as int) && exclusions_hold(vs, ex, s, ex.len() as int) && inclusions_hold(vs, inc, s, r as int)));
                    assert forall|q: int, i2: nat, j2: nat| 0 <= q < r + 1 && i2 < vs.len() && j2 < vs.len() && vs[i2 as int] == (#[trigger] inc[q]).0 && vs[j2 as int] == inc[q].1 && inclusions_hold(vs, inc, s, r as int) && (s.contains(ia as nat) ==> s.contains(ib as nat)) implies (#[trigger] s.contains(i2) ==> #[trigger] s.contains(j2)) by {
                        if q == r {
                            lemma_distinct(vs, i2 as int, ia as int);
                            lemma_distinct(vs, j2 as int, ib as int);
                        }
                    }
                    if inclusions_hold(vs, inc, s, r + 1) {
                        assert(vs[ia as int] == inc[r as int].0);
                        assert(s.contains(ia as nat) ==> s.contains(ib as nat));
                    }
                }
            }
            root = r2;
        }
        r += 1;
    }
    (bdd, root)
}


/// A compiled catalog: the items by family, then name, with their families, the
/// rules, and the diagram whose models are the legal outfits.
pub struct Closet {
    bdd: Bdd,
    root: usize,
    items: Vec<Item>,
    families: Vec<Family>,
    exclusions: Ghost<Seq<(Seq<u8>, Seq<u8>)>>,
    inclusions: Ghost<Seq<(Seq<u8>, Seq<u8>)>>,
}

impl Closet {
    /// The variable table: the items by family, then name; item `i` is variable `i`.
    pub closed spec fn vars(&self) -> Seq<Seq<u8>> {
        items_view(self.items@)
    }

    /// The family of each variable.
    pub closed spec fn fams(&self) -> Seq<Seq<u8>> {
        families_view(self.families@)
    }

    pub closed spec fn excl(&self) -> Seq<(Seq<u8>, Seq<u8>)> {
        self.exclusions@
    }

    pub closed spec fn incl(&self) -> Seq<(Seq<u8>, Seq<u8>)> {
        self.inclusions@
    }

    /// The node arena.
    pub closed spec fn arena(&self) -> Seq<Branch> {
        self.bdd@
    }

    /// The root node.
    pub closed spec fn root_spec(&self) -> nat {
        self.root as nat
    }

    /// The set of variable positions `s` is a legal outfit of this closet.
    pub open spec fn legal(&self, s: Set<nat>) -> bool {
        legal(self.vars(), self.fams(), self.excl(), self.incl(), s)
    }

    /// The root's models are the legal outfits.
    pub open spec fn inv(&self) -> bool {
        &&& wf(self.arena())
        &&& self.root_spec() < self.arena().len()
        &&& self.vars().len() == self.fams().len()
        &&& distinct(self.vars())
        &&& var_ordered(self.vars(), self.fams())
        &&& forall|s: Set<nat>| #[trigger] eval(self.arena(), self.root_spec(), s) == self.legal(s)
    }

    /// The root node of the diagram.
    pub fn root(&self) -> (r: usize)
        ensures
            r == self.root_spec(),
    {
        self.root
    }

    /// A copy of the node arena, to build on without changing the closet.
    pub fn arena_copy(&self) -> (r: Bdd)
        ensures
            r@ == self.arena(),
    {
        self.bdd.copy()
    }

    /// The family of each item of `items`.
    pub fn families(&self) -> (r: &Vec<Family>)
        ensures
            families_view(r@) == self.fams(),
    {
        &self.families
    }

    /// The items in the variable order.
    pub fn items(&self) -> (r: &Vec<Item>)
        ensures
            items_view(r@) == self.vars(),
    {
        &self.items
    }

    /// The variable of `item`: its position in the variable order, if it is in the closet.
    pub fn variable(&self, item: &Item) -> (r: Option<usize>)
        requires
            self.inv(),
        ensures
            r is None <==> !self.vars().contains(item@),
            r matches Some(i) ==> i < self.vars().len() && self.vars()[i as int] == item@,
    {
        let r = index_of(&self.items, item);
        proof {
            if r is None && self.vars().contains(item@) {
                let i = choose|i: int| 0 <= i < self.vars().len() && self.vars()[i] == item@;
                assert(items_view(self.items@)[i] != item@);
            }
        }
        r
    }

    /// The family of `item`, if it is in the closet.
    pub fn get_family(&self, item: &Item) -> (r: Option<Family>)
        requires
            self.inv(),
        ensures
            r is None <==> !self.vars().contains(item@),
            r matches Some(f) ==> exists|i: int|
                0 <= i < self.vars().len() && self.vars()[i] == item@ && self.fams()[i] == f@,
    {
        match index_of(&self.items, item) {
            Some(i) => {
                proof {
                    assert(self.vars()[i as int] == item@);
                }
                Some(self.families[i].copy())
            },
            None => {
                proof {
                    if self.vars().contains(item@) {
                        let i = choose|i: int| 0 <= i < self.vars().len() && self.vars()[i] == item@;
                        assert(items_view(self.items@)[i] != item@);
                    }
                }
                None
            },
        }
    }
}

/// Copies a list of rules.
fn copy_rules(rules: &Vec<(Item, Item)>) -> (r: Vec<(Item, Item)>)
    ensures
        pairs_view(r@) == pairs_view(rules@),
{
    let mut r: Vec<(Item, Item)> = Vec::new();
    let mut k: usize = 0;
    while k < rules.len()
        invariant
            k <= rules@.len(),
            pairs_view(r@) == pairs_view(rules@).take(k as int),
        decreases rules@.len() - k,
    {
        let ghost prev = r@;
        r.push((rules[k].0.copy(), rules[k].1.copy()));
        proof {
            assert(pairs_view(r@) =~= pairs_view(prev).push((rules@[k as int].0@, rules@[k as int].1@)));
            assert(pairs_view(rules@).take(k + 1) =~= pairs_view(rules@).take(k as int).push(
                (rules@[k as int].0@, rules@[k as int].1@),
            ));
        }
        k += 1;
    }
    proof {
        assert(pairs_view(rules@).take(k as int) =~= pairs_view(rules@));
    }
    r
}

impl ClosetBuilder {
    /// Every item that a rule names has been declared (what `build` needs).
    pub fn rules_are_declared(&self) -> (r: bool)
        ensures
            r == (rules_declared(self.decls(), self.exclusion_rules()) && rules_declared(
                self.decls(),
                self.inclusion_rules(),
            )),
    {
        rules_known(&self.exclusions, &self.contents) && rules_known(&self.inclusions, &self.contents)
    }

    /// Checks the declarations: conflicting families first, then illegal
    /// inclusion rules, then illegal exclusion rules.
    pub fn validate(&self) -> (r: Result<(), Error>)
        requires
            rules_declared(self.decls(), self.exclusion_rules()),
            rules_declared(self.decls(), self.inclusion_rules()),
        ensures
            ({
                let d = self.decls();
                let conflicts = conflicts_by_family(d);
                let bad_incl = illegal_rules(d, self.inclusion_rules(), self.inclusion_rules().len());
                let bad_excl = illegal_rules(d, self.exclusion_rules(), self.exclusion_rules().len());
                &&& conflicts.len() > 0 ==> (r matches Err(Error::ConflictingFamilies(c))
                    && conflicts_view(c@) == conflicts)
                &&& conflicts.len() == 0 && bad_incl.len() > 0 ==> (r matches Err(
                    Error::InclusionError(c),
                ) && rule_errors_view(c@) == bad_incl)
                &&& conflicts.len() == 0 && bad_incl.len() == 0 && bad_excl.len() > 0 ==> (r matches Err(
                    Error::ExclusionError(c),
                ) && rule_errors_view(c@) == bad_excl)
                &&& r is Ok <==> (conflicts.len() == 0 && bad_incl.len() == 0 && bad_excl.len() == 0)
            }),
    {
        let conflicts = self.find_conflicting_families();
        if conflicts.len() > 0 {
            return Err(Error::ConflictingFamilies(conflicts));
        }
        let bad = self.find_illegal_include_rules();
        if bad.len() > 0 {
            return Err(Error::InclusionError(bad));
        }
        let bad = self.find_illegal_exclude_rules();
        if bad.len() > 0 {
            return Err(Error::ExclusionError(bad));
        }
        Ok(())
    }

    /// Checks the declarations (see `validate`) and compiles them.
    pub fn build(&self) -> (r: Result<Closet, Error>)
        requires
            rules_declared(self.decls(), self.exclusion_rules()),
            rules_declared(self.decls(), self.inclusion_rules()),
        ensures
            ({
                let d = self.decls();
                let conflicts = conflicts_by_family(d);
                let bad_incl = illegal_rules(d, self.inclusion_rules(), self.inclusion_rules().len());
                let bad_excl = illegal_rules(d, self.exclusion_rules(), self.exclusion_rules().len());
                &&& conflicts.len() > 0 ==> (r matches Err(Error::ConflictingFamilies(c))
                    && conflicts_view(c@) == conflicts)
                &&& conflicts.len() == 0 && bad_incl.len() > 0 ==> (r matches Err(
                    Error::InclusionError(c),
                ) && rule_errors_view(c@) == bad_incl)
                &&& conflicts.len() == 0 && bad_incl.len() == 0 && bad_excl.len() > 0 ==> (r matches Err(
                    Error::ExclusionError(c),
                ) && rule_errors_view(c@) == bad_excl)
                &&& conflicts.len() == 0 && bad_incl.len() == 0 && bad_excl.len() == 0 ==> (r matches Ok(
                    c,
                ) && c.inv() && table_of(d, c.vars(), c.fams()) && c.excl()
                    == self.exclusion_rules() && c.incl() == self.inclusion_rules()
                    && reduced_from(c.arena(), c.root_spec()) && ordered_from(c.arena(), c.root_spec()))
            }),
    {
        match self.validate() {
            Err(e) => {
                return Err(e);
            },
            Ok(()) => {},
        }
        let (items, families) = item_table(&self.contents);
        let ghost d = self.decls();
        let ghost vs = items_view(items@);
        proof {
            assert forall|k: int| 0 <= k < self.exclusions@.len() implies exists|i: int|
                0 <= i < items@.len() && items_view(items@)[i] == (#[trigger] self.exclusions@[k]).0@ by {
                assert(self.exclusion_rules()[k] == (self.exclusions@[k].0@, self.exclusions@[k].1@));
                assert(family_of(d, self.exclusion_rules()[k].0) is Some);
            }
            assert forall|k: int| 0 <= k < self.exclusions@.len() implies exists|i: int|
                0 <= i < items@.len() && items_view(items@)[i] == (#[trigger] self.exclusions@[k]).1@ by {
                assert(self.exclusion_rules()[k] == (self.exclusions@[k].0@, self.exclusions@[k].1@));
                assert(family_of(d, self.exclusion_rules()[k].0) is Some);
                assert(family_of(d, self.exclusion_rules()[k].1) is Some);
            }
            assert forall|k: int| 0 <= k < self.inclusions@.len() implies exists|i: int|
                0 <= i < items@.len() && items_view(items@)[i] == (#[trigger] self.inclusions@[k]).0@ by {
                assert(self.inclusion_rules()[k] == (self.inclusions@[k].0@, self.inclusions@[k].1@));
                assert(family_of(d, self.inclusion_rules()[k].0) is Some);
            }
            assert forall|k: int| 0 <= k < self.inclusions@.len() implies exists|i: int|
                0 <= i < items@.len() && items_view(items@)[i] == (#[trigger] self.inclusions@[k]).1@ by {
                assert(self.inclusion_rules()[k] == (self.inclusions@[k].0@, self.inclusions@[k].1@));
                assert(family_of(d, self.inclusion_rules()[k].0) is Some);
                assert(family_of(d, self.inclusion_rules()[k].1) is Some);
            }
        }
        let (bdd, root) = compile(&items, &families, &self.exclusions, &self.inclusions);
        proof {
            lemma_wf_paths(bdd@, root as nat);
        }
        Ok(
            Closet {
                bdd,
                root,
                items,
                families,
                exclusions: Ghost(self.exclusion_rules()),
                inclusions: Ghost(self.inclusion_rules()),
            },
        )
    }
}


/// Closets whose legal outfits coincide have the same root diagram, however
/// and in whichever order their declarations were made.
pub proof fn lemma_equivalent_closets(c1: &Closet, c2: &Closet)
    requires
        c1.inv(),
        c2.inv(),
        forall|s: Set<nat>| #[trigger] c1.legal(s) == c2.legal(s),
    ensures
        crate::bdd::same_shape(c1.arena(), c1.root_spec(), c2.arena(), c2.root_spec()),
{
    assert forall|s: Set<nat>| #[trigger] eval(c1.arena(), c1.root_spec(), s) == eval(c2.arena(), c2.root_spec(), s) by {
        assert(c1.legal(s) == c2.legal(s));
    }
    crate::bdd::lemma_canonical_across(c1.arena(), c1.root_spec(), c2.arena(), c2.root_spec());
}

/// Two tables of the same declarations are the same table.
pub proof fn lemma_table_unique(
    d1: Seq<(Seq<u8>, Seq<u8>)>,
    d2: Seq<(Seq<u8>, Seq<u8>)>,
    vs1: Seq<Seq<u8>>,
    fs1: Seq<Seq<u8>>,
    vs2: Seq<Seq<u8>>,
    fs2: Seq<Seq<u8>>,
)
    requires
        table_of(d1, vs1, fs1),
        table_of(d2, vs2, fs2),
        forall|x: Seq<u8>| #[trigger] family_of(d1, x) == family_of(d2, x),
    ensures
        vs1 == vs2,
        fs1 == fs2,
{
    assert forall|x: Seq<u8>| vs1.contains(x) <==> vs2.contains(x) by {
        if vs1.contains(x) {
            let k = choose|k: int| 0 <= k < vs1.len() && vs1[k] == x;
            assert(family_of(d1, vs1[k]) == Some(fs1[k]));
            assert(family_of(d2, x) is Some);
        }
        if vs2.contains(x) {
            let k = choose|k: int| 0 <= k < vs2.len() && vs2[k] == x;
            assert(family_of(d2, vs2[k]) == Some(fs2[k]));
            assert(family_of(d1, x) is Some);
        }
    }
    lemma_rest_unique(d1, d2, vs1, fs1, vs2, fs2);
}

/// Two lists in the variable order of the same items, each item with its
/// first family, are the same lists.
proof fn lemma_rest_unique(
    d1: Seq<(Seq<u8>, Seq<u8>)>,
    d2: Seq<(Seq<u8>, Seq<u8>)>,
    vs1: Seq<Seq<u8>>,
    fs1: Seq<Seq<u8>>,
    vs2: Seq<Seq<u8>>,
    fs2: Seq<Seq<u8>>,
)
    requires
        vs1.len() == fs1.len(),
        vs2.len() == fs2.len(),
        var_ordered(vs1, fs1),
        var_ordered(vs2, fs2),
        forall|i: int| 0 <= i < vs1.len() ==> family_of(d1, #[trigger] vs1[i]) == Some(fs1[i]),
        forall|i: int| 0 <= i < vs2.len() ==> family_of(d2, #[trigger] vs2[i]) == Some(fs2[i]),
        forall|x: Seq<u8>| #[trigger] family_of(d1, x) == family_of(d2, x),
        forall|x: Seq<u8>| vs1.contains(x) <==> vs2.contains(x),
    ensures
        vs1 == vs2,
        fs1 == fs2,
    decreases vs1.len() + vs2.len(),
{
    if vs1.len() == 0 || vs2.len() == 0 {
        if vs1.len() > 0 {
            assert(vs1.contains(vs1[0]));
        }
        if vs2.len() > 0 {
            assert(vs2.contains(vs2[0]));
        }
        assert(vs1 =~= vs2);
        assert(fs1 =~= fs2);
    } else {
        assert(vs1.contains(vs1[0]));
        assert(vs2.contains(vs2[0]));
        let i = choose|i: int| 0 <= i < vs2.len() && vs2[i] == vs1[0];
        let j = choose|j: int| 0 <= j < vs1.len() && vs1[j] == vs2[0];
        assert(family_of(d1, vs1[0]) == Some(fs1[0]));
        assert(family_of(d2, vs2[0]) == Some(fs2[0]));
        assert(family_of(d2, vs2[i]) == Some(fs2[i]));
        assert(family_of(d1, vs1[j]) == Some(fs1[j]));
        lemma_pair_lt_total(fs1[0], vs1[0], fs2[0], vs2[0]);
        if i > 0 {
            assert(pair_lt(fs2[0], vs2[0], fs2[i], vs2[i]));
        }
        if j > 0 {
            assert(pair_lt(fs1[0], vs1[0], fs1[j], vs1[j]));
        }
        assert(vs1[0] == vs2[0]);
        let (a1, b1, a2, b2) = (vs1.drop_first(), fs1.drop_first(), vs2.drop_first(), fs2.drop_first());
        assert forall|x: Seq<u8>| a1.contains(x) <==> a2.contains(x) by {
            if a1.contains(x) {
                let k = choose|k: int| 0 <= k < a1.len() && a1[k] == x;
                assert(vs2.contains(x));
                let q = choose|q: int| 0 <= q < vs2.len() && vs2[q] == x;
                if q == 0 {
                    assert(pair_lt(fs1[0], vs1[0], fs1[k + 1], vs1[k + 1]));
                    assert(family_of(d1, vs1[k + 1]) == Some(fs1[k + 1]));
                    lemma_pair_lt_total(fs1[0], vs1[0], fs1[0], vs1[0]);
                }
                assert(a2[q - 1] == x);
            }
            if a2.contains(x) {
                let k = choose|k: int| 0 <= k < a2.len() && a2[k] == x;
                assert(vs1.contains(x));
                let q = choose|q: int| 0 <= q < vs1.len() && vs1[q] == x;
                if q == 0 {
                    assert(pair_lt(fs2[0], vs2[0], fs2[k + 1], vs2[k + 1]));
                    assert(family_of(d2, vs2[k + 1]) == Some(fs2[k + 1]));
                    lemma_pair_lt_total(fs2[0], vs2[0], fs2[0], vs2[0]);
                }
                assert(a1[q - 1] == x);
            }
        }
        assert forall|p: int, q: int| 0 <= p < q < a1.len() implies pair_lt(#[trigger] b1[p], a1[p], #[trigger] b1[q], a1[q]) by {
            assert(pair_lt(fs1[p + 1], vs1[p + 1], fs1[q + 1], vs1[q + 1]));
        }
        assert forall|p: int, q: int| 0 <= p < q < a2.len() implies pair_lt(#[trigger] b2[p], a2[p], #[trigger] b2[q], a2[q]) by {
            assert(pair_lt(fs2[p + 1], vs2[p + 1], fs2[q + 1], vs2[q + 1]));
        }
        assert forall|p: int| 0 <= p < a1.len() implies family_of(d1, #[trigger] a1[p]) == Some(b1[p]) by {
            assert(family_of(d1, vs1[p + 1]) == Some(fs1[p + 1]));
        }
        assert forall|p: int| 0 <= p < a2.len() implies family_of(d2, #[trigger] a2[p]) == Some(b2[p]) by {
            assert(family_of(d2, vs2[p + 1]) == Some(fs2[p + 1]));
        }
        lemma_rest_unique(d1, d2, a1, b1, a2, b2);
        assert(vs1 =~= seq![vs1[0]] + a1);
        assert(vs2 =~= seq![vs2[0]] + a2);
        assert(fs1 =~= seq![fs1[0]] + b1);
        assert(fs2 =~= seq![fs2[0]] + b2);
    }
}

/// Rule lists holding the same rules, in any order, hold on the same outfits.
proof fn lemma_rules_as_sets(
    vs: Seq<Seq<u8>>,
    r1: Seq<(Seq<u8>, Seq<u8>)>,
    r2: Seq<(Seq<u8>, Seq<u8>)>,
    s: Set<nat>,
)
    requires
        r1.to_set() == r2.to_set(),
    ensures
        exclusions_hold(vs, r1, s, r1.len() as int) == exclusions_hold(vs, r2, s, r2.len() as int),
        inclusions_hold(vs, r1, s, r1.len() as int) == inclusions_hold(vs, r2, s, r2.len() as int),
{
    assert forall|k: int| 0 <= k < r1.len() implies exists|q: int| 0 <= q < r2.len() && r2[q] == #[trigger] r1[k] by {
        assert(r1.to_set().contains(r1[k]));
        assert(r2.to_set().contains(r1[k]));
    }
    assert forall|k: int| 0 <= k < r2.len() implies exists|q: int| 0 <= q < r1.len() && r1[q] == #[trigger] r2[k] by {
        assert(r2.to_set().contains(r2[k]));
        assert(r1.to_set().contains(r2[k]));
    }
    if exclusions_hold(vs, r1, s, r1.len() as int) {
        assert forall|r: int, i: nat, j: nat|
            0 <= r < r2.len() && i < vs.len() && j < vs.len() && vs[i as int] == (#[trigger] r2[r]).0 && vs[j as int] == r2[r].1
            implies !(#[trigger] s.contains(i) && #[trigger] s.contains(j)) by {
            let q = choose|q: int| 0 <= q < r1.len() && r1[q] == r2[r];
            assert(vs[i as int] == r1[q].0);
        }
    }
    if exclusions_hold(vs, r2, s, r2.len() as int) {
        assert forall|r: int, i: nat, j: nat|
            0 <= r < r1.len() && i < vs.len() && j < vs.len() && vs[i as int] == (#[trigger] r1[r]).0 && vs[j as int] == r1[r].1
            implies !(#[trigger] s.contains(i) && #[trigger] s.contains(j)) by {
            let q = choose|q: int| 0 <= q < r2.len() && r2[q] == r1[r];
            assert(vs[i as int] == r2[q].0);
        }
    }
    if inclusions_hold(vs, r1, s, r1.len() as int) {
        assert forall|r: int, i: nat, j: nat|
            0 <= r < r2.len() && i < vs.len() && j < vs.len() && vs[i as int] == (#[trigger] r2[r]).0 && vs[j as int] == r2[r].1
            implies (#[trigger] s.contains(i) ==> #[trigger] s.contains(j)) by {
            let q = choose|q: int| 0 <= q < r1.len() && r1[q] == r2[r];
            assert(vs[i as int] == r1[q].0);
        }
    }
    if inclusions_hold(vs, r2, s, r2.len() as int) {
        assert forall|r: int, i: nat, j: nat|
            0 <= r < r1.len() && i < vs.len() && j < vs.len() && vs[i as int] == (#[trigger] r1[r]).0 && vs[j as int] == r1[r].1
            implies (#[trigger] s.contains(i) ==> #[trigger] s.contains(j)) by {
            let q = choose|q: int| 0 <= q < r2.len() && r2[q] == r1[r];
            assert(vs[i as int] == r2[q].0);
        }
    }
}

/// Declaration order does not matter: closets built from builders whose
/// items have the same first families and whose rules are the same (in any
/// order) have the same variable table and the same root diagram.
pub proof fn lemma_declaration_order(b1: &ClosetBuilder, b2: &ClosetBuilder, c1: &Closet, c2: &Closet)
    requires
        c1.inv(),
        c2.inv(),
        table_of(b1.decls(), c1.vars(), c1.fams()),
        table_of(b2.decls(), c2.vars(), c2.fams()),
        c1.excl() == b1.exclusion_rules(),
        c2.excl() == b2.exclusion_rules(),
        c1.incl() == b1.inclusion_rules(),
        c2.incl() == b2.inclusion_rules(),
        forall|x: Seq<u8>| #[trigger] family_of(b1.decls(), x) == family_of(b2.decls(), x),
        b1.exclusion_rules().to_set() == b2.exclusion_rules().to_set(),
        b1.inclusion_rules().to_set() == b2.inclusion_rules().to_set(),
    ensures
        c1.vars() == c2.vars(),
        c1.fams() == c2.fams(),
        crate::bdd::same_shape(c1.arena(), c1.root_spec(), c2.arena(), c2.root_spec()),
{
    lemma_table_unique(b1.decls(), b2.decls(), c1.vars(), c1.fams(), c2.vars(), c2.fams());
    assert forall|s: Set<nat>| #[trigger] c1.legal(s) == c2.legal(s) by {
        lemma_rules_as_sets(c1.vars(), c1.excl(), c2.excl(), s);
        lemma_rules_as_sets(c1.vars(), c1.incl(), c2.incl(), s);
    }
    lemma_equivalent_closets(c1, c2);
}
} // verus!
