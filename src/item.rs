//! Items and families: named identities ordered by the bytes of their names.
use vstd::prelude::*;
use vstd::utf8::encode_utf8;

verus! {

/// Strict lexicographic order on byte strings (a proper prefix comes first).
pub open spec fn bytes_lt(a: Seq<u8>, b: Seq<u8>) -> bool
    decreases a.len(),
{
    if a.len() == 0 {
        b.len() > 0
    } else if b.len() == 0 {
        false
    } else if a[0] != b[0] {
        a[0] < b[0]
    } else {
        bytes_lt(a.drop_first(), b.drop_first())
    }
}

/// No byte string comes before itself.
pub proof fn lemma_bytes_lt_irrefl(a: Seq<u8>)
    ensures
        !bytes_lt(a, a),
    decreases a.len(),
{
    if a.len() > 0 {
        lemma_bytes_lt_irrefl(a.drop_first());
    }
}

/// The byte order is a strict total order.
pub proof fn lemma_bytes_lt_total(a: Seq<u8>, b: Seq<u8>)
    ensures
        !bytes_lt(a, a),
        !(bytes_lt(a, b) && bytes_lt(b, a)),
        a != b ==> bytes_lt(a, b) || bytes_lt(b, a),
    decreases a.len(),
{
    lemma_bytes_lt_irrefl(a);
    if a.len() > 0 && b.len() > 0 {
        lemma_bytes_lt_total(a.drop_first(), b.drop_first());
        if a[0] == b[0] && a != b {
            assert(a =~= seq![a[0]] + a.drop_first());
            assert(b =~= seq![b[0]] + b.drop_first());
        }
    } else if a.len() > 0 {
    } else if b.len() == 0 {
        assert(a =~= b);
    }
}

/// The byte order is transitive.
pub proof fn lemma_bytes_lt_trans(a: Seq<u8>, b: Seq<u8>, c: Seq<u8>)
    requires
        bytes_lt(a, b),
        bytes_lt(b, c),
    ensures
        bytes_lt(a, c),
    decreases a.len(),
{
    if a.len() > 0 && b.len() > 0 && c.len() > 0 && a[0] == b[0] && b[0] == c[0] {
        lemma_bytes_lt_trans(a.drop_first(), b.drop_first(), c.drop_first());
    }
}

/// Strict order on (family, item) pairs: by family, then by item.
pub open spec fn pair_lt(f1: Seq<u8>, x1: Seq<u8>, f2: Seq<u8>, x2: Seq<u8>) -> bool {
    bytes_lt(f1, f2) || (f1 == f2 && bytes_lt(x1, x2))
}

/// The pair order is a strict total order.
pub proof fn lemma_pair_lt_total(f1: Seq<u8>, x1: Seq<u8>, f2: Seq<u8>, x2: Seq<u8>)
    ensures
        !pair_lt(f1, x1, f1, x1),
        !(pair_lt(f1, x1, f2, x2) && pair_lt(f2, x2, f1, x1)),
        (f1 != f2 || x1 != x2) ==> pair_lt(f1, x1, f2, x2) || pair_lt(f2, x2, f1, x1),
{
    lemma_bytes_lt_total(f1, f2);
    lemma_bytes_lt_total(x1, x2);
    lemma_bytes_lt_irrefl(f1);
    lemma_bytes_lt_irrefl(x1);
}

/// The pair order is transitive.
pub proof fn lemma_pair_lt_trans(
    f1: Seq<u8>,
    x1: Seq<u8>,
    f2: Seq<u8>,
    x2: Seq<u8>,
    f3: Seq<u8>,
    x3: Seq<u8>,
)
    requires
        pair_lt(f1, x1, f2, x2),
        pair_lt(f2, x2, f3, x3),
    ensures
        pair_lt(f1, x1, f3, x3),
{
    if bytes_lt(f1, f2) && bytes_lt(f2, f3) {
        lemma_bytes_lt_trans(f1, f2, f3);
    } else if bytes_lt(x1, x2) && bytes_lt(x2, x3) && f1 == f2 && f2 == f3 {
        lemma_bytes_lt_trans(x1, x2, x3);
    }
}

/// Compares two byte strings: `-1`, `0` or `1` as `a` is below, equal to or above `b`.
pub fn compare_bytes(a: &[u8], b: &[u8]) -> (r: i8)
    ensures
        r == 0 <==> a@ == b@,
        r < 0 <==> bytes_lt(a@, b@),
        r > 0 <==> bytes_lt(b@, a@),
{
    proof {
        lemma_bytes_lt_total(a@, b@);
        assert(a@.skip(0) =~= a@);
        assert(b@.skip(0) =~= b@);
    }
    let mut i: usize = 0;
    while i < a.len() && i < b.len()
        invariant
            i <= a@.len(),
            i <= b@.len(),
            a@.subrange(0, i as int) == b@.subrange(0, i as int),
            bytes_lt(a@, b@) == bytes_lt(a@.skip(i as int), b@.skip(i as int)),
            bytes_lt(b@, a@) == bytes_lt(b@.skip(i as int), a@.skip(i as int)),
        decreases a@.len() - i,
    {
        if a[i] != b[i] {
            proof {
                assert(a@.skip(i as int)[0] == a@[i as int]);
                assert(b@.skip(i as int)[0] == b@[i as int]);
                if a@ == b@ {
                    assert(a@[i as int] == b@[i as int]);
                }
            }
            if a[i] < b[i] {
                return -1;
            } else {
                return 1;
            }
        }
        proof {
            assert(a@.skip(i as int).drop_first() =~= a@.skip(i + 1));
            assert(b@.skip(i as int).drop_first() =~= b@.skip(i + 1));
            assert(a@.subrange(0, i + 1) =~= a@.subrange(0, i as int).push(a@[i as int]));
            assert(b@.subrange(0, i + 1) =~= b@.subrange(0, i as int).push(b@[i as int]));
        }
        i += 1;
    }
    if a.len() == b.len() {
        proof {
            assert(a@ =~= a@.subrange(0, i as int));
            assert(b@ =~= b@.subrange(0, i as int));
        }
        0
    } else {
        proof {
            if a@ == b@ {
                assert(a@.len() == b@.len());
            }
        }
        if a.len() < b.len() {
            -1
        } else {
            1
        }
    }
}

/// One choice that an outfit may hold, such as a blue shirt.
#[derive(Clone, Debug, PartialEq, Eq, PartialOrd, Ord, Hash)]
pub struct Item {
    name: String,
}

/// A category of mutually exclusive items, such as shirts.
#[derive(Clone, Debug, PartialEq, Eq, PartialOrd, Ord, Hash)]
pub struct Family {
    name: String,
}

/// An item is identified by the UTF-8 bytes of its name.
impl View for Item {
    type V = Seq<u8>;

    closed spec fn view(&self) -> Seq<u8> {
        encode_utf8(self.name@)
    }
}

/// A family is identified by the UTF-8 bytes of its name.
impl View for Family {
    type V = Seq<u8>;

    closed spec fn view(&self) -> Seq<u8> {
        encode_utf8(self.name@)
    }
}

impl Item {
    pub fn new(name: &str) -> (r: Item)
        ensures
            r@ == encode_utf8(name@),
    {
        Item { name: name.to_owned() }
    }

    pub fn name(&self) -> (r: &str)
        ensures
            encode_utf8(r@) == self@,
    {
        self.name.as_str()
    }

    /// A copy of this item.
    pub fn copy(&self) -> (r: Item)
        ensures
            r@ == self@,
    {
        Item { name: self.name.clone() }
    }

    /// The two items have the same name.
    pub fn same(&self, other: &Item) -> (r: bool)
        ensures
            r == (self@ == other@),
    {
        compare_bytes(self.name.as_str().as_bytes(), other.name.as_str().as_bytes()) == 0
    }

    /// This item, of family `family`, comes before `other`, of family
    /// `other_family`, in the variable order.
    pub fn before_in(&self, family: &Family, other: &Item, other_family: &Family) -> (r: bool)
        ensures
            r == pair_lt(family@, self@, other_family@, other@),
    {
        let c = compare_bytes(family.name.as_str().as_bytes(), other_family.name.as_str().as_bytes());
        if c != 0 {
            c < 0
        } else {
            self.before(other)
        }
    }

    /// This item comes before `other` in the item order.
    pub fn before(&self, other: &Item) -> (r: bool)
        ensures
            r == bytes_lt(self@, other@),
    {
        compare_bytes(self.name.as_str().as_bytes(), other.name.as_str().as_bytes()) < 0
    }
}

impl Family {
    pub fn new(name: &str) -> (r: Family)
        ensures
            r@ == encode_utf8(name@),
    {
        Family { name: name.to_owned() }
    }

    pub fn name(&self) -> (r: &str)
        ensures
            encode_utf8(r@) == self@,
    {
        self.name.as_str()
    }

    /// A copy of this family.
    pub fn copy(&self) -> (r: Family)
        ensures
            r@ == self@,
    {
        Family { name: self.name.clone() }
    }

    /// This family comes before `other` in the order of names.
    pub fn before(&self, other: &Family) -> (r: bool)
        ensures
            r == bytes_lt(self@, other@),
    {
        compare_bytes(self.name.as_str().as_bytes(), other.name.as_str().as_bytes()) < 0
    }

    /// The two families have the same name.
    pub fn same(&self, other: &Family) -> (r: bool)
        ensures
            r == (self@ == other@),
    {
        compare_bytes(self.name.as_str().as_bytes(), other.name.as_str().as_bytes()) == 0
    }
}

} // verus!
