use weave::bdd::{Bdd, Op, ALWAYS, NEVER};
use weave::forest::trees;
use weave::item::compare_bytes;

#[test]
fn trees_lists_every_path_once() {
    let mut bdd = Bdd::new();
    let x0 = bdd.var(0);
    let x1 = bdd.var(1);
    let either = bdd.apply(Op::Or, x0, x1);
    let mut found = trees(&bdd, either);
    found.sort();
    assert_eq!(found, vec![vec![0], vec![1]]);
}

#[test]
fn trees_of_leaves() {
    let bdd = Bdd::new();
    assert_eq!(trees(&bdd, NEVER), Vec::<Vec<usize>>::new());
    assert_eq!(trees(&bdd, ALWAYS), vec![Vec::<usize>::new()]);
}

#[test]
fn equivalent_formulas_share_a_root() {
    let mut bdd = Bdd::new();
    let x0 = bdd.var(0);
    let x1 = bdd.var(1);
    let a = bdd.apply(Op::And, x0, x1);
    let n0 = bdd.not(x0);
    let n1 = bdd.not(x1);
    let o = bdd.apply(Op::Or, n0, n1);
    let b = bdd.not(o);
    assert_eq!(a, b);
    let x = bdd.apply(Op::Xor, x0, x1);
    let y = bdd.apply(Op::Xor, x1, x0);
    assert_eq!(x, y);
    assert_ne!(a, x);
}

#[test]
fn branch_with_equal_children_is_the_child() {
    let mut bdd = Bdd::new();
    let x1 = bdd.var(1);
    assert_eq!(bdd.branch(0, x1, x1), x1);
    let before = bdd.len();
    let again = bdd.branch(1, NEVER, ALWAYS);
    assert_eq!(again, x1);
    assert_eq!(bdd.len(), before);
}

#[test]
fn restrict_removes_the_variable() {
    let mut bdd = Bdd::new();
    let x0 = bdd.var(0);
    let x1 = bdd.var(1);
    let both = bdd.apply(Op::And, x0, x1);
    let r = bdd.restrict(both, 0, true);
    assert_eq!(r, x1);
    assert_eq!(bdd.top_var(r), Some(1));
    let r = bdd.restrict(both, 1, false);
    assert_eq!(r, NEVER);
}

#[test]
fn byte_order_of_names() {
    assert_eq!(compare_bytes(b"blue", b"jeans"), -1);
    assert_eq!(compare_bytes(b"red", b"re"), 1);
    assert_eq!(compare_bytes(b"red", b"red"), 0);
    assert_eq!(compare_bytes(b"", b"a"), -1);
}
