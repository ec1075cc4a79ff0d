//! What the layout operations do to the panes of a tree, in tree order:
//! normalizing keeps them, splitting adds the new pane beside its target,
//! removing takes the pane out, and swapping exchanges two.
use vstd::prelude::*;
use crate::layout::{
    children_panes, hole, insert_children, insert_tree, leaf_position, lemma_children_panes_contains,
    lemma_leaf_position, merge_children, merged_child, normal_children, normal_form, panes_of,
    remove_children, remove_from_tree, remove_tree, replace_children, replace_tree, scale_children,
    split_tree, swap_tree, PaneId, Tree, resize_tree, border_moved, holder, lemma_holder, Rect,
    lemma_insert_absent, lemma_remove_absent, Axis,
};
use crate::keys::Direction;

verus! {

/// Where `x` first occurs in `ps`, or -1.
pub open spec fn first_at(ps: Seq<PaneId>, x: PaneId) -> int
    decreases ps.len(),
{
    if ps.len() == 0 {
        -1
    } else if ps[0] == x {
        0
    } else {
        let r = first_at(ps.drop_first(), x);
        if r < 0 {
            -1
        } else {
            r + 1
        }
    }
}

/// `ps` with the first `x` renamed `y`.
pub open spec fn rename_first(ps: Seq<PaneId>, x: PaneId, y: PaneId) -> Seq<PaneId> {
    let i = first_at(ps, x);
    if i >= 0 {
        ps.update(i, y)
    } else {
        ps
    }
}

/// `ps` with `new` added after the first `target`, or before it.
pub open spec fn add_beside(ps: Seq<PaneId>, target: PaneId, new: PaneId, after: bool) -> Seq<PaneId> {
    let i = first_at(ps, target);
    if i >= 0 {
        ps.insert(if after { i + 1 } else { i }, new)
    } else {
        ps
    }
}

/// `ps` without its first `x`.
pub open spec fn drop_first_of(ps: Seq<PaneId>, x: PaneId) -> Seq<PaneId> {
    let i = first_at(ps, x);
    if i >= 0 {
        ps.remove(i)
    } else {
        ps
    }
}

pub proof fn lemma_first_at(ps: Seq<PaneId>, x: PaneId)
    ensures
        -1 <= first_at(ps, x) < ps.len(),
        first_at(ps, x) >= 0 ==> ps[first_at(ps, x)] == x,
        first_at(ps, x) >= 0 ==> forall|j: int| 0 <= j < first_at(ps, x) ==> ps[j] != x,
        first_at(ps, x) >= 0 <==> ps.contains(x),
    decreases ps.len(),
{
    if ps.len() > 0 {
        lemma_first_at(ps.drop_first(), x);
        assert forall|j: int| 1 <= j < ps.len() implies ps[j] == ps.drop_first()[j - 1] by {}
        if ps.contains(x) && ps[0] != x {
            let k = choose|k: int| 0 <= k < ps.len() && ps[k] == x;
            assert(ps.drop_first()[k - 1] == x);
        }
        if first_at(ps, x) >= 0 {
            assert(ps[first_at(ps, x)] == x);
        }
    }
}

proof fn lemma_first_at_concat(a: Seq<PaneId>, b: Seq<PaneId>, x: PaneId)
    ensures
        first_at(a + b, x) == if a.contains(x) {
            first_at(a, x)
        } else if b.contains(x) {
            a.len() + first_at(b, x)
        } else {
            -1
        },
    decreases a.len(),
{
    lemma_first_at(a, x);
    lemma_first_at(b, x);
    lemma_first_at(a + b, x);
    if a.len() == 0 {
        assert(a + b =~= b);
    } else {
        lemma_first_at_concat(a.drop_first(), b, x);
        assert((a + b).drop_first() =~= a.drop_first() + b);
        if a[0] != x {
            if a.contains(x) {
                let k = choose|k: int| 0 <= k < a.len() && a[k] == x;
                assert(a.drop_first()[k - 1] == x);
            }
            if a.drop_first().contains(x) {
                let k = choose|k: int| 0 <= k < a.drop_first().len() && a.drop_first()[k] == x;
                assert(a[k + 1] == x);
            }
        }
    }
}

proof fn lemma_rename_concat(a: Seq<PaneId>, b: Seq<PaneId>, x: PaneId, y: PaneId)
    ensures
        rename_first(a + b, x, y) == if a.contains(x) {
            rename_first(a, x, y) + b
        } else {
            a + rename_first(b, x, y)
        },
{
    lemma_first_at_concat(a, b, x);
    lemma_first_at(a, x);
    lemma_first_at(b, x);
    if a.contains(x) {
        assert(rename_first(a + b, x, y) =~= rename_first(a, x, y) + b);
    } else {
        assert(rename_first(a + b, x, y) =~= a + rename_first(b, x, y));
    }
}

proof fn lemma_add_concat(a: Seq<PaneId>, b: Seq<PaneId>, target: PaneId, new: PaneId, after: bool)
    ensures
        add_beside(a + b, target, new, after) == if a.contains(target) {
            add_beside(a, target, new, after) + b
        } else {
            a + add_beside(b, target, new, after)
        },
{
    lemma_first_at_concat(a, b, target);
    lemma_first_at(a, target);
    lemma_first_at(b, target);
    if a.contains(target) {
        assert(add_beside(a + b, target, new, after) =~= add_beside(a, target, new, after) + b);
    } else {
        assert(add_beside(a + b, target, new, after) =~= a + add_beside(b, target, new, after));
    }
}

proof fn lemma_drop_concat(a: Seq<PaneId>, b: Seq<PaneId>, x: PaneId)
    ensures
        drop_first_of(a + b, x) == if a.contains(x) {
            drop_first_of(a, x) + b
        } else {
            a + drop_first_of(b, x)
        },
{
    lemma_first_at_concat(a, b, x);
    lemma_first_at(a, x);
    lemma_first_at(b, x);
    if a.contains(x) {
        assert(drop_first_of(a + b, x) =~= drop_first_of(a, x) + b);
    } else {
        assert(drop_first_of(a + b, x) =~= a + drop_first_of(b, x));
    }
}

proof fn lemma_children_panes_concat(a: Seq<(u32, Tree)>, b: Seq<(u32, Tree)>)
    ensures
        children_panes(a + b) == children_panes(a) + children_panes(b),
    decreases a.len(),
{
    if a.len() == 0 {
        assert(a + b =~= b);
        assert(children_panes(a) + children_panes(b) =~= children_panes(b));
    } else {
        lemma_children_panes_concat(a.drop_first(), b);
        assert((a + b).drop_first() =~= a.drop_first() + b);
        assert((a + b)[0] == a[0]);
        assert(children_panes(a + b) =~= children_panes(a) + children_panes(b));
    }
}

proof fn lemma_children_panes_single(c: (u32, Tree))
    ensures
        children_panes(seq![c]) == panes_of(c.1),
{
    assert(seq![c].drop_first() =~= Seq::<(u32, Tree)>::empty());
    assert(children_panes(Seq::<(u32, Tree)>::empty()) =~= Seq::<PaneId>::empty());
    assert(children_panes(seq![c]) == panes_of(seq![c][0].1) + children_panes(seq![c].drop_first()));
    assert(children_panes(seq![c]) =~= panes_of(c.1));
}

/// Children with the same trees, whatever their weights, have the same panes.
proof fn lemma_children_panes_trees(a: Seq<(u32, Tree)>, b: Seq<(u32, Tree)>)
    requires
        a.len() == b.len(),
        forall|i: int| 0 <= i < a.len() ==> (#[trigger] a[i]).1 == b[i].1,
    ensures
        children_panes(a) == children_panes(b),
    decreases a.len(),
{
    if a.len() > 0 {
        assert forall|i: int| 0 <= i < a.drop_first().len() implies (#[trigger] a.drop_first()[i]).1
            == b.drop_first()[i].1 by {
            assert(a.drop_first()[i] == a[i + 1]);
            assert(b.drop_first()[i] == b[i + 1]);
        }
        lemma_children_panes_trees(a.drop_first(), b.drop_first());
        assert(a[0].1 == b[0].1);
    }
}

proof fn lemma_merge_panes(cs: Seq<(u32, Tree)>, axis: crate::layout::Axis)
    ensures
        children_panes(merge_children(cs, axis)) == children_panes(cs),
    decreases cs.len(),
{
    if cs.len() > 0 {
        lemma_merge_panes(cs.drop_first(), axis);
        let c = cs[0];
        lemma_children_panes_concat(merged_child(c, axis), merge_children(cs.drop_first(), axis));
        assert(children_panes(merged_child(c, axis)) == panes_of(c.1)) by {
            match c.1 {
                Tree::Branch(inner, gs) => {
                    if gs.len() == 0 {
                    } else if inner == axis {
                        lemma_children_panes_trees(scale_children(gs, c.0), gs);
                    } else {
                        lemma_children_panes_single(c);
                    }
                },
                Tree::Leaf(_) => {
                    lemma_children_panes_single(c);
                },
            }
        }
    }
}

/// Normalizing a tree keeps its panes, in their order.
pub proof fn lemma_normalize_keeps_panes(t: Tree)
    ensures
        panes_of(normal_form(t)) == panes_of(t),
    decreases t, 0int,
{
    match t {
        Tree::Leaf(_) => {},
        Tree::Branch(axis, cs) => {
            lemma_normal_children_panes(cs);
            let merged = merge_children(normal_children(cs), axis);
            lemma_merge_panes(normal_children(cs), axis);
            if merged.len() == 1 {
                lemma_children_panes_single(merged[0]);
                assert(merged =~= seq![merged[0]]);
            }
        },
    }
}

proof fn lemma_normal_children_panes(cs: Seq<(u32, Tree)>)
    ensures
        children_panes(normal_children(cs)) == children_panes(cs),
    decreases cs, 1int,
{
    if cs.len() > 0 {
        assert(decreases_to!(cs => cs[0]));
        assert(decreases_to!(cs[0] => cs[0].1));
        lemma_normalize_keeps_panes(cs[0].1);
        lemma_normal_children_panes(cs.drop_first());
        let head = seq![(cs[0].0, normal_form(cs[0].1))];
        lemma_children_panes_concat(head, normal_children(cs.drop_first()));
        lemma_children_panes_single(head[0]);
    }
}


proof fn lemma_children_panes_cons(c: (u32, Tree), rest: Seq<(u32, Tree)>)
    ensures
        children_panes(seq![c] + rest) == panes_of(c.1) + children_panes(rest),
{
    lemma_children_panes_concat(seq![c], rest);
    lemma_children_panes_single(c);
}

pub proof fn lemma_children_panes_unfold(cs: Seq<(u32, Tree)>)
    requires
        cs.len() > 0,
    ensures
        children_panes(cs) == panes_of(cs[0].1) + children_panes(cs.drop_first()),
{
}

/// Renaming the first `from` in a tree renames the first `from` of its panes.
pub proof fn lemma_replace_panes(t: Tree, from: PaneId, to: PaneId)
    ensures
        panes_of(replace_tree(t, from, to)) == rename_first(panes_of(t), from, to),
    decreases t, 0int,
{
    match t {
        Tree::Leaf(p) => {
            lemma_first_at(seq![p], from);
            if p == from {
                assert(rename_first(seq![p], from, to) =~= seq![to]);
            } else {
                assert(!seq![p].contains(from)) by {
                    if seq![p].contains(from) {
                        let k = choose|k: int| 0 <= k < 1 && seq![p][k] == from;
                    }
                }
            }
        },
        Tree::Branch(_, cs) => {
            lemma_replace_children_panes(cs, from, to);
        },
    }
}

proof fn lemma_replace_children_panes(cs: Seq<(u32, Tree)>, from: PaneId, to: PaneId)
    ensures
        children_panes(replace_children(cs, from, to)) == rename_first(children_panes(cs), from, to),
    decreases cs, 1int,
{
    if cs.len() == 0 {
        lemma_first_at(children_panes(cs), from);
    } else {
        assert(decreases_to!(cs => cs[0]));
        assert(decreases_to!(cs[0] => cs[0].1));
        let rest = cs.drop_first();
        lemma_children_panes_unfold(cs);
        lemma_rename_concat(panes_of(cs[0].1), children_panes(rest), from, to);
        if panes_of(cs[0].1).contains(from) {
            lemma_replace_panes(cs[0].1, from, to);
            lemma_children_panes_cons((cs[0].0, replace_tree(cs[0].1, from, to)), rest);
        } else {
            lemma_replace_children_panes(rest, from, to);
            lemma_children_panes_cons(cs[0], replace_children(rest, from, to));
        }
    }
}

proof fn lemma_no_dup_concat(a: Seq<PaneId>, b: Seq<PaneId>)
    requires
        (a + b).no_duplicates(),
    ensures
        a.no_duplicates(),
        b.no_duplicates(),
        forall|x: PaneId| a.contains(x) ==> !b.contains(x),
{
    assert forall|i: int, j: int| 0 <= i < a.len() && 0 <= j < a.len() && i != j implies a[i] != a[j] by {
        assert((a + b)[i] == a[i] && (a + b)[j] == a[j]);
    }
    assert forall|i: int, j: int| 0 <= i < b.len() && 0 <= j < b.len() && i != j implies b[i] != b[j] by {
        assert((a + b)[a.len() + i] == b[i] && (a + b)[a.len() + j] == b[j]);
    }
    assert forall|x: PaneId| a.contains(x) implies !b.contains(x) by {
        if b.contains(x) {
            let i = choose|i: int| 0 <= i < a.len() && a[i] == x;
            let j = choose|j: int| 0 <= j < b.len() && b[j] == x;
            assert((a + b)[i] == (a + b)[a.len() + j]);
        }
    }
}

proof fn lemma_insert_children_panes(
    cs: Seq<(u32, Tree)>,
    target: PaneId,
    new: PaneId,
    axis: crate::layout::Axis,
    after: bool,
)
    requires
        children_panes(cs).no_duplicates(),
    ensures
        children_panes(insert_children(cs, target, new, axis, after)) == add_beside(
            children_panes(cs),
            target,
            new,
            after,
        ),
    decreases cs, 1int,
{
    if cs.len() == 0 {
        lemma_first_at(children_panes(cs), target);
    } else {
        assert(decreases_to!(cs => cs[0]));
        assert(decreases_to!(cs[0] => cs[0].1));
        let rest = cs.drop_first();
        lemma_children_panes_unfold(cs);
        lemma_no_dup_concat(panes_of(cs[0].1), children_panes(rest));
        lemma_add_concat(panes_of(cs[0].1), children_panes(rest), target, new, after);
        if panes_of(cs[0].1).contains(target) {
            lemma_insert_panes(cs[0].1, target, new, axis, after);
            lemma_children_panes_cons((cs[0].0, insert_tree(cs[0].1, target, new, axis, after)), rest);
        } else {
            lemma_insert_children_panes(rest, target, new, axis, after);
            lemma_children_panes_cons(cs[0], insert_children(rest, target, new, axis, after));
        }
    }
}

/// Adding a pane beside `target` in a tree whose panes are distinct adds it
/// beside `target` among its panes.
#[verifier::rlimit(40)]
#[verifier::spinoff_prover]
pub proof fn lemma_insert_panes(t: Tree, target: PaneId, new: PaneId, axis: crate::layout::Axis, after: bool)
    requires
        panes_of(t).no_duplicates(),
    ensures
        panes_of(insert_tree(t, target, new, axis, after)) == add_beside(panes_of(t), target, new, after),
    decreases t, 0int,
{
    match t {
        Tree::Leaf(p) => {
            lemma_first_at(seq![p], target);
            if p == target {
                let pair = if after {
                    seq![(crate::layout::WEIGHT, Tree::Leaf(target)), (crate::layout::WEIGHT, Tree::Leaf(new))]
                } else {
                    seq![(crate::layout::WEIGHT, Tree::Leaf(new)), (crate::layout::WEIGHT, Tree::Leaf(target))]
                };
                assert(pair =~= seq![pair[0]] + seq![pair[1]]);
                lemma_children_panes_cons(pair[0], seq![pair[1]]);
                lemma_children_panes_single(pair[1]);
                assert(add_beside(seq![p], target, new, after) =~= children_panes(pair));
            } else {
                assert(!seq![p].contains(target)) by {
                    if seq![p].contains(target) {
                        let k = choose|k: int| 0 <= k < 1 && seq![p][k] == target;
                    }
                }
            }
        },
        Tree::Branch(own, cs) => {
            let i = leaf_position(cs, target);
            lemma_leaf_position(cs, target);
            if i >= 0 && own == axis {
                let (kept, half) = crate::layout::halved(cs[i].0);
                let a = cs.take(i);
                let b = cs.skip(i + 1);
                assert(cs =~= a + seq![cs[i]] + b);
                lemma_children_panes_concat(a + seq![cs[i]], b);
                lemma_children_panes_concat(a, seq![cs[i]]);
                lemma_children_panes_single(cs[i]);
                let pa = children_panes(a);
                let pb = children_panes(b);
                assert(children_panes(cs) == pa + seq![target] + pb);
                lemma_no_dup_concat(pa + seq![target], pb);
                lemma_no_dup_concat(pa, seq![target]);
                assert(!pa.contains(target)) by {
                    assert(seq![target].contains(target)) by {
                        assert(seq![target][0] == target);
                    }
                }
                lemma_first_at_concat(pa, seq![target] + pb, target);
                assert(pa + seq![target] + pb =~= pa + (seq![target] + pb));
                lemma_first_at(seq![target] + pb, target);
                assert((seq![target] + pb)[0] == target);
                let kc = (kept, cs[i].1);
                let nc = (half, Tree::Leaf(new));
                let result = cs.update(i, kc).insert(if after { i + 1 } else { i }, nc);
                if after {
                    assert(result =~= a + seq![kc] + seq![nc] + b);
                    lemma_children_panes_concat(a + seq![kc] + seq![nc], b);
                    lemma_children_panes_concat(a + seq![kc], seq![nc]);
                    lemma_children_panes_concat(a, seq![kc]);
                    lemma_children_panes_single(kc);
                    lemma_children_panes_single(nc);
                    assert(children_panes(result) =~= add_beside(children_panes(cs), target, new, after));
                } else {
                    assert(result =~= a + seq![nc] + seq![kc] + b);
                    lemma_children_panes_concat(a + seq![nc] + seq![kc], b);
                    lemma_children_panes_concat(a + seq![nc], seq![kc]);
                    lemma_children_panes_concat(a, seq![nc]);
                    lemma_children_panes_single(kc);
                    lemma_children_panes_single(nc);
                    assert(children_panes(result) =~= add_beside(children_panes(cs), target, new, after));
                }
            } else {
                lemma_insert_children_panes(cs, target, new, axis, after);
            }
        },
    }
}


proof fn lemma_remove_children_panes(cs: Seq<(u32, Tree)>, pane: PaneId)
    requires
        children_panes(cs).no_duplicates(),
        forall|j: int| 0 <= j < cs.len() ==> cs[j].1 != Tree::Leaf(pane),
    ensures
        children_panes(remove_children(cs, pane)) == drop_first_of(children_panes(cs), pane),
    decreases cs, 1int,
{
    if cs.len() == 0 {
        lemma_first_at(children_panes(cs), pane);
    } else {
        assert(decreases_to!(cs => cs[0]));
        assert(decreases_to!(cs[0] => cs[0].1));
        let rest = cs.drop_first();
        lemma_children_panes_unfold(cs);
        lemma_no_dup_concat(panes_of(cs[0].1), children_panes(rest));
        lemma_drop_concat(panes_of(cs[0].1), children_panes(rest), pane);
        if cs[0].1 is Branch && panes_of(cs[0].1).contains(pane) {
            lemma_remove_panes(cs[0].1, pane);
            lemma_children_panes_cons((cs[0].0, remove_from_tree(cs[0].1, pane)), rest);
        } else {
            assert(!panes_of(cs[0].1).contains(pane)) by {
                if let Tree::Leaf(p) = cs[0].1 {
                    if panes_of(cs[0].1).contains(pane) {
                        let k = choose|k: int| 0 <= k < 1 && seq![p][k] == pane;
                    }
                }
            }
            assert forall|j: int| 0 <= j < rest.len() implies rest[j].1 != Tree::Leaf(pane) by {
                assert(rest[j] == cs[j + 1]);
            }
            lemma_remove_children_panes(rest, pane);
            lemma_children_panes_cons(cs[0], remove_children(rest, pane));
        }
    }
}

/// Taking a pane out below a split, in a tree whose panes are distinct,
/// takes it out of its panes.
pub proof fn lemma_remove_panes(t: Tree, pane: PaneId)
    requires
        panes_of(t).no_duplicates(),
        t != Tree::Leaf(pane),
    ensures
        panes_of(remove_from_tree(t, pane)) == drop_first_of(panes_of(t), pane),
    decreases t, 0int,
{
    match t {
        Tree::Leaf(p) => {
            lemma_first_at(seq![p], pane);
            assert(!seq![p].contains(pane)) by {
                if seq![p].contains(pane) {
                    let k = choose|k: int| 0 <= k < 1 && seq![p][k] == pane;
                }
            }
        },
        Tree::Branch(axis, cs) => {
            let i = leaf_position(cs, pane);
            lemma_leaf_position(cs, pane);
            if i >= 0 {
                let a = cs.take(i);
                let b = cs.skip(i + 1);
                assert(cs =~= a + seq![cs[i]] + b);
                assert(cs.remove(i) =~= a + b);
                lemma_children_panes_concat(a + seq![cs[i]], b);
                lemma_children_panes_concat(a, seq![cs[i]]);
                lemma_children_panes_concat(a, b);
                lemma_children_panes_single(cs[i]);
                let pa = children_panes(a);
                let pb = children_panes(b);
                assert(children_panes(cs) == pa + seq![pane] + pb);
                lemma_no_dup_concat(pa + seq![pane], pb);
                lemma_no_dup_concat(pa, seq![pane]);
                assert(!pa.contains(pane)) by {
                    assert(seq![pane][0] == pane);
                }
                lemma_first_at_concat(pa, seq![pane] + pb, pane);
                assert(pa + seq![pane] + pb =~= pa + (seq![pane] + pb));
                lemma_first_at(seq![pane] + pb, pane);
                assert((seq![pane] + pb)[0] == pane);
                assert(children_panes(cs.remove(i)) =~= drop_first_of(children_panes(cs), pane));
            } else {
                lemma_remove_children_panes(cs, pane);
            }
        },
    }
}

/// The panes of a layout that may be empty.
pub open spec fn root_panes(root: Option<Tree>) -> Seq<PaneId> {
    match root {
        Some(t) => panes_of(t),
        None => Seq::empty(),
    }
}

/// Splitting a pane adds the new pane right after it (or right before it)
/// among the layout's panes, in tree order, and leaves the others in their
/// order; an empty layout becomes the new pane alone.
pub proof fn lemma_split_adds_beside(
    root: Option<Tree>,
    target: PaneId,
    new: PaneId,
    axis: crate::layout::Axis,
    after: bool,
)
    requires
        root_panes(root).no_duplicates(),
    ensures
        root_panes(split_tree(root, target, new, axis, after)) == match root {
            None => seq![new],
            Some(t) => add_beside(panes_of(t), target, new, after),
        },
{
    if let Some(t) = root {
        lemma_insert_panes(t, target, new, axis, after);
        lemma_normalize_keeps_panes(insert_tree(t, target, new, axis, after));
    }
}

/// Removing a pane takes it out of the layout's panes and leaves the others
/// in their order.
pub proof fn lemma_remove_takes_out(root: Option<Tree>, pane: PaneId)
    requires
        root_panes(root).no_duplicates(),
    ensures
        root_panes(remove_tree(root, pane)) == drop_first_of(root_panes(root), pane),
{
    match root {
        None => {
            lemma_first_at(Seq::<PaneId>::empty(), pane);
        },
        Some(t) => {
            if t == Tree::Leaf(pane) {
                lemma_first_at(seq![pane], pane);
                assert(seq![pane][0] == pane);
                assert(seq![pane].remove(0) =~= Seq::<PaneId>::empty());
            } else {
                lemma_remove_panes(t, pane);
                lemma_normalize_keeps_panes(remove_from_tree(t, pane));
            }
        },
    }
}

proof fn lemma_first_at_is(ps: Seq<PaneId>, x: PaneId, k: int)
    requires
        0 <= k < ps.len(),
        ps[k] == x,
        forall|j: int| 0 <= j < k ==> ps[j] != x,
    ensures
        first_at(ps, x) == k,
{
    lemma_first_at(ps, x);
    assert(ps.contains(x));
}

/// Swapping two distinct panes of a tree whose panes are distinct exchanges
/// their places and leaves every other pane where it was.
pub proof fn lemma_swap_exchanges(t: Tree, a: PaneId, b: PaneId)
    requires
        panes_of(t).no_duplicates(),
        panes_of(t).contains(a),
        panes_of(t).contains(b),
        a != b,
        !panes_of(t).contains(hole()),
    ensures
        panes_of(swap_tree(t, a, b)).len() == panes_of(t).len(),
        forall|i: int|
            0 <= i < panes_of(t).len() ==> #[trigger] panes_of(swap_tree(t, a, b))[i] == if panes_of(t)[i]
                == a {
                b
            } else if panes_of(t)[i] == b {
                a
            } else {
                panes_of(t)[i]
            },
{
    let ps = panes_of(t);
    let h = hole();
    lemma_first_at(ps, a);
    lemma_first_at(ps, b);
    let ia = first_at(ps, a);
    let ib = first_at(ps, b);
    let t1 = replace_tree(t, a, h);
    lemma_replace_panes(t, a, h);
    let s1 = ps.update(ia, h);
    assert(panes_of(t1) == s1);
    assert forall|j: int| 0 <= j < ib implies s1[j] != b by {
        if j != ia {
            assert(s1[j] == ps[j]);
        } else {
            assert(s1[j] == h);
            assert(h != b) by {
                if h == b {
                    assert(ps[ib] == h);
                }
            }
        }
    }
    assert(s1[ib] == b) by {
        assert(ib != ia);
    }
    lemma_first_at_is(s1, b, ib);
    let t2 = replace_tree(t1, b, a);
    lemma_replace_panes(t1, b, a);
    let s2 = s1.update(ib, a);
    assert(panes_of(t2) == s2);
    assert forall|j: int| 0 <= j < ia implies s2[j] != h by {
        if j == ib {
            assert(s2[j] == a);
            assert(a != h) by {
                if a == h {
                    assert(ps[ia] == h);
                }
            }
        } else {
            assert(s2[j] == ps[j]);
            assert(ps[j] != h) by {
                if ps[j] == h {
                    assert(ps.contains(h));
                }
            }
        }
    }
    lemma_first_at_is(s2, h, ia);
    lemma_replace_panes(t2, h, b);
    let s3 = s2.update(ia, b);
    assert(panes_of(swap_tree(t, a, b)) == s3);
    assert forall|i: int| 0 <= i < ps.len() implies #[trigger] s3[i] == if ps[i] == a {
        b
    } else if ps[i] == b {
        a
    } else {
        ps[i]
    } by {
        if ps[i] == a {
            assert(i == ia) by {
                if i != ia {
                    assert(ps[i] == ps[ia]);
                }
            }
        } else if ps[i] == b {
            assert(i == ib) by {
                if i != ib {
                    assert(ps[i] == ps[ib]);
                }
            }
        }
    }
}


/// A tree in the shape `normalize` leaves: every split has at least two
/// children, and none of them splits along the same axis as its parent.
pub open spec fn tree_wf(t: Tree) -> bool
    decreases t, 0int,
{
    match t {
        Tree::Leaf(_) => true,
        Tree::Branch(axis, cs) => cs.len() >= 2 && children_wf(cs, axis),
    }
}

pub open spec fn children_wf(cs: Seq<(u32, Tree)>, axis: crate::layout::Axis) -> bool
    decreases cs, 1int,
{
    if cs.len() == 0 {
        true
    } else {
        child_fits(cs[0].1, axis) && tree_wf(cs[0].1) && children_wf(cs.drop_first(), axis)
    }
}

/// A child that does not split along its parent's axis.
pub open spec fn child_fits(t: Tree, axis: crate::layout::Axis) -> bool {
    match t {
        Tree::Leaf(_) => true,
        Tree::Branch(inner, _) => inner != axis,
    }
}

/// A split with no children.
pub open spec fn empty_split(t: Tree) -> bool {
    match t {
        Tree::Leaf(_) => false,
        Tree::Branch(_, cs) => cs.len() == 0,
    }
}

proof fn lemma_children_wf_all(cs: Seq<(u32, Tree)>, axis: crate::layout::Axis)
    ensures
        children_wf(cs, axis) <==> forall|i: int|
            0 <= i < cs.len() ==> child_fits(#[trigger] cs[i].1, axis) && tree_wf(cs[i].1),
    decreases cs.len(),
{
    if cs.len() > 0 {
        lemma_children_wf_all(cs.drop_first(), axis);
        assert forall|i: int| 1 <= i < cs.len() implies cs[i] == cs.drop_first()[i - 1] by {}
        if forall|i: int| 0 <= i < cs.len() ==> child_fits(#[trigger] cs[i].1, axis) && tree_wf(cs[i].1) {
            assert forall|i: int| 0 <= i < cs.drop_first().len() implies child_fits(
                #[trigger] cs.drop_first()[i].1,
                axis,
            ) && tree_wf(cs.drop_first()[i].1) by {
                assert(cs.drop_first()[i] == cs[i + 1]);
            }
        }
    }
}

proof fn lemma_normal_children_shape(cs: Seq<(u32, Tree)>)
    ensures
        normal_children(cs).len() == cs.len(),
        forall|i: int| 0 <= i < cs.len() ==> #[trigger] normal_children(cs)[i] == (cs[i].0, normal_form(cs[i].1)),
    decreases cs.len(),
{
    if cs.len() > 0 {
        lemma_normal_children_shape(cs.drop_first());
        assert forall|i: int| 0 <= i < cs.len() implies #[trigger] normal_children(cs)[i] == (
            cs[i].0,
            normal_form(cs[i].1),
        ) by {
            if i > 0 {
                assert(cs.drop_first()[i - 1] == cs[i]);
            }
        }
    }
}

proof fn lemma_merge_wf(ns: Seq<(u32, Tree)>, axis: crate::layout::Axis)
    requires
        forall|i: int| 0 <= i < ns.len() ==> empty_split(#[trigger] ns[i].1) || tree_wf(ns[i].1),
    ensures
        children_wf(merge_children(ns, axis), axis),
    decreases ns.len(),
{
    if ns.len() > 0 {
        assert forall|i: int| 0 <= i < ns.drop_first().len() implies empty_split(
            #[trigger] ns.drop_first()[i].1,
        ) || tree_wf(ns.drop_first()[i].1) by {
            assert(ns.drop_first()[i] == ns[i + 1]);
        }
        lemma_merge_wf(ns.drop_first(), axis);
        let c = ns[0];
        let head = merged_child(c, axis);
        let tail = merge_children(ns.drop_first(), axis);
        lemma_children_wf_all(tail, axis);
        lemma_children_wf_all(head + tail, axis);
        assert(children_wf(head, axis)) by {
            lemma_children_wf_all(head, axis);
            match c.1 {
                Tree::Branch(inner, gs) => {
                    if gs.len() == 0 {
                    } else if inner == axis {
                        assert(tree_wf(c.1));
                        lemma_children_wf_all(gs, inner);
                        assert forall|i: int| 0 <= i < head.len() implies child_fits(#[trigger] head[i].1, axis)
                            && tree_wf(head[i].1) by {
                            assert(head[i].1 == gs[i].1);
                        }
                    } else {
                        assert(tree_wf(c.1));
                        assert(head[0] == c);
                    }
                },
                Tree::Leaf(_) => {
                    assert(head[0] == c);
                },
            }
        }
        lemma_children_wf_all(head, axis);
        assert forall|i: int| 0 <= i < (head + tail).len() implies child_fits(#[trigger] (head + tail)[i].1, axis)
            && tree_wf((head + tail)[i].1) by {
            if i < head.len() {
                assert((head + tail)[i] == head[i]);
            } else {
                assert((head + tail)[i] == tail[i - head.len()]);
            }
        }
    }
}

proof fn lemma_wf_has_panes(t: Tree)
    requires
        tree_wf(t),
    ensures
        panes_of(t).len() > 0,
    decreases t, 0int,
{
    match t {
        Tree::Leaf(_) => {},
        Tree::Branch(axis, cs) => {
            assert(decreases_to!(t => cs));
            assert(decreases_to!(cs => cs[0]));
            assert(decreases_to!(cs[0] => cs[0].1));
            lemma_wf_has_panes(cs[0].1);
            lemma_children_panes_unfold(cs);
        },
    }
}

/// What normalizing gives: a tree in normal shape if it has a pane, else an
/// empty split.
proof fn lemma_normal_shape(t: Tree)
    ensures
        panes_of(t).len() == 0 ==> empty_split(normal_form(t)),
        panes_of(t).len() > 0 ==> tree_wf(normal_form(t)),
    decreases t, 0int,
{
    match t {
        Tree::Leaf(_) => {},
        Tree::Branch(axis, cs) => {
            lemma_normal_children_shape(cs);
            lemma_normal_children_wf(cs);
            let ns = normal_children(cs);
            let merged = merge_children(ns, axis);
            lemma_merge_wf(ns, axis);
            lemma_merge_panes(ns, axis);
            lemma_normal_children_panes(cs);
            lemma_children_wf_all(merged, axis);
            if merged.len() >= 1 {
                lemma_wf_has_panes(merged[0].1);
                lemma_children_panes_unfold(merged);
            }
            if merged.len() == 1 {
                lemma_children_panes_single(merged[0]);
                assert(merged =~= seq![merged[0]]);
            }
        },
    }
}

proof fn lemma_normal_children_wf(cs: Seq<(u32, Tree)>)
    ensures
        forall|i: int|
            0 <= i < cs.len() ==> empty_split(normal_form(#[trigger] cs[i].1)) || tree_wf(normal_form(cs[i].1)),
    decreases cs, 1int,
{
    if cs.len() > 0 {
        assert(decreases_to!(cs => cs[0]));
        assert(decreases_to!(cs[0] => cs[0].1));
        lemma_normal_shape(cs[0].1);
        lemma_normal_children_wf(cs.drop_first());
        assert forall|i: int| 0 <= i < cs.len() implies empty_split(normal_form(#[trigger] cs[i].1))
            || tree_wf(normal_form(cs[i].1)) by {
            if i > 0 {
                assert(cs.drop_first()[i - 1] == cs[i]);
            }
        }
    }
}

/// A normalized tree that has a pane has every split with at least two
/// children, none splitting along its parent's axis.
pub proof fn lemma_normalize_shapes(t: Tree)
    requires
        panes_of(t).len() > 0,
    ensures
        tree_wf(normal_form(t)),
{
    lemma_normal_shape(t);
}


proof fn lemma_children_panes_update(cs: Seq<(u32, Tree)>, i: int, c: (u32, Tree))
    requires
        0 <= i < cs.len(),
        panes_of(c.1) == panes_of(cs[i].1),
    ensures
        children_panes(cs.update(i, c)) == children_panes(cs),
{
    let a = cs.take(i);
    let b = cs.skip(i + 1);
    assert(cs =~= a + seq![cs[i]] + b);
    assert(cs.update(i, c) =~= a + seq![c] + b);
    lemma_children_panes_concat(a + seq![cs[i]], b);
    lemma_children_panes_concat(a, seq![cs[i]]);
    lemma_children_panes_concat(a + seq![c], b);
    lemma_children_panes_concat(a, seq![c]);
    lemma_children_panes_single(cs[i]);
    lemma_children_panes_single(c);
}

/// Resizing moves borders only: the panes stay, in their order.
pub proof fn lemma_resize_keeps_panes(t: Tree, area: Rect, pane: PaneId, direction: Direction, amount: u16)
    ensures
        panes_of(resize_tree(t, area, pane, direction, amount).0) == panes_of(t),
    decreases t,
{
    match t {
        Tree::Leaf(_) => {},
        Tree::Branch(axis, cs) => {
            let index = holder(cs, pane);
            lemma_holder(cs, pane);
            if 0 <= index < cs.len() {
                let placed = crate::layout::placement_of(t, area).0;
                let rects = Seq::new(cs.len(), |i: int| crate::layout::child_rect(axis, cs[i].1, area, placed));
                assert(decreases_to!(t => cs));
                assert(decreases_to!(cs => cs[index]));
                assert(decreases_to!(cs[index] => cs[index].1));
                lemma_resize_keeps_panes(cs[index].1, rects[index], pane, direction, amount);
                let inner = resize_tree(cs[index].1, rects[index], pane, direction, amount);
                if inner.1 {
                    lemma_children_panes_update(cs, index, (cs[index].0, inner.0));
                } else if axis == crate::layout::axis_of(direction) {
                    let moved = border_moved(axis, cs, rects, index, direction, amount).0;
                    if let Tree::Branch(_, ns) = moved {
                        if ns.len() == cs.len() {
                            if forall|i: int| 0 <= i < ns.len() ==> (#[trigger] ns[i]).1 == cs[i].1 {
                                lemma_children_panes_trees(ns, cs);
                            }
                        }
                    }
                }
            }
        },
    }
}


/// A tree already in normal shape (every split with two children or more,
/// none along its parent's axis) is its own normal form.
pub proof fn lemma_normal_tree_is_fixed(t: Tree)
    requires
        tree_wf(t),
    ensures
        normal_form(t) == t,
    decreases t, 0int,
{
    if let Tree::Branch(axis, cs) = t {
        lemma_normal_children_fixed(cs, axis);
    }
}

proof fn lemma_normal_children_fixed(cs: Seq<(u32, Tree)>, axis: Axis)
    requires
        children_wf(cs, axis),
    ensures
        normal_children(cs) == cs,
        merge_children(cs, axis) == cs,
    decreases cs, 1int,
{
    if cs.len() > 0 {
        assert(decreases_to!(cs => cs[0]));
        assert(decreases_to!(cs[0] => cs[0].1));
        lemma_normal_tree_is_fixed(cs[0].1);
        lemma_normal_children_fixed(cs.drop_first(), axis);
        assert(child_fits(cs[0].1, axis) && tree_wf(cs[0].1));
        match cs[0].1 {
            Tree::Branch(inner, gs) => {
                assert(gs.len() >= 2);
                assert(inner != axis);
            },
            Tree::Leaf(_) => {},
        }
        assert(merged_child(cs[0], axis) == seq![cs[0]]);
        assert(seq![(cs[0].0, normal_form(cs[0].1))] + normal_children(cs.drop_first()) =~= cs);
        assert(seq![cs[0]] + merge_children(cs.drop_first(), axis) =~= cs);
    }
}

/// Normalizing twice is normalizing once, for a tree that holds a pane.
pub proof fn lemma_normalize_twice(t: Tree)
    requires
        panes_of(t).len() > 0,
    ensures
        normal_form(normal_form(t)) == normal_form(t),
{
    lemma_normalize_shapes(t);
    lemma_normal_tree_is_fixed(normal_form(t));
}

/// Splitting beside a pane that is not in a normalized tree, or removing
/// one that is not there, leaves the tree as it was.
pub proof fn lemma_absent_pane_changes_nothing(
    t: Tree,
    target: PaneId,
    new: PaneId,
    axis: Axis,
    after: bool,
    pane: PaneId,
)
    requires
        tree_wf(t),
        !panes_of(t).contains(target),
        !panes_of(t).contains(pane),
    ensures
        split_tree(Some(t), target, new, axis, after) == Some(t),
        remove_tree(Some(t), pane) == Some(t),
{
    lemma_insert_absent(t, target, new, axis, after);
    lemma_remove_absent(t, pane);
    lemma_normal_tree_is_fixed(t);
    if t == Tree::Leaf(pane) {
        assert(panes_of(t)[0] == pane);
    }
}

}
